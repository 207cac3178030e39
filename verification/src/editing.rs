//! Keyboard editing of the text buffers behind the numeric, text and
//! two-component editors.
//!
//! Buffers are `String`s and cursors are byte offsets into their UTF-8
//! encoding, as `String::insert` and `String::remove` take them. The
//! contracts speak of that encoding.

use crate::gui::{EditingField, EventResponse, Key, NumberWidgetData, StringWidgetData, Vec2WidgetData};
use vstd::prelude::*;
use vstd::utf8::{encode_utf8, is_char_boundary, is_char_boundary_start_end_of_seq};

verus! {

broadcast use vstd::utf8::encode_utf8_valid_utf8;

/// The UTF-8 encoding of a text.
pub open spec fn utf8(s: Seq<char>) -> Seq<u8> {
    encode_utf8(s)
}

/// `b` with `ins` inserted at byte offset `at`.
pub open spec fn bytes_inserted(b: Seq<u8>, at: int, ins: Seq<u8>) -> Seq<u8> {
    b.subrange(0, at) + ins + b.subrange(at, b.len() as int)
}

/// `b` without the bytes `[start, end)`.
pub open spec fn bytes_removed(b: Seq<u8>, start: int, end: int) -> Seq<u8> {
    b.subrange(0, start) + b.subrange(end, b.len() as int)
}

/// `r` is the last char boundary of `b` at or before `i` (the length of
/// `b` when `i` is past it).
pub open spec fn is_floor_boundary(b: Seq<u8>, i: int, r: int) -> bool {
    if i >= b.len() {
        r == b.len()
    } else {
        &&& 0 <= r <= i
        &&& is_char_boundary(b, r)
        &&& forall|x: int| r < x <= i ==> !is_char_boundary(b, x)
    }
}

/// `r` is the first char boundary of `b` at or after `i` (the length of
/// `b` when `i` is past it).
pub open spec fn is_ceil_boundary(b: Seq<u8>, i: int, r: int) -> bool {
    if i > b.len() {
        r == b.len()
    } else {
        &&& i <= r <= b.len()
        &&& is_char_boundary(b, r)
        &&& forall|x: int| i <= x < r ==> !is_char_boundary(b, x)
    }
}

/// Whether `c` is a control character (Unicode general category Cc).
pub open spec fn is_control_spec(c: char) -> bool {
    (c as u32) <= 0x1f || (0x7f <= (c as u32) && (c as u32) <= 0x9f)
}

/// Whether `c` is a control character (Unicode general category Cc:
/// U+0000–U+001F and U+007F–U+009F).
pub fn is_control(c: char) -> (r: bool)
    ensures
        r == is_control_spec(c),
{
    let v = c as u32;
    v <= 0x1f || (0x7f <= v && v <= 0x9f)
}

/// The number of bytes of the UTF-8 encoding of `c`.
pub fn utf8_width(c: char) -> (r: usize)
    ensures
        r == utf8(seq![c]).len(),
        1 <= r <= 4,
{
    proof {
        vstd::utf8::char_is_scalar(c);
        assert(seq![c].drop_first() =~= Seq::<char>::empty());
        assert(utf8(seq![c]) == vstd::utf8::encode_scalar(c as u32) + encode_utf8(Seq::<char>::empty()));
    }
    let v = c as u32;
    if v <= 0x7f {
        1
    } else if v <= 0x7ff {
        2
    } else if v <= 0xffff {
        3
    } else {
        4
    }
}

/// Calls `String::insert`. Its contract claims what the standard library
/// documents: `idx` must be a char boundary of `s`, and afterwards the UTF-8
/// encoding of `s` is the old encoding with the encoding of `ch` spliced in
/// at `idx`.
#[verifier::external_body]
fn string_insert(s: &mut String, idx: usize, ch: char)
    requires
        is_char_boundary(utf8(old(s)@), idx as int),
    ensures
        utf8(final(s)@) == bytes_inserted(utf8(old(s)@), idx as int, utf8(seq![ch])),
{
    s.insert(idx, ch)
}

/// Calls `String::remove`. Its contract claims what the standard library
/// documents: `idx` must be a char boundary strictly inside `s`; the char
/// whose encoding starts there is returned, and its bytes are cut out of
/// the encoding of `s`.
#[verifier::external_body]
fn string_remove(s: &mut String, idx: usize) -> (c: char)
    requires
        idx < utf8(old(s)@).len(),
        is_char_boundary(utf8(old(s)@), idx as int),
    ensures
        idx + utf8(seq![c]).len() <= utf8(old(s)@).len(),
        utf8(old(s)@).subrange(idx as int, idx + utf8(seq![c]).len()) == utf8(seq![c]),
        utf8(final(s)@) == bytes_removed(utf8(old(s)@), idx as int, idx + utf8(seq![c]).len()),
{
    s.remove(idx)
}

/// The last char boundary of `s` at or before byte offset `idx`, or the
/// length of `s` when `idx` is at or past the end.
fn floor_char_boundary(s: &str, idx: usize) -> (r: usize)
    ensures
        is_floor_boundary(utf8(s@), idx as int, r as int),
{
    let len = s.as_bytes().len();
    if idx >= len {
        return len;
    }
    let mut j = idx;
    while !s.is_char_boundary(j)
        invariant
            0 <= j <= idx < len,
            len == utf8(s@).len(),
            forall|x: int| j < x <= idx ==> !is_char_boundary(utf8(s@), x),
        decreases j,
    {
        proof {
            is_char_boundary_start_end_of_seq(utf8(s@));
        }
        j = j - 1;
    }
    j
}

/// The first char boundary of `s` at or after byte offset `idx`, or the
/// length of `s` when `idx` is past the end.
fn ceil_char_boundary(s: &str, idx: usize) -> (r: usize)
    ensures
        is_ceil_boundary(utf8(s@), idx as int, r as int),
{
    let len = s.as_bytes().len();
    if idx > len {
        return len;
    }
    let mut j = idx;
    while !s.is_char_boundary(j)
        invariant
            idx <= j <= len,
            len == utf8(s@).len(),
            forall|x: int| idx <= x < j ==> !is_char_boundary(utf8(s@), x),
        decreases len - j,
    {
        proof {
            is_char_boundary_start_end_of_seq(utf8(s@));
        }
        j = j + 1;
    }
    j
}

/// The byte length of `s`.
fn byte_len(s: &String) -> (r: usize)
    ensures
        r == utf8(s@).len(),
{
    s.as_str().as_bytes().len()
}

/// `after` is `before` without the char whose encoding starts at byte
/// offset `idx`.
pub open spec fn char_removed(before: Seq<u8>, idx: int, after: Seq<u8>) -> bool {
    exists|c: char|
        before.subrange(idx, idx + utf8(seq![c]).len()) == utf8(seq![c]) && after == bytes_removed(
            before,
            idx,
            idx + utf8(seq![c]).len(),
        )
}

/// The cursor one byte left of `cursor`, stopping at the start.
pub open spec fn step_left(cursor: int) -> int {
    if cursor > 0 {
        cursor - 1
    } else {
        0
    }
}

/// The cursor one byte right of `cursor`, stopping at `len`.
pub open spec fn step_right(cursor: int, len: int) -> int {
    if cursor + 1 < len {
        cursor + 1
    } else {
        len
    }
}

/// What an editor did with a key press.
#[derive(Clone, Copy, Debug, PartialEq, Eq, Structural)]
pub enum EditOutcome {
    /// The key was not for this editor.
    Ignored,
    /// The key was handled.
    Consumed,
    /// Enter was pressed: the buffer is to be committed (the key is
    /// consumed).
    Commit,
}

/// The outcome of a key that a numeric editor handles while editing.
pub open spec fn numeric_key_outcome(key: Key) -> EditOutcome {
    match key {
        Key::Backspace | Key::ArrowLeft | Key::ArrowRight | Key::Escape => EditOutcome::Consumed,
        Key::Enter => EditOutcome::Commit,
        _ => EditOutcome::Ignored,
    }
}

/// Inserts `ch` at byte offset `cursor` of `buffer`; returns the new
/// buffer length.
fn insert_at(buffer: &mut String, cursor: usize, ch: char) -> (len: usize)
    requires
        is_char_boundary(utf8(old(buffer)@), cursor as int),
    ensures
        utf8(final(buffer)@) == bytes_inserted(utf8(old(buffer)@), cursor as int, utf8(seq![ch])),
        len == utf8(final(buffer)@).len(),
        cursor + utf8(seq![ch]).len() <= len,
{
    proof {
        vstd::utf8::is_char_boundary_start_end_of_seq(utf8(old(buffer)@));
        assert(cursor <= utf8(old(buffer)@).len()) by {
            if cursor > utf8(old(buffer)@).len() {
                assert(!is_char_boundary(utf8(old(buffer)@), cursor as int));
            }
        }
    }
    string_insert(buffer, cursor, ch);
    byte_len(buffer)
}

impl EditingField {
    /// Inserts `ch` at the cursor and moves the cursor one byte right.
    pub fn insert_char(&mut self, ch: char)
        requires
            is_char_boundary(utf8(old(self).buffer@), old(self).cursor as int),
        ensures
            utf8(final(self).buffer@) == bytes_inserted(
                utf8(old(self).buffer@),
                old(self).cursor as int,
                utf8(seq![ch]),
            ),
            final(self).cursor == old(self).cursor + 1,
            final(self).editing == old(self).editing,
    {
        insert_at(&mut self.buffer, self.cursor, ch);
        self.cursor = self.cursor + 1;
    }

    /// Deletes the char before the cursor (the one whose encoding starts
    /// one byte before it) and moves the cursor one byte left.
    pub fn backspace(&mut self)
        requires
            old(self).cursor > 0 ==> old(self).cursor - 1 < utf8(old(self).buffer@).len() && is_char_boundary(
                utf8(old(self).buffer@),
                old(self).cursor - 1,
            ),
        ensures
            old(self).cursor == 0 ==> final(self).buffer@ == old(self).buffer@ && final(self).cursor == 0,
            old(self).cursor > 0 ==> char_removed(
                utf8(old(self).buffer@),
                old(self).cursor - 1,
                utf8(final(self).buffer@),
            ) && final(self).cursor == old(self).cursor - 1,
            final(self).editing == old(self).editing,
    {
        if self.cursor > 0 {
            string_remove(&mut self.buffer, self.cursor - 1);
            self.cursor = self.cursor - 1;
        }
    }

    /// Moves the cursor one byte left, stopping at the start.
    pub fn cursor_left(&mut self)
        ensures
            final(self).buffer@ == old(self).buffer@,
            final(self).cursor == step_left(old(self).cursor as int),
            final(self).editing == old(self).editing,
    {
        if self.cursor > 0 {
            self.cursor = self.cursor - 1;
        }
    }

    /// Moves the cursor one byte right, stopping at the end of the buffer.
    pub fn cursor_right(&mut self)
        requires
            old(self).cursor < usize::MAX,
        ensures
            final(self).buffer@ == old(self).buffer@,
            final(self).cursor == step_right(old(self).cursor as int, utf8(old(self).buffer@).len() as int),
            final(self).editing == old(self).editing,
    {
        let len = byte_len(&self.buffer);
        let next = self.cursor + 1;
        self.cursor = if next < len {
            next
        } else {
            len
        };
    }

    /// Stops editing, keeping the buffer.
    pub fn cancel(&mut self)
        ensures
            final(self).buffer@ == old(self).buffer@,
            final(self).cursor == old(self).cursor,
            !final(self).editing,
    {
        self.editing = false;
    }

    /// Starts editing `text`, with the cursor at its end.
    pub fn begin(&mut self, text: String)
        ensures
            final(self).buffer@ == text@,
            final(self).cursor == utf8(text@).len(),
            final(self).editing,
    {
        self.buffer = text;
        self.cursor = byte_len(&self.buffer);
        self.editing = true;
    }
}

impl Vec2WidgetData {
    /// Types `ch` into the component being edited (x when both are);
    /// control characters are swallowed. Consumed exactly when a component
    /// is being edited.
    pub fn on_char(&mut self, ch: char) -> (r: EventResponse)
        requires
            old(self).x.editing ==> is_char_boundary(utf8(old(self).x.buffer@), old(self).x.cursor as int),
            !old(self).x.editing && old(self).y.editing ==> is_char_boundary(
                utf8(old(self).y.buffer@),
                old(self).y.cursor as int,
            ),
        ensures
            r == if old(self).x.editing || old(self).y.editing {
                EventResponse::Consumed
            } else {
                EventResponse::Ignored
            },
            final(self).x.editing == old(self).x.editing,
            final(self).y.editing == old(self).y.editing,
            (is_control_spec(ch) || !old(self).x.editing) ==> final(self).x.buffer@ == old(self).x.buffer@
                && final(self).x.cursor == old(self).x.cursor,
            (is_control_spec(ch) || old(self).x.editing || !old(self).y.editing) ==> final(self).y.buffer@
                == old(self).y.buffer@ && final(self).y.cursor == old(self).y.cursor,
            !is_control_spec(ch) && old(self).x.editing ==> utf8(final(self).x.buffer@) == bytes_inserted(
                utf8(old(self).x.buffer@),
                old(self).x.cursor as int,
                utf8(seq![ch]),
            ) && final(self).x.cursor == old(self).x.cursor + 1,
            !is_control_spec(ch) && !old(self).x.editing && old(self).y.editing ==> utf8(final(self).y.buffer@)
                == bytes_inserted(utf8(old(self).y.buffer@), old(self).y.cursor as int, utf8(seq![ch]))
                && final(self).y.cursor == old(self).y.cursor + 1,
    {
        if !(self.x.editing || self.y.editing) {
            return EventResponse::Ignored;
        }
        if !is_control(ch) {
            if self.x.editing {
                self.x.insert_char(ch);
            } else {
                self.y.insert_char(ch);
            }
        }
        EventResponse::Consumed
    }

    /// Handles a key press for the component being edited (x when both
    /// are): Backspace, the arrows and Escape edit or cancel, Enter asks
    /// for a commit. Nothing happens when no component is being edited.
    pub fn on_key(&mut self, key: Key) -> (r: EditOutcome)
        requires
            old(self).x.editing ==> old(self).x.cursor < usize::MAX && (old(self).x.cursor > 0 ==> old(
                self,
            ).x.cursor - 1 < utf8(old(self).x.buffer@).len() && is_char_boundary(
                utf8(old(self).x.buffer@),
                old(self).x.cursor - 1,
            )),
            !old(self).x.editing && old(self).y.editing ==> old(self).y.cursor < usize::MAX && (old(
                self,
            ).y.cursor > 0 ==> old(self).y.cursor - 1 < utf8(old(self).y.buffer@).len() && is_char_boundary(
                utf8(old(self).y.buffer@),
                old(self).y.cursor - 1,
            )),
        ensures
            r == if old(self).x.editing || old(self).y.editing {
                numeric_key_outcome(key)
            } else {
                EditOutcome::Ignored
            },
            (old(self).x.editing || old(self).y.editing) && key == Key::Escape ==> !final(self).x.editing
                && !final(self).y.editing,
            !((old(self).x.editing || old(self).y.editing) && key == Key::Escape) ==> final(self).x.editing
                == old(self).x.editing && final(self).y.editing == old(self).y.editing,
            (old(self).x.editing || old(self).y.editing) && key == Key::ArrowLeft && old(self).x.editing
                ==> final(self).x.cursor == step_left(old(self).x.cursor as int),
            (old(self).x.editing || old(self).y.editing) && key == Key::Backspace && old(self).x.editing && old(
                self,
            ).x.cursor > 0 ==> char_removed(
                utf8(old(self).x.buffer@),
                old(self).x.cursor - 1,
                utf8(final(self).x.buffer@),
            ),
            (old(self).x.editing || old(self).y.editing) && key == Key::ArrowRight && old(self).x.editing
                ==> final(self).x.cursor == step_right(old(self).x.cursor as int, utf8(old(self).x.buffer@).len() as int),
            !(key == Key::Backspace && old(self).x.editing) ==> final(self).x.buffer@ == old(self).x.buffer@,
            !(key == Key::Backspace && !old(self).x.editing && old(self).y.editing) ==> final(self).y.buffer@
                == old(self).y.buffer@,
            !((key == Key::Backspace || key == Key::ArrowLeft || key == Key::ArrowRight) && old(self).x.editing)
                ==> final(self).x.cursor == old(self).x.cursor,
            !((key == Key::Backspace || key == Key::ArrowLeft || key == Key::ArrowRight) && !old(self).x.editing
                && old(self).y.editing) ==> final(self).y.cursor == old(self).y.cursor,
            !old(self).x.editing && old(self).y.editing && key == Key::ArrowLeft ==> final(self).y.cursor == step_left(old(self).y.cursor as int),
            !old(self).x.editing && old(self).y.editing && key == Key::Backspace && old(self).y.cursor > 0
                ==> char_removed(
                utf8(old(self).y.buffer@),
                old(self).y.cursor - 1,
                utf8(final(self).y.buffer@),
            ),
            !old(self).x.editing && old(self).y.editing && key == Key::ArrowRight ==> final(self).y.cursor
                == step_right(old(self).y.cursor as int, utf8(old(self).y.buffer@).len() as int),
    {
        if !(self.x.editing || self.y.editing) {
            return EditOutcome::Ignored;
        }
        match key {
            Key::Backspace => {
                if self.x.editing {
                    self.x.backspace();
                } else {
                    self.y.backspace();
                }
                EditOutcome::Consumed
            },
            Key::ArrowLeft => {
                if self.x.editing {
                    self.x.cursor_left();
                } else {
                    self.y.cursor_left();
                }
                EditOutcome::Consumed
            },
            Key::ArrowRight => {
                if self.x.editing {
                    self.x.cursor_right();
                } else {
                    self.y.cursor_right();
                }
                EditOutcome::Consumed
            },
            Key::Enter => EditOutcome::Commit,
            Key::Escape => {
                self.x.cancel();
                self.y.cancel();
                EditOutcome::Consumed
            },
            _ => EditOutcome::Ignored,
        }
    }
}

/// `cursor` sits on a char boundary of `buffer`'s encoding.
pub open spec fn on_boundary(buffer: Seq<char>, cursor: int) -> bool {
    is_char_boundary(utf8(buffer), cursor)
}

/// The outcome of a key that the text editor handles while editing.
pub open spec fn text_key_outcome(key: Key) -> EditOutcome {
    numeric_key_outcome(key)
}

/// Inserting at a char boundary keeps the position after the insertion on
/// a boundary.
proof fn lemma_boundary_after_insert(b: Seq<u8>, c: int, e: Seq<u8>, nb: Seq<u8>)
    requires
        vstd::utf8::valid_utf8(b),
        vstd::utf8::valid_utf8(nb),
        is_char_boundary(b, c),
        0 <= c <= b.len(),
        nb == bytes_inserted(b, c, e),
    ensures
        is_char_boundary(nb, c + e.len()),
{
    vstd::utf8::is_char_boundary_start_end_of_seq(nb);
    if c < b.len() {
        vstd::utf8::is_char_boundary_iff_not_is_continuation_byte(b, c);
        assert(nb[c + e.len()] == b[c]);
        vstd::utf8::is_char_boundary_iff_not_is_continuation_byte(nb, c + e.len());
    } else {
        assert(c + e.len() == nb.len());
    }
}

/// Removing the char that starts at a boundary keeps that position on a
/// boundary.
proof fn lemma_boundary_after_remove(b: Seq<u8>, start: int, ch: char, nb: Seq<u8>)
    requires
        vstd::utf8::valid_utf8(b),
        vstd::utf8::valid_utf8(nb),
        is_char_boundary(b, start),
        0 <= start,
        start + utf8(seq![ch]).len() <= b.len(),
        b.subrange(start, start + utf8(seq![ch]).len()) == utf8(seq![ch]),
        nb == bytes_removed(b, start, start + utf8(seq![ch]).len()),
    ensures
        is_char_boundary(nb, start),
{
    let w = utf8(seq![ch]).len() as int;
    let rest = b.subrange(start, b.len() as int);
    vstd::utf8::valid_utf8_split(b, start);
    vstd::utf8::encode_utf8_first_scalar(seq![ch]);
    vstd::utf8::char_is_scalar(ch);
    assert(seq![ch].drop_first() =~= Seq::<char>::empty());
    assert(utf8(seq![ch]) == vstd::utf8::encode_scalar(ch as u32) + encode_utf8(Seq::<char>::empty()));
    assert(rest[0] == utf8(seq![ch])[0]);
    assert(vstd::utf8::length_of_first_scalar(rest) == w);
    assert(vstd::utf8::pop_first_scalar(rest) =~= b.subrange(start + w, b.len() as int));
    let x = b.subrange(start + w, b.len() as int);
    assert(vstd::utf8::valid_utf8(x));
    vstd::utf8::is_char_boundary_start_end_of_seq(nb);
    if x.len() > 0 {
        vstd::utf8::is_char_boundary_start_end_of_seq(x);
        vstd::utf8::is_char_boundary_iff_not_is_continuation_byte(x, 0);
        assert(nb[start] == x[0]);
        vstd::utf8::is_char_boundary_iff_not_is_continuation_byte(nb, start);
    } else {
        assert(start == nb.len());
    }
}

impl StringWidgetData {
    /// Starts editing `text` (the port's current value), with the cursor at
    /// its end.
    pub fn begin(&mut self, text: String)
        ensures
            final(self).buffer@ == text@,
            final(self).cursor == utf8(text@).len(),
            final(self).editing,
            on_boundary(final(self).buffer@, final(self).cursor as int),
    {
        self.buffer = text;
        self.cursor = byte_len(&self.buffer);
        self.editing = true;
        proof {
            vstd::utf8::is_char_boundary_start_end_of_seq(utf8(self.buffer@));
        }
    }

    /// Stops editing (a click elsewhere, a commit, or Escape).
    pub fn stop(&mut self)
        ensures
            final(self).buffer@ == old(self).buffer@,
            final(self).cursor == old(self).cursor,
            !final(self).editing,
    {
        self.editing = false;
    }

    /// Types `ch` at the cursor and moves the cursor past it; control
    /// characters are swallowed. Consumed exactly while editing.
    pub fn on_char(&mut self, ch: char) -> (r: EventResponse)
        requires
            old(self).editing ==> on_boundary(old(self).buffer@, old(self).cursor as int),
        ensures
            r == if old(self).editing {
                EventResponse::Consumed
            } else {
                EventResponse::Ignored
            },
            final(self).editing == old(self).editing,
            old(self).editing && !is_control_spec(ch) ==> utf8(final(self).buffer@) == bytes_inserted(
                utf8(old(self).buffer@),
                old(self).cursor as int,
                utf8(seq![ch]),
            ) && final(self).cursor == old(self).cursor + utf8(seq![ch]).len(),
            !old(self).editing || is_control_spec(ch) ==> final(self).buffer@ == old(self).buffer@
                && final(self).cursor == old(self).cursor,
            final(self).editing ==> on_boundary(final(self).buffer@, final(self).cursor as int),
    {
        if !self.editing {
            return EventResponse::Ignored;
        }
        if !is_control(ch) {
            let ghost before = utf8(self.buffer@);
            insert_at(&mut self.buffer, self.cursor, ch);
            let w = utf8_width(ch);
            proof {
                vstd::utf8::is_char_boundary_start_end_of_seq(before);
                if self.cursor > before.len() {
                    assert(!is_char_boundary(before, self.cursor as int));
                }
                lemma_boundary_after_insert(before, self.cursor as int, utf8(seq![ch]), utf8(self.buffer@));
            }
            self.cursor = self.cursor + w;
        }
        EventResponse::Consumed
    }

    /// Handles a key press while editing: Backspace deletes the whole char
    /// before the cursor, the arrows move by whole chars, Escape stops
    /// editing and Enter asks for a commit. The cursor stays on a char
    /// boundary.
    pub fn on_key(&mut self, key: Key) -> (r: EditOutcome)
        requires
            old(self).editing ==> on_boundary(old(self).buffer@, old(self).cursor as int),
        ensures
            r == if old(self).editing {
                text_key_outcome(key)
            } else {
                EditOutcome::Ignored
            },
            final(self).editing == (old(self).editing && key != Key::Escape),
            final(self).editing ==> on_boundary(final(self).buffer@, final(self).cursor as int),
            old(self).editing && key == Key::Backspace && old(self).cursor > 0 ==> is_floor_boundary(
                utf8(old(self).buffer@),
                old(self).cursor - 1,
                final(self).cursor as int,
            ) && char_removed(utf8(old(self).buffer@), final(self).cursor as int, utf8(final(self).buffer@)),
            old(self).editing && key == Key::ArrowLeft ==> is_floor_boundary(
                utf8(old(self).buffer@),
                step_left(old(self).cursor as int),
                final(self).cursor as int,
            ),
            old(self).editing && key == Key::ArrowRight ==> is_ceil_boundary(
                utf8(old(self).buffer@),
                step_right(old(self).cursor as int, utf8(old(self).buffer@).len() as int),
                final(self).cursor as int,
            ),
            !(old(self).editing && key == Key::Backspace && old(self).cursor > 0) ==> final(self).buffer@
                == old(self).buffer@,
            !(old(self).editing && (key == Key::Backspace || key == Key::ArrowLeft || key == Key::ArrowRight))
                ==> final(self).cursor == old(self).cursor,
    {
        if !self.editing {
            return EditOutcome::Ignored;
        }
        let ghost b = utf8(self.buffer@);
        proof {
            vstd::utf8::is_char_boundary_start_end_of_seq(b);
            if self.cursor > b.len() {
                assert(!is_char_boundary(b, self.cursor as int));
            }
        }
        match key {
            Key::Backspace => {
                if self.cursor > 0 {
                    let start = floor_char_boundary(self.buffer.as_str(), self.cursor - 1);
                    let c = string_remove(&mut self.buffer, start);
                    proof {
                        lemma_boundary_after_remove(b, start as int, c, utf8(self.buffer@));
                    }
                    self.cursor = start;
                }
                EditOutcome::Consumed
            },
            Key::ArrowLeft => {
                let prev = if self.cursor > 0 {
                    self.cursor - 1
                } else {
                    0
                };
                self.cursor = floor_char_boundary(self.buffer.as_str(), prev);
                EditOutcome::Consumed
            },
            Key::ArrowRight => {
                let len = byte_len(&self.buffer);
                let next = if self.cursor < len {
                    self.cursor + 1
                } else {
                    len
                };
                self.cursor = ceil_char_boundary(self.buffer.as_str(), next);
                EditOutcome::Consumed
            },
            Key::Enter => EditOutcome::Commit,
            Key::Escape => {
                self.editing = false;
                EditOutcome::Consumed
            },
            _ => EditOutcome::Ignored,
        }
    }
}

impl NumberWidgetData {
    /// Starts editing `text` (the port's current value), with the cursor at
    /// its end and no error.
    pub fn begin(&mut self, text: String)
        ensures
            final(self).buffer@ == text@,
            final(self).cursor == utf8(text@).len(),
            final(self).editing,
            final(self).error is None,
    {
        self.buffer = text;
        self.cursor = byte_len(&self.buffer);
        self.editing = true;
        self.error = None;
    }

    /// Stops editing and drops any error (a click elsewhere, or a commit
    /// whose text parsed).
    pub fn stop(&mut self)
        ensures
            final(self).buffer@ == old(self).buffer@,
            final(self).cursor == old(self).cursor,
            !final(self).editing,
            final(self).error is None,
    {
        self.editing = false;
        self.error = None;
    }

    /// Records why a commit's text did not parse; editing goes on.
    pub fn fail_commit(&mut self, message: String)
        ensures
            final(self).buffer@ == old(self).buffer@,
            final(self).cursor == old(self).cursor,
            final(self).editing == old(self).editing,
            final(self).error == Some(message),
    {
        self.error = Some(message);
    }

    /// Types `ch` at the cursor and moves the cursor one byte right,
    /// clearing any error; control characters are swallowed. Consumed
    /// exactly while editing.
    pub fn on_char(&mut self, ch: char) -> (r: EventResponse)
        requires
            old(self).editing ==> on_boundary(old(self).buffer@, old(self).cursor as int),
        ensures
            r == if old(self).editing {
                EventResponse::Consumed
            } else {
                EventResponse::Ignored
            },
            final(self).editing == old(self).editing,
            old(self).editing && !is_control_spec(ch) ==> utf8(final(self).buffer@) == bytes_inserted(
                utf8(old(self).buffer@),
                old(self).cursor as int,
                utf8(seq![ch]),
            ) && final(self).cursor == old(self).cursor + 1 && final(self).error is None,
            !old(self).editing || is_control_spec(ch) ==> final(self).buffer@ == old(self).buffer@
                && final(self).cursor == old(self).cursor && final(self).error == old(self).error,
    {
        if !self.editing {
            return EventResponse::Ignored;
        }
        if !is_control(ch) {
            insert_at(&mut self.buffer, self.cursor, ch);
            self.cursor = self.cursor + 1;
            self.error = None;
        }
        EventResponse::Consumed
    }

    /// Handles a key press while editing: Backspace deletes the char that
    /// starts one byte before the cursor and clears any error, the arrows
    /// move by one byte, Escape stops editing and clears any error, Enter
    /// asks for a commit.
    pub fn on_key(&mut self, key: Key) -> (r: EditOutcome)
        requires
            old(self).editing ==> old(self).cursor < usize::MAX,
            old(self).editing && key == Key::Backspace && old(self).cursor > 0 ==> old(self).cursor - 1 < utf8(
                old(self).buffer@,
            ).len() && on_boundary(old(self).buffer@, old(self).cursor - 1),
        ensures
            r == if old(self).editing {
                numeric_key_outcome(key)
            } else {
                EditOutcome::Ignored
            },
            final(self).editing == (old(self).editing && key != Key::Escape),
            old(self).editing && key == Key::Backspace && old(self).cursor > 0 ==> char_removed(
                utf8(old(self).buffer@),
                old(self).cursor - 1,
                utf8(final(self).buffer@),
            ) && final(self).cursor == old(self).cursor - 1 && final(self).error is None,
            old(self).editing && key == Key::ArrowLeft ==> final(self).cursor == step_left(
                old(self).cursor as int,
            ),
            old(self).editing && key == Key::ArrowRight ==> final(self).cursor == step_right(
                old(self).cursor as int,
                utf8(old(self).buffer@).len() as int,
            ),
            old(self).editing && key == Key::Escape ==> final(self).error is None,
            !(old(self).editing && key == Key::Backspace && old(self).cursor > 0) ==> final(self).buffer@
                == old(self).buffer@,
            !(old(self).editing && (key == Key::Backspace || key == Key::ArrowLeft || key == Key::ArrowRight))
                ==> final(self).cursor == old(self).cursor,
            !(old(self).editing && (key == Key::Escape || (key == Key::Backspace && old(self).cursor > 0)))
                ==> final(self).error == old(self).error,
    {
        if !self.editing {
            return EditOutcome::Ignored;
        }
        match key {
            Key::Backspace => {
                if self.cursor > 0 {
                    string_remove(&mut self.buffer, self.cursor - 1);
                    self.cursor = self.cursor - 1;
                    self.error = None;
                }
                EditOutcome::Consumed
            },
            Key::ArrowLeft => {
                if self.cursor > 0 {
                    self.cursor = self.cursor - 1;
                }
                EditOutcome::Consumed
            },
            Key::ArrowRight => {
                let len = byte_len(&self.buffer);
                let next = self.cursor + 1;
                self.cursor = if next < len {
                    next
                } else {
                    len
                };
                EditOutcome::Consumed
            },
            Key::Enter => EditOutcome::Commit,
            Key::Escape => {
                self.editing = false;
                self.error = None;
                EditOutcome::Consumed
            },
            _ => EditOutcome::Ignored,
        }
    }
}

} // verus!
