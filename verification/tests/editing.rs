use shame_gui::editing::{is_control, utf8_width, EditOutcome};
use shame_gui::gui::{EditingField, EventResponse, Key, NumberWidgetData, StringWidgetData, Vec2WidgetData};

#[test]
fn control_chars_are_the_cc_category() {
    assert!(is_control('\u{0}'));
    assert!(is_control('\n'));
    assert!(is_control('\u{7f}'));
    assert!(is_control('\u{9f}'));
    assert!(!is_control(' '));
    assert!(!is_control('a'));
    assert!(!is_control('\u{a0}'));
    for c in ['\u{1}', '\t', 'x', 'é', '€', '😀', '\u{85}'] {
        assert_eq!(is_control(c), c.is_control());
    }
}

#[test]
fn utf8_width_matches_len_utf8() {
    for c in ['a', '\u{7f}', '\u{80}', 'é', '\u{7ff}', '\u{800}', '€', '\u{ffff}', '\u{10000}', '😀'] {
        assert_eq!(utf8_width(c), c.len_utf8());
    }
}

#[test]
fn editing_field_inserts_and_deletes_at_the_cursor() {
    let mut f = EditingField::default();
    f.begin("12".to_string());
    assert_eq!(f.cursor, 2);
    assert!(f.editing);
    f.insert_char('3');
    assert_eq!(f.buffer, "123");
    assert_eq!(f.cursor, 3);
    f.cursor_left();
    f.cursor_left();
    f.insert_char('.');
    assert_eq!(f.buffer, "1.23");
    assert_eq!(f.cursor, 2);
    f.backspace();
    assert_eq!(f.buffer, "123");
    assert_eq!(f.cursor, 1);
    f.cursor_right();
    f.cursor_right();
    f.cursor_right();
    assert_eq!(f.cursor, 3);
    f.cursor_left();
    f.cursor_left();
    f.cursor_left();
    f.cursor_left();
    assert_eq!(f.cursor, 0);
    f.backspace();
    assert_eq!(f.buffer, "123");
    f.cancel();
    assert!(!f.editing);
    assert_eq!(f.buffer, "123");
}

#[test]
fn number_editor_keys() {
    let mut d = NumberWidgetData::default();
    assert_eq!(d.on_char('1'), EventResponse::Ignored);
    assert_eq!(d.on_key(Key::Enter), EditOutcome::Ignored);
    d.begin("42".to_string());
    assert_eq!(d.on_char('7'), EventResponse::Consumed);
    assert_eq!(d.buffer, "427");
    assert_eq!(d.on_char('\n'), EventResponse::Consumed);
    assert_eq!(d.buffer, "427");
    assert_eq!(d.on_key(Key::ArrowLeft), EditOutcome::Consumed);
    assert_eq!(d.cursor, 2);
    assert_eq!(d.on_key(Key::Backspace), EditOutcome::Consumed);
    assert_eq!(d.buffer, "47");
    assert_eq!(d.cursor, 1);
    assert_eq!(d.on_key(Key::ArrowRight), EditOutcome::Consumed);
    assert_eq!(d.on_key(Key::ArrowRight), EditOutcome::Consumed);
    assert_eq!(d.cursor, 2);
    assert_eq!(d.on_key(Key::Tab), EditOutcome::Ignored);
    assert_eq!(d.on_key(Key::Enter), EditOutcome::Commit);
    d.fail_commit("bad".to_string());
    assert_eq!(d.error.as_deref(), Some("bad"));
    assert!(d.editing);
    d.on_char('1');
    assert!(d.error.is_none());
    d.fail_commit("bad".to_string());
    assert_eq!(d.on_key(Key::Escape), EditOutcome::Consumed);
    assert!(!d.editing);
    assert!(d.error.is_none());
}

#[test]
fn text_editor_moves_by_whole_chars() {
    let mut d = StringWidgetData::default();
    d.begin("aé".to_string());
    assert_eq!(d.cursor, 3);
    assert_eq!(d.on_key(Key::ArrowLeft), EditOutcome::Consumed);
    assert_eq!(d.cursor, 1);
    assert_eq!(d.on_key(Key::ArrowRight), EditOutcome::Consumed);
    assert_eq!(d.cursor, 3);
    assert_eq!(d.on_char('€'), EventResponse::Consumed);
    assert_eq!(d.buffer, "aé€");
    assert_eq!(d.cursor, 6);
    assert_eq!(d.on_key(Key::Backspace), EditOutcome::Consumed);
    assert_eq!(d.buffer, "aé");
    assert_eq!(d.cursor, 3);
    assert_eq!(d.on_key(Key::Backspace), EditOutcome::Consumed);
    assert_eq!(d.buffer, "a");
    assert_eq!(d.cursor, 1);
    d.on_key(Key::ArrowLeft);
    assert_eq!(d.cursor, 0);
    d.on_key(Key::ArrowLeft);
    assert_eq!(d.cursor, 0);
    d.on_key(Key::Backspace);
    assert_eq!(d.buffer, "a");
    assert_eq!(d.on_key(Key::Enter), EditOutcome::Commit);
    assert_eq!(d.on_key(Key::Escape), EditOutcome::Consumed);
    assert!(!d.editing);
    assert_eq!(d.on_char('x'), EventResponse::Ignored);
}

#[test]
fn vec2_editor_types_into_the_active_component() {
    let mut d = Vec2WidgetData::default();
    assert_eq!(d.on_char('1'), EventResponse::Ignored);
    d.y.begin("2".to_string());
    assert_eq!(d.on_char('5'), EventResponse::Consumed);
    assert_eq!(d.y.buffer, "25");
    assert_eq!(d.x.buffer, "");
    assert_eq!(d.on_key(Key::Backspace), EditOutcome::Consumed);
    assert_eq!(d.y.buffer, "2");
    assert_eq!(d.on_key(Key::Enter), EditOutcome::Commit);
    assert_eq!(d.on_key(Key::Escape), EditOutcome::Consumed);
    assert!(!d.x.editing && !d.y.editing);
    assert_eq!(d.on_key(Key::Escape), EditOutcome::Ignored);
}
