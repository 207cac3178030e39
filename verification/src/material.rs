//! Instance-storage bookkeeping shared by batched render objects: the
//! [`InstanceArena`] slice allocator (a coalescing first-fit free list over
//! one grow-only byte buffer), the indirect-draw argument records it
//! produces, and the [`Draw`] description of a material's index buffer.
//!
//! The arena here holds everything that is plain data — the per-object
//! slices, the free list, the append cursor and the CPU byte mirror. The GPU
//! buffer that shadows the mirror is owned by the application layer, which
//! asks the arena when and how far to grow it.

use vstd::prelude::*;

verus! {

/// Index-buffer based drawing. The topology (triangle/line list) is baked
/// into the pipeline at build time; only the index buffer is described here.
pub enum Draw {
    /// A primitive draw with the given index buffer.
    Primitive {
        /// The index buffer contents.
        indices: Vec<u32>,
    },
}

/// One render object's slice inside a shared [`InstanceArena`].
#[derive(Clone, Copy, Debug, PartialEq, Eq)]
pub struct ArenaSlice {
    /// Byte offset of this object's instances within the arena buffer.
    pub offset: u32,
    /// Byte size of the slice (`instance_count * wire_size`).
    pub byte_size: u32,
    /// Number of instances stored in this slice.
    pub instance_count: u32,
}

/// The indirect-draw record for one arena slice
/// (the layout of an indexed indirect draw call).
#[derive(Clone, Copy, Debug, PartialEq, Eq)]
pub struct IndirectArgs {
    /// Number of indices per instance.
    pub index_count: u32,
    /// Number of instances to draw.
    pub instance_count: u32,
    /// First index in the index buffer.
    pub first_index: u32,
    /// Added to each index before fetching vertices.
    pub base_vertex: i32,
    /// First instance: the slice's byte offset divided by the wire size.
    pub first_instance: u32,
}

/// Minimum size for the arena's storage buffer. The buffer only grows, so a
/// session that reaches tens of MB should not start from byte-sized buffers.
pub const MIN_ARENA_BYTES: u64 = 1048576;

/// The end (exclusive) of a free block `(offset, size)`.
pub open spec fn block_end(b: (u32, u32)) -> int {
    b.0 + b.1
}

/// Two half-open byte ranges `[a, a + al)` and `[b, b + bl)` share a byte.
pub open spec fn overlaps(a: int, al: int, b: int, bl: int) -> bool {
    al > 0 && bl > 0 && a < b + bl && b < a + al
}

/// A free list in canonical form below the cursor `next`: every block is
/// non-empty and ends strictly before `next` (the arena never keeps a free
/// block at its tail), and blocks are sorted by offset with a gap between
/// any two of them (adjacent blocks are always merged).
pub open spec fn free_list_wf(fl: Seq<(u32, u32)>, next: int) -> bool {
    &&& forall|i: int| #![trigger fl[i]] 0 <= i < fl.len() ==> fl[i].1 > 0 && block_end(fl[i]) < next
    &&& forall|i: int, j: int|
        #![trigger fl[i], fl[j]]
        0 <= i < j < fl.len() ==> block_end(fl[i]) < fl[j].0
}

/// The free list covers byte `x`.
pub open spec fn covers(fl: Seq<(u32, u32)>, x: int) -> bool {
    exists|i: int| 0 <= i < fl.len() && fl[i].0 <= x < #[trigger] block_end(fl[i])
}

/// Live slices lie below the cursor, never overlap each other and never
/// overlap a free block.
pub open spec fn slices_wf(slots: Seq<Option<ArenaSlice>>, fl: Seq<(u32, u32)>, next: int) -> bool {
    &&& forall|i: int|
        0 <= i < slots.len() && #[trigger] slots[i] is Some ==> slots[i]->0.offset
            + slots[i]->0.byte_size <= next || slots[i]->0.byte_size == 0
    &&& forall|i: int, j: int|
        #![trigger slots[i], slots[j]]
        0 <= i < slots.len() && 0 <= j < slots.len() && i != j && slots[i] is Some
            && slots[j] is Some ==> !overlaps(
            slots[i]->0.offset as int,
            slots[i]->0.byte_size as int,
            slots[j]->0.offset as int,
            slots[j]->0.byte_size as int,
        )
    &&& forall|i: int, k: int|
        #![trigger slots[i], fl[k]]
        0 <= i < slots.len() && 0 <= k < fl.len() && slots[i] is Some ==> !overlaps(
            slots[i]->0.offset as int,
            slots[i]->0.byte_size as int,
            fl[k].0 as int,
            fl[k].1 as int,
        )
}

/// `i` is the insertion point of `off` in a list sorted by offset: every
/// block before it starts below `off`, every block from it on does not.
pub open spec fn is_insert_pos(fl: Seq<(u32, u32)>, off: int, i: int) -> bool {
    &&& 0 <= i <= fl.len()
    &&& forall|j: int| 0 <= j < i ==> #[trigger] fl[j].0 < off
    &&& forall|j: int| i <= j < fl.len() ==> #[trigger] fl[j].0 >= off
}

/// The insertion point of `off` (see [`is_insert_pos`]).
pub open spec fn insert_pos(fl: Seq<(u32, u32)>, off: int) -> int {
    choose|i: int| is_insert_pos(fl, off, i)
}

/// The free list and cursor after returning the byte range
/// `[off, off + size)` to the arena: an empty range changes nothing; a range
/// ending at the cursor rewinds the cursor (past the last free block too,
/// when that block becomes the tail); any other range is inserted in offset
/// order and merged with whichever neighbours it touches.
pub open spec fn spec_free(fl: Seq<(u32, u32)>, next: int, off: int, size: int) -> (Seq<(u32, u32)>, int) {
    if size == 0 {
        (fl, next)
    } else if off + size == next {
        if fl.len() > 0 && block_end(fl.last()) == off {
            (fl.drop_last(), fl.last().0 as int)
        } else {
            (fl, off)
        }
    } else {
        let i = insert_pos(fl, off);
        let lm = i > 0 && block_end(fl[i - 1]) == off;
        let start = if lm { fl[i - 1].0 as int } else { off };
        let size1 = if lm { fl[i - 1].1 + size } else { size };
        let rm = i < fl.len() && off + size == fl[i].0;
        let size2 = if rm { size1 + fl[i].1 } else { size1 };
        let lo = if lm { i - 1 } else { i };
        let hi = if rm { i + 1 } else { i };
        (fl.subrange(0, lo) + seq![(start as u32, size2 as u32)] + fl.subrange(hi, fl.len() as int), next)
    }
}

/// `i` is the first block large enough for `bytes`.
pub open spec fn is_first_fit(fl: Seq<(u32, u32)>, bytes: int, i: int) -> bool {
    &&& 0 <= i < fl.len()
    &&& fl[i].1 >= bytes
    &&& forall|j: int| 0 <= j < i ==> #[trigger] fl[j].1 < bytes
}

/// Some free block is large enough for `bytes`.
pub open spec fn has_fit(fl: Seq<(u32, u32)>, bytes: int) -> bool {
    exists|i: int| 0 <= i < fl.len() && #[trigger] fl[i].1 >= bytes
}

/// The first block large enough for `bytes` (meaningful when [`has_fit`]).
proof fn lemma_insert_pos_unique(fl: Seq<(u32, u32)>, next: int, off: int, i: int)
    requires
        free_list_wf(fl, next),
        is_insert_pos(fl, off, i),
    ensures
        insert_pos(fl, off) == i,
{
    let k = insert_pos(fl, off);
    assert(is_insert_pos(fl, off, k));
    if k < i {
        assert(fl[k].0 < off);
    } else if i < k {
        assert(fl[i].0 < off);
    }
}


/// Returning a range that satisfies the arena's freeing preconditions keeps
/// the free list canonical and the live slices clear of it.
proof fn lemma_free_wf(
    fl: Seq<(u32, u32)>,
    slots: Seq<Option<ArenaSlice>>,
    next: int,
    off: int,
    size: int,
    ip: int,
)
    requires
        free_list_wf(fl, next),
        slices_wf(slots, fl, next),
        size > 0 && off + size != next ==> is_insert_pos(fl, off, ip),
        0 <= off,
        0 <= size,
        size == 0 || off + size <= next,
        next <= u32::MAX,
        forall|k: int| 0 <= k < fl.len() ==> !overlaps(off, size, #[trigger] fl[k].0 as int, fl[k].1 as int),
        forall|i: int|
            0 <= i < slots.len() && #[trigger] slots[i] is Some ==> !overlaps(
                off,
                size,
                slots[i]->0.offset as int,
                slots[i]->0.byte_size as int,
            ),
    ensures
        free_list_wf(spec_free(fl, next, off, size).0, spec_free(fl, next, off, size).1),
        slices_wf(slots, spec_free(fl, next, off, size).0, spec_free(fl, next, off, size).1),
        spec_free(fl, next, off, size).1 <= next,
{
    let r = spec_free(fl, next, off, size);
    if size == 0 {
    } else if off + size == next {
        if fl.len() > 0 && block_end(fl.last()) == off {
            let nl = fl.drop_last();
            let b = fl.last();
            assert(fl[fl.len() - 1] == b);
            assert forall|i: int| #![trigger nl[i]] 0 <= i < nl.len() implies nl[i].1 > 0 && block_end(nl[i]) < b.0 by {
                assert(nl[i] == fl[i]);
            }
            assert forall|i: int|
                0 <= i < slots.len() && #[trigger] slots[i] is Some implies slots[i]->0.offset
                    + slots[i]->0.byte_size <= b.0 || slots[i]->0.byte_size == 0 by {
                assert(!overlaps(off, size, slots[i]->0.offset as int, slots[i]->0.byte_size as int));
                assert(!overlaps(slots[i]->0.offset as int, slots[i]->0.byte_size as int, fl[fl.len() - 1].0 as int, fl[fl.len() - 1].1 as int));
            }
            assert forall|i: int, k: int|
                #![trigger slots[i], nl[k]]
                0 <= i < slots.len() && 0 <= k < nl.len() && slots[i] is Some implies !overlaps(
                    slots[i]->0.offset as int,
                    slots[i]->0.byte_size as int,
                    nl[k].0 as int,
                    nl[k].1 as int,
                ) by {
                assert(nl[k] == fl[k]);
            }
        } else {
            assert forall|i: int| #![trigger fl[i]] 0 <= i < fl.len() implies fl[i].1 > 0 && block_end(fl[i]) < off by {
                assert(!overlaps(off, size, fl[i].0 as int, fl[i].1 as int));
                if i == fl.len() - 1 {
                    assert(fl.last() == fl[i]);
                } else {
                    assert(fl[fl.len() - 1].0 <= off);
                }
            }
            assert forall|i: int|
                0 <= i < slots.len() && #[trigger] slots[i] is Some implies slots[i]->0.offset
                    + slots[i]->0.byte_size <= off || slots[i]->0.byte_size == 0 by {
                assert(!overlaps(off, size, slots[i]->0.offset as int, slots[i]->0.byte_size as int));
            }
        }
    } else {
        let i = insert_pos(fl, off);
        lemma_insert_pos_unique(fl, next, off, ip);
        let lm = i > 0 && block_end(fl[i - 1]) == off;
        let start: int = if lm { fl[i - 1].0 as int } else { off };
        let size1: int = if lm { fl[i - 1].1 + size } else { size };
        let rm = i < fl.len() && off + size == fl[i].0;
        let size2: int = if rm { size1 + fl[i].1 } else { size1 };
        let lo: int = if lm { i - 1 } else { i };
        let hi: int = if rm { i + 1 } else { i };
        let a = fl.subrange(0, lo);
        let b = fl.subrange(hi, fl.len() as int);
        let nb: (u32, u32) = (start as u32, size2 as u32);
        let nl = a + seq![nb] + b;
        assert(nl == r.0);
        // the merged block lies strictly between its neighbours
        if i > 0 {
            assert(fl[i - 1].0 < off);
            assert(!overlaps(off, size, fl[i - 1].0 as int, fl[i - 1].1 as int));
            assert(block_end(fl[i - 1]) <= off);
        }
        if i < fl.len() {
            assert(fl[i].0 >= off);
            assert(!overlaps(off, size, fl[i].0 as int, fl[i].1 as int));
            assert(fl[i].0 >= off + size);
        }
        assert(start + size2 < next) by {
            if rm {
                assert(block_end(fl[i]) < next);
            }
        }
        assert(nb.0 == start && nb.1 == size2);
        assert forall|j: int| 0 <= j < lo implies block_end(#[trigger] fl[j]) < start by {
            if lm {
                assert(block_end(fl[j]) < fl[i - 1].0);
            } else {
                if j < i - 1 {
                    assert(block_end(fl[j]) < fl[i - 1].0);
                }
            }
        }
        assert forall|j: int| hi <= j < fl.len() implies start + size2 < (#[trigger] fl[j]).0 by {
            if rm {
                assert(block_end(fl[i]) < fl[j].0);
            } else {
                if j > i {
                    assert(block_end(fl[i]) < fl[j].0);
                }
            }
        }
        assert forall|x: int| #![trigger nl[x]] 0 <= x < nl.len() implies nl[x].1 > 0 && block_end(nl[x]) < next by {
            if x < lo {
                assert(nl[x] == fl[x]);
            } else if x == lo {
                assert(nl[x] == nb);
            } else {
                assert(nl[x] == fl[x - lo - 1 + hi]);
            }
        }
        assert forall|x: int, y: int| #![trigger nl[x], nl[y]] 0 <= x < y < nl.len() implies block_end(nl[x]) < nl[y].0 by {
            if y < lo {
                assert(nl[x] == fl[x] && nl[y] == fl[y]);
            } else if y == lo {
                assert(nl[x] == fl[x] && nl[y] == nb);
            } else if x < lo {
                assert(nl[x] == fl[x] && nl[y] == fl[y - lo - 1 + hi]);
                assert(block_end(fl[x]) < fl[y - lo - 1 + hi].0);
            } else if x == lo {
                assert(nl[x] == nb && nl[y] == fl[y - lo - 1 + hi]);
            } else {
                assert(nl[x] == fl[x - lo - 1 + hi] && nl[y] == fl[y - lo - 1 + hi]);
            }
        }
        assert forall|s: int, x: int|
            #![trigger slots[s], nl[x]]
            0 <= s < slots.len() && 0 <= x < nl.len() && slots[s] is Some implies !overlaps(
                slots[s]->0.offset as int,
                slots[s]->0.byte_size as int,
                nl[x].0 as int,
                nl[x].1 as int,
            ) by {
            let so = slots[s]->0.offset as int;
            let sb = slots[s]->0.byte_size as int;
            if x < lo {
                assert(nl[x] == fl[x]);
                assert(!overlaps(so, sb, fl[x].0 as int, fl[x].1 as int));
            } else if x == lo {
                assert(nl[x] == nb);
                assert(!overlaps(off, size, slots[s]->0.offset as int, slots[s]->0.byte_size as int));
                if lm {
                    assert(!overlaps(slots[s]->0.offset as int, slots[s]->0.byte_size as int, fl[i - 1].0 as int, fl[i - 1].1 as int));
                }
                if rm {
                    assert(!overlaps(slots[s]->0.offset as int, slots[s]->0.byte_size as int, fl[i].0 as int, fl[i].1 as int));
                }
                assert(!overlaps(so, sb, start, size2));
            } else {
                assert(nl[x] == fl[x - lo - 1 + hi]);
                assert(!overlaps(so, sb, fl[x - lo - 1 + hi].0 as int, fl[x - lo - 1 + hi].1 as int));
            }
        }
    }
}


pub open spec fn first_fit(fl: Seq<(u32, u32)>, bytes: int) -> int {
    choose|i: int| is_first_fit(fl, bytes, i)
}


/// Freeing returns exactly the freed bytes to the free space: afterwards a
/// byte is free if and only if it was free before or lies in the freed
/// range, and it lies below the (possibly rewound) cursor. A range that ends
/// at the cursor rewinds it to the range's start, or past the free block
/// just below it; any other range leaves the cursor where it was.
pub proof fn lemma_free_returns_range(fl: Seq<(u32, u32)>, next: int, off: int, size: int, x: int)
    requires
        free_list_wf(fl, next),
        0 <= off,
        0 < size,
        off + size <= next <= u32::MAX,
        forall|k: int| 0 <= k < fl.len() ==> !overlaps(off, size, #[trigger] fl[k].0 as int, fl[k].1 as int),
    ensures
        covers(spec_free(fl, next, off, size).0, x) <==> ((covers(fl, x) || off <= x < off + size) && x
            < spec_free(fl, next, off, size).1),
        off + size == next ==> spec_free(fl, next, off, size).1 <= off,
        off + size != next ==> spec_free(fl, next, off, size).1 == next,
{
    if off + size == next {
        lemma_free_tail_covers(fl, next, off, size, x);
    } else {
        lemma_insert_pos_witness(fl, next, off);
        lemma_free_merge_covers_fwd(fl, next, off, size, x);
        lemma_free_merge_covers_bwd(fl, next, off, size, x);
    }
}

proof fn lemma_free_tail_covers(fl: Seq<(u32, u32)>, next: int, off: int, size: int, x: int)
    requires
        free_list_wf(fl, next),
        0 <= off,
        0 < size,
        off + size == next <= u32::MAX,
        forall|k: int| 0 <= k < fl.len() ==> !overlaps(off, size, #[trigger] fl[k].0 as int, fl[k].1 as int),
    ensures
        covers(spec_free(fl, next, off, size).0, x) <==> ((covers(fl, x) || off <= x < off + size) && x
            < spec_free(fl, next, off, size).1),
        spec_free(fl, next, off, size).1 <= off,
{
    let (nl, nn) = spec_free(fl, next, off, size);
    if fl.len() > 0 && block_end(fl.last()) == off {
        let b = fl.last();
        assert(fl[fl.len() - 1] == b);
        if covers(nl, x) {
            let i = choose|i: int| 0 <= i < nl.len() && nl[i].0 <= x < #[trigger] block_end(nl[i]);
            assert(nl[i] == fl[i]);
            assert(block_end(fl[i]) < fl[fl.len() - 1].0);
            assert(fl[i].0 <= x < block_end(fl[i]));
        }
        if covers(fl, x) && x < nn {
            let i = choose|i: int| 0 <= i < fl.len() && fl[i].0 <= x < #[trigger] block_end(fl[i]);
            if i == fl.len() - 1 {
                assert(false);
            }
            assert(nl[i] == fl[i]);
            assert(nl[i].0 <= x < block_end(nl[i]));
        }
    } else {
        if covers(fl, x) {
            let i = choose|i: int| 0 <= i < fl.len() && fl[i].0 <= x < #[trigger] block_end(fl[i]);
            assert(!overlaps(off, size, fl[i].0 as int, fl[i].1 as int));
            if i < fl.len() - 1 {
                assert(block_end(fl[i]) < fl[fl.len() - 1].0);
                assert(!overlaps(off, size, fl[fl.len() - 1].0 as int, fl[fl.len() - 1].1 as int));
            } else {
                assert(fl.last() == fl[i]);
            }
        }
    }
}

/// Every free byte after a merging free was free before or freed now.
proof fn lemma_free_merge_covers_fwd(fl: Seq<(u32, u32)>, next: int, off: int, size: int, x: int)
    requires
        free_list_wf(fl, next),
        0 <= off,
        0 < size,
        off + size < next <= u32::MAX,
        forall|k: int| 0 <= k < fl.len() ==> !overlaps(off, size, #[trigger] fl[k].0 as int, fl[k].1 as int),
        is_insert_pos(fl, off, insert_pos(fl, off)),
    ensures
        covers(spec_free(fl, next, off, size).0, x) ==> ((covers(fl, x) || off <= x < off + size) && x
            < next),
        spec_free(fl, next, off, size).1 == next,
{
    let (nl, nn) = spec_free(fl, next, off, size);
    let i = insert_pos(fl, off);
    let lm = i > 0 && block_end(fl[i - 1]) == off;
    let start: int = if lm { fl[i - 1].0 as int } else { off };
    let size1: int = if lm { fl[i - 1].1 + size } else { size };
    let rm = i < fl.len() && off + size == fl[i].0;
    let size2: int = if rm { size1 + fl[i].1 } else { size1 };
    let lo: int = if lm { i - 1 } else { i };
    let hi: int = if rm { i + 1 } else { i };
    let nb: (u32, u32) = (start as u32, size2 as u32);
    assert(nb.0 == start && nb.1 == size2) by {
        if rm {
            assert(block_end(fl[i]) < next);
        }
    }
    assert(nl == fl.subrange(0, lo) + seq![nb] + fl.subrange(hi, fl.len() as int));
    if covers(nl, x) {
        let y = choose|y: int| 0 <= y < nl.len() && nl[y].0 <= x < #[trigger] block_end(nl[y]);
        if y < lo {
            assert(nl[y] == fl[y]);
            assert(block_end(fl[y]) < next);
            assert(fl[y].0 <= x < block_end(fl[y]));
        } else if y == lo {
            assert(nl[y] == nb);
            if rm {
                assert(block_end(fl[i]) < next);
            }
            if lm && x < off {
                assert(fl[i - 1].0 <= x < block_end(fl[i - 1]));
            } else if rm && x >= off + size {
                assert(fl[i].0 <= x < block_end(fl[i]));
            }
        } else {
            let z = y - lo - 1 + hi;
            assert(nl[y] == fl[z]);
            assert(block_end(fl[z]) < next);
            assert(fl[z].0 <= x < block_end(fl[z]));
        }
    }
}

/// Every byte free before a merging free, or freed by it, is free after.
proof fn lemma_free_merge_covers_bwd(fl: Seq<(u32, u32)>, next: int, off: int, size: int, x: int)
    requires
        free_list_wf(fl, next),
        0 <= off,
        0 < size,
        off + size < next <= u32::MAX,
        forall|k: int| 0 <= k < fl.len() ==> !overlaps(off, size, #[trigger] fl[k].0 as int, fl[k].1 as int),
        is_insert_pos(fl, off, insert_pos(fl, off)),
    ensures
        (covers(fl, x) || off <= x < off + size) ==> covers(spec_free(fl, next, off, size).0, x),
{
    let (nl, nn) = spec_free(fl, next, off, size);
    let i = insert_pos(fl, off);
    let lm = i > 0 && block_end(fl[i - 1]) == off;
    let start: int = if lm { fl[i - 1].0 as int } else { off };
    let size1: int = if lm { fl[i - 1].1 + size } else { size };
    let rm = i < fl.len() && off + size == fl[i].0;
    let size2: int = if rm { size1 + fl[i].1 } else { size1 };
    let lo: int = if lm { i - 1 } else { i };
    let hi: int = if rm { i + 1 } else { i };
    let nb: (u32, u32) = (start as u32, size2 as u32);
    assert(nb.0 == start && nb.1 == size2) by {
        if rm {
            assert(block_end(fl[i]) < next);
        }
    }
    assert(nl == fl.subrange(0, lo) + seq![nb] + fl.subrange(hi, fl.len() as int));
    if covers(fl, x) {
        let y = choose|y: int| 0 <= y < fl.len() && fl[y].0 <= x < #[trigger] block_end(fl[y]);
        if y < lo {
            assert(nl[y] == fl[y]);
            assert(nl[y].0 <= x < block_end(nl[y]));
        } else if y >= hi {
            let z = y - hi + lo + 1;
            assert(nl[z] == fl[y]);
            assert(nl[z].0 <= x < block_end(nl[z]));
        } else {
            assert(nl[lo] == nb);
            if i > 0 && y == i - 1 {
                assert(fl[y].0 < off);
                assert(!overlaps(off, size, fl[y].0 as int, fl[y].1 as int));
                assert(lm);
            } else {
                assert(y == i);
                assert(!overlaps(off, size, fl[y].0 as int, fl[y].1 as int));
                assert(rm);
            }
            assert(nl[lo].0 <= x < block_end(nl[lo]));
        }
    } else if off <= x < off + size {
        assert(nl[lo] == nb);
        assert(nl[lo].0 <= x < block_end(nl[lo]));
    }
}

/// A canonical list has an insertion point for every offset.
proof fn lemma_insert_pos_witness(fl: Seq<(u32, u32)>, next: int, off: int)
    requires
        free_list_wf(fl, next),
    ensures
        is_insert_pos(fl, off, insert_pos(fl, off)),
    decreases fl.len(),
{
    if fl.len() == 0 {
        assert(is_insert_pos(fl, off, 0));
    } else {
        let p = fl.drop_last();
        assert forall|i: int| #![trigger p[i]] 0 <= i < p.len() implies p[i].1 > 0 && block_end(p[i]) < next by {
            assert(p[i] == fl[i]);
        }
        assert forall|i: int, j: int| #![trigger p[i], p[j]] 0 <= i < j < p.len() implies block_end(p[i]) < p[j].0 by {
            assert(p[i] == fl[i] && p[j] == fl[j]);
        }
        lemma_insert_pos_witness(p, next, off);
        let k = insert_pos(p, off);
        let last = fl.len() - 1;
        if fl[last].0 < off {
            assert forall|j: int| 0 <= j < fl.len() implies #[trigger] fl[j].0 < off by {
                if j < last {
                    assert(block_end(fl[j]) < fl[last].0);
                }
            }
            assert(is_insert_pos(fl, off, fl.len() as int));
        } else {
            assert forall|j: int| 0 <= j < k implies #[trigger] fl[j].0 < off by {
                assert(p[j] == fl[j]);
            }
            assert forall|j: int| k <= j < fl.len() implies #[trigger] fl[j].0 >= off by {
                if j < last {
                    assert(p[j] == fl[j]);
                }
            }
            assert(is_insert_pos(fl, off, k));
        }
        lemma_insert_pos_unique(fl, next, off, if fl[last].0 < off { fl.len() as int } else { k });
    }
}

proof fn lemma_first_fit_unique(fl: Seq<(u32, u32)>, bytes: int, i: int)
    requires
        is_first_fit(fl, bytes, i),
    ensures
        has_fit(fl, bytes),
        first_fit(fl, bytes) == i,
{
    assert(fl[i].1 >= bytes);
    let k = first_fit(fl, bytes);
    assert(is_first_fit(fl, bytes, k));
    if k < i {
        assert(fl[k].1 < bytes);
    } else if i < k {
        assert(fl[i].1 < bytes);
    }
}

/// Allocating from a canonical arena keeps it canonical, and the returned
/// range overlaps neither a remaining free block nor a live slice.
proof fn lemma_alloc_wf(fl: Seq<(u32, u32)>, slots: Seq<Option<ArenaSlice>>, next: int, bytes: int)
    requires
        free_list_wf(fl, next),
        slices_wf(slots, fl, next),
        0 <= next <= u32::MAX,
        bytes > 0,
        alloc_in_range(fl, next, bytes),
    ensures
        ({
            let (nl, nn, r) = spec_alloc(fl, next, bytes);
            &&& free_list_wf(nl, nn)
            &&& slices_wf(slots, nl, nn)
            &&& r + bytes <= nn
            &&& 0 <= r
            &&& nn <= u32::MAX
            &&& next <= nn
            &&& forall|k: int| 0 <= k < nl.len() ==> !overlaps(r, bytes, #[trigger] nl[k].0 as int, nl[k].1 as int)
            &&& forall|s: int|
                0 <= s < slots.len() && #[trigger] slots[s] is Some ==> !overlaps(
                    r,
                    bytes,
                    slots[s]->0.offset as int,
                    slots[s]->0.byte_size as int,
                )
        }),
{
    let (nl, nn, r) = spec_alloc(fl, next, bytes);
    if has_fit(fl, bytes) {
        let i = first_fit(fl, bytes);
        let w = choose|w: int| 0 <= w < fl.len() && #[trigger] fl[w].1 >= bytes;
        lemma_first_fit_exists(fl, bytes, w);
        assert(is_first_fit(fl, bytes, i));
        let b = fl[i];
        assert(block_end(b) < next);
        assert forall|s: int|
            0 <= s < slots.len() && #[trigger] slots[s] is Some implies !overlaps(
                r,
                bytes,
                slots[s]->0.offset as int,
                slots[s]->0.byte_size as int,
            ) by {
            assert(!overlaps(slots[s]->0.offset as int, slots[s]->0.byte_size as int, fl[i].0 as int, fl[i].1 as int));
        }
        if b.1 > bytes {
            let nb: (u32, u32) = ((b.0 + bytes) as u32, (b.1 - bytes) as u32);
            assert(nb.0 == b.0 + bytes && nb.1 == b.1 - bytes);
            assert(nl == fl.update(i, nb));
            assert forall|x: int| #![trigger nl[x]] 0 <= x < nl.len() implies nl[x].1 > 0 && block_end(nl[x]) < nn by {
                if x != i {
                    assert(nl[x] == fl[x]);
                } else {
                    assert(nl[x] == nb);
                }
            }
            assert forall|x: int, y: int| #![trigger nl[x], nl[y]] 0 <= x < y < nl.len() implies block_end(nl[x]) < nl[y].0 by {
                assert(block_end(fl[x]) < fl[y].0);
                if x == i {
                    assert(nl[x] == nb && nl[y] == fl[y]);
                } else if y == i {
                    assert(nl[x] == fl[x] && nl[y] == nb);
                } else {
                    assert(nl[x] == fl[x] && nl[y] == fl[y]);
                }
            }
            assert forall|s: int, x: int|
                #![trigger slots[s], nl[x]]
                0 <= s < slots.len() && 0 <= x < nl.len() && slots[s] is Some implies !overlaps(
                    slots[s]->0.offset as int,
                    slots[s]->0.byte_size as int,
                    nl[x].0 as int,
                    nl[x].1 as int,
                ) by {
                assert(!overlaps(slots[s]->0.offset as int, slots[s]->0.byte_size as int, fl[x].0 as int, fl[x].1 as int));
                if x == i {
                    assert(nl[x] == nb);
                } else {
                    assert(nl[x] == fl[x]);
                }
            }
            assert forall|k: int| 0 <= k < nl.len() implies !overlaps(r, bytes, #[trigger] nl[k].0 as int, nl[k].1 as int) by {
                if k < i {
                    assert(nl[k] == fl[k]);
                    assert(block_end(fl[k]) < fl[i].0);
                } else if k > i {
                    assert(nl[k] == fl[k]);
                    assert(block_end(fl[i]) < fl[k].0);
                } else {
                    assert(nl[k] == nb);
                }
            }
        } else {
            assert(nl == fl.remove(i));
            assert forall|x: int| #![trigger nl[x]] 0 <= x < nl.len() implies nl[x].1 > 0 && block_end(nl[x]) < nn by {
                if x < i {
                    assert(nl[x] == fl[x]);
                } else {
                    assert(nl[x] == fl[x + 1]);
                }
            }
            assert forall|x: int, y: int| #![trigger nl[x], nl[y]] 0 <= x < y < nl.len() implies block_end(nl[x]) < nl[y].0 by {
                let fx = if x < i { x } else { x + 1 };
                let fy = if y < i { y } else { y + 1 };
                assert(nl[x] == fl[fx] && nl[y] == fl[fy]);
                assert(block_end(fl[fx]) < fl[fy].0);
            }
            assert forall|s: int, x: int|
                #![trigger slots[s], nl[x]]
                0 <= s < slots.len() && 0 <= x < nl.len() && slots[s] is Some implies !overlaps(
                    slots[s]->0.offset as int,
                    slots[s]->0.byte_size as int,
                    nl[x].0 as int,
                    nl[x].1 as int,
                ) by {
                let fx = if x < i { x } else { x + 1 };
                assert(nl[x] == fl[fx]);
                assert(!overlaps(slots[s]->0.offset as int, slots[s]->0.byte_size as int, fl[fx].0 as int, fl[fx].1 as int));
            }
            assert forall|k: int| 0 <= k < nl.len() implies !overlaps(r, bytes, #[trigger] nl[k].0 as int, nl[k].1 as int) by {
                if k < i {
                    assert(nl[k] == fl[k]);
                    assert(block_end(fl[k]) < fl[i].0);
                } else {
                    assert(nl[k] == fl[k + 1]);
                    assert(block_end(fl[i]) < fl[k + 1].0);
                }
            }
        }
    } else {
        assert forall|s: int|
            0 <= s < slots.len() && #[trigger] slots[s] is Some implies !overlaps(
                r,
                bytes,
                slots[s]->0.offset as int,
                slots[s]->0.byte_size as int,
            ) by {
        }
        assert forall|s: int, x: int|
            #![trigger slots[s], nl[x]]
            0 <= s < slots.len() && 0 <= x < nl.len() && slots[s] is Some implies !overlaps(
                slots[s]->0.offset as int,
                slots[s]->0.byte_size as int,
                nl[x].0 as int,
                nl[x].1 as int,
            ) by {
        }
    }
}

/// A list with some fitting block has a first fitting block.
proof fn lemma_first_fit_exists(fl: Seq<(u32, u32)>, bytes: int, w: int)
    requires
        0 <= w < fl.len(),
        fl[w].1 >= bytes,
    ensures
        exists|i: int| is_first_fit(fl, bytes, i),
    decreases w,
{
    if exists|j: int| 0 <= j < w && #[trigger] fl[j].1 >= bytes {
        let j = choose|j: int| 0 <= j < w && #[trigger] fl[j].1 >= bytes;
        lemma_first_fit_exists(fl, bytes, j);
    } else {
        assert(is_first_fit(fl, bytes, w));
    }
}

/// The free list, cursor and returned offset after allocating `bytes`:
/// first fit from the free list (the block shrinks from its front, or
/// disappears when used up), else an append at the cursor.
pub open spec fn spec_alloc(fl: Seq<(u32, u32)>, next: int, bytes: int) -> (Seq<(u32, u32)>, int, int) {
    if has_fit(fl, bytes) {
        let i = first_fit(fl, bytes);
        let b = fl[i];
        if b.1 > bytes {
            (fl.update(i, ((b.0 + bytes) as u32, (b.1 - bytes) as u32)), next, b.0 as int)
        } else {
            (fl.remove(i), next, b.0 as int)
        }
    } else {
        (fl, next + bytes, next)
    }
}

/// An allocation of `bytes` from this free list and cursor cannot push the
/// cursor past `u32::MAX`.
pub open spec fn alloc_in_range(fl: Seq<(u32, u32)>, next: int, bytes: int) -> bool {
    has_fit(fl, bytes) || next + bytes <= u32::MAX
}


/// The free list and cursor once the slice held by `slot` (if any) has been
/// returned.
pub open spec fn spec_free_slot(fl: Seq<(u32, u32)>, next: int, slots: Seq<Option<ArenaSlice>>, slot: int) -> (Seq<(u32, u32)>, int) {
    match slots[slot] {
        Some(s) => spec_free(fl, next, s.offset as int, s.byte_size as int),
        None => (fl, next),
    }
}

/// The indirect-draw records for the slots `ids`, in order; slots without
/// a slice (never filled, or freed) are skipped.
pub open spec fn spec_args(slices: Seq<Option<ArenaSlice>>, wire: u32, index_count: u32, ids: Seq<u32>) -> Seq<IndirectArgs>
    decreases ids.len(),
{
    if ids.len() == 0 {
        Seq::empty()
    } else {
        let prev = spec_args(slices, wire, index_count, ids.drop_last());
        let id = ids.last() as int;
        if id < slices.len() && slices[id] is Some {
            prev.push(
                IndirectArgs {
                    index_count,
                    instance_count: slices[id]->0.instance_count,
                    first_index: 0,
                    base_vertex: 0,
                    first_instance: (slices[id]->0.offset / wire) as u32,
                },
            )
        } else {
            prev
        }
    }
}

/// The wire size used to turn byte offsets into instance indices
/// (a zero-sized instance counts as one byte).
pub open spec fn index_wire(wire: int) -> u32 {
    (if wire > 1 { wire } else { 1 }) as u32
}

/// The first instance to upload when a slot's slice is rewritten: the
/// buffer's dirty watermark when the slice kept its offset, 0 when it moved
/// or is new, never past the instance count.
pub open spec fn spec_dirty_upload_start(prev_offset: Option<u32>, offset: u32, dirty_from: u32, count: u32) -> int {
    vstd::math::min(if prev_offset == Some(offset) { dirty_from as int } else { 0 }, count as int)
}

/// The CPU mirror after writing `bytes` at `start`: grown with zeros to
/// reach the end of the write when shorter, the written range replaced.
pub open spec fn spec_write_mirror(old: Seq<u8>, start: int, bytes: Seq<u8>) -> Seq<u8> {
    let end = start + bytes.len();
    let len = if old.len() < end { end } else { old.len() as int };
    Seq::new(
        len as nat,
        |k: int|
            if start <= k < end {
                bytes[k - start]
            } else if k < old.len() {
                old[k]
            } else {
                0u8
            },
    )
}

/// A mirror write changes only the bytes it writes: the mirror becomes long
/// enough to end the write (and no longer than needed for that), each byte
/// of `[start, start + bytes.len())` is the written byte, every other byte
/// below the old length keeps its old value, whether or not the mirror grew,
/// and any other new byte is zero.
pub proof fn lemma_write_mirror_touches_only_its_range(old: Seq<u8>, start: int, bytes: Seq<u8>, k: int)
    requires
        0 <= start,
    ensures
        spec_write_mirror(old, start, bytes).len() == vstd::math::max(old.len() as int, start + bytes.len()),
        start <= k < start + bytes.len() ==> spec_write_mirror(old, start, bytes)[k] == bytes[k - start],
        0 <= k < old.len() && !(start <= k < start + bytes.len()) ==> spec_write_mirror(old, start, bytes)[k]
            == old[k],
        old.len() <= k < spec_write_mirror(old, start, bytes).len() && !(start <= k < start + bytes.len())
            ==> spec_write_mirror(old, start, bytes)[k] == 0u8,
{
}

/// Size to grow the arena storage buffer to, given its current size and the
/// bytes actually needed: the largest of `needed`, [`MIN_ARENA_BYTES`] and
/// 1.5× the current size.
pub open spec fn spec_grow_size(current: int, needed: int) -> int {
    vstd::math::max3(needed, MIN_ARENA_BYTES as int, current * 3 / 2)
}

/// Size to grow the arena storage buffer to, given its current size and the
/// bytes actually needed: at least 1.5× the current size (so recreation is
/// amortized), at least [`MIN_ARENA_BYTES`], and at least `needed`.
pub fn arena_grow_size(current: u64, needed: u64) -> (r: u64)
    requires
        current * 3 <= u64::MAX,
    ensures
        r == spec_grow_size(current as int, needed as int),
        r >= needed,
        r >= MIN_ARENA_BYTES,
        r >= current * 3 / 2,
{
    let a = if needed > 1 { needed } else { 1 };
    let b = if a > MIN_ARENA_BYTES { a } else { MIN_ARENA_BYTES };
    let c = current * 3 / 2;
    if b > c { b } else { c }
}

/// A shared instance buffer's bookkeeping: per-object slices over one byte
/// range, reused through a coalescing free list.
///
/// Allocation reuses freed space: freed slices go to a free list kept sorted
/// by offset in which adjacent blocks merge, so fragmented garbage recombines
/// into large reusable blocks; a slice freed at the very end of the arena
/// simply rewinds the append cursor, so a cell that grows by repeated
/// re-uploads never accumulates dead space. The CPU mirror keeps the bytes
/// of every slice so that a grown GPU buffer can be refilled without
/// re-serializing instances.
pub struct InstanceArena {
    cpu_mirror: Vec<u8>,
    wire_size: usize,
    slots: Vec<Option<ArenaSlice>>,
    free_list: Vec<(u32, u32)>,
    next_offset: u32,
}

impl InstanceArena {
    /// The free list (sorted by offset).
    pub closed spec fn free_blocks(&self) -> Seq<(u32, u32)> {
        self.free_list@
    }

    /// The append cursor: the end of the committed byte range.
    pub closed spec fn next(&self) -> int {
        self.next_offset as int
    }

    /// The per-object slices, indexed by slot id.
    pub closed spec fn slices(&self) -> Seq<Option<ArenaSlice>> {
        self.slots@
    }

    /// Wire byte size of one instance.
    pub closed spec fn wire(&self) -> int {
        self.wire_size as int
    }

    /// The CPU byte mirror of the arena buffer.
    pub closed spec fn mirror(&self) -> Seq<u8> {
        self.cpu_mirror@
    }

    /// The arena's internal invariant: a canonical free list and live
    /// slices that overlap neither each other nor the free blocks.
    pub closed spec fn wf(&self) -> bool {
        &&& free_list_wf(self.free_list@, self.next_offset as int)
        &&& slices_wf(self.slots@, self.free_list@, self.next_offset as int)
    }

    /// What every operation keeps: the free list is sorted by offset with a
    /// gap between any two blocks (adjacent blocks are merged), every free
    /// block is non-empty and ends before the append cursor, and no free
    /// block overlaps a live slice; live slices lie below the cursor and do
    /// not overlap each other.
    pub proof fn lemma_free_list_canonical(&self)
        requires
            self.wf(),
        ensures
            free_list_wf(self.free_blocks(), self.next()),
            slices_wf(self.slices(), self.free_blocks(), self.next()),
    {
    }

    /// An empty arena for instances of `wire_size` bytes.
    pub fn new(wire_size: usize) -> (r: Self)
        ensures
            r.wf(),
            r.free_blocks() == Seq::<(u32, u32)>::empty(),
            r.next() == 0,
            r.slices() == Seq::<Option<ArenaSlice>>::empty(),
            r.wire() == wire_size,
            r.mirror() == Seq::<u8>::empty(),
    {
        InstanceArena {
            cpu_mirror: Vec::new(),
            wire_size,
            slots: Vec::new(),
            free_list: Vec::new(),
            next_offset: 0,
        }
    }

    /// Returns a slice's byte range to the free list, merging with adjacent
    /// free blocks; a range at the very end of the arena rewinds the append
    /// cursor instead (past the last free block too, when that block becomes
    /// the new tail).
    fn free(&mut self, offset: u32, size: u32)
        requires
            old(self).wf(),
            size == 0 || offset + size <= old(self).next_offset,
            forall|k: int|
                0 <= k < old(self).free_list@.len() ==> !overlaps(
                    offset as int,
                    size as int,
                    #[trigger] old(self).free_list@[k].0 as int,
                    old(self).free_list@[k].1 as int,
                ),
            forall|i: int|
                0 <= i < old(self).slots@.len() && #[trigger] old(self).slots@[i] is Some ==> !overlaps(
                    offset as int,
                    size as int,
                    old(self).slots@[i]->0.offset as int,
                    old(self).slots@[i]->0.byte_size as int,
                ),
        ensures
            final(self).wf(),
            (final(self).free_list@, final(self).next_offset as int) == spec_free(
                old(self).free_list@,
                old(self).next_offset as int,
                offset as int,
                size as int,
            ),
            final(self).slots@ == old(self).slots@,
            final(self).wire_size == old(self).wire_size,
            final(self).cpu_mirror@ == old(self).cpu_mirror@,
    {
        if size == 0 {
            return;
        }
        if offset + size == self.next_offset {
            proof {
                lemma_free_wf(self.free_list@, self.slots@, self.next_offset as int, offset as int, size as int, 0);
            }
            self.next_offset = offset;
            let n = self.free_list.len();
            if n > 0 {
                let (off, sz) = self.free_list[n - 1];
                if off + sz == self.next_offset {
                    self.next_offset = off;
                    self.free_list.pop();
                    proof {
                        assert(self.free_list@ =~= old(self).free_list@.drop_last());
                    }
                }
            }
            return;
        }
        let ghost fl = self.free_list@;
        let mut idx: usize = 0;
        while idx < self.free_list.len() && self.free_list[idx].0 < offset
            invariant
                self.free_list@ == fl,
                fl == old(self).free_list@,
                self.slots@ == old(self).slots@,
                self.next_offset == old(self).next_offset,
                0 <= idx <= fl.len(),
                forall|j: int| 0 <= j < idx ==> #[trigger] fl[j].0 < offset,
            decreases fl.len() - idx,
        {
            idx = idx + 1;
        }
        proof {
            assert(is_insert_pos(fl, offset as int, idx as int));
            lemma_insert_pos_unique(fl, self.next_offset as int, offset as int, idx as int);
            lemma_free_wf(fl, self.slots@, self.next_offset as int, offset as int, size as int, idx as int);
        }
        let ghost ip = idx as int;
        let mut off = offset;
        let mut sz = size;
        let ghost lm = false;
        if idx > 0 {
            let (left_off, left_sz) = self.free_list[idx - 1];
            if left_off + left_sz == offset {
                off = left_off;
                sz = sz + left_sz;
                self.free_list.remove(idx - 1);
                idx = idx - 1;
                proof { lm = true; }
            }
        }
        if idx < self.free_list.len() {
            let (right_off, right_sz) = self.free_list[idx];
            if off + sz == right_off {
                sz = sz + right_sz;
                self.free_list.remove(idx);
            }
        }
        self.free_list.insert(idx, (off, sz));
        proof {
            let lmx = ip > 0 && block_end(fl[ip - 1]) == offset;
            let lo = if lmx { ip - 1 } else { ip };
            assert(lm == lmx);
            assert(idx == lo);
            let r = spec_free(fl, old(self).next_offset as int, offset as int, size as int);
            assert(self.free_list@ =~= r.0);
        }
    }
    /// Allocates a range of `bytes` and returns its byte offset: the first
    /// free block large enough is used from its front (first fit), and only
    /// when none fits is the range appended at the cursor.
    fn allocate(&mut self, bytes: u32) -> (r: u32)
        requires
            old(self).wf(),
            bytes > 0,
            alloc_in_range(old(self).free_list@, old(self).next_offset as int, bytes as int),
        ensures
            final(self).wf(),
            (final(self).free_list@, final(self).next_offset as int, r as int) == spec_alloc(
                old(self).free_list@,
                old(self).next_offset as int,
                bytes as int,
            ),
            final(self).slots@ == old(self).slots@,
            final(self).wire_size == old(self).wire_size,
            final(self).cpu_mirror@ == old(self).cpu_mirror@,
            r + bytes <= final(self).next_offset,
            forall|s: int|
                0 <= s < final(self).slots@.len() && #[trigger] final(self).slots@[s] is Some ==> !overlaps(
                    r as int,
                    bytes as int,
                    final(self).slots@[s]->0.offset as int,
                    final(self).slots@[s]->0.byte_size as int,
                ),
            forall|k: int|
                0 <= k < final(self).free_list@.len() ==> !overlaps(
                    r as int,
                    bytes as int,
                    #[trigger] final(self).free_list@[k].0 as int,
                    final(self).free_list@[k].1 as int,
                ),
    {
        proof {
            lemma_alloc_wf(self.free_list@, self.slots@, self.next_offset as int, bytes as int);
        }
        let ghost fl = self.free_list@;
        let n = self.free_list.len();
        let mut i: usize = 0;
        while i < n && self.free_list[i].1 < bytes
            invariant
                self.free_list@ == fl,
                n == fl.len(),
                0 <= i <= n,
                forall|j: int| 0 <= j < i ==> #[trigger] fl[j].1 < bytes,
            decreases n - i,
        {
            i = i + 1;
        }
        if i < n {
            proof {
                lemma_first_fit_unique(fl, bytes as int, i as int);
            }
            let (offset, size) = self.free_list.remove(i);
            let rem = size - bytes;
            if rem > 0 {
                self.free_list.insert(i, (offset + bytes, rem));
                proof {
                    assert(self.free_list@ =~= fl.update(i as int, ((offset + bytes) as u32, rem)));
                }
            }
            return offset;
        }
        proof {
            if has_fit(fl, bytes as int) {
                let w = choose|w: int| 0 <= w < fl.len() && #[trigger] fl[w].1 >= bytes;
                assert(fl[w].1 < bytes);
            }
        }
        let offset = self.next_offset;
        self.next_offset = self.next_offset + bytes;
        offset
    }
    /// Registers a new object slot and returns its stable id.
    pub fn add_slot(&mut self) -> (r: usize)
        requires
            old(self).wf(),
        ensures
            final(self).wf(),
            r == old(self).slices().len(),
            final(self).slices() == old(self).slices().push(None),
            final(self).free_blocks() == old(self).free_blocks(),
            final(self).next() == old(self).next(),
            final(self).wire() == old(self).wire(),
            final(self).mirror() == old(self).mirror(),
    {
        self.slots.push(None);
        proof {
            let sl = self.slots@;
            let os = old(self).slots@;
            assert forall|i: int, j: int|
                #![trigger sl[i], sl[j]]
                0 <= i < sl.len() && 0 <= j < sl.len() && i != j && sl[i] is Some && sl[j] is Some
                    implies !overlaps(
                    sl[i]->0.offset as int,
                    sl[i]->0.byte_size as int,
                    sl[j]->0.offset as int,
                    sl[j]->0.byte_size as int,
                ) by {
                assert(sl[i] == os[i] && sl[j] == os[j]);
            }
            assert forall|i: int, k: int|
                #![trigger sl[i], self.free_list@[k]]
                0 <= i < sl.len() && 0 <= k < self.free_list@.len() && sl[i] is Some implies !overlaps(
                    sl[i]->0.offset as int,
                    sl[i]->0.byte_size as int,
                    self.free_list@[k].0 as int,
                    self.free_list@[k].1 as int,
                ) by {
                assert(sl[i] == os[i]);
            }
            assert forall|i: int|
                0 <= i < sl.len() && #[trigger] sl[i] is Some implies sl[i]->0.offset
                    + sl[i]->0.byte_size <= self.next_offset || sl[i]->0.byte_size == 0 by {
                assert(sl[i] == os[i]);
            }
        }
        self.slots.len() - 1
    }

    /// Total bytes committed so far: the arena buffer must be at least this
    /// large to hold every allocated slice. Shrinks when tail slices are
    /// freed.
    pub fn committed_size(&self) -> (r: u64)
        ensures
            r == self.next(),
    {
        self.next_offset as u64
    }

    /// Number of registered slots (including freed ones).
    pub fn slot_count(&self) -> (r: usize)
        ensures
            r == self.slices().len(),
    {
        self.slots.len()
    }

    /// The slice currently stored at `slot`, if any (freed and unknown slots
    /// give `None`).
    pub fn slice(&self, slot: u32) -> (r: Option<ArenaSlice>)
        ensures
            r == (if (slot as int) < self.slices().len() { self.slices()[slot as int] } else { None }),
    {
        if (slot as usize) < self.slots.len() {
            self.slots[slot as usize]
        } else {
            None
        }
    }

    /// Clears a slot's slice (the object became empty), returning its bytes
    /// to the arena.
    pub fn free_slot(&mut self, slot: usize)
        requires
            old(self).wf(),
            slot < old(self).slices().len(),
        ensures
            final(self).wf(),
            final(self).slices() == old(self).slices().update(slot as int, None),
            (final(self).free_blocks(), final(self).next()) == spec_free_slot(
                old(self).free_blocks(),
                old(self).next(),
                old(self).slices(),
                slot as int,
            ),
            final(self).wire() == old(self).wire(),
            final(self).mirror() == old(self).mirror(),
    {
        let taken = self.slots[slot];
        match taken {
            Some(old_slice) => {
                self.slots.set(slot, None);
                proof {
                    let os = old(self).slots@;
                    let sl = self.slots@;
                    assert(os[slot as int] == Some(old_slice));
                    assert forall|i: int|
                        0 <= i < sl.len() && #[trigger] sl[i] is Some implies !overlaps(
                            old_slice.offset as int,
                            old_slice.byte_size as int,
                            sl[i]->0.offset as int,
                            sl[i]->0.byte_size as int,
                        ) by {
                        assert(sl[i] == os[i]);
                        assert(os[i] is Some && os[slot as int] is Some);
                        assert(i != slot);
                    }
                    assert forall|k: int|
                        0 <= k < self.free_list@.len() implies !overlaps(
                            old_slice.offset as int,
                            old_slice.byte_size as int,
                            #[trigger] self.free_list@[k].0 as int,
                            self.free_list@[k].1 as int,
                        ) by {
                        assert(os[slot as int] is Some);
                    }
                    assert forall|i: int, j: int|
                        #![trigger sl[i], sl[j]]
                        0 <= i < sl.len() && 0 <= j < sl.len() && i != j && sl[i] is Some && sl[j] is Some
                            implies !overlaps(
                            sl[i]->0.offset as int,
                            sl[i]->0.byte_size as int,
                            sl[j]->0.offset as int,
                            sl[j]->0.byte_size as int,
                        ) by {
                        assert(sl[i] == os[i] && sl[j] == os[j]);
                    }
                    assert forall|i: int, k: int|
                        #![trigger sl[i], self.free_list@[k]]
                        0 <= i < sl.len() && 0 <= k < self.free_list@.len() && sl[i] is Some implies !overlaps(
                            sl[i]->0.offset as int,
                            sl[i]->0.byte_size as int,
                            self.free_list@[k].0 as int,
                            self.free_list@[k].1 as int,
                        ) by {
                        assert(sl[i] == os[i]);
                    }
                    assert forall|i: int|
                        0 <= i < sl.len() && #[trigger] sl[i] is Some implies sl[i]->0.offset
                            + sl[i]->0.byte_size <= self.next_offset || sl[i]->0.byte_size == 0 by {
                        assert(sl[i] == os[i]);
                    }
                    assert(old_slice.offset + old_slice.byte_size <= self.next_offset || old_slice.byte_size == 0);
                }
                self.free(old_slice.offset, old_slice.byte_size);
            },
            None => {},
        }
    }

    /// Replaces a slot's slice: frees the old one, allocates `bytes` for
    /// `instance_count` instances (first fit, else appended), records the new
    /// slice and returns its byte offset.
    ///
    /// `bytes` is the length of the object's serialized instances (at least
    /// one byte), so it always covers `instance_count` wire-sized instances.
    pub fn alloc_for_slot(&mut self, slot: usize, instance_count: u32, bytes: u32) -> (r: u32)
        requires
            old(self).wf(),
            slot < old(self).slices().len(),
            bytes > 0,
            instance_count * old(self).wire() <= bytes,
            ({
                let (fl1, n1) = spec_free_slot(old(self).free_blocks(), old(self).next(), old(self).slices(), slot as int);
                alloc_in_range(fl1, n1, bytes as int)
            }),
        ensures
            final(self).wf(),
            ({
                let (fl1, n1) = spec_free_slot(old(self).free_blocks(), old(self).next(), old(self).slices(), slot as int);
                let (fl2, n2, off) = spec_alloc(fl1, n1, bytes as int);
                &&& final(self).free_blocks() == fl2
                &&& final(self).next() == n2
                &&& r == off
            }),
            final(self).slices() == old(self).slices().update(
                slot as int,
                Some(
                    ArenaSlice {
                        offset: r,
                        byte_size: (instance_count * old(self).wire()) as u32,
                        instance_count,
                    },
                ),
            ),
            r + bytes <= final(self).next(),
            forall|s: int|
                0 <= s < final(self).slices().len() && s != slot && #[trigger] final(self).slices()[s] is Some
                    ==> !overlaps(
                    r as int,
                    bytes as int,
                    final(self).slices()[s]->0.offset as int,
                    final(self).slices()[s]->0.byte_size as int,
                ),
            final(self).wire() == old(self).wire(),
            final(self).mirror() == old(self).mirror(),
    {
        self.free_slot(slot);
        let offset = self.allocate(bytes);
        let byte_size = instance_count as usize * self.wire_size;
        let ghost mid = self.slots@;
        let new_slice = ArenaSlice { offset, byte_size: byte_size as u32, instance_count };
        self.slots.set(slot, Some(new_slice));
        proof {
            let sl = self.slots@;
            assert(new_slice.byte_size as int == instance_count * self.wire_size);
            assert forall|i: int|
                0 <= i < sl.len() && #[trigger] sl[i] is Some implies sl[i]->0.offset
                    + sl[i]->0.byte_size <= self.next_offset || sl[i]->0.byte_size == 0 by {
                if i != slot {
                    assert(sl[i] == mid[i]);
                }
            }
            assert forall|i: int, j: int|
                #![trigger sl[i], sl[j]]
                0 <= i < sl.len() && 0 <= j < sl.len() && i != j && sl[i] is Some && sl[j] is Some
                    implies !overlaps(
                    sl[i]->0.offset as int,
                    sl[i]->0.byte_size as int,
                    sl[j]->0.offset as int,
                    sl[j]->0.byte_size as int,
                ) by {
                if i == slot {
                    assert(sl[j] == mid[j]);
                    assert(mid[j] is Some);
                } else if j == slot {
                    assert(sl[i] == mid[i]);
                    assert(mid[i] is Some);
                } else {
                    assert(sl[i] == mid[i] && sl[j] == mid[j]);
                }
            }
            assert forall|i: int, k: int|
                #![trigger sl[i], self.free_list@[k]]
                0 <= i < sl.len() && 0 <= k < self.free_list@.len() && sl[i] is Some implies !overlaps(
                    sl[i]->0.offset as int,
                    sl[i]->0.byte_size as int,
                    self.free_list@[k].0 as int,
                    self.free_list@[k].1 as int,
                ) by {
                if i != slot {
                    assert(sl[i] == mid[i]);
                }
            }
            assert forall|s: int|
                0 <= s < sl.len() && s != slot && #[trigger] sl[s] is Some implies !overlaps(
                    offset as int,
                    bytes as int,
                    sl[s]->0.offset as int,
                    sl[s]->0.byte_size as int,
                ) by {
                assert(sl[s] == mid[s]);
            }
        }
        offset
    }

    /// The first instance index that must be uploaded to make a slot's
    /// slice match its buffer: the buffer's `dirty_from` watermark when the
    /// slice stayed at its previous offset (only the app-changed tail is
    /// stale), 0 when it moved or the slot is fresh (the head at a new offset
    /// would be stale), clamped to the instance count.
    pub fn dirty_upload_start(prev_offset: Option<u32>, offset: u32, dirty_from: u32, count: u32) -> (r: u32)
        ensures
            r == spec_dirty_upload_start(prev_offset, offset, dirty_from, count),
    {
        let s = match prev_offset {
            Some(p) => if p == offset { dirty_from } else { 0 },
            None => 0,
        };
        if s < count { s } else { count }
    }

    /// Re-places `slot`'s slice for a buffer of `count` instances and
    /// `byte_len` serialized bytes (the slice takes at least one byte), and
    /// reports from which instance on the buffer must be uploaded: `(offset,
    /// start)`. Nothing needs uploading when `start == count`.
    pub fn sync_offsets(&mut self, slot: usize, count: u32, byte_len: usize, dirty_from: u32) -> (r: (u32, u32))
        requires
            old(self).wf(),
            slot < old(self).slices().len(),
            slot <= u32::MAX,
            count * old(self).wire() <= (if byte_len as u32 > 1 { byte_len as u32 } else { 1 }),
            ({
                let (fl1, n1) = spec_free_slot(old(self).free_blocks(), old(self).next(), old(self).slices(), slot as int);
                alloc_in_range(fl1, n1, (if byte_len as u32 > 1 { byte_len as u32 } else { 1u32 }) as int)
            }),
        ensures
            final(self).wf(),
            ({
                let bytes = (if byte_len as u32 > 1 { byte_len as u32 } else { 1u32 }) as int;
                let (fl1, n1) = spec_free_slot(old(self).free_blocks(), old(self).next(), old(self).slices(), slot as int);
                let (fl2, n2, off) = spec_alloc(fl1, n1, bytes);
                let prev = match old(self).slices()[slot as int] {
                    Some(s) => Some(s.offset),
                    None => None,
                };
                &&& final(self).free_blocks() == fl2
                &&& final(self).next() == n2
                &&& r.0 == off
                &&& r.1 == spec_dirty_upload_start(prev, r.0, dirty_from, count)
            }),
            final(self).slices() == old(self).slices().update(
                slot as int,
                Some(ArenaSlice { offset: r.0, byte_size: (count * old(self).wire()) as u32, instance_count: count }),
            ),
            final(self).wire() == old(self).wire(),
            final(self).mirror() == old(self).mirror(),
    {
        let truncated = byte_len as u32;
        let bytes_len = if truncated > 1 { truncated } else { 1 };
        let prev = match self.slice(slot as u32) {
            Some(s) => Some(s.offset),
            None => None,
        };
        let offset = self.alloc_for_slot(slot, count, bytes_len);
        let start = Self::dirty_upload_start(prev, offset, dirty_from, count);
        (offset, start)
    }

    /// Indirect draw records for the given slots, in order (slots without a
    /// slice are skipped).
    pub fn args_for(&self, index_count: u32, slots: &[u32]) -> (r: Vec<IndirectArgs>)
        requires
            index_wire(self.wire()) != 0,
        ensures
            r@ == spec_args(self.slices(), index_wire(self.wire()), index_count, slots@),
    {
        let wire: u32 = (if self.wire_size > 1 { self.wire_size } else { 1 }) as u32;
        let mut out: Vec<IndirectArgs> = Vec::new();
        let mut i: usize = 0;
        while i < slots.len()
            invariant
                0 <= i <= slots@.len(),
                wire == index_wire(self.wire()),
                wire != 0,
                out@ == spec_args(self.slots@, wire, index_count, slots@.subrange(0, i as int)),
            decreases slots@.len() - i,
        {
            let id = slots[i];
            proof {
                assert(slots@.subrange(0, i + 1).drop_last() =~= slots@.subrange(0, i as int));
            }
            match self.slice(id) {
                Some(s) => {
                    out.push(
                        IndirectArgs {
                            index_count,
                            instance_count: s.instance_count,
                            first_index: 0,
                            base_vertex: 0,
                            first_instance: s.offset / wire,
                        },
                    );
                },
                None => {},
            }
            i = i + 1;
        }
        proof {
            assert(slots@.subrange(0, slots@.len() as int) =~= slots@);
        }
        out
    }

    /// Writes `bytes` for a slice into the CPU mirror at `offset`, growing
    /// the mirror with zeros when it is too short.
    pub fn write_mirror(&mut self, offset: u32, bytes: &[u8])
        requires
            old(self).wf(),
            offset + bytes@.len() <= usize::MAX,
        ensures
            final(self).wf(),
            final(self).mirror() == spec_write_mirror(old(self).mirror(), offset as int, bytes@),
            final(self).mirror().len() >= offset + bytes@.len(),
            final(self).mirror().len() >= old(self).mirror().len(),
            forall|k: int| 0 <= k < bytes@.len() ==> final(self).mirror()[offset + k] == #[trigger] bytes@[k],
            forall|k: int|
                0 <= k < old(self).mirror().len() && !(offset <= k < offset + bytes@.len())
                    ==> #[trigger] final(self).mirror()[k] == old(self).mirror()[k],
            final(self).free_blocks() == old(self).free_blocks(),
            final(self).next() == old(self).next(),
            final(self).slices() == old(self).slices(),
            final(self).wire() == old(self).wire(),
    {
        let start = offset as usize;
        let end = start + bytes.len();
        if self.cpu_mirror.len() < end {
            self.cpu_mirror.resize(end, 0u8);
        }
        let ghost grown = self.cpu_mirror@;
        let mut k: usize = 0;
        while k < bytes.len()
            invariant
                start == offset,
                end == start + bytes@.len(),
                0 <= k <= bytes@.len(),
                self.cpu_mirror@.len() == grown.len(),
                grown.len() >= end,
                self.free_list@ == old(self).free_list@,
                self.slots@ == old(self).slots@,
                self.next_offset == old(self).next_offset,
                self.wire_size == old(self).wire_size,
                forall|x: int| 0 <= x < grown.len() ==> #[trigger] self.cpu_mirror@[x] == (if start <= x < start + k { bytes@[x - start] } else { grown[x] }),
            decreases bytes@.len() - k,
        {
            self.cpu_mirror.set(start + k, bytes[k]);
            k = k + 1;
        }
        proof {
            let want = spec_write_mirror(old(self).cpu_mirror@, offset as int, bytes@);
            let om = old(self).cpu_mirror@;
            assert forall|x: int| 0 <= x < grown.len() implies #[trigger] grown[x] == (if x < om.len() { om[x] } else { 0u8 }) by {
                if om.len() < end {
                    if x < om.len() {
                        assert(grown.subrange(0, om.len() as int)[x] == om[x]);
                    }
                }
            }
            assert(self.cpu_mirror@ =~= want);
        }
    }

    /// The CPU half of growing the arena buffer: when the buffer's current
    /// size is below `needed`, the mirror is resized to the grown size
    /// ([`arena_grow_size`]) and that size is returned so the caller can
    /// recreate the GPU buffer; otherwise nothing changes.
    pub fn grow_mirror(&mut self, current: u64, needed: u64) -> (r: Option<u64>)
        requires
            old(self).wf(),
            current < needed ==> current * 3 <= u64::MAX,
            current < needed ==> spec_grow_size(current as int, needed as int) <= usize::MAX,
        ensures
            final(self).wf(),
            current < needed ==> r == Some(spec_grow_size(current as int, needed as int) as u64),
            current >= needed ==> r is None,
            current < needed ==> final(self).mirror().len() == spec_grow_size(current as int, needed as int),
            current < needed ==> forall|x: int|
                0 <= x < final(self).mirror().len() ==> #[trigger] final(self).mirror()[x] == (if x < old(self).mirror().len() { old(self).mirror()[x] } else { 0u8 }),
            current >= needed ==> final(self).mirror() == old(self).mirror(),
            final(self).free_blocks() == old(self).free_blocks(),
            final(self).next() == old(self).next(),
            final(self).slices() == old(self).slices(),
            final(self).wire() == old(self).wire(),
    {
        if current < needed {
            let size = arena_grow_size(current, needed);
            self.cpu_mirror.resize(size as usize, 0u8);
            proof {
                let om = old(self).cpu_mirror@;
                let m = self.cpu_mirror@;
                assert forall|x: int| 0 <= x < m.len() implies #[trigger] m[x] == (if x < om.len() { om[x] } else { 0u8 }) by {
                    if size as int <= om.len() {
                        assert(m[x] == om.subrange(0, size as int)[x]);
                    } else if x < om.len() {
                        assert(m.subrange(0, om.len() as int)[x] == om[x]);
                    }
                }
            }
            Some(size)
        } else {
            None
        }
    }

    /// The CPU mirror's bytes (what a recreated GPU buffer is refilled from).
    pub fn mirror_bytes(&self) -> (r: &Vec<u8>)
        ensures
            r@ == self.mirror(),
    {
        &self.cpu_mirror
    }

    /// Wire byte size of one instance.
    pub fn wire_size(&self) -> (r: usize)
        ensures
            r == self.wire(),
    {
        self.wire_size
    }
}

/// The CPU side of one render object's instance data: the serialized
/// instances, their count, and the upload watermark.
///
/// The watermark `dirty_from` is the first instance whose bytes may be
/// stale on the GPU. Appends move it to the first not-yet-uploaded
/// instance; `clear` resets it to 0 (a rebuilt buffer is entirely dirty);
/// the upload node calls `clear_dirty` after uploading `[dirty_from..]`, so
/// a buffer that only grows re-uploads just its new tail.
#[derive(Debug)]
pub struct InstanceBuffer {
    data: Vec<u8>,
    instance_count: u32,
    dirty_from: u32,
}

/// Appends `bytes` to `out`.
fn append_bytes(out: &mut Vec<u8>, bytes: &[u8])
    ensures
        final(out)@ == old(out)@ + bytes@,
{
    let mut i: usize = 0;
    while i < bytes.len()
        invariant
            0 <= i <= bytes@.len(),
            out@ == old(out)@ + bytes@.subrange(0, i as int),
        decreases bytes@.len() - i,
    {
        out.push(bytes[i]);
        proof {
            assert(bytes@.subrange(0, i + 1) =~= bytes@.subrange(0, i as int).push(bytes@[i as int]));
        }
        i = i + 1;
    }
    proof {
        assert(bytes@.subrange(0, i as int) =~= bytes@);
    }
}

/// The wire bytes of `instances`, one instance after another.
pub open spec fn concat_bytes(instances: Seq<Vec<u8>>) -> Seq<u8> {
    instances.map_values(|v: Vec<u8>| v@).flatten()
}

impl InstanceBuffer {
    /// The serialized instances.
    pub closed spec fn data(&self) -> Seq<u8> {
        self.data@
    }

    /// The number of instances.
    pub closed spec fn count(&self) -> u32 {
        self.instance_count
    }

    /// The upload watermark.
    pub closed spec fn watermark(&self) -> u32 {
        self.dirty_from
    }

    /// An empty buffer.
    pub fn new() -> (r: Self)
        ensures
            r.data() == Seq::<u8>::empty(),
            r.count() == 0,
            r.watermark() == 0,
    {
        InstanceBuffer { data: Vec::new(), instance_count: 0, dirty_from: 0 }
    }

    /// Appends one instance, given as its wire bytes.
    pub fn push(&mut self, instance: &[u8])
        requires
            old(self).count() < u32::MAX,
        ensures
            final(self).data() == old(self).data() + instance@,
            final(self).count() == old(self).count() + 1,
            final(self).watermark() == if old(self).watermark() < old(self).count() {
                old(self).watermark()
            } else {
                old(self).count()
            },
    {
        if self.instance_count < self.dirty_from {
            self.dirty_from = self.instance_count;
        }
        append_bytes(&mut self.data, instance);
        self.instance_count = self.instance_count + 1;
    }

    /// Appends several instances, each given as its wire bytes.
    pub fn extend(&mut self, instances: &[Vec<u8>])
        requires
            old(self).count() + instances@.len() <= u32::MAX,
        ensures
            final(self).data() == old(self).data() + concat_bytes(instances@),
            final(self).count() == old(self).count() + instances@.len(),
            final(self).watermark() == if old(self).watermark() < old(self).count() {
                old(self).watermark()
            } else {
                old(self).count()
            },
    {
        if self.instance_count < self.dirty_from {
            self.dirty_from = self.instance_count;
        }
        let ghost dirty_from = self.dirty_from;
        let mut i: usize = 0;
        while i < instances.len()
            invariant
                0 <= i <= instances@.len(),
                self.data@ == old(self).data@ + concat_bytes(instances@.subrange(0, i as int)),
                self.instance_count == old(self).instance_count,
                self.dirty_from == dirty_from,
            decreases instances@.len() - i,
        {
            append_bytes(&mut self.data, instances[i].as_slice());
            proof {
                let f = |v: Vec<u8>| v@;
                assert(instances@.subrange(0, i + 1).map_values(f) =~= instances@.subrange(0, i as int).map_values(
                    f,
                ).push(instances@[i as int]@));
                instances@.subrange(0, i as int).map_values(f).lemma_flatten_push(instances@[i as int]@);
            }
            i = i + 1;
        }
        proof {
            assert(instances@.subrange(0, i as int) =~= instances@);
        }
        self.instance_count = self.instance_count + instances.len() as u32;
    }

    /// The serialized instances.
    pub fn as_bytes(&self) -> (r: &[u8])
        ensures
            r@ == self.data(),
    {
        self.data.as_slice()
    }

    /// The number of instances.
    pub fn instance_count(&self) -> (r: u32)
        ensures
            r == self.count(),
    {
        self.instance_count
    }

    /// Whether the buffer holds no instance.
    pub fn is_empty(&self) -> (r: bool)
        ensures
            r == (self.count() == 0),
    {
        self.instance_count == 0
    }

    /// Drops every instance; the whole buffer is dirty again.
    pub fn clear(&mut self)
        ensures
            final(self).data() == Seq::<u8>::empty(),
            final(self).count() == 0,
            final(self).watermark() == 0,
    {
        self.data.clear();
        self.instance_count = 0;
        self.dirty_from = 0;
    }

    /// The first instance whose bytes may be stale on the GPU (0: the whole
    /// buffer is dirty).
    pub fn dirty_from(&self) -> (r: u32)
        ensures
            r == self.watermark(),
    {
        self.dirty_from
    }

    /// Marks the whole buffer clean, after the dirty range was uploaded.
    pub fn clear_dirty(&mut self)
        ensures
            final(self).data() == old(self).data(),
            final(self).count() == old(self).count(),
            final(self).watermark() == old(self).count(),
    {
        self.dirty_from = self.instance_count;
    }
}

impl Clone for InstanceBuffer {
    fn clone(&self) -> (r: Self)
        ensures
            r.data() == self.data(),
            r.count() == self.count(),
            r.watermark() == self.watermark(),
    {
        InstanceBuffer { data: self.data.clone(), instance_count: self.instance_count, dirty_from: self.dirty_from }
    }
}

impl Default for InstanceBuffer {
    fn default() -> (r: Self)
        ensures
            r.data() == Seq::<u8>::empty(),
            r.count() == 0,
            r.watermark() == 0,
    {
        Self::new()
    }
}

} // verus!
