use shame_gui::material::{arena_grow_size, InstanceArena, InstanceBuffer, MIN_ARENA_BYTES};

#[test]
fn arena_alloc_and_args() {
    // wire_size = 16 (e.g. a 16-byte instance struct).
    let mut arena = InstanceArena::new(16);
    let s0 = arena.add_slot();
    let s1 = arena.add_slot();

    // s0: 3 instances (48 bytes) at offset 0.
    let off0 = arena.alloc_for_slot(s0, 3, 48);
    assert_eq!(off0, 0);
    // s1: 1 instance (16 bytes) at offset 48.
    let off1 = arena.alloc_for_slot(s1, 1, 16);
    assert_eq!(off1, 48);
    assert_eq!(arena.committed_size(), 64);

    let args = arena.args_for(6, &[0, 1]);
    assert_eq!(args.len(), 2);
    assert_eq!(args[0].first_instance, 0);
    assert_eq!(args[0].instance_count, 3);
    assert_eq!(args[1].first_instance, 3); // 48 bytes / 16
    assert_eq!(args[1].instance_count, 1);
}

#[test]
fn arena_free_reuses_space() {
    let mut arena = InstanceArena::new(16);
    let s0 = arena.add_slot();
    let s1 = arena.add_slot();

    arena.alloc_for_slot(s0, 4, 64); // 64 bytes
    arena.alloc_for_slot(s1, 2, 32); // 32 bytes, offset 64
    assert_eq!(arena.committed_size(), 96);

    // Freeing s0 puts a 64-byte block back; a new 32-byte alloc reuses it.
    arena.free_slot(s0);
    let s2 = arena.add_slot();
    let off2 = arena.alloc_for_slot(s2, 2, 32);
    assert_eq!(off2, 0);
    assert_eq!(arena.committed_size(), 96); // no growth

    let args = arena.args_for(6, &[0, 1, 2]);
    assert_eq!(args.len(), 2); // s0 is gone; s1 + s2 remain
}

#[test]
fn arena_growing_slot_reuses_tail_in_place() {
    let mut arena = InstanceArena::new(16);
    let s0 = arena.add_slot();
    arena.alloc_for_slot(s0, 3, 48); // 0..48, committed 48
    assert_eq!(arena.committed_size(), 48);
    // Re-uploading a larger slice into the tail rewinds the cursor and
    // reuses the space in place: no dead space, no arena growth.
    arena.alloc_for_slot(s0, 6, 96);
    assert_eq!(arena.committed_size(), 96);
    let args = arena.args_for(6, &[0]);
    assert_eq!(args[0].first_instance, 0);
    assert_eq!(args[0].instance_count, 6);
}

#[test]
fn arena_tail_free_rewinds_cursor() {
    let mut arena = InstanceArena::new(16);
    let s0 = arena.add_slot();
    let s1 = arena.add_slot();
    arena.alloc_for_slot(s0, 3, 48); // 0..48
    arena.alloc_for_slot(s1, 1, 16); // 48..64
    assert_eq!(arena.committed_size(), 64);
    // Freeing the tail slice shrinks the arena; the non-tail slice's free
    // block then becomes the new tail and is popped too.
    arena.free_slot(s1);
    assert_eq!(arena.committed_size(), 48);
    arena.free_slot(s0);
    assert_eq!(arena.committed_size(), 0);
}

#[test]
fn arena_adjacent_frees_merge_and_reuse() {
    let mut arena = InstanceArena::new(16);
    let a = arena.add_slot();
    let b = arena.add_slot();
    arena.alloc_for_slot(a, 2, 32); // 0..32
    arena.alloc_for_slot(b, 2, 32); // 32..64
    arena.alloc_for_slot(a, 4, 64); // old 0..32 freed, new 64..128
    arena.alloc_for_slot(b, 4, 64); // old 32..64 freed, merges with 0..32, reused
    assert_eq!(arena.committed_size(), 128); // no growth beyond live bytes
    let args = arena.args_for(6, &[0, 1]);
    assert_eq!(args[0].first_instance, 4); // a lives at 64..128
    assert_eq!(args[1].first_instance, 0); // b reused the merged block
}

#[test]
fn arena_grow_size_chunks() {
    assert_eq!(arena_grow_size(0, 100), MIN_ARENA_BYTES);
    assert_eq!(
        arena_grow_size(MIN_ARENA_BYTES, MIN_ARENA_BYTES + 1),
        MIN_ARENA_BYTES * 3 / 2
    );
    // A need beyond 1.5x of the current size wins.
    assert_eq!(
        arena_grow_size(MIN_ARENA_BYTES, MIN_ARENA_BYTES * 3),
        MIN_ARENA_BYTES * 3
    );
}

fn probe(x: f32, y: f32) -> Vec<u8> {
    let mut v = x.to_le_bytes().to_vec();
    v.extend_from_slice(&y.to_le_bytes());
    v
}

#[test]
fn instance_buffer_dirty_watermark_tracks_appends() {
    let mut ib = InstanceBuffer::new();
    assert_eq!(ib.dirty_from(), 0);
    ib.push(&probe(1.0, 2.0));
    ib.push(&probe(3.0, 4.0));
    // A fresh buffer is entirely dirty until the upload node clears it.
    assert_eq!(ib.dirty_from(), 0);
    assert_eq!(ib.instance_count(), 2);

    ib.clear_dirty();
    assert_eq!(ib.dirty_from(), 2);

    // Appends after a successful upload dirty only the new tail.
    ib.push(&probe(5.0, 6.0));
    assert_eq!(ib.dirty_from(), 2);
    ib.extend(&[probe(7.0, 8.0), probe(9.0, 10.0)]);
    assert_eq!(ib.dirty_from(), 2);
    assert_eq!(ib.instance_count(), 5);

    // A rebuild (clear + push) dirties everything again.
    ib.clear();
    assert_eq!(ib.dirty_from(), 0);
    ib.push(&probe(0.0, 0.0));
    assert_eq!(ib.dirty_from(), 0);
}

#[test]
fn instance_buffer_keeps_the_wire_bytes() {
    let mut ib = InstanceBuffer::new();
    ib.push(&[1, 2, 3, 4]);
    ib.extend(&[vec![5, 6, 7, 8], vec![9, 10, 11, 12]]);
    assert_eq!(ib.as_bytes(), &[1, 2, 3, 4, 5, 6, 7, 8, 9, 10, 11, 12]);
    assert_eq!(ib.instance_count(), 3);
    assert!(!ib.is_empty());
    ib.clear();
    assert!(ib.is_empty());
    assert!(ib.as_bytes().is_empty());
}

#[test]
fn dirty_upload_start_tail_move_and_clamp() {
    // Same offset: upload only the app-dirtied tail.
    assert_eq!(InstanceArena::dirty_upload_start(Some(64), 64, 5, 10), 5);
    // Moved slice: everything is stale, the watermark is ignored.
    assert_eq!(InstanceArena::dirty_upload_start(Some(64), 0, 5, 10), 0);
    // Fresh slot (no previous slice): full upload.
    assert_eq!(InstanceArena::dirty_upload_start(None, 0, 5, 10), 0);
    // Clamped to the instance count (e.g. the buffer shrank after a move).
    assert_eq!(InstanceArena::dirty_upload_start(Some(0), 0, 12, 10), 10);
}

#[test]
fn freed_slot_space_is_reused_by_the_next_allocation() {
    let mut arena = InstanceArena::new(8);
    let a = arena.add_slot();
    let b = arena.add_slot();
    let c = arena.add_slot();
    assert_eq!(arena.alloc_for_slot(a, 2, 16), 0);
    assert_eq!(arena.alloc_for_slot(b, 2, 16), 16);
    assert_eq!(arena.alloc_for_slot(c, 1, 8), 32);
    arena.free_slot(b);
    // The freed 16..32 block is the first fit for an 8-byte request.
    let d = arena.add_slot();
    assert_eq!(arena.alloc_for_slot(d, 1, 8), 16);
    assert_eq!(arena.committed_size(), 40);
    assert_eq!(arena.slot_count(), 4);
    assert!(arena.slice(b as u32).is_none());
}

#[test]
fn args_skip_missing_slots() {
    let mut arena = InstanceArena::new(4);
    let a = arena.add_slot();
    let _b = arena.add_slot();
    arena.alloc_for_slot(a, 3, 12);
    let args = arena.args_for(6, &[0, 1, 7]);
    assert_eq!(args.len(), 1);
    assert_eq!(args[0].index_count, 6);
    assert_eq!(args[0].instance_count, 3);
    assert_eq!(args[0].first_index, 0);
    assert_eq!(args[0].base_vertex, 0);
    assert_eq!(args[0].first_instance, 0);
}

#[test]
fn grow_size_keeps_growing_by_half() {
    assert_eq!(arena_grow_size(4 * MIN_ARENA_BYTES, 4 * MIN_ARENA_BYTES + 1), 6 * MIN_ARENA_BYTES);
    assert_eq!(arena_grow_size(0, 3 * MIN_ARENA_BYTES), 3 * MIN_ARENA_BYTES);
}
