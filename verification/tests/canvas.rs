use shame_gui::canvas::{blend_last_order, bytes_equal, needs_recreate, stamp_framebuffer_size, FastPath};

#[test]
fn push_constants_batch_runs_of_instances() {
    let mut fp = FastPath::new();
    fp.set_push_constant(&[1, 0, 0, 0]);
    fp.add_instance(&[9, 9]);
    fp.add_instance(&[8, 8]);
    // Same bytes again: no new batch.
    fp.set_push_constant(&[1, 0, 0, 0]);
    fp.add_instance(&[7, 7]);
    fp.set_push_constant(&[2, 0, 0, 0]);
    fp.add_instance(&[6, 6]);
    assert_eq!(fp.frame_count(), 4);
    assert_eq!(fp.cpu_bytes(), &[9, 9, 8, 8, 7, 7, 6, 6]);
    assert_eq!(fp.draw_ranges(), vec![(0, 3), (3, 4)]);
    assert_eq!(fp.batch_bytes(1), &[2, 0, 0, 0]);
    fp.clear();
    assert_eq!(fp.frame_count(), 0);
    assert!(fp.cpu_bytes().is_empty());
    assert!(fp.draw_ranges().is_empty());
}

#[test]
fn gpu_buffers_are_recreated_when_too_small() {
    assert!(needs_recreate(None, 0));
    assert!(needs_recreate(Some(0), 0));
    assert!(!needs_recreate(Some(1), 0));
    assert!(needs_recreate(Some(15), 16));
    assert!(!needs_recreate(Some(16), 16));
}

#[test]
fn opaque_slots_draw_before_blended_ones() {
    assert_eq!(blend_last_order(&[true, false, true, false]), vec![1, 3, 0, 2]);
    assert_eq!(blend_last_order(&[]), Vec::<usize>::new());
    assert_eq!(blend_last_order(&[false, false]), vec![0, 1]);
}

#[test]
fn byte_strings_compare_elementwise() {
    assert!(bytes_equal(&[1, 2], &[1, 2]));
    assert!(!bytes_equal(&[1, 2], &[1, 3]));
    assert!(!bytes_equal(&[1], &[1, 2]));
}

#[test]
fn framebuffer_size_overwrites_the_first_eight_bytes() {
    let size = [1, 2, 3, 4, 5, 6, 7, 8];
    let mut push = vec![0u8; 12];
    stamp_framebuffer_size(&mut push, true, &size);
    assert_eq!(push, vec![1, 2, 3, 4, 5, 6, 7, 8, 0, 0, 0, 0]);
    let mut short = vec![9u8; 4];
    stamp_framebuffer_size(&mut short, true, &size);
    assert_eq!(short, vec![9; 4]);
    let mut unwanted = vec![9u8; 12];
    stamp_framebuffer_size(&mut unwanted, false, &size);
    assert_eq!(unwanted, vec![9; 12]);
}
