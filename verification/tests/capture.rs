use shame_gui::capture::{frame_rgba, padded_bytes_per_row, strip_row_padding, swap_red_blue, CaptureFormat};

#[test]
fn rows_are_padded_to_256_bytes() {
    assert_eq!(padded_bytes_per_row(0), 0);
    assert_eq!(padded_bytes_per_row(1), 256);
    assert_eq!(padded_bytes_per_row(64), 256);
    assert_eq!(padded_bytes_per_row(65), 512);
    assert_eq!(padded_bytes_per_row(800), 3328);
}

#[test]
fn padding_is_stripped_row_by_row() {
    let data: Vec<u8> = (0..20).collect();
    assert_eq!(strip_row_padding(&data, 3, 8, 3), vec![0, 1, 2, 8, 9, 10, 16, 17, 18]);
    assert_eq!(strip_row_padding(&data, 3, 8, 0), Vec::<u8>::new());
}

#[test]
fn red_and_blue_swap_in_complete_pixels() {
    let mut px = vec![1, 2, 3, 4, 5, 6, 7, 8, 9, 10];
    swap_red_blue(&mut px);
    assert_eq!(px, vec![3, 2, 1, 4, 7, 6, 5, 8, 9, 10]);
    swap_red_blue(&mut px);
    assert_eq!(px, vec![1, 2, 3, 4, 5, 6, 7, 8, 9, 10]);
}

#[test]
fn frames_come_out_contiguous_and_in_rgba_order() {
    // 2x2 BGRA frame with 256-byte rows.
    let mut data = vec![0u8; 512];
    data[0..8].copy_from_slice(&[10, 20, 30, 255, 11, 21, 31, 255]);
    data[256..264].copy_from_slice(&[12, 22, 32, 255, 13, 23, 33, 255]);
    let rgba = frame_rgba(&data, 2, 2, 256, CaptureFormat::Bgra8);
    assert_eq!(rgba, vec![30, 20, 10, 255, 31, 21, 11, 255, 32, 22, 12, 255, 33, 23, 13, 255]);
    let same = frame_rgba(&data, 2, 2, 256, CaptureFormat::Rgba8);
    assert_eq!(same.len(), 16);
    assert_eq!(&same[0..4], &[10, 20, 30, 255]);
}
