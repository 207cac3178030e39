use shame_gui::instance::field_offsets;

#[test]
fn offsets_follow_member_alignment() {
    // f32, vec2<f32>, f32, vec4<f32>
    assert_eq!(field_offsets([4, 8, 4, 16], [4, 8, 4, 16]), [0, 8, 16, 32]);
    // vec4<f32>, f32, f32, vec2<f32>
    assert_eq!(field_offsets([16, 4, 4, 8], [16, 4, 4, 8]), [0, 16, 20, 24]);
    // u32 followed by a mat4x4 (size 64, align 16)
    assert_eq!(field_offsets([4, 64], [4, 16]), [0, 16]);
}

#[test]
fn offsets_of_no_fields() {
    let none: [usize; 0] = [];
    assert_eq!(field_offsets(none, none), none);
}

#[test]
fn zero_sized_members_take_no_space() {
    assert_eq!(field_offsets([0, 4, 0, 8], [1, 4, 1, 8]), [0, 0, 4, 8]);
}
