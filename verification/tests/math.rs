use shame_gui::math::{Vec2i, Vec2u};

#[test]
fn vec2u_constructors_and_arrays() {
    assert_eq!(Vec2u::new(1, 2), Vec2u { x: 1, y: 2 });
    assert_eq!(Vec2u::splat(7), Vec2u { x: 7, y: 7 });
    assert_eq!(Vec2u::from_array([3, 4]), Vec2u::new(3, 4));
    assert_eq!(Vec2u::new(5, 6).to_array(), [5, 6]);
    let v: Vec2u = [8, 9].into();
    assert_eq!(v, Vec2u::new(8, 9));
    let a: [u32; 2] = Vec2u::new(1, 3).into();
    assert_eq!(a, [1, 3]);
    assert_eq!(Vec2u::default(), Vec2u::new(0, 0));
}

#[test]
fn vec2u_arithmetic_is_componentwise() {
    assert_eq!(Vec2u::new(1, 2) + Vec2u::new(10, 20), Vec2u::new(11, 22));
    assert_eq!(Vec2u::new(10, 20) - Vec2u::new(1, 2), Vec2u::new(9, 18));
    assert_eq!(Vec2u::new(3, 4) * 5, Vec2u::new(15, 20));
    assert_eq!(Vec2u::new(7, 9) / 2, Vec2u::new(3, 4));
}

#[test]
fn vec2i_constructors_and_arrays() {
    assert_eq!(Vec2i::new(-1, 2), Vec2i { x: -1, y: 2 });
    assert_eq!(Vec2i::splat(-7), Vec2i { x: -7, y: -7 });
    assert_eq!(Vec2i::from_array([3, -4]), Vec2i::new(3, -4));
    assert_eq!(Vec2i::new(5, -6).to_array(), [5, -6]);
    let v: Vec2i = [-8, 9].into();
    assert_eq!(v, Vec2i::new(-8, 9));
}

#[test]
fn vec2i_arithmetic_is_componentwise() {
    assert_eq!(Vec2i::new(1, -2) + Vec2i::new(-10, 20), Vec2i::new(-9, 18));
    assert_eq!(Vec2i::new(1, 2) - Vec2i::new(3, -4), Vec2i::new(-2, 6));
    assert_eq!(Vec2i::new(3, -4) * -2, Vec2i::new(-6, 8));
    // Division truncates toward zero.
    assert_eq!(Vec2i::new(-7, 7) / 2, Vec2i::new(-3, 3));
    assert_eq!(Vec2i::new(7, -7) / -2, Vec2i::new(-3, 3));
}
