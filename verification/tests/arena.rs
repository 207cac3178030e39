use shame_gui::arena::StateArena;
use shame_gui::graph::PortId;

#[test]
fn slots_are_numbered_in_allocation_order_and_born_dirty() {
    let mut a: StateArena<String> = StateArena::new();
    let p = a.alloc_with("x".to_string());
    let q = a.allocate();
    assert_eq!(p, PortId::new(0));
    assert_eq!(q, PortId::new(1));
    assert_eq!(a.len(), 2);
    assert_eq!(a.read(p), "x");
    assert_eq!(a.read(q), "");
    assert!(a.is_dirty(p));
    assert!(a.is_dirty(q));
}

#[test]
fn writes_mark_dirty_until_cleared() {
    let mut a: StateArena<u32> = StateArena::default();
    let p = a.alloc_with(1);
    let q = a.alloc_with(2);
    a.clear_dirty();
    assert!(!a.is_dirty(p));
    a.write(p, 10);
    assert_eq!(*a.read(p), 10);
    assert!(a.is_dirty(p));
    assert!(!a.is_dirty(q));
    *a.read_mut(q) += 5;
    assert_eq!(*a.read(q), 7);
    assert!(a.is_dirty(q));
    a.clear_dirty();
    a.mark_dirty(q);
    assert!(a.is_dirty(q));
    assert!(!a.is_dirty(p));
}

#[test]
fn slots_are_never_removed() {
    let mut a: StateArena<u8> = StateArena::new();
    let p = a.alloc_with(1);
    let mut lens = vec![a.len()];
    a.write(p, 2);
    lens.push(a.len());
    a.clear_dirty();
    lens.push(a.len());
    let q = a.allocate();
    lens.push(a.len());
    a.mark_dirty(p);
    lens.push(a.len());
    assert_eq!(lens, vec![1, 1, 1, 2, 2]);
    assert_eq!(*a.read(p), 2);
    assert_eq!(*a.read(q), 0);
}
