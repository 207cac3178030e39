use shame_gui::buffer_pool::BufferPool;

#[test]
fn exact_match() {
    let mut pool = BufferPool::<Vec<u8>>::new();
    pool.release_vec(vec![0u8; 1024]);
    assert_eq!(pool.len(), 1);

    let v = pool.acquire_vec(1024);
    assert_eq!(v.capacity(), 1024);
    assert!(pool.is_empty());
}

#[test]
fn larger_satisfies_smaller() {
    let mut pool = BufferPool::<Vec<u8>>::new();
    pool.release_vec(vec![0u8; 8192]);
    assert_eq!(pool.len(), 1);

    let v = pool.acquire_vec(1024);
    assert!(v.capacity() >= 1024);
    assert!(pool.is_empty());
}

#[test]
fn best_fit_picks_smallest_that_fits() {
    let mut pool = BufferPool::<Vec<u8>>::new();
    pool.release_vec(vec![0u8; 4096]);
    pool.release_vec(vec![0u8; 8192]);
    pool.release_vec(vec![0u8; 2048]);
    assert_eq!(pool.len(), 3);

    let v = pool.acquire_vec(2000);
    assert_eq!(v.capacity(), 2048);
    assert_eq!(pool.len(), 2);
}

#[test]
fn fallback_to_create_on_empty_pool() {
    let mut pool = BufferPool::<Vec<u8>>::new();
    let v = pool.acquire_vec(512);
    assert!(v.capacity() >= 512);
    assert!(pool.is_empty());
}

#[test]
fn fallback_to_create_when_nothing_fits() {
    let mut pool = BufferPool::<Vec<u8>>::new();
    pool.release_vec(vec![0u8; 256]);
    pool.release_vec(vec![0u8; 512]);

    let v = pool.acquire_vec(1024);
    assert!(v.capacity() >= 1024);
    assert_eq!(pool.len(), 2);
}

#[test]
fn clear_frees_all() {
    let mut pool = BufferPool::<Vec<u8>>::new();
    pool.release_vec(vec![0u8; 1024]);
    pool.release_vec(vec![0u8; 2048]);
    assert_eq!(pool.len(), 2);
    pool.clear();
    assert!(pool.is_empty());
}

#[test]
fn release_then_acquire_returns_the_same_buffer() {
    let mut pool = BufferPool::<&'static str>::new();
    pool.release("a", 64);
    pool.release("b", 128);
    pool.release("c", 64);
    // The most recent 64-byte buffer comes back first.
    assert_eq!(pool.acquire(64, |_| "new"), "c");
    assert_eq!(pool.acquire(64, |_| "new"), "a");
    assert_eq!(pool.len(), 1);
    assert_eq!(pool.acquire(64, |_| "new"), "b");
    assert!(pool.is_empty());
}

#[test]
fn acquire_passes_needed_size_to_create() {
    let mut pool = BufferPool::<u64>::new();
    pool.release(7, 16);
    assert_eq!(pool.acquire(17, |n| n * 10), 170);
    assert_eq!(pool.len(), 1);
    assert_eq!(pool.acquire(0, |n| n), 7);
    assert!(pool.is_empty());
}

#[test]
fn released_vec_is_returned_empty() {
    let mut pool = BufferPool::<Vec<u8>>::new();
    pool.release_vec(vec![1u8, 2, 3]);
    let v = pool.acquire_vec(1);
    assert!(v.is_empty());
    assert!(v.capacity() >= 3);
}

#[test]
fn pool_count_is_releases_minus_served_requests() {
    let mut pool = BufferPool::<Vec<u8>>::new();
    pool.release_vec(vec![0u8; 100]);
    pool.release_vec(vec![0u8; 300]);
    let _served = pool.acquire_vec(50);
    let _created = pool.acquire_vec(5000);
    pool.release_vec(vec![0u8; 700]);
    // three releases, one request served from the pool
    assert_eq!(pool.len(), 2);
}

#[test]
fn released_vec_serves_a_request_up_to_its_length() {
    let mut pool = BufferPool::<Vec<u8>>::new();
    let mut v = Vec::with_capacity(4096);
    v.extend_from_slice(&[7u8; 600]);
    pool.release_vec(v);
    let got = pool.acquire_vec(600);
    assert!(got.is_empty());
    assert!(got.capacity() >= 600);
    assert!(pool.is_empty());
}

#[test]
fn replace_keeps_a_large_enough_buffer() {
    let mut pool = BufferPool::<u64>::new();
    pool.release(1, 64);
    let b = pool.replace(Some((7, 128)), 100, |n| n);
    assert_eq!(b, 7);
    assert_eq!(pool.len(), 1);
}

#[test]
fn replace_returns_a_small_buffer_and_takes_a_pooled_one() {
    let mut pool = BufferPool::<u64>::new();
    pool.release(1, 256);
    let b = pool.replace(Some((7, 32)), 100, |n| n);
    assert_eq!(b, 1);
    assert_eq!(pool.len(), 1);
    // The small buffer went back to the pool under its size.
    assert_eq!(pool.acquire(32, |n| n + 1000), 7);
    // With nothing fitting, a new buffer is made.
    assert_eq!(pool.replace(None, 5000, |n| n), 5000);
    assert!(pool.is_empty());
}

#[test]
fn is_empty_agrees_with_len() {
    let mut pool = BufferPool::<u64>::new();
    assert!(pool.is_empty() && pool.len() == 0);
    pool.release(3, 8);
    assert!(!pool.is_empty() && pool.len() == 1);
    let _ = pool.acquire(8, |n| n);
    assert!(pool.is_empty() && pool.len() == 0);
}
