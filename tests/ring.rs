use dining::ring::ResourceRing;

#[test]
fn new_ring_has_free_cells() {
    let r = ResourceRing::new(5);
    assert_eq!(r.len(), 5);
    for c in 0..5 {
        assert_eq!(r.holder(c), None);
    }
}

#[test]
fn acquire_and_release_one_cell() {
    let mut r = ResourceRing::new(3);
    r.acquire(1, 7);
    assert_eq!(r.holder(0), None);
    assert_eq!(r.holder(1), Some(7));
    assert_eq!(r.holder(2), None);
    r.release(1, 7);
    assert_eq!(r.holder(1), None);
}
