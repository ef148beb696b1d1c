use ambient::capture::Ring;

#[test]
fn a_ring_keeps_the_newest_samples() {
    let mut r: Ring<i32> = Ring::new(4, 0);
    assert_eq!(r.drain_from(0), (vec![], 0));
    r.push(&[1, 2, 3]);
    assert_eq!(r.drain_from(0), (vec![1, 2, 3], 3));
    r.push(&[4, 5, 6]);
    assert_eq!(r.written(), 6);
    // The first two are gone; what was not drained yet comes from where it was.
    assert_eq!(r.drain_from(0), (vec![3, 4, 5, 6], 6));
    assert_eq!(r.drain_from(5), (vec![6], 6));
    assert_eq!(r.drain_from(6), (vec![], 6));
}

#[test]
fn a_reader_that_keeps_up_sees_every_sample_once() {
    let mut r: Ring<u8> = Ring::new(5, 0);
    let mut from = 0;
    let mut seen = Vec::new();
    for block in [&[1u8, 2, 3][..], &[4, 5, 6, 7, 8], &[], &[9]] {
        r.push(block);
        let (out, to) = r.drain_from(from);
        seen.extend(out);
        from = to;
    }
    assert_eq!(seen, [1, 2, 3, 4, 5, 6, 7, 8, 9]);
}
