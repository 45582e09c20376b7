use asahi_m4::arena::Arena;

#[test]
fn interleaved_scratch_and_tiler_exceed_old_growth_reservation() {
    let mut arena = Arena::new(0x1000_4000..0x3000_0000);
    let mut live = Vec::new();
    for _ in 0..400 {
        live.push(arena.alloc_front(0x14000, 0x4000).unwrap());
        let block = arena.alloc_back(0x28000, 0x8000).unwrap();
        assert_eq!(block.start & 0x7fff, 0);
        live.push(block);
    }
    live.sort_unstable_by_key(|r| r.start);
    assert!(live.windows(2).all(|pair| pair[0].end <= pair[1].start));
}

#[test]
fn exhaustion_and_bad_requests_preserve_reservations() {
    let mut arena = Arena::new(0x4000..0x24000);
    assert_eq!(arena.alloc_front(0x10000, 0x4000), Some(0x4000..0x14000));
    let saved = arena.clone();
    for (size, align) in [(0x20000, 0x8000), (0, 1), (1, 0), (1, 3), (u64::MAX, 1)] {
        assert_eq!(arena.alloc_front(size, align), None);
        assert_eq!(arena.alloc_back(size, align), None);
        assert_eq!(arena, saved);
    }
    assert_eq!(arena.alloc_back(0x10000, 0x4000), Some(0x14000..0x24000));
    assert_eq!(arena.alloc_front(1, 1), None);
}

#[test]
fn backing_failure_can_discard_staged_allocation() {
    let arena = Arena::new(0x4000..0x24000);
    let mut staged = arena.clone();
    assert_eq!(staged.alloc_back(0x10000, 0x8000), Some(0x10000..0x20000));
    let mut retry = arena;
    assert_eq!(retry.alloc_back(0x10000, 0x8000), Some(0x10000..0x20000));
    assert_eq!(retry, staged);
}

#[test]
fn address_overflow_is_rejected() {
    let mut arena = Arena::new(u64::MAX - 1..u64::MAX);
    assert_eq!(arena.alloc_front(1, 0x4000), None);
    assert_eq!(arena.alloc_front(4, 1), None);
    assert_eq!(arena.alloc_back(4, 1), None);
}
