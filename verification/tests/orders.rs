use asahi_m4::arena::is_power_of_two;
use asahi_m4::mem::{tlbi_asid, tlbi_range};
use asahi_m4::notify::{State, Wait};
use asahi_m4::error::Error;
use asahi_m4::ring::{self, ring_room};
use asahi_m4::slots::{free_slot, with_slot, without_slot};
use asahi_m4::stamp;

#[test]
fn powers_of_two() {
    assert!(is_power_of_two(1) && is_power_of_two(0x8000) && is_power_of_two(1 << 63));
    assert!(!is_power_of_two(0) && !is_power_of_two(3) && !is_power_of_two(u64::MAX));
}

#[test]
fn stamps_step_and_wrap() {
    assert_eq!(stamp::value(0, 0xc00), 0xc00);
    assert_eq!(stamp::value(3, 0xc00), 0xf00);
    assert_eq!(stamp::value(0x00ff_fff4, 0xc00), 0);
    assert_eq!(stamp::value(0x1_0000_0000, 0x100), 0x100);
    assert_eq!(stamp::previous(0x100), 0);
    assert_eq!(stamp::previous(0), 0xffff_ff00);
}

#[test]
fn stamps_order_across_rollover() {
    assert!(stamp::reached(0x200, 0x100));
    assert!(stamp::reached(0x100, 0x100));
    assert!(!stamp::reached(0, 0x100));
    assert!(stamp::reached(0x100, 0xffff_ff00));
    assert!(!stamp::reached(0xffff_ff00, 0x100));
    assert!(!stamp::reached(stamp::previous(0x40), 0x40));
    for (a, b) in [(0u64, 1u64), (0x00ff_ffff, 0x0100_0000), (5, 0x7f_0000)] {
        assert!(stamp::reached(stamp::value(b, 0xc00), stamp::value(a, 0xc00)));
        assert!(!stamp::reached(stamp::value(a, 0xc00), stamp::value(b, 0xc00)));
    }
}

#[test]
fn ring_cursors_may_overshoot() {
    assert!(ring::reached(5, 5, 256));
    assert!(ring::reached(9, 5, 256));
    assert!(!ring::reached(4, 5, 256));
    assert!(ring::reached(2, 250, 256));
    assert!(!ring::reached(250, 2, 256));
    assert!(!ring::reached(256, 5, 256));
    assert!(!ring::reached(5, 256, 256));
}

#[test]
fn ring_room_keeps_half_free() {
    assert!(ring_room(0, 0, 0, 127, 256));
    assert!(!ring_room(0, 0, 0, 128, 256));
    assert!(ring_room(10, 250, 250, 100, 256));
    assert!(!ring_room(10, 250, 150, 100, 256));
    assert!(!ring_room(256, 0, 0, 1, 256));
    assert!(!ring_room(0, 256, 0, 1, 256));
    assert!(!ring_room(0, 0, 256, 1, 256));
    // What was admitted is not taken for complete.
    assert!(!ring::reached(250, (10 + 100) % 256, 256));
}

#[test]
fn slots_are_leased_lowest_first() {
    assert_eq!(free_slot(0, 57), Some(0));
    assert_eq!(free_slot(0b1011, 57), Some(2));
    assert_eq!(free_slot(u64::MAX, 64), None);
    assert_eq!(free_slot((1 << 57) - 1, 57), None);
    let mask = with_slot(0b1011, 2);
    assert_eq!(mask, 0b1111);
    assert_eq!(without_slot(mask, 2), 0b1011);
}

#[test]
fn notifications_count_generations() {
    let mut s = State::new();
    assert_eq!(s.snapshot(), Ok(0));
    assert_eq!(s.wait(0, false), Wait::Sleep);
    assert_eq!(s.wait(0, true), Wait::Done(Err(Error::ETIMEDOUT)));
    s.notify(false);
    assert_eq!(s.snapshot(), Ok(1));
    assert_eq!(s.wait(0, false), Wait::Done(Ok(())));
    s.notify(true);
    assert_eq!(s.snapshot(), Err(Error::EIO));
    assert!(matches!(s.wait(1, false), Wait::Done(Err(_))));
}

#[test]
fn translation_operands() {
    assert_eq!(tlbi_asid(3), 3 << 48);
    assert_eq!(tlbi_range(None, 0x4000, 0x4000), vec![]);
    assert_eq!(tlbi_range(Some(2), 0x4000, 0xc000), vec![4 | 2 << 48, 8 | 2 << 48]);
    assert_eq!(tlbi_range(None, 0xffff_fc20_0000_0000, 0xffff_fc20_0000_0001), vec![0xfff_c200_0000]);
}
