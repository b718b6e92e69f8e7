use cubby::hlc::Hlc;

#[test]
fn test_send_same_instant() {
    let pt = 1_628_999_999_946_752; // Hlc-friendly time is divisible by 0x1_0000

    let a = Hlc::new(0, 0);
    let b = a.next_at(pt);
    let c = b.next_at(pt);

    assert_eq!(b.l(), pt);
    assert_eq!(c.l(), pt);
    assert_eq!(b.c(), 0);
    assert_eq!(c.c(), 1);
}

#[test]
fn test_send_diff_instant() {
    let pt1 = 1_628_999_999_946_752; // Hlc-friendly time is divisible by 0x1_0000
    let pt2 = 1_629_000_000_012_288; // Hlc-friendly time is divisible by 0x1_0000
    let a = Hlc::new(0, 0);

    let b = a.next_at(pt1);
    let c = b.next_at(pt2);

    assert_eq!(b.l(), pt1);
    assert_eq!(b.c(), 0);

    assert_eq!(c.l(), pt2);
    assert_eq!(c.c(), 0);
}

#[test]
fn test_cast() {
    let i = (i64::MAX as u64) + 1;
    let hlc_old = Hlc::new(i, 56);
    let hlc_i64 = hlc_old.to_u64();
    let hlc_new = Hlc::from_u64(hlc_i64);
    assert_eq!(hlc_new, hlc_old);
}

#[test]
fn test_next_overflow() {
    let pt = 1_628_999_999_946_752; // Hlc-friendly time is divisible by 0x1_0000
    let mut hlc1 = Hlc::from_u64(0).next_at(pt);
    hlc1.0 |= u16::MAX as u64;
    let hlc2 = hlc1.next_at(pt);

    println!("Hlc1.c = {}, u16::MAX = {}", hlc1.c(), u16::MAX);

    assert_eq!(hlc2.to_u64(), hlc1.to_u64() + 1);
    assert_eq!(hlc2.c(), 0);
}

#[test]
fn new_masks_fields() {
    let h = Hlc::new(0x0001_0002_0003_ABCD, 7);
    assert_eq!(h.to_u64(), 0x0001_0002_0003_0007);
    assert_eq!(h.l(), 0x0001_0002_0003_0000);
    assert_eq!(h.c(), 7);
}

#[test]
fn inc_adds_one_and_carries() {
    let h = Hlc::new(0x1_0000, 0xFFFF);
    let n = h.inc();
    assert_eq!(n.to_u64(), h.to_u64() + 1);
    assert_eq!(n.c(), 0);
    assert_eq!(n.l(), 0x2_0000);
}

#[test]
fn next_from_clock_is_increasing() {
    let mut h = Hlc::new(0, 0);
    for _ in 0..1000 {
        let n = h.next();
        assert!(n > h);
        h = n;
    }
}

#[test]
fn next_with_stale_time_increments() {
    let h = Hlc::new(0x5_0000, 3);
    let n = h.next_at(0x4_0000);
    assert_eq!(n.to_u64(), h.to_u64() + 1);
}

#[test]
fn pt_of_masks_microseconds() {
    assert_eq!(cubby::clock::pt_of(1_628_999_999, 946_752), 1_628_999_999_946_752);
    assert_eq!(cubby::clock::pt_of(1, 70_000), 1_048_576);
    assert_eq!(cubby::clock::makept() & 0xFFFF, 0);
}
