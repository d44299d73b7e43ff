use timespan::Duration;

fn max() -> Duration {
    Duration::max_value()
}

#[test]
fn new_carries_nanos_into_seconds() {
    let d = Duration::new(1, 2_000_000_001);
    assert_eq!(d.as_secs(), 3);
    assert_eq!(d.subsec_nanos(), 1);
}

#[test]
fn new_at_the_largest_value() {
    assert_eq!(Duration::new(u64::MAX, 999_999_999), max());
    assert_eq!(Duration::new(u64::MAX - 1, 1_999_999_999), max());
}

#[test]
fn unit_constructors() {
    assert_eq!(Duration::from_secs(7), Duration::new(7, 0));
    assert_eq!(Duration::from_millis(1_500), Duration::new(1, 500_000_000));
    assert_eq!(Duration::from_micros(1_000_002), Duration::new(1, 2_000));
    assert_eq!(Duration::from_nanos(1_000_000_123), Duration::new(1, 123));
    assert_eq!(Duration::from_millis(u64::MAX), Duration::new(18_446_744_073_709_551, 615_000_000));
}

#[test]
fn zero_and_is_zero() {
    assert!(Duration::zero().is_zero());
    assert!(Duration::from_nanos(0).is_zero());
    assert!(!Duration::from_nanos(1).is_zero());
    assert!(!Duration::from_secs(1).is_zero());
}

#[test]
fn subsecond_accessors() {
    let d = Duration::new(5, 123_456_789);
    assert_eq!(d.as_secs(), 5);
    assert_eq!(d.subsec_millis(), 123);
    assert_eq!(d.subsec_micros(), 123_456);
    assert_eq!(d.subsec_nanos(), 123_456_789);
}

#[test]
fn total_accessors() {
    let d = Duration::new(5, 123_456_789);
    assert_eq!(d.as_millis(), 5_123);
    assert_eq!(d.as_micros(), 5_123_456);
    assert_eq!(d.as_nanos(), 5_123_456_789);
    assert_eq!(max().as_nanos(), 18_446_744_073_709_551_615_999_999_999);
    assert_eq!(max().as_millis(), 18_446_744_073_709_551_615_999);
}

#[test]
fn checked_add_carries() {
    let a = Duration::new(1, 600_000_000);
    let b = Duration::new(2, 700_000_000);
    assert_eq!(a.checked_add(b), Some(Duration::new(4, 300_000_000)));
}

#[test]
fn checked_add_overflows() {
    assert_eq!(max().checked_add(Duration::new(0, 1)), None);
    assert_eq!(Duration::new(u64::MAX, 500_000_000).checked_add(Duration::new(0, 500_000_000)), None);
    assert_eq!(Duration::from_secs(u64::MAX).checked_add(Duration::from_secs(1)), None);
}

#[test]
fn checked_sub_borrows() {
    let a = Duration::new(1, 0);
    let b = Duration::new(0, 1);
    assert_eq!(a.checked_sub(b), Some(Duration::new(0, 999_999_999)));
    assert_eq!(a.checked_sub(a), Some(Duration::zero()));
}

#[test]
fn checked_sub_underflows() {
    assert_eq!(Duration::new(0, 1).checked_sub(Duration::new(0, 2)), None);
    assert_eq!(Duration::new(1, 1).checked_sub(Duration::new(1, 2)), None);
    assert_eq!(Duration::new(1, 5).checked_sub(Duration::new(2, 0)), None);
}

#[test]
fn saturating_forms() {
    let one = Duration::from_secs(1);
    assert_eq!(max().saturating_add(one), max());
    assert_eq!(one.saturating_add(one), Duration::from_secs(2));
    assert_eq!(one.saturating_sub(Duration::from_secs(2)), Duration::zero());
    assert_eq!(Duration::from_secs(3).saturating_sub(one), Duration::from_secs(2));
    assert_eq!(max().saturating_mul(2), max());
    assert_eq!(one.saturating_mul(3), Duration::from_secs(3));
}

#[test]
fn checked_mul_splits_nanos() {
    assert_eq!(Duration::new(1, 500_000_001).checked_mul(2), Some(Duration::new(3, 2)));
    assert_eq!(Duration::new(0, 999_999_999).checked_mul(u32::MAX), Some(Duration::new(4_294_967_290, 705_032_705)));
    assert_eq!(Duration::from_secs(5).checked_mul(0), Some(Duration::zero()));
}

#[test]
fn checked_mul_overflows() {
    assert_eq!(Duration::from_secs(u64::MAX).checked_mul(2), None);
    assert_eq!(Duration::new(u64::MAX, 500_000_000).checked_mul(2), None);
    assert_eq!(Duration::new(u64::MAX / 2, 500_000_000).checked_mul(2), Some(Duration::new(u64::MAX, 0)));
}

#[test]
fn checked_div_spreads_the_remainder() {
    assert_eq!(Duration::new(2, 7).checked_div(2), Some(Duration::new(1, 3)));
    assert_eq!(Duration::new(1, 0).checked_div(3), Some(Duration::new(0, 333_333_333)));
    assert_eq!(Duration::new(1, 2).checked_div(3), Some(Duration::new(0, 333_333_333)));
    assert_eq!(Duration::new(7, 999_999_999).checked_div(4), Some(Duration::new(1, 999_999_999)));
}

#[test]
fn checked_div_by_zero() {
    assert_eq!(Duration::new(2, 0).checked_div(0), None);
}

#[test]
fn checked_sum_carries_small_values() {
    let items = vec![Duration::new(0, 600_000_000); 25];
    assert_eq!(Duration::checked_sum(&items), Some(Duration::from_secs(15)));
    assert_eq!(Duration::sum(&items), Duration::from_secs(15));
}

#[test]
fn checked_sum_overflows_on_seconds() {
    let items = [Duration::new(u64::MAX, 0), Duration::new(u64::MAX, 0)];
    assert_eq!(Duration::checked_sum(&items), None);
}

#[test]
fn checked_sum_overflows_on_the_final_carry() {
    let items = [Duration::new(u64::MAX, 600_000_000), Duration::new(0, 600_000_000)];
    assert_eq!(Duration::checked_sum(&items), None);
}

#[test]
fn sum_of_nothing_and_of_mixed_values() {
    assert_eq!(Duration::sum(&[]), Duration::zero());
    let items = [Duration::new(1, 999_999_999), Duration::new(2, 1), Duration::new(0, 500)];
    assert_eq!(Duration::sum(&items), Duration::new(4, 500));
}
