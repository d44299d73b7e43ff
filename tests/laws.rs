use timespan::Duration;

#[test]
fn nanos_round_trip() {
    for d in [Duration::zero(), Duration::new(12, 345), Duration::new(18_446_744_073, 709_551_615)] {
        assert_eq!(Duration::from_nanos(d.as_nanos() as u64), d);
    }
}

#[test]
fn millis_and_micros_round_trip_at_their_resolution() {
    let d = Duration::new(12, 345_678_901);
    assert_eq!(Duration::from_millis(d.as_millis() as u64), Duration::new(12, 345_000_000));
    assert_eq!(Duration::from_micros(d.as_micros() as u64), Duration::new(12, 345_678_000));
    let whole = Duration::new(3, 250_000_000);
    assert_eq!(Duration::from_millis(whole.as_millis() as u64), whole);
    assert_eq!(Duration::from_millis(987_654).as_millis(), 987_654);
    assert_eq!(Duration::from_micros(987_654).as_micros(), 987_654);
}

#[test]
fn adding_zero_changes_nothing() {
    let d = Duration::new(4, 44);
    assert_eq!(d.checked_add(Duration::zero()), Some(d));
    assert_eq!(d.saturating_add(Duration::zero()), d);
    assert_eq!(Duration::max_value().checked_add(Duration::zero()), Some(Duration::max_value()));
}

#[test]
fn subtracting_what_was_added() {
    let a = Duration::new(4, 900_000_000);
    let b = Duration::new(1, 200_000_000);
    let s = a.checked_add(b).unwrap();
    assert_eq!(s.checked_sub(b), Some(a));
}

#[test]
fn saturation_bounds() {
    for x in [Duration::zero(), Duration::new(0, 1), Duration::new(9, 9), Duration::max_value()] {
        assert_eq!(Duration::max_value().saturating_add(x), Duration::max_value());
        assert_eq!(Duration::zero().saturating_sub(x), Duration::zero());
    }
}
