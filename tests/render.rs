use timespan::{Alignment, Duration, FormatOptions};

fn plain(d: Duration) -> String {
    d.render(&FormatOptions::new())
}

fn with_precision(d: Duration, p: usize) -> String {
    let mut o = FormatOptions::new();
    o.precision = Some(p);
    d.render(&o)
}

#[test]
fn seconds_at_full_and_reduced_precision() {
    let d = Duration::new(5, 730_023_852);
    assert_eq!(plain(d), "5.730023852s");
    assert_eq!(with_precision(d, 3), "5.730s");
}

#[test]
fn below_a_second_is_shown_in_milliseconds() {
    assert_eq!(plain(Duration::new(0, 999_999_999)), "999.999999ms");
}

#[test]
fn units_are_chosen_by_size() {
    assert_eq!(plain(Duration::from_secs(1)), "1s");
    assert_eq!(plain(Duration::new(1, 500_000_000)), "1.5s");
    assert_eq!(plain(Duration::from_millis(12)), "12ms");
    assert_eq!(plain(Duration::new(0, 1_500)), "1.5\u{b5}s");
    assert_eq!(plain(Duration::new(0, 1)), "1ns");
    assert_eq!(plain(Duration::zero()), "0ns");
    assert_eq!(plain(Duration::new(0, 1_000_001)), "1.000001ms");
}

#[test]
fn rounding_half_up_and_carry() {
    assert_eq!(with_precision(Duration::new(1, 999_999_999), 3), "2.000s");
    assert_eq!(with_precision(Duration::new(0, 999_999_999), 0), "1000ms");
    assert_eq!(with_precision(Duration::new(1, 500_000_000), 0), "2s");
    assert_eq!(with_precision(Duration::new(1, 499_999_999), 0), "1s");
    assert_eq!(with_precision(Duration::new(0, 1_250), 1), "1.3\u{b5}s");
    assert_eq!(with_precision(Duration::new(0, 1_249), 1), "1.2\u{b5}s");
    assert_eq!(with_precision(Duration::max_value(), 0), "18446744073709551616s");
}

#[test]
fn precision_beyond_the_digits_pads_with_zeros() {
    assert_eq!(with_precision(Duration::new(1, 5), 12), "1.000000005000s");
    assert_eq!(with_precision(Duration::new(0, 7), 2), "7.00ns");
    assert_eq!(with_precision(Duration::from_millis(3), 4), "3.0000ms");
}

#[test]
fn sign_and_width() {
    let mut o = FormatOptions::new();
    o.sign_plus = true;
    assert_eq!(Duration::new(1, 500_000_000).render(&o), "+1.5s");
    let mut o = FormatOptions::new();
    o.width = Some(10);
    assert_eq!(Duration::new(1, 500_000_000).render(&o), "1.5s      ");
    assert_eq!(Duration::new(0, 1_500).render(&o), "1.5\u{b5}s     ");
    o.width = Some(3);
    assert_eq!(Duration::new(1, 500_000_000).render(&o), "1.5s");
}

#[test]
fn fill_and_alignment() {
    let mut o = FormatOptions::new();
    o.width = Some(10);
    o.fill = '*';
    o.align = Some(Alignment::Right);
    assert_eq!(Duration::new(1, 500_000_000).render(&o), "******1.5s");
    o.align = Some(Alignment::Center);
    assert_eq!(Duration::new(1, 500_000_000).render(&o), "***1.5s***");
    o.width = Some(9);
    assert_eq!(Duration::new(1, 500_000_000).render(&o), "**1.5s***");
    o.align = Some(Alignment::Left);
    assert_eq!(Duration::new(1, 500_000_000).render(&o), "1.5s*****");
}
