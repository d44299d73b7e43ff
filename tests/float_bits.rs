use timespan::{Duration, FromFloatSecsError};

fn from_f64(x: f64) -> Result<Duration, FromFloatSecsError> {
    Duration::try_from_secs_f64_bits(x.to_bits())
}

fn from_f32(x: f32) -> Result<Duration, FromFloatSecsError> {
    Duration::try_from_secs_f32_bits(x.to_bits())
}

const NEGATIVE: &str = "can not convert float seconds to Duration: value is negative";
const OVERFLOW: &str = "can not convert float seconds to Duration: value is either too big or NaN";

#[test]
fn f64_half_way_tie_goes_to_even() {
    assert_eq!(Duration::try_from_secs_f64_bits(0x3F50_0000_0000_0000), Ok(Duration::new(0, 976_562)));
}

#[test]
fn f64_overflow_and_negative() {
    assert_eq!(from_f64(2e19).unwrap_err().description(), OVERFLOW);
    assert_eq!(from_f64(-5.0).unwrap_err().description(), NEGATIVE);
}

#[test]
fn f64_special_values() {
    assert_eq!(from_f64(f64::NAN).unwrap_err().description(), OVERFLOW);
    assert_eq!(from_f64(f64::INFINITY).unwrap_err().description(), OVERFLOW);
    assert_eq!(from_f64(f64::MAX).unwrap_err().description(), OVERFLOW);
    assert_eq!(from_f64(f64::NEG_INFINITY).unwrap_err().description(), NEGATIVE);
    assert_eq!(from_f64(-0.0).unwrap_err().description(), NEGATIVE);
    assert_eq!(from_f64(0.0), Ok(Duration::zero()));
    assert_eq!(from_f64(5e-324), Ok(Duration::zero()));
}

#[test]
fn f64_ordinary_values() {
    assert_eq!(from_f64(1.5), Ok(Duration::new(1, 500_000_000)));
    assert_eq!(from_f64(0.1), Ok(Duration::new(0, 100_000_000)));
    assert_eq!(from_f64(2.7), Ok(Duration::new(2, 700_000_000)));
    assert_eq!(from_f64(1e-9), Ok(Duration::new(0, 1)));
    assert_eq!(from_f64(4.9e-10), Ok(Duration::zero()));
    assert_eq!(from_f64(5e-10), Ok(Duration::new(0, 1)));
    assert_eq!(from_f64(12345.0), Ok(Duration::from_secs(12345)));
}

#[test]
fn f64_exponent_boundaries() {
    assert_eq!(from_f64(2f64.powi(-32)), Ok(Duration::zero()));
    assert_eq!(from_f64(2f64.powi(-31)), Ok(Duration::zero()));
    assert_eq!(from_f64(1.5 * 2f64.powi(-31)), Ok(Duration::new(0, 1)));
    assert_eq!(from_f64(2f64.powi(-30)), Ok(Duration::new(0, 1)));
    assert_eq!(from_f64(2f64.powi(52)), Ok(Duration::from_secs(1 << 52)));
    assert_eq!(from_f64(2f64.powi(52) + 1.0), Ok(Duration::from_secs((1 << 52) + 1)));
    assert_eq!(from_f64(2f64.powi(63)), Ok(Duration::from_secs(1 << 63)));
    assert_eq!(from_f64(18_446_744_073_709_549_568.0), Ok(Duration::from_secs(18_446_744_073_709_549_568)));
    assert_eq!(from_f64(2f64.powi(64)).unwrap_err().description(), OVERFLOW);
}

#[test]
fn f64_rounding_carries_into_seconds() {
    assert_eq!(from_f64(1.999_999_999_999_999_8), Ok(Duration::from_secs(2)));
    assert_eq!(from_f64(0.999_999_999_999_999_9), Ok(Duration::from_secs(1)));
    assert_eq!(from_f64(0.999_999_999), Ok(Duration::new(0, 999_999_999)));
}

#[test]
fn f32_values() {
    assert_eq!(from_f32(1.5), Ok(Duration::new(1, 500_000_000)));
    assert_eq!(from_f32(0.1), Ok(Duration::new(0, 100_000_001)));
    assert_eq!(Duration::try_from_secs_f32_bits(0x3A80_0000), Ok(Duration::new(0, 976_562)));
    assert_eq!(from_f32(0.0), Ok(Duration::zero()));
    assert_eq!(from_f32(1e-45), Ok(Duration::zero()));
    assert_eq!(from_f32(18_446_742_974_197_923_840.0), Ok(Duration::from_secs(18_446_742_974_197_923_840)));
}

#[test]
fn f32_errors() {
    assert_eq!(from_f32(2e19).unwrap_err().description(), OVERFLOW);
    assert_eq!(from_f32(f32::NAN).unwrap_err().description(), OVERFLOW);
    assert_eq!(from_f32(f32::INFINITY).unwrap_err().description(), OVERFLOW);
    assert_eq!(from_f32(-1.0).unwrap_err().description(), NEGATIVE);
    assert_eq!(from_f32(-0.0).unwrap_err().description(), NEGATIVE);
}

#[test]
fn panicking_forms_on_good_input() {
    assert_eq!(Duration::from_secs_f64_bits(2.5f64.to_bits()), Duration::new(2, 500_000_000));
    assert_eq!(Duration::from_secs_f32_bits(2.5f32.to_bits()), Duration::new(2, 500_000_000));
}

#[test]
fn errors_compare_by_kind() {
    assert_eq!(from_f64(-1.0).unwrap_err(), from_f32(-2.0).unwrap_err());
    assert_ne!(from_f64(-1.0).unwrap_err(), from_f64(f64::NAN).unwrap_err());
}
