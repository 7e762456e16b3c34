//! Parsing one topology line into a mixnode.

use routesim::mixnode::Mixnode;
use routesim::parse::WEIGHT_SCALE;

#[test]
#[should_panic(expected = "Missing arguments")]
fn test_missing_arguments() {
    let _mix: Mixnode = Mixnode::from_str("10,1").unwrap();
}

#[test]
fn test_correct_arguments() {
    let mix: Mixnode = Mixnode::from_str("10, 200, False, -1").unwrap();
    assert_eq!(mix.layer, -1);
    assert_eq!(mix.weight, 200u128 * WEIGHT_SCALE);
    assert_eq!(mix.mixid, 10);
    assert_eq!(mix.is_malicious, false);
}

#[test]
fn test_without_space() {
    let mix: Mixnode = Mixnode::from_str("0,7.222983840621532,False,-1").unwrap();
    assert_eq!(mix.layer, -1);
    // 7.222983840621532 in fixed point with sixteen fractional digits
    assert_eq!(mix.weight, 72229838406215320u128);
    assert_eq!(mix.mixid, 0);
    assert_eq!(mix.is_malicious, false);
}

#[test]
fn test_long_strings() {
    let mix: Mixnode = Mixnode::from_str("10, 200, False, -1, 1, 0, 2").unwrap();
    assert_eq!(mix.layer, -1);
    assert_eq!(mix.weight, 200u128 * WEIGHT_SCALE);
    assert_eq!(mix.mixid, 10);
    assert_eq!(mix.is_malicious, false);
}

#[test]
fn parse_accepts_case_insensitive_booleans() {
    let mix = Mixnode::from_str("3, 1.5, TRUE, 2").unwrap();
    assert_eq!(mix.is_malicious, true);
    assert_eq!(mix.layer, 2);
    assert_eq!(mix.weight, 15_000_000_000_000_000u128);
}

#[test]
fn parse_rejects_bad_fields() {
    assert!(Mixnode::from_str("abc, 1, false, 0").is_err());
    assert!(Mixnode::from_str("1, x, false, 0").is_err());
    assert!(Mixnode::from_str("1, 1, maybe, 0").is_err());
    assert!(Mixnode::from_str("1, 1, false, 999").is_err());
    let e = Mixnode::from_str("10,1").unwrap_err();
    assert_eq!(e.message(), "Missing arguments");
}

#[test]
fn parse_accepts_exponent_notation() {
    // 1.5e3 = 1500
    let m = Mixnode::from_str("1, 1.5e3, False, 0").unwrap();
    assert_eq!(m.weight, 1500u128 * WEIGHT_SCALE);
    // 15e-1 = 1.5
    let m = Mixnode::from_str("1, 15e-1, False, 0").unwrap();
    assert_eq!(m.weight, 15_000_000_000_000_000u128);
    // capital marker and explicit plus
    let m = Mixnode::from_str("1, 2E+2, False, 0").unwrap();
    assert_eq!(m.weight, 200u128 * WEIGHT_SCALE);
    // a tiny value floors to zero in fixed point
    let m = Mixnode::from_str("1, 1e-40, False, 0").unwrap();
    assert_eq!(m.weight, 0);
    // a zero mantissa survives any exponent
    let m = Mixnode::from_str("1, 0e999999, False, 0").unwrap();
    assert_eq!(m.weight, 0);
    // too large to represent
    assert!(Mixnode::from_str("1, 1e40, False, 0").is_err());
    // a broken exponent part
    assert!(Mixnode::from_str("1, 1e, False, 0").is_err());
    assert!(Mixnode::from_str("1, 1e+-3, False, 0").is_err());
}
