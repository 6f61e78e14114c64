use unit_test_utils::{
    assert_nearly_equal, is_valid_tolerance, nearly_equal, well_formed, Format, Fp,
};

fn fp(x: f64) -> Fp {
    Fp::from_f64_bits(x.to_bits())
}

fn fp32(x: f32) -> Fp {
    Fp::from_f32_bits(x.to_bits())
}

#[test]
fn infinities() {
    let a = f64::INFINITY;
    let b = f64::INFINITY;
    assert!(nearly_equal(fp(a), fp(b), fp(0.1), fp(0.1)));
}

#[test]
fn nans() {
    let a = f64::NAN;
    let b = f64::NAN;
    let c = 1.0;
    assert!(!nearly_equal(fp(a), fp(b), fp(0.1), fp(0.1)));
    assert!(!nearly_equal(fp(a), fp(c), fp(0.1), fp(0.1)));
}

#[test]
fn not_nearly_equal() {
    let a = 1e-8;
    let b = 1e-5;
    assert!(!nearly_equal(fp(a), fp(b), fp(1e-6), fp(1e-6)))
}

#[test]
fn not_nearly_equal_rel_tol() {
    let a = 1e-14;
    let b = 1e-5;
    assert!(!nearly_equal(fp(a), fp(b), fp(1e-6), fp(0.1)))
}

#[test]
fn really_nearly_equal() {
    let a = 1.;
    let b = 1. + f64::MIN_POSITIVE;
    assert!(nearly_equal(fp(a), fp(b), fp(f64::MIN_POSITIVE), fp(f64::MIN_POSITIVE)))
}

#[test]
fn absolutely_equal() {
    let a = 5.;
    let b = 5.;
    assert!(nearly_equal(fp(a), fp(b), fp(f64::MIN_POSITIVE), fp(f64::MIN_POSITIVE)))
}

#[test]
fn with_f32() {
    let a = 1000.0_f32;
    let b = 1001.0_f32;
    assert!(nearly_equal(fp32(a), fp32(b), fp32(0.01), fp32(1.0)))
}

#[test]
#[should_panic]
fn assert_numbers_equal() {
    assert_nearly_equal(fp(1.0), fp(2.0), fp(0.01), fp(0.001), "wtf").unwrap();
}

#[test]
fn assert_numbers_equal_ok() {
    assert!(assert_nearly_equal(fp(1.0), fp(1.0), fp(0.01), fp(0.001), "fine").is_ok());
}

#[test]
fn opposite_infinities() {
    assert!(!nearly_equal(fp(f64::INFINITY), fp(f64::NEG_INFINITY), fp(0.1), fp(0.1)));
}

#[test]
fn infinity_not_near_finite() {
    assert!(!nearly_equal(fp(f64::INFINITY), fp(1.0e300), fp(0.5), fp(0.5)));
}

#[test]
fn five_six_not_nearly_equal() {
    assert!(!nearly_equal(fp(5.0), fp(6.0), fp(0.01), fp(0.001)));
}

#[test]
fn signed_zeros_equal() {
    assert!(nearly_equal(fp(0.0), fp(-0.0), fp(1e-12), fp(1e-12)));
}

#[test]
fn reflexive_on_ordinary_value() {
    let a = 37.25;
    assert!(nearly_equal(fp(a), fp(a), fp(1e-9), fp(1e-9)));
}

#[test]
fn symmetric_on_ordinary_pair() {
    let a = 1.0;
    let b = 1.0 + 3e-5;
    let fwd = nearly_equal(fp(a), fp(b), fp(1e-4), fp(1e-4));
    let bwd = nearly_equal(fp(b), fp(a), fp(1e-4), fp(1e-4));
    assert!(fwd);
    assert_eq!(fwd, bwd);
}

#[test]
fn tolerance_validity() {
    assert!(is_valid_tolerance(fp(0.1), Format::Double));
    assert!(is_valid_tolerance(fp(f64::INFINITY), Format::Double));
    assert!(!is_valid_tolerance(fp(0.0), Format::Double));
    assert!(!is_valid_tolerance(fp(-1.0), Format::Double));
    assert!(!is_valid_tolerance(fp(f64::NAN), Format::Double));
    assert!(!is_valid_tolerance(fp(0.1), Format::Single));
    assert!(is_valid_tolerance(fp32(0.1), Format::Single));
}

#[test]
fn well_formed_patterns() {
    assert!(well_formed(fp(1.5)));
    assert!(well_formed(fp32(1.5)));
    assert!(!well_formed(Fp { fmt: Format::Single, bits: 1u64 << 40 }));
}

#[test]
fn stricter_bound_governs() {
    // The difference 1.0 meets the absolute tolerance but not the relative
    // one, and both must hold.
    assert!(!nearly_equal(fp(1000.0), fp(1001.0), fp(1e-6), fp(2.0)));
}
