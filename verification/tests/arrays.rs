use unit_test_utils::{
    assert_all_ge, assert_all_le, assert_nearly_equal_array, assert_none_is_nan, is_any_nan,
    nearly_equal_array, AssertError, Fp,
};

fn fp(x: f64) -> Fp {
    Fp::from_f64_bits(x.to_bits())
}

fn fp32(x: f32) -> Fp {
    Fp::from_f32_bits(x.to_bits())
}

fn fps(xs: &[f64]) -> Vec<Fp> {
    xs.iter().map(|x| fp(*x)).collect()
}

#[test]
fn arrays_equal() {
    let x = fps(&[1.0, 2.0, 3.0]);
    let y = fps(&[1.0, 2.0 + 1e-7, 3.0 + 9.9999999e-6]);
    assert!(nearly_equal_array(&x, &y, fp(1e-4), fp(1e-5)));
}

#[test]
fn arrays_not_equal() {
    let x = fps(&[1.0, 2.0, 3.0]);
    let y = fps(&[1.0, 2.0 + 1e-7, 3.0 + 1e-4]);
    assert!(!nearly_equal_array(&x, &y, fp(1e-4), fp(1e-5)));
}

#[test]
fn arrays_identical() {
    let x = fps(&[1.0, 2.0, 3.0]);
    assert!(nearly_equal_array(&x, &x, fp(1e-4), fp(1e-5)));
}

#[test]
#[should_panic]
fn assert_arrays_not_equal() {
    let x = fps(&[1.0, 2.0, 3.0]);
    let y = fps(&[1.0, 2.0 + 1e-7, 3.0 + 1e-4]);
    assert_nearly_equal_array(&x, &y, fp(1e-4), fp(1e-5), "arrays not equal").unwrap();
}

#[test]
fn array_error_names_first_index() {
    let x = fps(&[1.0, 2.0, 3.0]);
    let y = fps(&[1.0, 2.5, 3.0 + 1e-4]);
    match assert_nearly_equal_array(&x, &y, fp(1e-4), fp(1e-5), "arrays not equal") {
        Err(AssertError::ArrayEntryNotNearlyEqual { label, index }) => {
            assert_eq!(label, "arrays not equal");
            assert_eq!(index, 1);
        },
        _ => panic!("expected the first offending index"),
    }
}

#[test]
fn any_is_nan() {
    let x = fps(&[0.0, 1.0]);
    assert!(!is_any_nan(&x));

    let y = fps(&[0.0, f64::NAN, 1.0]);
    assert!(is_any_nan(&y));
}

#[test]
fn single_precision_nan() {
    let y = vec![fp32(0.0), fp32(f32::NAN)];
    assert!(is_any_nan(&y));
}

#[test]
#[should_panic]
fn none_is_none_panic() {
    let y = fps(&[0.0, f64::NAN, 1.0]);
    assert_none_is_nan(&y, "y").unwrap();
}

#[test]
fn nan_error_names_first_index() {
    let y = fps(&[0.0, f64::NAN, f64::NAN]);
    match assert_none_is_nan(&y, "y") {
        Err(AssertError::NanEntry { label, index }) => {
            assert_eq!(label, "y");
            assert_eq!(index, 1);
        },
        _ => panic!("expected the first NaN index"),
    }
}

#[test]
fn assert_all_positive() {
    let y = fps(&[0.0, 1e-10, 1e-16]);
    assert_all_ge(&y, fp(0.), "y").unwrap();
}

#[test]
#[should_panic]
fn assert_all_positive_panic() {
    let y = fps(&[0.0, 1e-10, -1e-12, 10.0]);
    assert_all_ge(&y, fp(0.), "y").unwrap();
}

#[test]
fn below_zero_entry_fails() {
    let y = fps(&[0.0, -1e-12]);
    assert!(assert_all_ge(&y, fp(0.0), "y").is_err());
}

#[test]
fn below_limit_error_details() {
    let y = fps(&[0.0, 1e-10, -1e-12, -3.0]);
    match assert_all_ge(&y, fp(0.0), "y") {
        Err(AssertError::EntryBelowLimit { label, index, value, limit }) => {
            assert_eq!(label, "y");
            assert_eq!(index, 2);
            assert_eq!(value, fp(-1e-12));
            assert_eq!(limit, fp(0.0));
        },
        _ => panic!("expected the first entry below the limit"),
    }
}

#[test]
fn assert_all_le_one_f32() {
    let y = vec![fp32(0.0_f32), fp32(1.0), fp32(0.5), fp32(-100.0)];
    assert_all_le(&y, fp32(1.0), "y").unwrap();
}

#[test]
#[should_panic]
fn assert_all_le_one_panic() {
    let y = fps(&[0.0, 1.0, 1.0 + 4e-16, -100.0]);
    assert_all_le(&y, fp(1.0), "y").unwrap();
}

#[test]
fn above_limit_error_details() {
    let y = fps(&[0.0, 1.0, 1.0 + 4e-16, 7.0]);
    match assert_all_le(&y, fp(1.0), "y") {
        Err(AssertError::EntryAboveLimit { label, index, value, limit }) => {
            assert_eq!(label, "y");
            assert_eq!(index, 2);
            assert_eq!(value, fp(1.0 + 4e-16));
            assert_eq!(limit, fp(1.0));
        },
        _ => panic!("expected the first entry above the limit"),
    }
}

#[test]
fn nan_entry_passes_bound_checks() {
    // Under IEEE comparison a NaN is never strictly below or above a limit.
    let y = fps(&[0.5, f64::NAN]);
    assert!(assert_all_ge(&y, fp(0.0), "y").is_ok());
    assert!(assert_all_le(&y, fp(1.0), "y").is_ok());
}

#[test]
fn empty_arrays_nearly_equal() {
    let x: Vec<Fp> = Vec::new();
    let y: Vec<Fp> = Vec::new();
    assert!(nearly_equal_array(&x, &y, fp(1e-4), fp(1e-5)));
    assert!(!is_any_nan(&x));
}
