//! Tolerance-based comparison utilities for tests of numerical code.
//!
//! Floating-point values enter the library as IEEE-754 bit patterns wrapped
//! in [`Fp`], and every comparison is decided exactly on the integers those
//! patterns denote: two values are nearly equal when they are equal, when
//! their distance is at most the smallest positive normal value of their
//! format, or when their distance satisfies both the absolute and the
//! relative tolerance bound (the stricter of the two governs).  The array
//! checks lift the scalar predicates element-wise and report the first
//! offending index.

use vstd::arithmetic::power2::{lemma2_to64, lemma2_to64_rest, lemma_pow2_adds,
    lemma_pow2_strictly_increases, pow2};
use vstd::math::abs;
use vstd::prelude::*;

pub mod exact;
pub mod model;

pub use model::Format;
pub use model::Fp;

use crate::exact::{
    lemma_dist_shift, lemma_scaled_mul, lemma_scaled_zero, lemma_signed_scaled_shift, le_scaled,
    signed_dist_le,
};
use crate::model::{
    decode, eq_fp, frac_bits, frac_bits_of, fval, is_inf, is_nan, lt_fp, mag, nan_fp, scale_of,
    scale_units, strictly_less, wf, Dec,
};

verus! {

/// The larger of the two magnitudes.
pub open spec fn max_mag(a: Fp, b: Fp) -> nat {
    if mag(a) <= mag(b) {
        mag(b)
    } else {
        mag(a)
    }
}

/// The nearly-equal predicate, stated over the exact values the bit patterns
/// denote (in units of `2^-scale_units(a.fmt)`; all four patterns must share
/// one format for the statement to be meaningful).
///
/// A NaN is nearly equal to nothing.  Otherwise two values are nearly equal
/// when they are equal (which covers two infinities of one sign and the two
/// zeros), or when both are finite and their distance is at most the
/// smallest positive normal magnitude `2^frac_bits`, or at most both
/// tolerance bounds: the absolute tolerance itself, and the relative
/// tolerance times the larger magnitude.  An infinite tolerance bounds every
/// finite distance.
pub open spec fn nearly_eq(a: Fp, b: Fp, rel_tol: Fp, abs_tol: Fp) -> bool {
    let diff = abs(fval(a) - fval(b));
    &&& !is_nan(a)
    &&& !is_nan(b)
    &&& {
        ||| fval(a) == fval(b)
        ||| {
            &&& !is_inf(a)
            &&& !is_inf(b)
            &&& {
                ||| diff <= pow2(frac_bits(a.fmt))
                ||| {
                    &&& (is_inf(abs_tol) || diff <= mag(abs_tol))
                    &&& (is_inf(rel_tol) || diff * pow2(scale_units(a.fmt)) <= mag(rel_tol)
                        * max_mag(a, b))
                }
            }
        }
    }
}

/// The requirements every tolerance argument must meet: a well-formed
/// pattern of the given format that denotes a strictly positive value.
pub open spec fn valid_tolerance(t: Fp, f: Format) -> bool {
    &&& t.fmt == f
    &&& wf(t)
    &&& !is_nan(t)
    &&& fval(t) > 0
}

/// Every pattern of the sequence is well formed.
pub open spec fn all_wf(s: Seq<Fp>) -> bool {
    forall|i: int| 0 <= i < s.len() ==> wf(#[trigger] s[i])
}

/// Every pattern of the sequence has the given format.
pub open spec fn uniform_fmt(s: Seq<Fp>, f: Format) -> bool {
    forall|i: int| 0 <= i < s.len() ==> (#[trigger] s[i]).fmt == f
}

/// An error reported by one of the assertion checks.
#[derive(Debug)]
pub enum AssertError {
    /// Two scalars were not nearly equal.
    NotNearlyEqual { label: String },
    /// Two arrays differ; `index` is the first offending position.
    ArrayEntryNotNearlyEqual { label: String, index: usize },
    /// An array holds a NaN; `index` is the first offending position.
    NanEntry { label: String, index: usize },
    /// An array entry lies below the limit; `index` is the first one.
    EntryBelowLimit { label: String, index: usize, value: Fp, limit: Fp },
    /// An array entry lies above the limit; `index` is the first one.
    EntryAboveLimit { label: String, index: usize, value: Fp, limit: Fp },
}

/// Whether two floats are nearly equal (up to the specified tolerances).
///
/// Returns `true` exactly on the inputs [`nearly_eq`] describes: the two
/// values are equal, or both are finite and their exact distance is within
/// the smallest positive normal value of the format, or within both the
/// absolute tolerance and the relative tolerance scaled by the larger
/// magnitude.  Returns `false` whenever either value is NaN.  Both
/// tolerances must be positive (a caller obligation, not a `false` result).
pub fn nearly_equal(a: Fp, b: Fp, rel_tol: Fp, abs_tol: Fp) -> (r: bool)
    requires
        a.fmt == b.fmt,
        wf(a),
        wf(b),
        valid_tolerance(rel_tol, a.fmt),
        valid_tolerance(abs_tol, a.fmt),
    ensures
        r == nearly_eq(a, b, rel_tol, abs_tol),
{
    let da: Dec = decode(a);
    let db: Dec = decode(b);
    if da.nan || db.nan {
        return false;
    }
    if eq_fp(a, b) {
        return true;
    }
    if da.inf || db.inf {
        return false;
    }
    proof {
        lemma2_to64();
        lemma2_to64_rest();
        lemma_pow2_strictly_increases(0, 120);
        lemma_pow2_strictly_increases(53, 120);
    }
    let fb: u64 = frac_bits_of(a.fmt);
    let tiny: bool = signed_dist_le(
        da.sign,
        da.m as u128,
        da.e,
        db.sign,
        db.m as u128,
        db.e,
        1u128,
        fb,
    );
    if tiny {
        return true;
    }
    let dab: Dec = decode(abs_tol);
    let within_abs: bool = if dab.inf {
        true
    } else {
        signed_dist_le(
            da.sign,
            da.m as u128,
            da.e,
            db.sign,
            db.m as u128,
            db.e,
            dab.m as u128,
            dab.e,
        )
    };
    if !within_abs {
        return false;
    }
    let dr: Dec = decode(rel_tol);
    if dr.inf {
        return true;
    }
    let s: u64 = scale_of(a.fmt);
    let a_mag_le: bool = le_scaled(da.m as u128, da.e, db.m as u128, db.e);
    let mm: u64 = if a_mag_le {
        db.m
    } else {
        da.m
    };
    let me: u64 = if a_mag_le {
        db.e
    } else {
        da.e
    };
    proof {
        vstd::arithmetic::mul::lemma_mul_upper_bound(
            dr.m as int,
            (pow2(53) - 1) as int,
            mm as int,
            (pow2(53) - 1) as int,
        );
        lemma_pow2_adds(53, 53);
        lemma_pow2_adds(64, 56);
        lemma_pow2_adds(64, 42);
        lemma_scaled_mul(dr.m as nat, dr.e as nat, mm as nat, me as nat);
        lemma_signed_scaled_shift(da.sign, da.m as nat, da.e as nat, s as nat);
        lemma_signed_scaled_shift(db.sign, db.m as nat, db.e as nat, s as nat);
        lemma_dist_shift(fval(a), fval(b), s as nat);
    }
    let pm: u128 = (dr.m as u128) * (mm as u128);
    let pe: u64 = dr.e + me;
    let within_rel: bool = signed_dist_le(
        da.sign,
        da.m as u128,
        da.e + s,
        db.sign,
        db.m as u128,
        db.e + s,
        pm,
        pe,
    );
    within_rel
}

/// Asserts that two numbers are nearly equal.
///
/// Returns `Ok(())` exactly when [`nearly_eq`] holds, and otherwise an
/// [`AssertError::NotNearlyEqual`] carrying the caller's label.
pub fn assert_nearly_equal(a: Fp, b: Fp, rel_tol: Fp, abs_tol: Fp, msg: &str) -> (r: Result<
    (),
    AssertError,
>)
    requires
        a.fmt == b.fmt,
        wf(a),
        wf(b),
        valid_tolerance(rel_tol, a.fmt),
        valid_tolerance(abs_tol, a.fmt),
    ensures
        r is Ok <==> nearly_eq(a, b, rel_tol, abs_tol),
        r is Err ==> (r matches Err(AssertError::NotNearlyEqual { label }) && label@ == msg@),
{
    if nearly_equal(a, b, rel_tol, abs_tol) {
        Ok(())
    } else {
        Err(AssertError::NotNearlyEqual { label: msg.to_owned() })
    }
}

/// Checks whether two arrays are element-wise nearly equal.
///
/// Returns `true` exactly when every pair of entries at one index satisfies
/// [`nearly_eq`]; in particular `true` for empty arrays.  The arrays must
/// have equal lengths (a caller obligation, not a `false` result).
#[verifier::loop_isolation(false)]
pub fn nearly_equal_array(a: &[Fp], b: &[Fp], rel_tol: Fp, abs_tol: Fp) -> (r: bool)
    requires
        a@.len() == b@.len(),
        all_wf(a@),
        all_wf(b@),
        rel_tol.fmt == abs_tol.fmt,
        uniform_fmt(a@, rel_tol.fmt),
        uniform_fmt(b@, rel_tol.fmt),
        valid_tolerance(rel_tol, rel_tol.fmt),
        valid_tolerance(abs_tol, rel_tol.fmt),
    ensures
        r == (forall|i: int| 0 <= i < a@.len() ==> nearly_eq(a@[i], b@[i], rel_tol, abs_tol)),
{
    let n: usize = a.len();
    let mut i: usize = 0;
    while i < n
        invariant
            i <= n,
            forall|j: int| 0 <= j < i ==> nearly_eq(a@[j], b@[j], rel_tol, abs_tol),
        decreases n - i,
    {
        if !nearly_equal(a[i], b[i], rel_tol, abs_tol) {
            proof {
                assert(!nearly_eq(a@[i as int], b@[i as int], rel_tol, abs_tol));
            }
            return false;
        }
        i = i + 1;
    }
    true
}

/// Asserts that two arrays are element-wise nearly equal.
///
/// Returns `Ok(())` exactly when every pair of entries satisfies
/// [`nearly_eq`]; otherwise an [`AssertError::ArrayEntryNotNearlyEqual`]
/// naming the first offending index.
#[verifier::loop_isolation(false)]
pub fn assert_nearly_equal_array(a: &[Fp], b: &[Fp], rel_tol: Fp, abs_tol: Fp, msg: &str) -> (r:
    Result<(), AssertError>)
    requires
        a@.len() == b@.len(),
        all_wf(a@),
        all_wf(b@),
        rel_tol.fmt == abs_tol.fmt,
        uniform_fmt(a@, rel_tol.fmt),
        uniform_fmt(b@, rel_tol.fmt),
        valid_tolerance(rel_tol, rel_tol.fmt),
        valid_tolerance(abs_tol, rel_tol.fmt),
    ensures
        r is Ok <==> (forall|i: int|
            0 <= i < a@.len() ==> nearly_eq(a@[i], b@[i], rel_tol, abs_tol)),
        r is Err ==> (r matches Err(AssertError::ArrayEntryNotNearlyEqual { label, index })
            && label@ == msg@ && 0 <= index < a@.len() && !nearly_eq(
            a@[index as int],
            b@[index as int],
            rel_tol,
            abs_tol,
        ) && (forall|j: int| 0 <= j < index ==> nearly_eq(a@[j], b@[j], rel_tol, abs_tol))),
{
    let n: usize = a.len();
    let mut i: usize = 0;
    while i < n
        invariant
            i <= n,
            forall|j: int| 0 <= j < i ==> nearly_eq(a@[j], b@[j], rel_tol, abs_tol),
        decreases n - i,
    {
        if !nearly_equal(a[i], b[i], rel_tol, abs_tol) {
            proof {
                assert(!nearly_eq(a@[i as int], b@[i as int], rel_tol, abs_tol));
            }
            return Err(AssertError::ArrayEntryNotNearlyEqual { label: msg.to_owned(), index: i });
        }
        i = i + 1;
    }
    Ok(())
}

/// Checks whether an array contains any NaN entry.
///
/// Returns `true` exactly when at least one entry is NaN; `false` for an
/// empty array.
#[verifier::loop_isolation(false)]
pub fn is_any_nan(a: &[Fp]) -> (r: bool)
    requires
        all_wf(a@),
    ensures
        r == (exists|i: int| 0 <= i < a@.len() && is_nan(#[trigger] a@[i])),
{
    let n: usize = a.len();
    let mut i: usize = 0;
    while i < n
        invariant
            i <= n,
            forall|j: int| 0 <= j < i ==> !is_nan(#[trigger] a@[j]),
        decreases n - i,
    {
        if nan_fp(a[i]) {
            proof {
                assert(is_nan(a@[i as int]));
            }
            return true;
        }
        i = i + 1;
    }
    false
}

/// Asserts that no entry of an array is NaN.
///
/// Returns `Ok(())` exactly when no entry is NaN; otherwise an
/// [`AssertError::NanEntry`] naming the first NaN index.
#[verifier::loop_isolation(false)]
pub fn assert_none_is_nan(a: &[Fp], msg: &str) -> (r: Result<(), AssertError>)
    requires
        all_wf(a@),
    ensures
        r is Ok <==> (forall|i: int| 0 <= i < a@.len() ==> !is_nan(#[trigger] a@[i])),
        r is Err ==> (r matches Err(AssertError::NanEntry { label, index }) && label@ == msg@ && 0
            <= index < a@.len() && is_nan(a@[index as int]) && (forall|j: int|
            0 <= j < index ==> !is_nan(#[trigger] a@[j]))),
{
    let n: usize = a.len();
    let mut i: usize = 0;
    while i < n
        invariant
            i <= n,
            forall|j: int| 0 <= j < i ==> !is_nan(#[trigger] a@[j]),
        decreases n - i,
    {
        if nan_fp(a[i]) {
            return Err(AssertError::NanEntry { label: msg.to_owned(), index: i });
        }
        i = i + 1;
    }
    Ok(())
}

/// Asserts that every entry of an array is greater than or equal to `lim`.
///
/// The bound is inclusive, and — as under IEEE comparison — a NaN entry is
/// never strictly below the limit, so it passes.  Returns `Ok(())` exactly
/// when no entry is strictly below `lim`; otherwise an
/// [`AssertError::EntryBelowLimit`] naming the first offending index, the
/// entry and the limit.
#[verifier::loop_isolation(false)]
pub fn assert_all_ge(a: &[Fp], lim: Fp, msg: &str) -> (r: Result<(), AssertError>)
    requires
        all_wf(a@),
        wf(lim),
        uniform_fmt(a@, lim.fmt),
    ensures
        r is Ok <==> (forall|i: int| 0 <= i < a@.len() ==> !strictly_less(#[trigger] a@[i], lim)),
        r is Err ==> (r matches Err(AssertError::EntryBelowLimit { label, index, value, limit })
            && label@ == msg@ && 0 <= index < a@.len() && strictly_less(a@[index as int], lim)
            && value == a@[index as int] && limit == lim && (forall|j: int|
            0 <= j < index ==> !strictly_less(#[trigger] a@[j], lim))),
{
    let n: usize = a.len();
    let mut i: usize = 0;
    while i < n
        invariant
            i <= n,
            forall|j: int| 0 <= j < i ==> !strictly_less(#[trigger] a@[j], lim),
        decreases n - i,
    {
        let v: Fp = a[i];
        if lt_fp(v, lim) {
            return Err(
                AssertError::EntryBelowLimit { label: msg.to_owned(), index: i, value: v, limit: lim },
            );
        }
        i = i + 1;
    }
    Ok(())
}

/// Asserts that every entry of an array is less than or equal to `lim`.
///
/// The bound is inclusive, and a NaN entry is never strictly above the
/// limit, so it passes.  Returns `Ok(())` exactly when no entry is strictly
/// above `lim`; otherwise an [`AssertError::EntryAboveLimit`] naming the
/// first offending index, the entry and the limit.
#[verifier::loop_isolation(false)]
pub fn assert_all_le(a: &[Fp], lim: Fp, msg: &str) -> (r: Result<(), AssertError>)
    requires
        all_wf(a@),
        wf(lim),
        uniform_fmt(a@, lim.fmt),
    ensures
        r is Ok <==> (forall|i: int| 0 <= i < a@.len() ==> !strictly_less(lim, #[trigger] a@[i])),
        r is Err ==> (r matches Err(AssertError::EntryAboveLimit { label, index, value, limit })
            && label@ == msg@ && 0 <= index < a@.len() && strictly_less(lim, a@[index as int])
            && value == a@[index as int] && limit == lim && (forall|j: int|
            0 <= j < index ==> !strictly_less(lim, #[trigger] a@[j]))),
{
    let n: usize = a.len();
    let mut i: usize = 0;
    while i < n
        invariant
            i <= n,
            forall|j: int| 0 <= j < i ==> !strictly_less(lim, #[trigger] a@[j]),
        decreases n - i,
    {
        let v: Fp = a[i];
        if lt_fp(lim, v) {
            return Err(
                AssertError::EntryAboveLimit { label: msg.to_owned(), index: i, value: v, limit: lim },
            );
        }
        i = i + 1;
    }
    Ok(())
}

/// Runtime test of [`wf`]: whether the bit pattern fits its format.
pub fn well_formed(x: Fp) -> (r: bool)
    ensures
        r == wf(x),
{
    proof {
        lemma2_to64();
    }
    match x.fmt {
        Format::Single => x.bits < 0x100000000,
        Format::Double => true,
    }
}

/// Runtime test of [`valid_tolerance`]: whether the pattern belongs to the
/// given format and denotes a strictly positive value.
pub fn is_valid_tolerance(t: Fp, f: Format) -> (r: bool)
    ensures
        r == valid_tolerance(t, f),
{
    if !well_formed(t) {
        return false;
    }
    let d: Dec = decode(t);
    proof {
        lemma_scaled_zero(d.m as nat, d.e as nat);
        vstd::arithmetic::power2::lemma_pow2_pos(d.e as nat);
    }
    t.fmt == f && !d.nan && !d.sign && d.m > 0
}

/// Reflexivity: every non-NaN value is nearly equal to itself, whatever the
/// tolerances.
pub proof fn lemma_nearly_equal_reflexive(a: Fp, rel_tol: Fp, abs_tol: Fp)
    requires
        !is_nan(a),
    ensures
        nearly_eq(a, a, rel_tol, abs_tol),
{
}

/// Symmetry: the nearly-equal predicate does not depend on the order of its
/// two values.
pub proof fn lemma_nearly_equal_symmetric(a: Fp, b: Fp, rel_tol: Fp, abs_tol: Fp)
    requires
        a.fmt == b.fmt,
    ensures
        nearly_eq(a, b, rel_tol, abs_tol) == nearly_eq(b, a, rel_tol, abs_tol),
{
}

/// A NaN is nearly equal to nothing, not even to another NaN.
pub proof fn lemma_nearly_equal_nan(a: Fp, b: Fp, rel_tol: Fp, abs_tol: Fp)
    requires
        is_nan(a) || is_nan(b),
    ensures
        !nearly_eq(a, b, rel_tol, abs_tol),
{
}

} // verus!
