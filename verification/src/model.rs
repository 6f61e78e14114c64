//! A bit-level model of IEEE-754 floating-point values.
//!
//! A value enters the library as the raw bit pattern of an `f32` or `f64`
//! together with its [`Format`].  The spec functions below decode such a
//! pattern into its sign and its exact magnitude `m * 2^e`, counted in units
//! of the smallest subnormal step of the format (`2^-149` for single
//! precision, `2^-1074` for double precision).  An infinity decodes to the
//! magnitude one binade above the largest finite one, which keeps the order
//! of decoded values faithful to the IEEE order; NaN patterns are recognised
//! and carry no magnitude.

use crate::exact::{le_scaled, scaled, signed_scaled};
use vstd::arithmetic::power2::{lemma2_to64, lemma2_to64_rest, pow2};
use vstd::prelude::*;

verus! {

/// The two supported IEEE-754 formats.
#[derive(Clone, Copy, Debug, PartialEq, Eq, Structural)]
pub enum Format {
    /// 32-bit single precision (`f32`).
    Single,
    /// 64-bit double precision (`f64`).
    Double,
}

/// A floating-point value, carried as its IEEE-754 bit pattern.
#[derive(Clone, Copy, Debug, PartialEq, Eq, Structural)]
pub struct Fp {
    /// The format the bit pattern belongs to.
    pub fmt: Format,
    /// The bit pattern; for `Format::Single` only the low 32 bits are used.
    pub bits: u64,
}

/// Number of fraction bits of the format.
pub open spec fn frac_bits(f: Format) -> nat {
    match f {
        Format::Single => 23,
        Format::Double => 52,
    }
}

/// Number of exponent bits of the format.
pub open spec fn exp_bits(f: Format) -> nat {
    match f {
        Format::Single => 8,
        Format::Double => 11,
    }
}

/// Total width of the format in bits.
pub open spec fn width(f: Format) -> nat {
    1 + exp_bits(f) + frac_bits(f)
}

/// Magnitudes are counted in units of `2^-scale_units(f)`, the smallest
/// subnormal step of the format.
pub open spec fn scale_units(f: Format) -> nat {
    match f {
        Format::Single => 149,
        Format::Double => 1074,
    }
}

/// A bit pattern fits in the width of its format.
pub open spec fn wf(x: Fp) -> bool {
    (x.bits as nat) < pow2(width(x.fmt))
}

/// The sign bit of the pattern.
pub open spec fn sign_of(x: Fp) -> bool {
    (x.bits as nat) >= pow2(exp_bits(x.fmt) + frac_bits(x.fmt))
}

/// The biased exponent field of the pattern.
pub open spec fn exp_field(x: Fp) -> nat {
    ((x.bits as nat) / pow2(frac_bits(x.fmt))) % pow2(exp_bits(x.fmt))
}

/// The fraction field of the pattern.
pub open spec fn frac_field(x: Fp) -> nat {
    (x.bits as nat) % pow2(frac_bits(x.fmt))
}

/// The pattern is a NaN.
pub open spec fn is_nan(x: Fp) -> bool {
    exp_field(x) == pow2(exp_bits(x.fmt)) - 1 && frac_field(x) != 0
}

/// The pattern is an infinity of either sign.
pub open spec fn is_inf(x: Fp) -> bool {
    exp_field(x) == pow2(exp_bits(x.fmt)) - 1 && frac_field(x) == 0
}

/// Integer mantissa of the magnitude: the bare fraction for subnormals, the
/// fraction with its implicit leading bit for normal values.
pub open spec fn mag_m(x: Fp) -> nat {
    if exp_field(x) == 0 {
        frac_field(x)
    } else {
        frac_field(x) + pow2(frac_bits(x.fmt))
    }
}

/// Exponent of the magnitude, in smallest-subnormal-step units.
pub open spec fn mag_e(x: Fp) -> nat {
    if exp_field(x) == 0 {
        0
    } else {
        (exp_field(x) - 1) as nat
    }
}

/// The exact magnitude the pattern denotes, in units of
/// `2^-scale_units(x.fmt)`.
pub open spec fn mag(x: Fp) -> nat {
    scaled(mag_m(x), mag_e(x))
}

/// The exact signed value the pattern denotes, in units of
/// `2^-scale_units(x.fmt)`.
pub open spec fn fval(x: Fp) -> int {
    signed_scaled(sign_of(x), mag_m(x), mag_e(x))
}

/// IEEE strict order: `x < y`, false whenever either operand is NaN.
pub open spec fn strictly_less(x: Fp, y: Fp) -> bool {
    !is_nan(x) && !is_nan(y) && fval(x) < fval(y)
}

impl Fp {
    /// Wraps the bit pattern of an `f64` (as produced by `f64::to_bits`).
    pub fn from_f64_bits(bits: u64) -> (r: Fp)
        ensures
            r.fmt == Format::Double,
            r.bits == bits,
            wf(r),
    {
        proof {
            lemma2_to64();
        }
        Fp { fmt: Format::Double, bits }
    }

    /// Wraps the bit pattern of an `f32` (as produced by `f32::to_bits`).
    pub fn from_f32_bits(bits: u32) -> (r: Fp)
        ensures
            r.fmt == Format::Single,
            r.bits == bits as u64,
            wf(r),
    {
        proof {
            lemma2_to64();
        }
        Fp { fmt: Format::Single, bits: bits as u64 }
    }
}

/// Decoded form of a pattern: classification flags and the exact magnitude.
pub(crate) struct Dec {
    pub sign: bool,
    pub nan: bool,
    pub inf: bool,
    pub m: u64,
    pub e: u64,
}

/// Decodes a well-formed pattern; the magnitude mantissa fits in 53 bits and
/// the magnitude exponent in 11 bits for either format.
pub(crate) fn decode(x: Fp) -> (d: Dec)
    requires
        wf(x),
    ensures
        d.sign == sign_of(x),
        d.nan == is_nan(x),
        d.inf == is_inf(x),
        d.m as nat == mag_m(x),
        d.e as nat == mag_e(x),
        (d.m as nat) < pow2(53),
        (d.e as nat) < pow2(11),
{
    proof {
        lemma2_to64();
        lemma2_to64_rest();
    }
    match x.fmt {
        Format::Double => {
            let frac: u64 = x.bits % 0x10000000000000;
            let expf: u64 = (x.bits / 0x10000000000000) % 0x800;
            let sign: bool = x.bits >= 0x8000000000000000;
            let m: u64 = if expf == 0 {
                frac
            } else {
                frac + 0x10000000000000
            };
            let e: u64 = if expf == 0 {
                0
            } else {
                expf - 1
            };
            Dec { sign, nan: expf == 0x7FF && frac != 0, inf: expf == 0x7FF && frac == 0, m, e }
        },
        Format::Single => {
            let frac: u64 = x.bits % 0x800000;
            let expf: u64 = (x.bits / 0x800000) % 0x100;
            let sign: bool = x.bits >= 0x80000000;
            let m: u64 = if expf == 0 {
                frac
            } else {
                frac + 0x800000
            };
            let e: u64 = if expf == 0 {
                0
            } else {
                expf - 1
            };
            Dec { sign, nan: expf == 0xFF && frac != 0, inf: expf == 0xFF && frac == 0, m, e }
        },
    }
}

/// Number of fraction bits, as a machine integer.
pub(crate) fn frac_bits_of(f: Format) -> (r: u64)
    ensures
        r as nat == frac_bits(f),
        r <= 52,
{
    match f {
        Format::Single => 23,
        Format::Double => 52,
    }
}

/// Scale of the format, as a machine integer.
pub(crate) fn scale_of(f: Format) -> (r: u64)
    ensures
        r as nat == scale_units(f),
        r <= 1074,
{
    match f {
        Format::Single => 149,
        Format::Double => 1074,
    }
}

/// IEEE equality of two patterns of one format: NaN equals nothing, and the
/// two zeros equal each other.
pub(crate) fn eq_fp(a: Fp, b: Fp) -> (r: bool)
    requires
        wf(a),
        wf(b),
    ensures
        r == (!is_nan(a) && !is_nan(b) && fval(a) == fval(b)),
{
    let da: Dec = decode(a);
    let db: Dec = decode(b);
    if da.nan || db.nan {
        false
    } else if da.sign == db.sign {
        let x: bool = le_scaled(da.m as u128, da.e, db.m as u128, db.e);
        let y: bool = le_scaled(db.m as u128, db.e, da.m as u128, da.e);
        x && y
    } else {
        proof {
            crate::exact::lemma_scaled_zero(da.m as nat, da.e as nat);
            crate::exact::lemma_scaled_zero(db.m as nat, db.e as nat);
        }
        da.m == 0 && db.m == 0
    }
}

/// IEEE strict `<` of two patterns of one format; false whenever either
/// operand is NaN.
pub(crate) fn lt_fp(a: Fp, b: Fp) -> (r: bool)
    requires
        wf(a),
        wf(b),
    ensures
        r == strictly_less(a, b),
{
    let da: Dec = decode(a);
    let db: Dec = decode(b);
    if da.nan || db.nan {
        false
    } else if da.sign && !db.sign {
        proof {
            crate::exact::lemma_scaled_zero(da.m as nat, da.e as nat);
            crate::exact::lemma_scaled_zero(db.m as nat, db.e as nat);
        }
        !(da.m == 0 && db.m == 0)
    } else if !da.sign && db.sign {
        false
    } else if !da.sign && !db.sign {
        !le_scaled(db.m as u128, db.e, da.m as u128, da.e)
    } else {
        !le_scaled(da.m as u128, da.e, db.m as u128, db.e)
    }
}

/// NaN test of a pattern.
pub(crate) fn nan_fp(x: Fp) -> (r: bool)
    requires
        wf(x),
    ensures
        r == is_nan(x),
{
    let d: Dec = decode(x);
    d.nan
}

} // verus!
