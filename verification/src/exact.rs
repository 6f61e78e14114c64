//! Exact integer comparisons of values of the form `m * 2^e`.
//!
//! A finite IEEE-754 magnitude decodes into an integer mantissa `m` and a
//! nonnegative exponent `e` (in units of the smallest subnormal step of its
//! format), and every tolerance decision of this crate reduces to order
//! comparisons between such values, their sums and their differences.  The
//! values themselves can span thousands of bits, so they are never
//! materialised: the functions below decide each comparison exactly using
//! only `u128` arithmetic.

use vstd::arithmetic::div_mod::{
    lemma_div_is_ordered, lemma_div_multiples_vanish, lemma_fundamental_div_mod,
    lemma_mod_division_less_than_divisor,
};
use vstd::arithmetic::mul::{
    lemma_mul_inequality, lemma_mul_is_associative, lemma_mul_is_commutative,
    lemma_mul_is_distributive_add, lemma_mul_is_distributive_add_other_way,
    lemma_mul_is_distributive_sub, lemma_mul_is_distributive_sub_other_way,
    lemma_mul_nonnegative, lemma_mul_strict_inequality, lemma_mul_unary_negation,
};
use vstd::arithmetic::power2::{
    lemma2_to64, lemma_pow2_adds, lemma_pow2_pos, lemma_pow2_strictly_increases, pow2,
};
use vstd::math::abs;
use vstd::prelude::*;

verus! {

/// The exact value `m * 2^e`.
pub open spec fn scaled(m: nat, e: nat) -> nat {
    m * pow2(e)
}

/// The exact signed value `-(m * 2^e)` or `m * 2^e`.
pub open spec fn signed_scaled(neg: bool, m: nat, e: nat) -> int {
    if neg {
        -(scaled(m, e) as int)
    } else {
        scaled(m, e) as int
    }
}

proof fn lemma_pow2_values()
    ensures
        pow2(127) == 0x80000000000000000000000000000000,
        pow2(128) == 0x100000000000000000000000000000000,
{
    lemma2_to64();
    lemma_pow2_adds(64, 63);
    lemma_pow2_adds(64, 64);
    lemma_pow2_adds(63, 1);
    lemma_pow2_adds(32, 31);
    lemma_pow2_adds(32, 32);
}

proof fn lemma_pow2_le(e1: nat, e2: nat)
    requires
        e1 <= e2,
    ensures
        pow2(e1) <= pow2(e2),
{
    if e1 < e2 {
        lemma_pow2_strictly_increases(e1, e2);
    }
}

/// Splitting an exponent off a scaled value: `m * 2^(d+e) == (m * 2^d) * 2^e`.
proof fn lemma_scaled_split(m: nat, d: nat, e: nat)
    ensures
        scaled(m, d + e) == scaled(m * pow2(d), e),
{
    lemma_pow2_adds(d, e);
    lemma_mul_is_associative(m as int, pow2(d) as int, pow2(e) as int);
}

/// At a common exponent, the order of scaled values is the order of mantissas.
proof fn lemma_scaled_le_iff(a: nat, b: nat, e: nat)
    ensures
        (scaled(a, e) <= scaled(b, e)) <==> (a <= b),
{
    lemma_pow2_pos(e);
    if a <= b {
        lemma_mul_inequality(a as int, b as int, pow2(e) as int);
    }
    if b < a {
        lemma_mul_strict_inequality(b as int, a as int, pow2(e) as int);
    }
}

/// A scaled value is zero exactly when its mantissa is.
pub(crate) proof fn lemma_scaled_zero(m: nat, e: nat)
    ensures
        (scaled(m, e) == 0) <==> (m == 0),
        m >= 1 ==> scaled(m, e) >= pow2(e),
{
    lemma_pow2_pos(e);
    if m >= 1 {
        lemma_mul_inequality(1, m as int, pow2(e) as int);
    }
}

/// Scaled values multiply componentwise:
/// `(m1 * m2) * 2^(e1+e2) == (m1 * 2^e1) * (m2 * 2^e2)`.
pub(crate) proof fn lemma_scaled_mul(m1: nat, e1: nat, m2: nat, e2: nat)
    ensures
        scaled(m1 * m2, e1 + e2) == scaled(m1, e1) * scaled(m2, e2),
{
    let p1 = pow2(e1) as int;
    let p2 = pow2(e2) as int;
    lemma_pow2_adds(e1, e2);
    lemma_mul_is_associative(m1 as int, m2 as int, p1 * p2);
    lemma_mul_is_associative(m2 as int, p1, p2);
    lemma_mul_is_commutative(m2 as int, p1);
    lemma_mul_is_associative(p1, m2 as int, p2);
    lemma_mul_is_associative(m1 as int, p1, (m2 as int) * p2);
}

/// Raising the exponent by `s` multiplies a signed scaled value by `2^s`.
pub(crate) proof fn lemma_signed_scaled_shift(neg: bool, m: nat, e: nat, s: nat)
    ensures
        signed_scaled(neg, m, e + s) == signed_scaled(neg, m, e) * pow2(s),
{
    lemma_pow2_adds(e, s);
    lemma_mul_is_associative(m as int, pow2(e) as int, pow2(s) as int);
    if neg {
        lemma_mul_unary_negation(scaled(m, e) as int, pow2(s) as int);
    }
}

/// The absolute value distributes over scaling by a nonnegative factor.
proof fn lemma_abs_mul_pos(d: int, k: nat)
    ensures
        abs(d * k) == abs(d) * k,
{
    if d >= 0 {
        lemma_mul_nonnegative(d, k as int);
    } else {
        lemma_mul_unary_negation(d, k as int);
        lemma_mul_nonnegative(-d, k as int);
    }
}

/// `|x * 2^s - y * 2^s| == |x - y| * 2^s`.
pub(crate) proof fn lemma_dist_shift(x: int, y: int, s: nat)
    ensures
        abs(x * pow2(s) - y * pow2(s)) == abs(x - y) * pow2(s),
{
    lemma_mul_is_distributive_sub_other_way(pow2(s) as int, x, y);
    lemma_abs_mul_pos(x - y, pow2(s));
}

/// Raising the exponent by one doubles a scaled value.
proof fn lemma_scaled_double(m: nat, e: nat)
    ensures
        scaled(m, e + 1) == scaled(m, e) + scaled(m, e),
{
    lemma_scaled_split(m, 1, e);
    lemma2_to64();
    lemma_mul_is_distributive_add_other_way(pow2(e) as int, m as int, m as int);
}

/// For `p > 0`: `x * p <= y  <==>  x <= y / p`.
proof fn lemma_mul_le_div(x: nat, y: nat, p: nat)
    requires
        p > 0,
    ensures
        (x * p <= y) <==> (x <= y / p),
{
    lemma_fundamental_div_mod(y as int, p as int);
    lemma_mod_division_less_than_divisor(y as int, p as int);
    if x <= y / p {
        lemma_mul_inequality(x as int, (y / p) as int, p as int);
        lemma_mul_is_commutative((y / p) as int, p as int);
    }
    if x * p <= y {
        lemma_div_is_ordered((x * p) as int, y as int, p as int);
        lemma_div_multiples_vanish(x as int, p as int);
        lemma_mul_is_commutative(x as int, p as int);
    }
}

/// For `p > 0`: `x <= y * p  <==>  (x / p, x % p) <= (y, 0)` lexicographically.
proof fn lemma_le_mul_div(x: nat, y: nat, p: nat)
    requires
        p > 0,
    ensures
        (x <= y * p) <==> (x / p < y || (x / p == y && x % p == 0)),
{
    let q = x / p;
    let r = x % p;
    lemma_fundamental_div_mod(x as int, p as int);
    lemma_mod_division_less_than_divisor(x as int, p as int);
    lemma_mul_is_commutative(q as int, p as int);
    lemma_mul_is_commutative(y as int, p as int);
    if q < y {
        lemma_mul_is_distributive_add(p as int, q as int, 1);
        lemma_mul_inequality((q + 1) as int, y as int, p as int);
        lemma_mul_is_commutative((q + 1) as int, p as int);
    }
    if q > y {
        lemma_mul_is_distributive_add(p as int, y as int, 1);
        lemma_mul_inequality((y + 1) as int, q as int, p as int);
        lemma_mul_is_commutative((y + 1) as int, p as int);
    }
}

/// 2^n as a `u128`.
fn pow2_u128(n: u64) -> (r: u128)
    requires
        n <= 127,
    ensures
        r == pow2(n as nat),
{
    proof {
        lemma2_to64();
    }
    let mut r: u128 = 1;
    let mut i: u64 = 0;
    while i < n
        invariant
            i <= n,
            n <= 127,
            r == pow2(i as nat),
        decreases n - i,
    {
        proof {
            lemma_pow2_adds(i as nat, 1);
            lemma2_to64();
            lemma_pow2_values();
            if ((i + 1) as nat) < 128 {
                lemma_pow2_strictly_increases((i + 1) as nat, 128);
            }
        }
        r = r * 2;
        i = i + 1;
    }
    r
}

/// Decides `m1 * 2^e1 <= m2 * 2^e2` exactly.
pub(crate) fn le_scaled(m1: u128, e1: u64, m2: u128, e2: u64) -> (r: bool)
    ensures
        r == (scaled(m1 as nat, e1 as nat) <= scaled(m2 as nat, e2 as nat)),
{
    if e1 >= e2 {
        let d: u64 = e1 - e2;
        proof {
            lemma_scaled_split(m1 as nat, d as nat, e2 as nat);
            lemma_scaled_le_iff((m1 as nat) * pow2(d as nat), m2 as nat, e2 as nat);
        }
        if d >= 128 {
            if m1 == 0 {
                true
            } else {
                proof {
                    lemma_pow2_values();
                    if (d as nat) > 128 {
                        lemma_pow2_strictly_increases(128, d as nat);
                    }
                    lemma_mul_inequality(1, m1 as int, pow2(d as nat) as int);
                }
                false
            }
        } else {
            let p: u128 = pow2_u128(d);
            proof {
                lemma_pow2_pos(d as nat);
                lemma_mul_le_div(m1 as nat, m2 as nat, p as nat);
            }
            let q: u128 = m2 / p;
            m1 <= q
        }
    } else {
        let d: u64 = e2 - e1;
        proof {
            lemma_scaled_split(m2 as nat, d as nat, e1 as nat);
            lemma_scaled_le_iff(m1 as nat, (m2 as nat) * pow2(d as nat), e1 as nat);
        }
        if d >= 128 {
            if m2 == 0 {
                m1 == 0
            } else {
                proof {
                    lemma_pow2_values();
                    if (d as nat) > 128 {
                        lemma_pow2_strictly_increases(128, d as nat);
                    }
                    lemma_mul_inequality(1, m2 as int, pow2(d as nat) as int);
                }
                true
            }
        } else {
            let p: u128 = pow2_u128(d);
            proof {
                lemma_pow2_pos(d as nat);
                lemma_le_mul_div(m1 as nat, m2 as nat, p as nat);
            }
            let q: u128 = m1 / p;
            let rem: u128 = m1 % p;
            q < m2 || (q == m2 && rem == 0)
        }
    }
}

/// Subtracts a smaller scaled value from a nearby larger one exactly.
///
/// The difference is returned at the smaller of the two exponents; the
/// precondition bounds the larger value so that the realigned mantissas fit
/// in a `u128`.
fn sub_scaled(mb: u128, eb: u64, ms: u128, es: u64) -> (r: (u128, u64))
    requires
        scaled(ms as nat, es as nat) <= scaled(mb as nat, eb as nat),
        scaled(mb as nat, eb as nat) < pow2(127 + (if eb <= es {
            eb
        } else {
            es
        }) as nat),
    ensures
        r.1 == (if eb <= es {
            eb
        } else {
            es
        }),
        scaled(r.0 as nat, r.1 as nat) as int == scaled(mb as nat, eb as nat) as int - scaled(
            ms as nat,
            es as nat,
        ) as int,
{
    let emin: u64 = if eb <= es {
        eb
    } else {
        es
    };
    if mb == 0 {
        proof {
            lemma_scaled_zero(mb as nat, eb as nat);
            lemma_scaled_zero(ms as nat, es as nat);
        }
        (0u128, emin)
    } else {
        let sb: u64 = eb - emin;
        proof {
            lemma_scaled_split(mb as nat, sb as nat, emin as nat);
            lemma_pow2_adds(127, emin as nat);
            lemma_pow2_pos(emin as nat);
            if (mb as nat) * pow2(sb as nat) >= pow2(127) {
                lemma_mul_inequality(
                    pow2(127) as int,
                    ((mb as nat) * pow2(sb as nat)) as int,
                    pow2(emin as nat) as int,
                );
                assert(false);
            }
            lemma_mul_inequality(1, mb as int, pow2(sb as nat) as int);
            if sb > 127 {
                lemma_pow2_strictly_increases(127, sb as nat);
                assert(false);
            }
            lemma_pow2_values();
        }
        let pb: u128 = pow2_u128(sb);
        let mb2: u128 = mb * pb;
        if ms == 0 {
            proof {
                lemma_scaled_zero(ms as nat, es as nat);
            }
            (mb2, emin)
        } else {
            let ss: u64 = es - emin;
            proof {
                lemma_scaled_split(ms as nat, ss as nat, emin as nat);
                lemma_pow2_adds(127, emin as nat);
                lemma_pow2_pos(emin as nat);
                if (ms as nat) * pow2(ss as nat) >= pow2(127) {
                    lemma_mul_inequality(
                        pow2(127) as int,
                        ((ms as nat) * pow2(ss as nat)) as int,
                        pow2(emin as nat) as int,
                    );
                    assert(false);
                }
                lemma_mul_inequality(1, ms as int, pow2(ss as nat) as int);
                if ss > 127 {
                    lemma_pow2_strictly_increases(127, ss as nat);
                    assert(false);
                }
                lemma_pow2_values();
            }
            let ps: u128 = pow2_u128(ss);
            let ms2: u128 = ms * ps;
            proof {
                lemma_scaled_le_iff(ms2 as nat, mb2 as nat, emin as nat);
                lemma_mul_is_distributive_sub(
                    pow2(emin as nat) as int,
                    mb2 as int,
                    ms2 as int,
                );
                lemma_mul_is_commutative(mb2 as int, pow2(emin as nat) as int);
                lemma_mul_is_commutative(ms2 as int, pow2(emin as nat) as int);
                lemma_mul_is_commutative((mb2 - ms2) as int, pow2(emin as nat) as int);
            }
            (mb2 - ms2, emin)
        }
    }
}

/// Decides `ma * 2^ea + mb * 2^eb <= mc * 2^ec` exactly.
pub(crate) fn sum_le(ma: u128, ea: u64, mb: u128, eb: u64, mc: u128, ec: u64) -> (r: bool)
    requires
        ma < pow2(120),
        mb < pow2(120),
        mc < pow2(120),
        ea <= 0x4000,
        eb <= 0x4000,
        ec <= 0x4000,
    ensures
        r == (scaled(ma as nat, ea as nat) + scaled(mb as nat, eb as nat) <= scaled(
            mc as nat,
            ec as nat,
        )),
{
    proof {
        lemma_scaled_zero(ma as nat, ea as nat);
        lemma_scaled_zero(mb as nat, eb as nat);
    }
    if ma == 0 {
        le_scaled(mb, eb, mc, ec)
    } else if mb == 0 {
        le_scaled(ma, ea, mc, ec)
    } else {
        let a_le_b: bool = le_scaled(ma, ea, mb, eb);
        let mw: u128 = if a_le_b {
            mb
        } else {
            ma
        };
        let ew: u64 = if a_le_b {
            eb
        } else {
            ea
        };
        let ml: u128 = if a_le_b {
            ma
        } else {
            mb
        };
        let el: u64 = if a_le_b {
            ea
        } else {
            eb
        };
        proof {
            lemma_scaled_zero(ml as nat, el as nat);
            lemma_pow2_pos(el as nat);
            lemma_scaled_double(mw as nat, ew as nat);
        }
        if le_scaled(mw, ew + 1, mc, ec) {
            true
        } else if le_scaled(mc, ec, mw, ew) {
            false
        } else {
            proof {
                lemma_pow2_pos((ew + 1) as nat);
                lemma_mul_strict_inequality(mw as int, pow2(120) as int, pow2((ew + 1) as nat) as int);
                lemma_pow2_adds(120, (ew + 1) as nat);
                lemma_pow2_le(120 + (ew + 1) as nat, 127 + (ew as nat));
                lemma_pow2_pos(ec as nat);
                lemma_mul_strict_inequality(mc as int, pow2(120) as int, pow2(ec as nat) as int);
                lemma_pow2_adds(120, ec as nat);
                lemma_pow2_le(120 + ec as nat, 127 + ec as nat);
            }
            let dsub: (u128, u64) = sub_scaled(mc, ec, mw, ew);
            le_scaled(ml, el, dsub.0, dsub.1)
        }
    }
}

/// Decides `ma * 2^ea <= mb * 2^eb + mc * 2^ec` exactly.
pub(crate) fn le_sum(ma: u128, ea: u64, mb: u128, eb: u64, mc: u128, ec: u64) -> (r: bool)
    requires
        ma < pow2(120),
        mb < pow2(120),
        mc < pow2(120),
        ea <= 0x4000,
        eb <= 0x4000,
        ec <= 0x4000,
    ensures
        r == (scaled(ma as nat, ea as nat) <= scaled(mb as nat, eb as nat) + scaled(
            mc as nat,
            ec as nat,
        )),
{
    if le_scaled(ma, ea, mb, eb) {
        true
    } else if le_scaled(ma, ea, mc, ec) {
        true
    } else {
        let b_le_c: bool = le_scaled(mb, eb, mc, ec);
        let mw: u128 = if b_le_c {
            mc
        } else {
            mb
        };
        let ew: u64 = if b_le_c {
            ec
        } else {
            eb
        };
        let ml: u128 = if b_le_c {
            mb
        } else {
            mc
        };
        let el: u64 = if b_le_c {
            eb
        } else {
            ec
        };
        proof {
            lemma_scaled_double(mw as nat, ew as nat);
        }
        if !le_scaled(ma, ea, mw, ew + 1) {
            false
        } else {
            proof {
                lemma_pow2_pos((ew + 1) as nat);
                lemma_mul_strict_inequality(mw as int, pow2(120) as int, pow2((ew + 1) as nat) as int);
                lemma_pow2_adds(120, (ew + 1) as nat);
                lemma_pow2_le(120 + (ew + 1) as nat, 127 + (ew as nat));
                lemma_pow2_pos(ea as nat);
                lemma_mul_strict_inequality(ma as int, pow2(120) as int, pow2(ea as nat) as int);
                lemma_pow2_adds(120, ea as nat);
                lemma_pow2_le(120 + ea as nat, 127 + ea as nat);
            }
            let dsub: (u128, u64) = sub_scaled(ma, ea, mw, ew);
            le_scaled(dsub.0, dsub.1, ml, el)
        }
    }
}

/// Decides `|ma * 2^ea - mb * 2^eb| <= mc * 2^ec` exactly.
pub(crate) fn dist_le(ma: u128, ea: u64, mb: u128, eb: u64, mc: u128, ec: u64) -> (r: bool)
    requires
        ma < pow2(120),
        mb < pow2(120),
        mc < pow2(120),
        ea <= 0x4000,
        eb <= 0x4000,
        ec <= 0x4000,
    ensures
        r == (abs(
            scaled(ma as nat, ea as nat) as int - scaled(mb as nat, eb as nat) as int,
        ) <= scaled(mc as nat, ec as nat)),
{
    let x: bool = le_sum(ma, ea, mb, eb, mc, ec);
    let y: bool = le_sum(mb, eb, ma, ea, mc, ec);
    x && y
}

/// Decides `|va - vb| <= mc * 2^ec` exactly, for the signed values
/// `va = ±(ma * 2^ea)` and `vb = ±(mb * 2^eb)`.
pub(crate) fn signed_dist_le(
    nega: bool,
    ma: u128,
    ea: u64,
    negb: bool,
    mb: u128,
    eb: u64,
    mc: u128,
    ec: u64,
) -> (r: bool)
    requires
        ma < pow2(120),
        mb < pow2(120),
        mc < pow2(120),
        ea <= 0x4000,
        eb <= 0x4000,
        ec <= 0x4000,
    ensures
        r == (abs(
            signed_scaled(nega, ma as nat, ea as nat) - signed_scaled(negb, mb as nat, eb as nat),
        ) <= scaled(mc as nat, ec as nat)),
{
    if nega == negb {
        dist_le(ma, ea, mb, eb, mc, ec)
    } else {
        sum_le(ma, ea, mb, eb, mc, ec)
    }
}

} // verus!
