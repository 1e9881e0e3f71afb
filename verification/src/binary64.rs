//! IEEE 754 binary64 arithmetic on bit patterns.
//!
//! Every ratio, smoothing factor and score of the bonding algorithms is a
//! [`Binary64`].  A finite value is an integer number of *units* of 2^-1074,
//! the smallest positive binary64 value, so all of the arithmetic is stated
//! over the integers: an operation takes its operands' units, forms the exact
//! result as a fraction of two natural numbers, and rounds it to the nearest
//! representable magnitude, ties to even.

use vstd::arithmetic::power2::{lemma2_to64, lemma2_to64_rest, lemma_pow2_adds, lemma_pow2_pos, lemma_pow2_strictly_increases, lemma_pow2_unfold, pow2};
use vstd::prelude::*;

verus! {

/// The bit pattern of a negative sign.
pub const SIGN_BIT: u64 = 0x8000_0000_0000_0000;

/// The magnitude of an infinity; greater magnitudes are not numbers.
pub const INF_MAG: u64 = 0x7ff0_0000_0000_0000;

/// Two to the power of the number of fraction bits.
pub const HIDDEN: u64 = 0x10_0000_0000_0000;

/// The bit pattern of the canonical not-a-number.
pub const NAN_BITS: u64 = 0x7ff8_0000_0000_0000;

/// A binary64 value, held as its bit pattern.
#[derive(Clone, Copy, Debug, PartialEq, Eq, Structural)]
pub struct Binary64 {
    /// Sign bit, eleven exponent bits and fifty-two fraction bits.
    pub bits: u64,
}

/// The power of two that one step of the significand of magnitude `mag`
/// stands for, in units.
pub open spec fn shift_of(mag: nat) -> nat {
    let e = mag / (HIDDEN as nat);
    if e == 0 {
        0
    } else {
        (e - 1) as nat
    }
}

/// The significand of magnitude `mag`, the hidden bit included.
pub open spec fn significand_of(mag: nat) -> nat {
    (mag - shift_of(mag) * HIDDEN) as nat
}

/// The number of units of 2^-1074 that magnitude `mag` stands for.
pub open spec fn units(mag: nat) -> nat {
    significand_of(mag) * pow2(shift_of(mag))
}

/// Whether `mag` is the magnitude nearest to `num / den` units, an even
/// magnitude where two are equally near.
pub open spec fn nearest(num: nat, den: nat, mag: nat) -> bool {
    &&& mag <= INF_MAG
    &&& mag > 0 ==> {
        let mid = (units((mag - 1) as nat) + units(mag)) * den;
        mid < 2 * num || (mid == 2 * num && mag % 2 == 0)
    }
    &&& mag < INF_MAG ==> {
        let mid = (units(mag) + units(mag + 1)) * den;
        2 * num < mid || (2 * num == mid && mag % 2 == 0)
    }
}

/// The magnitude that `num / den` units round to.
pub open spec fn rounded(num: nat, den: nat) -> nat {
    choose|mag: nat| nearest(num, den, mag)
}

/// The bit pattern of a sign and a magnitude.
pub open spec fn with_sign(negative: bool, mag: nat) -> Binary64 {
    Binary64 {
        bits: if negative {
            (SIGN_BIT + mag) as u64
        } else {
            mag as u64
        },
    }
}

// ---------------------------------------------------------------------------
// Magnitudes and their units
// ---------------------------------------------------------------------------

/// The magnitude with significand `q` at shift `s` stands for `q * 2^s` units.
pub proof fn lemma_units_at(s: nat, q: nat)
    requires
        q <= 2 * HIDDEN,
        s > 0 ==> q >= HIDDEN,
    ensures
        units(s * (HIDDEN as nat) + q) == q * pow2(s),
{
    let mag: nat = s * (HIDDEN as nat) + q;
    let h = HIDDEN as int;
    lemma_pow2_unfold(s + 1);
    if q == 2 * HIDDEN {
        assert(mag == (s + 2) * h) by (nonlinear_arith)
            requires
                mag == s * h + q,
                q == 2 * h,
        ;
        assert(mag / (HIDDEN as nat) == s + 2) by (nonlinear_arith)
            requires
                mag == (s + 2) * h,
                h == HIDDEN,
                h > 0,
        ;
        assert(shift_of(mag) == s + 1);
        assert(significand_of(mag) == h) by (nonlinear_arith)
            requires
                significand_of(mag) == (mag - (s + 1) * h) as nat,
                mag == (s + 2) * h,
                h > 0,
        ;
        assert(q * pow2(s) == h * pow2(s + 1)) by (nonlinear_arith)
            requires
                q == 2 * h,
                pow2(s + 1) == 2 * pow2(s),
        ;
    } else if q >= HIDDEN {
        assert(mag / (HIDDEN as nat) == s + 1) by (nonlinear_arith)
            requires
                mag == s * h + q,
                h <= q < 2 * h,
                h == HIDDEN,
                h > 0,
        ;
        assert(shift_of(mag) == s);
    } else {
        assert(s == 0);
        assert(mag / (HIDDEN as nat) == 0);
        assert(shift_of(mag) == 0);
    }
}

/// One step up in magnitude is one step of the significand.
pub proof fn lemma_units_step(mag: nat)
    ensures
        units(mag + 1) == units(mag) + pow2(shift_of(mag)),
        units(mag) < units(mag + 1),
{
    let s = shift_of(mag);
    let q = significand_of(mag);
    let h = HIDDEN as int;
    assert(mag == s * HIDDEN + q && q < 2 * HIDDEN && (s > 0 ==> q >= HIDDEN)) by {
        let e = mag / (HIDDEN as nat);
        let f = mag % (HIDDEN as nat);
        assert(mag == e * h + f);
        if e > 0 {
            assert(s * h == e * h - h) by (nonlinear_arith)
                requires
                    s == e - 1,
            ;
        }
    }
    lemma_units_at(s, q + 1);
    assert((q + 1) * pow2(s) == q * pow2(s) + pow2(s)) by (nonlinear_arith);
    lemma_pow2_pos(s);
}

/// Units grow strictly with the magnitude.
pub proof fn lemma_units_increase(a: nat, b: nat)
    requires
        a < b,
    ensures
        units(a) < units(b),
    decreases b - a,
{
    lemma_units_step((b - 1) as nat);
    if a < b - 1 {
        lemma_units_increase(a, (b - 1) as nat);
    }
}

/// Rounding is monotone: a smaller quantity never rounds to a greater
/// magnitude.
pub proof fn lemma_nearest_monotone(n1: nat, d1: nat, a: nat, n2: nat, d2: nat, b: nat)
    requires
        d1 > 0,
        d2 > 0,
        n1 * d2 <= n2 * d1,
        nearest(n1, d1, a),
        nearest(n2, d2, b),
    ensures
        a <= b,
{
    if b < a {
        let above_b = units(b) + units(b + 1);
        let below_a = units((a - 1) as nat) + units(a);
        if b + 1 < a {
            lemma_units_increase(b, (a - 1) as nat);
            lemma_units_increase(b + 1, a);
        }
        assert(above_b <= below_a);
        assert(below_a * d1 <= 2 * n1);
        assert(2 * n2 <= above_b * d2);
        assert(below_a * d1 * d2 <= 2 * n1 * d2) by (nonlinear_arith)
            requires
                below_a * d1 <= 2 * n1,
                d2 > 0,
        ;
        assert(2 * n2 * d1 <= above_b * d2 * d1) by (nonlinear_arith)
            requires
                2 * n2 <= above_b * d2,
                d1 > 0,
        ;
        assert(above_b * d2 * d1 <= below_a * d1 * d2) by (nonlinear_arith)
            requires
                above_b <= below_a,
                d1 > 0,
                d2 > 0,
        ;
        assert(2 * n1 * d2 == 2 * (n1 * d2)) by (nonlinear_arith);
        assert(2 * n2 * d1 == 2 * (n2 * d1)) by (nonlinear_arith);
        // Every link of the chain is an equality, so both roundings are ties
        // between neighbours and both magnitudes would be even.
        if b + 1 < a {
            assert(above_b * d2 * d1 < below_a * d1 * d2) by (nonlinear_arith)
                requires
                    above_b < below_a,
                    d1 > 0,
                    d2 > 0,
            ;
        } else {
            if below_a * d1 < 2 * n1 {
                assert(below_a * d1 * d2 < 2 * n1 * d2) by (nonlinear_arith)
                    requires
                        below_a * d1 < 2 * n1,
                        d2 > 0,
                ;
            }
            if 2 * n2 < above_b * d2 {
                assert(2 * n2 * d1 < above_b * d2 * d1) by (nonlinear_arith)
                    requires
                        2 * n2 < above_b * d2,
                        d1 > 0,
                ;
            }
        }
    }
}

/// Rounding has one result.
pub proof fn lemma_nearest_unique(num: nat, den: nat, a: nat, b: nat)
    requires
        den > 0,
        nearest(num, den, a),
        nearest(num, den, b),
    ensures
        a == b,
{
    lemma_nearest_monotone(num, den, a, num, den, b);
    lemma_nearest_monotone(num, den, b, num, den, a);
}

/// What `nearest` picks out is what `rounded` names.
pub proof fn lemma_rounded_is(num: nat, den: nat, mag: nat)
    requires
        den > 0,
        nearest(num, den, mag),
    ensures
        rounded(num, den) == mag,
{
    lemma_nearest_unique(num, den, rounded(num, den), mag);
}

// ---------------------------------------------------------------------------
// Rounding
// ---------------------------------------------------------------------------

/// Whether `num / den` is `q * 2^s`, plus `2^s / 2` if `half`, plus, if
/// `rest`, something strictly between 0 and `2^s / 2`.  Both sides are scaled
/// by 2^4096 so that negative `s` stays among the integers.
spec fn brackets(num: nat, den: nat, q: nat, s: int, half: bool, rest: bool) -> bool {
    let step = pow2((s + 4095) as nat) * den;
    let low = (2 * q + (if half {
        1nat
    } else {
        0
    })) * step;
    let x = num * pow2(4096);
    if rest {
        low < x < low + step
    } else {
        x == low
    }
}

proof fn lemma_brackets_halve(num: nat, den: nat, q: nat, s: int, half: bool, rest: bool)
    requires
        s + 4095 >= 0,
        den > 0,
        brackets(num, den, q, s, half, rest),
    ensures
        brackets(num, den, q / 2, s + 1, q % 2 == 1, half || rest),
{
    let e = (s + 4095) as nat;
    lemma_pow2_unfold(e + 1);
    lemma_pow2_pos(e);
    let step = pow2(e) * den;
    let wide = pow2(e + 1) * den;
    assert(wide == 2 * step) by (nonlinear_arith)
        requires
            pow2(e + 1) == 2 * pow2(e),
            wide == pow2(e + 1) * den,
            step == pow2(e) * den,
    ;
    assert(step > 0) by (nonlinear_arith)
        requires
            step == pow2(e) * den,
            pow2(e) > 0,
            den > 0,
    ;
    assert((s + 1 + 4095) as nat == e + 1);
    let h: nat = if half {
        1
    } else {
        0
    };
    let b: nat = if q % 2 == 1 {
        1
    } else {
        0
    };
    let low = (2 * q + h) * step;
    let wide_low = (2 * (q / 2) + b) * wide;
    assert(2 * (q / 2) + b == q);
    assert(wide_low + h * step == low) by (nonlinear_arith)
        requires
            wide_low == q * wide,
            wide == 2 * step,
            low == (2 * q + h) * step,
    ;
    assert(h * step == if half {
        step
    } else {
        0
    }) by (nonlinear_arith)
        requires
            h == if half {
                1nat
            } else {
                0
            },
    ;
}

proof fn lemma_brackets_double(num: nat, den: nat, q: nat, s: int)
    requires
        s + 4095 >= 1,
        brackets(num, den, q, s, false, false),
    ensures
        brackets(num, den, 2 * q, s - 1, false, false),
{
    let e = (s + 4095) as nat;
    lemma_pow2_unfold(e);
    let below = (e - 1) as nat;
    assert((s - 1 + 4095) as nat == below);
    assert((2 * q) * (pow2(e) * den) == (2 * (2 * q)) * (pow2(below) * den)) by (nonlinear_arith)
        requires
            pow2(e) == 2 * pow2(below),
    ;
    assert(2 * q + 0 == 2 * q);
    assert(2 * (2 * q) + 0 == 2 * (2 * q));
}

/// The magnitude that a bracketed quantity rounds to.
spec fn rounded_bracket(q: nat, s: nat, half: bool, rest: bool) -> nat {
    if s >= 2046 {
        INF_MAG as nat
    } else if half && (rest || q % 2 == 1) {
        s * (HIDDEN as nat) + q + 1
    } else {
        s * (HIDDEN as nat) + q
    }
}

proof fn lemma_brackets_round(num: nat, den: nat, q: nat, s: nat, half: bool, rest: bool)
    requires
        den > 0,
        brackets(num, den, q, s as int, half, rest),
        q < 2 * HIDDEN,
        s > 0 ==> q >= HIDDEN,
    ensures
        nearest(num, den, rounded_bracket(q, s, half, rest)),
{
    let h: nat = if half {
        1
    } else {
        0
    };
    let c = pow2(4096);
    let e = (s + 4095) as nat;
    lemma_pow2_pos(4096);
    lemma_pow2_pos(e);
    lemma_pow2_pos(s);
    lemma_pow2_adds(s, 4095);
    lemma_pow2_unfold(4096);
    let p = pow2(s);
    // Half a step of the significand, scaled, is `step`.
    let step = pow2(e) * den;
    assert(2 * step == p * c * den) by (nonlinear_arith)
        requires
            step == pow2(e) * den,
            pow2(e) == p * pow2(4095),
            c == 2 * pow2(4095),
    ;
    assert(step > 0) by (nonlinear_arith)
        requires
            step == pow2(e) * den,
            pow2(e) > 0,
            den > 0,
    ;
    let x = num * c;
    let low = (2 * q + h) * step;
    assert(low <= x);
    // Comparing twice the quantity with `m * 2^s` is comparing `x` with
    // `m * step`.
    assert forall|m: nat|
        {
            &&& (2 * num < #[trigger] (m * p) * den <==> x < m * step)
            &&& (2 * num == (m * p) * den <==> x == m * step)
            &&& (2 * num > (m * p) * den <==> x > m * step)
        } by {
        let y = (m * p) * den;
        assert(y * c == 2 * (m * step)) by (nonlinear_arith)
            requires
                2 * step == p * c * den,
                y == (m * p) * den,
        ;
        assert((2 * num) * c == 2 * x) by (nonlinear_arith)
            requires
                x == num * c,
        ;
        let t = 2 * num;
        assert(t < y ==> t * c < y * c) by (nonlinear_arith)
            requires
                c > 0,
        ;
        assert(t > y ==> t * c > y * c) by (nonlinear_arith)
            requires
                c > 0,
        ;
    }
    if s >= 2046 {
        // Infinity's units are 2^2098.
        let top = (INF_MAG - 1) as nat;
        lemma_units_at(2046, HIDDEN as nat);
        lemma_units_at(2045, (2 * HIDDEN - 1) as nat);
        assert(2046 * (HIDDEN as nat) + (HIDDEN as nat) == INF_MAG as nat);
        assert(2045 * (HIDDEN as nat) + (2 * HIDDEN - 1) as nat == top);
        lemma_pow2_unfold(2046);
        lemma_pow2_pos(2045);
        if s > 2046 {
            lemma_pow2_strictly_increases(2046, s);
        }
        let mid = (units(top) + units(INF_MAG as nat)) * den;
        let p0 = pow2(2045);
        assert(units(top) + units(INF_MAG as nat) < 2 * HIDDEN * pow2(2046)) by (nonlinear_arith)
            requires
                units(top) == (2 * HIDDEN - 1) * p0,
                units(INF_MAG as nat) == HIDDEN * pow2(2046),
                pow2(2046) == 2 * p0,
                p0 > 0,
        ;
        assert(2 * HIDDEN * pow2(2046) <= 2 * q * p) by (nonlinear_arith)
            requires
                pow2(2046) <= p,
                HIDDEN <= q,
        ;
        assert(mid < (2 * q * p) * den) by (nonlinear_arith)
            requires
                units(top) + units(INF_MAG as nat) < 2 * q * p,
                den > 0,
                mid == (units(top) + units(INF_MAG as nat)) * den,
        ;
        assert((2 * q) * step <= low) by (nonlinear_arith)
            requires
                low == (2 * q + h) * step,
        ;
        assert(((2 * q) * p) * den <= 2 * num);
    } else {
        let mag = s * (HIDDEN as nat) + q;
        lemma_units_at(s, q);
        lemma_units_at(s, q + 1);
        assert(mag < INF_MAG);
        let above = units(mag) + units(mag + 1);
        assert(above == (2 * q + 1) * p) by (nonlinear_arith)
            requires
                above == q * p + (q + 1) * p,
        ;
        assert((2 * q + 1) * step == 2 * (q * step) + step) by (nonlinear_arith);
        assert((2 * q + h) * step == 2 * (q * step) + h * step) by (nonlinear_arith);
        assert(h * step == if half {
            step
        } else {
            0
        }) by (nonlinear_arith)
            requires
                h == if half {
                    1nat
                } else {
                    0
                },
        ;
        let m = 2 * q + 1;
        assert((m * p) * den == above * den);
        if half && (rest || q % 2 == 1) {
            assert((mag + 1) % 2 == 0 <==> q % 2 == 1) by {
                assert(HIDDEN as nat == 2 * 0x8_0000_0000_0000nat);
                assert((s * (HIDDEN as nat)) == 2 * (s * 0x8_0000_0000_0000nat)) by (nonlinear_arith)
                    requires
                        HIDDEN as nat == 2 * 0x8_0000_0000_0000nat,
                ;
            }
            if mag + 1 < INF_MAG {
                lemma_units_step(mag + 1);
                lemma_units_increase(mag, mag + 1);
                // The next midpoint is at least (q + 1) * 2^s, which exceeds
                // the quantity.
                let next = units(mag + 1) + units(mag + 2);
                assert((2 * (q + 1)) * p <= next) by (nonlinear_arith)
                    requires
                        next >= 2 * ((q + 1) * p),
                ;
                let m2 = 2 * (q + 1);
                assert((m2 * p) * den <= next * den) by (nonlinear_arith)
                    requires
                        m2 * p <= next,
                ;
                assert(m2 * step == 2 * (q * step) + 2 * step) by (nonlinear_arith)
                    requires
                        m2 == 2 * (q + 1),
                ;
                assert(x < m2 * step);
                assert(2 * num < (m2 * p) * den);
            }
            assert((mag + 1 - 1) as nat == mag);
        } else {
            assert(mag % 2 == 0 <==> q % 2 == 0) by {
                assert(HIDDEN as nat == 2 * 0x8_0000_0000_0000nat);
                assert((s * (HIDDEN as nat)) == 2 * (s * 0x8_0000_0000_0000nat)) by (nonlinear_arith)
                    requires
                        HIDDEN as nat == 2 * 0x8_0000_0000_0000nat,
                ;
            }
            if mag > 0 {
                let below = (mag - 1) as nat;
                lemma_units_step(below);
                let prev = units(below) + units(mag);
                assert(prev < (2 * q) * p) by (nonlinear_arith)
                    requires
                        prev < 2 * (q * p),
                ;
                let m0 = 2 * q;
                assert(prev * den < (m0 * p) * den) by (nonlinear_arith)
                    requires
                        prev < m0 * p,
                        den > 0,
                ;
                assert(m0 * step == 2 * (q * step)) by (nonlinear_arith)
                    requires
                        m0 == 2 * q,
                ;
                assert(x >= m0 * step);
                assert((m0 * p) * den <= 2 * num);
            }
        }
    }
}

/// Rounds `p * 2^k` units, or, if `sticky`, something strictly between that
/// and `(p + 1) * 2^k` units, to a magnitude.
fn round_scaled(p: u128, k: i32, sticky: bool, Ghost(num): Ghost<nat>, Ghost(den): Ghost<nat>) -> (mag: u64)
    requires
        -3000 <= k <= 3100,
        den > 0,
        !sticky ==> brackets(num, den, p as nat, k as int, false, false),
        sticky ==> brackets(num, den, p as nat / 2, k + 1, p % 2 == 1, true),
        sticky ==> p >= 4 * HIDDEN,
    ensures
        mag == rounded(num, den),
        nearest(num, den, mag as nat),
{
    let mut q: u128 = if sticky {
        p / 2
    } else {
        p
    };
    let mut s: i32 = if sticky {
        k + 1
    } else {
        k
    };
    let mut half: bool = sticky && p % 2 == 1;
    let mut rest: bool = sticky;
    let ghost mut width: nat = 128;
    proof {
        lemma_pow2_adds(64, 64);
        lemma2_to64();
        assert(0x1_0000_0000_0000_0000nat * 0x1_0000_0000_0000_0000nat
            == 0x1_0000_0000_0000_0000_0000_0000_0000_0000nat) by (nonlinear_arith);
    }
    while q >= 2 * (HIDDEN as u128) || s < 0
        invariant
            -3000 <= s,
            width <= 128,
            s <= 0 || s + width <= 3229,
            q < pow2(width),
            den > 0,
            brackets(num, den, q as nat, s as int, half, rest),
            q < 2 * HIDDEN ==> s <= 0 || q >= HIDDEN || (!half && !rest),
        decreases q, 0 - s,
    {
        proof {
            lemma_brackets_halve(num, den, q as nat, s as int, half, rest);
            if width > 0 {
                lemma_pow2_unfold(width);
                width = (width - 1) as nat;
            } else {
                lemma2_to64();
            }
        }
        rest = half || rest;
        half = q % 2 == 1;
        q = q / 2;
        s = s + 1;
    }
    while q < HIDDEN as u128 && s > 0
        invariant
            0 <= s <= 4000,
            q < 2 * HIDDEN,
            brackets(num, den, q as nat, s as int, half, rest),
            s <= 0 || q >= HIDDEN || (!half && !rest),
        decreases s,
    {
        proof {
            lemma_brackets_double(num, den, q as nat, s as int);
        }
        q = q * 2;
        s = s - 1;
    }
    proof {
        lemma_brackets_round(num, den, q as nat, s as nat, half, rest);
        lemma_rounded_is(num, den, rounded_bracket(q as nat, s as nat, half, rest));
    }
    if s >= 2046 {
        INF_MAG
    } else {
        let base: u64 = s as u64 * HIDDEN + q as u64;
        if half && (rest || q % 2 == 1) {
            base + 1
        } else {
            base
        }
    }
}

/// A quantity that is `p * 2^k` units.
proof fn lemma_brackets_exact(num: nat, den: nat, p: nat, k: int)
    requires
        k + 4095 >= 0,
        num * pow2(4096) == p * pow2((k + 4096) as nat) * den,
    ensures
        brackets(num, den, p, k, false, false),
{
    let e = (k + 4095) as nat;
    assert((k + 4096) as nat == e + 1);
    lemma_pow2_unfold(e + 1);
    assert((2 * p + 0) * (pow2(e) * den) == p * pow2(e + 1) * den) by (nonlinear_arith)
        requires
            pow2(e + 1) == 2 * pow2(e),
    ;
}

/// A quantity strictly between `p * 2^k` and `(p + 1) * 2^k` units.
proof fn lemma_brackets_between(num: nat, den: nat, p: nat, k: int)
    requires
        k + 4095 >= 0,
        p * pow2((k + 4096) as nat) * den < num * pow2(4096),
        num * pow2(4096) < (p + 1) * pow2((k + 4096) as nat) * den,
    ensures
        brackets(num, den, p / 2, k + 1, p % 2 == 1, true),
{
    let e = (k + 4096) as nat;
    assert((k + 1 + 4095) as nat == e);
    let step = pow2(e) * den;
    assert(p * pow2(e) * den == p * step) by (nonlinear_arith)
        requires
            step == pow2(e) * den,
    ;
    assert((p + 1) * pow2(e) * den == p * step + step) by (nonlinear_arith)
        requires
            step == pow2(e) * den,
    ;
    assert(2 * (p / 2) + (if p % 2 == 1 {
        1nat
    } else {
        0
    }) == p);
}

/// A representable quantity rounds to itself.
pub proof fn lemma_exact_rounds(mag: nat)
    requires
        mag <= INF_MAG,
    ensures
        nearest(units(mag), 1, mag),
        rounded(units(mag), 1) == mag,
{
    if mag > 0 {
        lemma_units_step((mag - 1) as nat);
    }
    lemma_units_step(mag);
    lemma_rounded_is(units(mag), 1, mag);
}

// ---------------------------------------------------------------------------
// Values
// ---------------------------------------------------------------------------

impl Binary64 {
    /// The bits without the sign.
    pub open spec fn mag(self) -> nat {
        (self.bits as nat) % (SIGN_BIT as nat)
    }

    /// Whether the sign bit is set.
    pub open spec fn negative(self) -> bool {
        self.bits >= SIGN_BIT
    }

    /// Whether this is not a number.
    pub open spec fn nan(self) -> bool {
        self.mag() > INF_MAG
    }

    /// Whether this is an infinity.
    pub open spec fn infinite(self) -> bool {
        self.mag() == INF_MAG
    }

    /// Whether this is neither an infinity nor not-a-number.
    pub open spec fn finite(self) -> bool {
        self.mag() < INF_MAG
    }

    /// The value in units of 2^-1074; an infinity counts as plus or minus
    /// 2^2098 units, beyond every finite value.
    pub open spec fn signed_units(self) -> int {
        if self.negative() {
            -(units(self.mag()) as int)
        } else {
            units(self.mag()) as int
        }
    }

    /// Not-a-number.
    pub open spec fn nan_value() -> Binary64 {
        Binary64 { bits: NAN_BITS }
    }

    /// The value with the other sign.
    pub open spec fn negated(self) -> Binary64 {
        with_sign(!self.negative(), self.mag())
    }

    /// The value without its sign.
    pub open spec fn magnitude(self) -> Binary64 {
        with_sign(false, self.mag())
    }

    /// `self * other`.
    #[verifier::opaque]
    pub open spec fn product(self, other: Binary64) -> Binary64 {
        let sign = self.negative() != other.negative();
        if self.nan() || other.nan() {
            Self::nan_value()
        } else if self.infinite() || other.infinite() {
            if self.mag() == 0 || other.mag() == 0 {
                Self::nan_value()
            } else {
                with_sign(sign, INF_MAG as nat)
            }
        } else {
            with_sign(sign, rounded(units(self.mag()) * units(other.mag()), pow2(1074)))
        }
    }

    /// `self / other`.
    #[verifier::opaque]
    pub open spec fn quotient(self, other: Binary64) -> Binary64 {
        let sign = self.negative() != other.negative();
        if self.nan() || other.nan() {
            Self::nan_value()
        } else if self.infinite() {
            if other.infinite() {
                Self::nan_value()
            } else {
                with_sign(sign, INF_MAG as nat)
            }
        } else if other.infinite() {
            with_sign(sign, 0)
        } else if other.mag() == 0 {
            if self.mag() == 0 {
                Self::nan_value()
            } else {
                with_sign(sign, INF_MAG as nat)
            }
        } else {
            with_sign(sign, rounded(units(self.mag()) * pow2(1074), units(other.mag())))
        }
    }

    /// `self + other`.
    #[verifier::opaque]
    pub open spec fn sum(self, other: Binary64) -> Binary64 {
        let total = self.signed_units() + other.signed_units();
        if self.nan() || other.nan() {
            Self::nan_value()
        } else if self.infinite() {
            if other.infinite() && self.negative() != other.negative() {
                Self::nan_value()
            } else {
                self
            }
        } else if other.infinite() {
            other
        } else if total == 0 {
            with_sign(self.negative() && other.negative(), 0)
        } else if total < 0 {
            with_sign(true, rounded((-total) as nat, 1))
        } else {
            with_sign(false, rounded(total as nat, 1))
        }
    }

    /// `self - other`.
    pub open spec fn difference(self, other: Binary64) -> Binary64 {
        self.sum(other.negated())
    }

    /// `self < other`.
    #[verifier::opaque]
    pub open spec fn less(self, other: Binary64) -> bool {
        !self.nan() && !other.nan() && self.signed_units() < other.signed_units()
    }

    /// `self <= other`.
    #[verifier::opaque]
    pub open spec fn at_most(self, other: Binary64) -> bool {
        !self.nan() && !other.nan() && self.signed_units() <= other.signed_units()
    }

    /// The lesser of two values; the other one if one is not a number.
    pub open spec fn lesser(self, other: Binary64) -> Binary64 {
        if self.nan() || other.less(self) {
            other
        } else {
            self
        }
    }

    /// The greater of two values; the other one if one is not a number.
    pub open spec fn greater(self, other: Binary64) -> Binary64 {
        if self.nan() || self.less(other) {
            other
        } else {
            self
        }
    }

    /// The value moved into the range from `low` to `high`.
    pub open spec fn clamped(self, low: Binary64, high: Binary64) -> Binary64 {
        if self.less(low) {
            low
        } else if high.less(self) {
            high
        } else {
            self
        }
    }

    /// The integer `n`, rounded.
    #[verifier::opaque]
    pub open spec fn of_nat(n: nat) -> Binary64 {
        with_sign(false, rounded(n * pow2(1074), 1))
    }

    /// The value without its fraction, moved into the range of `u64`; zero
    /// for not-a-number.
    #[verifier::opaque]
    pub open spec fn truncated(self) -> nat {
        let whole = units(self.mag()) / pow2(1074);
        if self.nan() || self.negative() {
            0
        } else if whole > u64::MAX {
            u64::MAX as nat
        } else {
            whole
        }
    }

    /// The decimal fraction `num / den`, rounded once for each of the two
    /// conversions and once for the division.
    pub open spec fn fraction(num: nat, den: nat) -> Binary64 {
        Self::of_nat(num).quotient(Self::of_nat(den))
    }
}

// ---------------------------------------------------------------------------
// Executable arithmetic
// ---------------------------------------------------------------------------

/// The magnitude in two parts.
pub fn parts(mag: u64) -> (r: (u64, i32))
    requires
        mag < INF_MAG,
    ensures
        r.0 == significand_of(mag as nat),
        r.1 == shift_of(mag as nat),
        r.0 < 2 * HIDDEN,
        r.1 > 0 ==> r.0 >= HIDDEN,
        0 <= r.1 <= 2045,
        units(mag as nat) == r.0 * pow2(r.1 as nat),
        (r.0 == 0) == (mag == 0),
{
    let e: u64 = mag / HIDDEN;
    if e == 0 {
        (mag, 0)
    } else {
        (mag % HIDDEN + HIDDEN, (e - 1) as i32)
    }
}

/// Two to the power of `d`.
pub fn power_of_two(d: i32) -> (r: u128)
    requires
        0 <= d <= 100,
    ensures
        r == pow2(d as nat),
        d <= 74 ==> r <= 0x400_0000_0000_0000_0000,
{
    proof {
        lemma2_to64();
        lemma2_to64_rest();
        lemma_pow2_adds(64, 10);
        assert(pow2(74) == 0x400_0000_0000_0000_0000nat) by (nonlinear_arith)
            requires
                pow2(74) == pow2(64) * pow2(10),
                pow2(64) == 0x1_0000_0000_0000_0000nat,
                pow2(10) == 0x400nat,
        ;
        lemma_pow2_adds(64, 36);
        assert(pow2(100) == 0x10_0000_0000_0000_0000_0000_0000nat) by (nonlinear_arith)
            requires
                pow2(100) == pow2(64) * pow2(36),
                pow2(64) == 0x1_0000_0000_0000_0000nat,
                pow2(36) == 0x10_0000_0000nat,
        ;
    }
    let mut r: u128 = 1;
    let mut i: i32 = 0;
    while i < d
        invariant
            0 <= i <= d <= 100,
            r == pow2(i as nat),
            pow2(100) == 0x10_0000_0000_0000_0000_0000_0000nat,
        decreases d - i,
    {
        proof {
            lemma_pow2_strictly_increases(i as nat, 100);
            lemma_pow2_unfold((i + 1) as nat);
        }
        r = r * 2;
        i = i + 1;
    }
    proof {
        if d < 74 {
            lemma_pow2_strictly_increases(d as nat, 74);
        }
    }
    r
}

/// `units(hi) + units(lo)` or `units(hi) - units(lo)`, rounded.
fn combine(hi: u64, lo: u64, subtract: bool) -> (mag: u64)
    requires
        lo <= hi < INF_MAG,
    ensures
        !subtract ==> mag == rounded(units(hi as nat) + units(lo as nat), 1),
        subtract ==> units(lo as nat) <= units(hi as nat),
        subtract ==> mag == rounded((units(hi as nat) - units(lo as nat)) as nat, 1),
        mag <= INF_MAG,
{
    let (m, s): (u64, i32) = parts(hi);
    let (n, t): (u64, i32) = parts(lo);
    let ghost uh = units(hi as nat);
    let ghost ul = units(lo as nat);
    let ghost num: nat = if subtract {
        (uh - ul) as nat
    } else {
        uh + ul
    };
    proof {
        if lo < hi {
            lemma_units_increase(lo as nat, hi as nat);
        }
        assert(t <= s) by {
            vstd::arithmetic::div_mod::lemma_div_is_ordered(lo as int, hi as int, HIDDEN as int);
        }
    }
    if lo == 0 {
        proof {
            lemma_exact_rounds(hi as nat);
            assert(ul == 0) by (nonlinear_arith)
                requires
                    ul == n * pow2(t as nat),
                    n == 0,
            ;
        }
        return hi;
    }
    let d: i32 = s - t;
    if d <= 74 {
        let scale: u128 = power_of_two(d);
        let ghost pd = pow2(d as nat);
        proof {
            lemma_pow2_adds(d as nat, t as nat);
            assert(m * pd <= (2 * HIDDEN - 1) * 0x400_0000_0000_0000_0000nat) by (nonlinear_arith)
                requires
                    m <= 2 * HIDDEN - 1,
                    pd <= 0x400_0000_0000_0000_0000nat,
            ;
            assert((2 * HIDDEN - 1) * 0x400_0000_0000_0000_0000nat < 0x8000_0000_0000_0000_0000_0000_0000_0000nat)
                by (nonlinear_arith)
                requires
                    HIDDEN == 0x10_0000_0000_0000,
            ;
        }
        let wide: u128 = (m as u128) * scale;
        proof {
            assert(uh == wide * pow2(t as nat)) by (nonlinear_arith)
                requires
                    uh == m * pow2(s as nat),
                    pow2(s as nat) == pd * pow2(t as nat),
                    wide == m * pd,
            ;
            lemma_pow2_pos(t as nat);
            if subtract {
                assert(n <= wide) by (nonlinear_arith)
                    requires
                        n * pow2(t as nat) <= wide * pow2(t as nat),
                        pow2(t as nat) > 0,
                ;
            }
        }
        let p: u128 = if subtract {
            wide - n as u128
        } else {
            wide + n as u128
        };
        proof {
            let pt = pow2(t as nat);
            assert(num == p * pt) by (nonlinear_arith)
                requires
                    uh == wide * pt,
                    ul == n * pt,
                    p == if subtract {
                        wide - n
                    } else {
                        wide + n
                    },
                    num == if subtract {
                        uh - ul
                    } else {
                        (uh + ul) as int
                    },
            ;
            lemma_pow2_adds(t as nat, 4096);
            assert(num * pow2(4096) == p * pow2((t + 4096) as nat) * 1) by (nonlinear_arith)
                requires
                    num == p * pt,
                    pow2((t + 4096) as nat) == pt * pow2(4096),
            ;
            lemma_brackets_exact(num, 1, p as nat, t as int);
        }
        round_scaled(p, t, false, Ghost(num), Ghost(1))
    } else {
        // `lo` is less than a quarter of the last place of the shifted `hi`.
        let wide: u128 = (m as u128) * 0x10_0000;
        let k: i32 = s - 20;
        let p: u128 = if subtract {
            wide - 1
        } else {
            wide
        };
        proof {
            let pk = pow2(k as nat);
            let p20 = 0x10_0000nat;
            lemma2_to64();
            lemma_pow2_adds(20, k as nat);
            assert(uh == wide * pk) by (nonlinear_arith)
                requires
                    uh == m * pow2(s as nat),
                    pow2(s as nat) == 0x10_0000nat * pk,
                    wide == m * 0x10_0000,
            ;
            lemma_pow2_adds(t as nat, 55);
            lemma2_to64_rest();
            lemma_pow2_pos(t as nat);
            let pt = pow2(t as nat);
            assert(pow2((t + 55) as nat) <= pk) by {
                if t + 55 < k {
                    lemma_pow2_strictly_increases((t + 55) as nat, k as nat);
                }
            }
            assert(0 < ul < pk) by (nonlinear_arith)
                requires
                    ul == n * pt,
                    0 < n < 0x20_0000_0000_0000,
                    pt > 0,
                    pt * 0x80_0000_0000_0000 <= pk,
            ;
            let c = pow2(4096);
            lemma_pow2_adds(k as nat, 4096);
            lemma_pow2_pos(4096);
            assert(p * pk < num < (p + 1) * pk) by (nonlinear_arith)
                requires
                    uh == wide * pk,
                    0 < ul < pk,
                    p == if subtract {
                        wide - 1
                    } else {
                        wide as int
                    },
                    num == if subtract {
                        uh - ul
                    } else {
                        (uh + ul) as int
                    },
            ;
            assert(p * (pk * c) * 1 < num * c) by (nonlinear_arith)
                requires
                    p * pk < num,
                    c > 0,
            ;
            assert(num * c < (p + 1) * (pk * c) * 1) by (nonlinear_arith)
                requires
                    num < (p + 1) * pk,
                    c > 0,
            ;
            lemma_brackets_between(num, 1, p as nat, k as int);
        }
        round_scaled(p, k, true, Ghost(num), Ghost(1))
    }
}

impl Binary64 {
    fn signed(negative: bool, mag: u64) -> (r: Binary64)
        requires
            mag < SIGN_BIT,
        ensures
            r == with_sign(negative, mag as nat),
    {
        Binary64 {
            bits: if negative {
                SIGN_BIT + mag
            } else {
                mag
            },
        }
    }

    /// `self * other`.
    pub fn times(self, other: Binary64) -> (r: Binary64)
        ensures
            r == self.product(other),
    {
        proof {
            reveal(Binary64::product);
        }
        let a: u64 = self.bits % SIGN_BIT;
        let b: u64 = other.bits % SIGN_BIT;
        let negative: bool = (self.bits >= SIGN_BIT) != (other.bits >= SIGN_BIT);
        if a > INF_MAG || b > INF_MAG {
            return Binary64 { bits: NAN_BITS };
        }
        if a == INF_MAG || b == INF_MAG {
            if a == 0 || b == 0 {
                return Binary64 { bits: NAN_BITS };
            }
            return Self::signed(negative, INF_MAG);
        }
        let (m, s): (u64, i32) = parts(a);
        let (n, t): (u64, i32) = parts(b);
        let ghost num = units(a as nat) * units(b as nat);
        let ghost den = pow2(1074);
        assert(m * n <= 0x20_0000_0000_0000 * 0x20_0000_0000_0000) by (nonlinear_arith)
            requires
                m < 0x20_0000_0000_0000,
                n < 0x20_0000_0000_0000,
        ;
        let p: u128 = (m as u128) * (n as u128);
        let k: i32 = s + t - 1074;
        proof {
            lemma_pow2_pos(1074);
            let ps = pow2(s as nat);
            let pt = pow2(t as nat);
            lemma_pow2_adds(s as nat, t as nat);
            lemma_pow2_adds((s + t) as nat, 4096);
            lemma_pow2_adds((k + 4096) as nat, 1074);
            let c = pow2(4096);
            let e = pow2((k + 4096) as nat);
            assert(e * den == ps * pt * c);
            assert(num * c == p * e * den) by (nonlinear_arith)
                requires
                    num == (m * ps) * (n * pt),
                    p == m * n,
                    e * den == ps * pt * c,
            ;
            lemma_brackets_exact(num, den, p as nat, k as int);
        }
        let mag: u64 = round_scaled(p, k, false, Ghost(num), Ghost(den));
        Self::signed(negative, mag)
    }

    /// `self + other`.
    pub fn plus(self, other: Binary64) -> (r: Binary64)
        ensures
            r == self.sum(other),
    {
        proof {
            reveal(Binary64::sum);
        }
        let a: u64 = self.bits % SIGN_BIT;
        let b: u64 = other.bits % SIGN_BIT;
        let na: bool = self.bits >= SIGN_BIT;
        let nb: bool = other.bits >= SIGN_BIT;
        if a > INF_MAG || b > INF_MAG {
            return Binary64 { bits: NAN_BITS };
        }
        if a == INF_MAG {
            if b == INF_MAG && na != nb {
                return Binary64 { bits: NAN_BITS };
            }
            return self;
        }
        if b == INF_MAG {
            return other;
        }
        proof {
            if a < b {
                lemma_units_increase(a as nat, b as nat);
            }
            if b < a {
                lemma_units_increase(b as nat, a as nat);
            }
            if a > 0 {
                lemma_units_increase(0, a as nat);
            }
            if b > 0 {
                lemma_units_increase(0, b as nat);
            }
            lemma_exact_rounds(0);
            assert(units(0) == 0) by {
                assert(shift_of(0) == 0 && significand_of(0) == 0);
                assert(0 * pow2(0) == 0) by (nonlinear_arith);
            }
        }
        if na == nb {
            let mag: u64 = if a >= b {
                combine(a, b, false)
            } else {
                combine(b, a, false)
            };
            Self::signed(na, mag)
        } else if a == b {
            Binary64 { bits: 0 }
        } else if a > b {
            Self::signed(na, combine(a, b, true))
        } else {
            Self::signed(nb, combine(b, a, true))
        }
    }

    /// `self - other`.
    pub fn minus(self, other: Binary64) -> (r: Binary64)
        ensures
            r == self.difference(other),
    {
        let flipped: Binary64 = Self::signed(other.bits < SIGN_BIT, other.bits % SIGN_BIT);
        self.plus(flipped)
    }

    /// `self < other`.
    pub fn lt(self, other: Binary64) -> (r: bool)
        ensures
            r == self.less(other),
    {
        proof {
            reveal(Binary64::less);
        }
        let a: u64 = self.bits % SIGN_BIT;
        let b: u64 = other.bits % SIGN_BIT;
        proof {
            lemma_signed_order(self, other);
        }
        if a > INF_MAG || b > INF_MAG {
            false
        } else if self.bits >= SIGN_BIT {
            if other.bits >= SIGN_BIT {
                b < a
            } else {
                a > 0 || b > 0
            }
        } else {
            other.bits < SIGN_BIT && a < b
        }
    }

    /// `self <= other`.
    pub fn le(self, other: Binary64) -> (r: bool)
        ensures
            r == self.at_most(other),
    {
        proof {
            reveal(Binary64::less);
            reveal(Binary64::at_most);
        }
        let a: u64 = self.bits % SIGN_BIT;
        let b: u64 = other.bits % SIGN_BIT;
        if a > INF_MAG || b > INF_MAG {
            false
        } else {
            !other.lt(self)
        }
    }

    /// The absolute value.
    pub fn abs(self) -> (r: Binary64)
        ensures
            r == self.magnitude(),
    {
        Binary64 { bits: self.bits % SIGN_BIT }
    }

    /// Whether this is not a number.
    pub fn is_nan(self) -> (r: bool)
        ensures
            r == self.nan(),
    {
        self.bits % SIGN_BIT > INF_MAG
    }

    /// The lesser of two values.
    pub fn min(self, other: Binary64) -> (r: Binary64)
        ensures
            r == self.lesser(other),
    {
        if self.is_nan() || other.lt(self) {
            other
        } else {
            self
        }
    }

    /// The greater of two values.
    pub fn max(self, other: Binary64) -> (r: Binary64)
        ensures
            r == self.greater(other),
    {
        if self.is_nan() || self.lt(other) {
            other
        } else {
            self
        }
    }

    /// The value moved into the range from `low` to `high`.
    pub fn clamp(self, low: Binary64, high: Binary64) -> (r: Binary64)
        requires
            low.at_most(high),
        ensures
            r == self.clamped(low, high),
    {
        proof {
            reveal(Binary64::less);
            reveal(Binary64::at_most);
        }
        if self.lt(low) {
            low
        } else if high.lt(self) {
            high
        } else {
            self
        }
    }
}

impl Binary64 {
    /// `self / other`.
    pub fn over(self, other: Binary64) -> (r: Binary64)
        ensures
            r == self.quotient(other),
    {
        proof {
            reveal(Binary64::quotient);
        }
        let a: u64 = self.bits % SIGN_BIT;
        let b: u64 = other.bits % SIGN_BIT;
        let negative: bool = (self.bits >= SIGN_BIT) != (other.bits >= SIGN_BIT);
        if a > INF_MAG || b > INF_MAG {
            return Binary64 { bits: NAN_BITS };
        }
        if a == INF_MAG {
            if b == INF_MAG {
                return Binary64 { bits: NAN_BITS };
            }
            return Self::signed(negative, INF_MAG);
        }
        if b == INF_MAG {
            return Self::signed(negative, 0);
        }
        if b == 0 {
            if a == 0 {
                return Binary64 { bits: NAN_BITS };
            }
            return Self::signed(negative, INF_MAG);
        }
        if a == 0 {
            proof {
                lemma_signed_order(self, other);
                lemma_pow2_pos(1074);
                let ub = units(b as nat);
                let above = units(0) + units(1);
                lemma_units_step(0);
                assert(0 * pow2(1074) == 0) by (nonlinear_arith);
                assert(above * ub > 0) by (nonlinear_arith)
                    requires
                        above > 0,
                        ub > 0,
                ;
                assert(nearest(0, ub, 0));
                lemma_rounded_is(0, ub, 0);
            }
            return Self::signed(negative, 0);
        }
        let (m0, s0): (u64, i32) = parts(a);
        let (n, t): (u64, i32) = parts(b);
        let ghost ua = units(a as nat);
        let ghost ub = units(b as nat);
        let ghost c = pow2(4096);
        let mut m: u64 = m0;
        let mut s: i32 = s0;
        proof {
            lemma_pow2_adds(s as nat, 60);
            assert(ua * pow2(60) == m * pow2((s + 60) as nat)) by (nonlinear_arith)
                requires
                    ua == m * pow2(s as nat),
                    pow2((s + 60) as nat) == pow2(s as nat) * pow2(60),
            ;
            lemma2_to64();
            lemma2_to64_rest();
        }
        // Move the leading bit of the dividend to the hidden place.
        let ghost mut floor: nat = 1;
        while m < HIDDEN
            invariant
                floor <= m < 2 * HIDDEN,
                floor == pow2((s0 - s) as nat),
                s0 - s <= 52,
                0 <= s0 <= 2045,
                s <= s0,
                m0 >= 1,
                pow2(52) == HIDDEN,
                ua * pow2(60) == m * pow2((s + 60) as nat),
            decreases s + 60,
        {
            proof {
                if s0 - s == 52 {
                    assert(m >= HIDDEN);
                }
                lemma_pow2_unfold((s0 - s + 1) as nat);
                lemma_pow2_unfold((s + 60) as nat);
                assert(m * pow2((s + 60) as nat) == (2 * m) * pow2((s + 59) as nat)) by (nonlinear_arith)
                    requires
                        pow2((s + 60) as nat) == 2 * pow2((s + 59) as nat),
                ;
                floor = 2 * floor;
            }
            m = m * 2;
            s = s - 1;
        }
        let wide: u128 = (m as u128) * 0x400_0000_0000_0000_0000;
        let p: u128 = wide / (n as u128);
        let sticky: bool = wide % (n as u128) != 0;
        let k: i32 = s - t + 1000;
        let ghost num = ua * pow2(1074);
        proof {
            lemma_signed_order(self, other);
            lemma2_to64();
            lemma_pow2_adds(64, 10);
            let e = pow2((k + 4096) as nat);
            let e2 = pow2((s + 5096) as nat);
            lemma_pow2_adds((k + 4096) as nat, t as nat);
            assert(e * pow2(t as nat) == e2);
            // num * c == wide * e2
            lemma_pow2_adds(1074, 4096);
            lemma_pow2_adds(60, 5110);
            lemma_pow2_adds((s + 60) as nat, 5110);
            lemma_pow2_adds((s + 5096) as nat, 74);
            let x = num * c;
            let f = pow2(5110);
            assert(x == ua * pow2(5170)) by (nonlinear_arith)
                requires
                    x == ua * pow2(1074) * c,
                    pow2(5170) == pow2(1074) * c,
            ;
            assert(x == m * pow2((s + 60) as nat) * f) by (nonlinear_arith)
                requires
                    x == ua * pow2(5170),
                    pow2(5170) == pow2(60) * f,
                    ua * pow2(60) == m * pow2((s + 60) as nat),
            ;
            assert(x == m * pow2((s + 5170) as nat)) by (nonlinear_arith)
                requires
                    x == m * pow2((s + 60) as nat) * f,
                    pow2((s + 5170) as nat) == pow2((s + 60) as nat) * f,
            ;
            assert(pow2(74) == 0x400_0000_0000_0000_0000nat) by (nonlinear_arith)
                requires
                    pow2(74) == pow2(64) * pow2(10),
                    pow2(64) == 0x1_0000_0000_0000_0000nat,
                    pow2(10) == 0x400nat,
            ;
            assert(x == wide * e2) by (nonlinear_arith)
                requires
                    x == m * pow2((s + 5170) as nat),
                    pow2((s + 5170) as nat) == e2 * pow2(74),
                    wide == m * 0x400_0000_0000_0000_0000nat,
                    pow2(74) == 0x400_0000_0000_0000_0000nat,
            ;
            let rem = wide % (n as u128);
            vstd::arithmetic::div_mod::lemma_fundamental_div_mod(wide as int, n as int);
            assert(wide == n * p + rem);
            // p * e * ub == (p * n) * e2
            assert(p * e * ub == (p * n) * e2) by (nonlinear_arith)
                requires
                    ub == n * pow2(t as nat),
                    e * pow2(t as nat) == e2,
            ;
            assert((p + 1) * e * ub == (p * n) * e2 + n * e2) by (nonlinear_arith)
                requires
                    ub == n * pow2(t as nat),
                    e * pow2(t as nat) == e2,
            ;
            assert(x == (p * n) * e2 + rem * e2) by (nonlinear_arith)
                requires
                    x == wide * e2,
                    wide == n * p + rem,
            ;
            lemma_pow2_pos((s + 5096) as nat);
            if sticky {
                assert(0 < rem * e2 < n * e2) by (nonlinear_arith)
                    requires
                        0 < rem < n,
                        e2 > 0,
                ;
                assert(p >= 4 * HIDDEN) by (nonlinear_arith)
                    requires
                        wide == n * p + rem,
                        rem < n,
                        n < 2 * HIDDEN,
                        wide >= HIDDEN * 0x400_0000_0000_0000_0000,
                        HIDDEN == 0x10_0000_0000_0000,
                ;
                lemma_brackets_between(num, ub, p as nat, k as int);
            } else {
                assert(rem * e2 == 0) by (nonlinear_arith)
                    requires
                        rem == 0,
                ;
                lemma_brackets_exact(num, ub, p as nat, k as int);
            }
        }
        let mag: u64 = round_scaled(p, k, sticky, Ghost(num), Ghost(ub));
        Self::signed(negative, mag)
    }

    /// The integer `n`, rounded.
    pub fn from_u64(n: u64) -> (r: Binary64)
        ensures
            r == Self::of_nat(n as nat),
    {
        proof {
            reveal(Binary64::of_nat);
        }
        let ghost num = n as nat * pow2(1074);
        proof {
            lemma_pow2_adds(1074, 4096);
            assert(num * pow2(4096) == n as nat * pow2(5170) * 1) by (nonlinear_arith)
                requires
                    num == n as nat * pow2(1074),
                    pow2(5170) == pow2(1074) * pow2(4096),
            ;
            lemma_brackets_exact(num, 1, n as nat, 1074);
        }
        Self::signed(false, round_scaled(n as u128, 1074, false, Ghost(num), Ghost(1)))
    }

    /// The fraction `num / den`.
    pub fn ratio(num: u64, den: u64) -> (r: Binary64)
        ensures
            r == Self::fraction(num as nat, den as nat),
    {
        Self::from_u64(num).over(Self::from_u64(den))
    }

    /// The value without its fraction, moved into the range of `u64`.
    pub fn to_u64(self) -> (r: u64)
        ensures
            r == self.truncated(),
    {
        proof {
            reveal(Binary64::truncated);
        }
        let a: u64 = self.bits % SIGN_BIT;
        if a > INF_MAG || self.bits >= SIGN_BIT {
            return 0;
        }
        proof {
            lemma_pow2_pos(1074);
        }
        if a == INF_MAG {
            proof {
                lemma_units_at(2046, HIDDEN as nat);
                assert(2046 * (HIDDEN as nat) + (HIDDEN as nat) == INF_MAG as nat);
                lemma_whole_is_large(HIDDEN as nat, 2046);
            }
            return u64::MAX;
        }
        let (m, s): (u64, i32) = parts(a);
        if s >= 1074 {
            if s >= 1074 + 12 {
                proof {
                    lemma_whole_is_large(m as nat, s as nat);
                }
                return u64::MAX;
            }
            let scale: u128 = power_of_two(s - 1074);
            proof {
                let d = (s - 1074) as nat;
                lemma_pow2_adds(1074, d);
                assert(scale <= 2048) by {
                    lemma2_to64();
                    if d < 11 {
                        lemma_pow2_strictly_increases(d, 11);
                    }
                }
                assert(m * scale <= 0x1f_ffff_ffff_ffff * 2048) by (nonlinear_arith)
                    requires
                        m <= 0x1f_ffff_ffff_ffff,
                        scale <= 2048,
                ;
                let whole = units(a as nat) / pow2(1074);
                assert(units(a as nat) == pow2(1074) * (m * scale)) by (nonlinear_arith)
                    requires
                        units(a as nat) == m * pow2(s as nat),
                        pow2(s as nat) == pow2(1074) * scale,
                ;
                vstd::arithmetic::div_mod::lemma_div_by_multiple(m * scale, pow2(1074) as int);
                assert(pow2(1074) * (m * scale) == (m * scale) * pow2(1074)) by (nonlinear_arith);
            }
            (m as u128 * scale) as u64
        } else if s <= 1074 - 54 {
            proof {
                lemma_pow2_adds(s as nat, 54);
                lemma2_to64_rest();
                lemma_pow2_pos(s as nat);
                if s + 54 < 1074 {
                    lemma_pow2_strictly_increases((s + 54) as nat, 1074);
                }
                assert(units(a as nat) < pow2(1074)) by (nonlinear_arith)
                    requires
                        units(a as nat) == m * pow2(s as nat),
                        pow2(s as nat) * 0x40_0000_0000_0000 <= pow2(1074),
                        m < 0x20_0000_0000_0000,
                        pow2(s as nat) > 0,
                ;
                vstd::arithmetic::div_mod::lemma_basic_div(units(a as nat) as int, pow2(1074) as int);
            }
            0
        } else {
            let scale: u128 = power_of_two(1074 - s);
            proof {
                let d = (1074 - s) as nat;
                lemma_pow2_adds(s as nat, d);
                lemma_pow2_pos(s as nat);
                lemma_pow2_pos(d);
                assert(units(a as nat) == m * pow2(s as nat));
                vstd::arithmetic::div_mod::lemma_div_denominator(
                    units(a as nat) as int,
                    pow2(s as nat) as int,
                    pow2(d) as int,
                );
                vstd::arithmetic::div_mod::lemma_div_by_multiple(m as int, pow2(s as nat) as int);
                vstd::arithmetic::div_mod::lemma_div_is_ordered_by_denominator(m as int, 1, pow2(d) as int);
            }
            (m as u128 / scale) as u64
        }
    }
}

/// A value with a significand of 53 bits and a shift of at least 1086 is
/// beyond `u64`.
proof fn lemma_whole_is_large(m: nat, s: nat)
    requires
        m >= HIDDEN,
        s >= 1086,
    ensures
        (m * pow2(s)) / pow2(1074) > u64::MAX,
{
    let d = (s - 1074) as nat;
    lemma_pow2_adds(1074, d);
    lemma_pow2_pos(1074);
    lemma2_to64();
    if d > 12 {
        lemma_pow2_strictly_increases(12, d);
    }
    assert(m * pow2(s) == (m * pow2(d)) * pow2(1074)) by (nonlinear_arith)
        requires
            pow2(s) == pow2(1074) * pow2(d),
    ;
    vstd::arithmetic::div_mod::lemma_div_by_multiple((m * pow2(d)) as int, pow2(1074) as int);
    assert(m * pow2(d) >= HIDDEN * 4096) by (nonlinear_arith)
        requires
            m >= HIDDEN,
            pow2(d) >= 4096,
    ;
}

/// How the signed order follows from signs and magnitudes.
proof fn lemma_signed_order(x: Binary64, y: Binary64)
    ensures
        units(0) == 0,
        x.mag() > 0 ==> units(x.mag()) > 0,
        y.mag() > 0 ==> units(y.mag()) > 0,
        x.mag() < y.mag() <==> units(x.mag()) < units(y.mag()),
        x.mag() == y.mag() <==> units(x.mag()) == units(y.mag()),
{
    assert(units(0) == 0) by {
        assert(shift_of(0) == 0 && significand_of(0) == 0);
        assert(0 * pow2(0) == 0) by (nonlinear_arith);
    }
    if x.mag() > 0 {
        lemma_units_increase(0, x.mag());
    }
    if y.mag() > 0 {
        lemma_units_increase(0, y.mag());
    }
    if x.mag() < y.mag() {
        lemma_units_increase(x.mag(), y.mag());
    }
    if y.mag() < x.mag() {
        lemma_units_increase(y.mag(), x.mag());
    }
}

// ---------------------------------------------------------------------------
// Order
// ---------------------------------------------------------------------------

/// The greatest magnitude, from `from` on, that does not exceed `num / den`
/// units.
proof fn lemma_greatest_below(num: nat, den: nat, from: nat) -> (mag: nat)
    requires
        units(from) * den <= num,
        from <= INF_MAG,
    ensures
        mag <= INF_MAG,
        units(mag) * den <= num,
        mag < INF_MAG ==> num < units(mag + 1) * den,
    decreases INF_MAG - from,
{
    if from < INF_MAG && units(from + 1) * den <= num {
        lemma_greatest_below(num, den, from + 1)
    } else {
        from
    }
}

/// Every quantity rounds to something.
pub proof fn lemma_rounded_exists(num: nat, den: nat)
    requires
        den > 0,
    ensures
        nearest(num, den, rounded(num, den)),
{
    assert(units(0) * den == 0) by {
        assert(shift_of(0) == 0 && significand_of(0) == 0);
        assert(0 * pow2(0) == 0) by (nonlinear_arith);
        assert(0 * den == 0) by (nonlinear_arith);
    }
    let low = lemma_greatest_below(num, den, 0);
    if low > 0 {
        let below = (low - 1) as nat;
        lemma_units_step(below);
        assert((units(below) + units(low)) * den < 2 * num) by (nonlinear_arith)
            requires
                units(below) < units(low),
                units(low) * den <= num,
                den > 0,
        ;
    }
    if low < INF_MAG {
        lemma_units_step(low);
        let mid = (units(low) + units(low + 1)) * den;
        if 2 * num < mid || (2 * num == mid && low % 2 == 0) {
            assert(nearest(num, den, low));
        } else {
            if low + 1 < INF_MAG {
                lemma_units_step(low + 1);
                assert(2 * num < (units(low + 1) + units(low + 2)) * den) by (nonlinear_arith)
                    requires
                        num < units(low + 1) * den,
                        units(low + 1) < units(low + 2),
                        den > 0,
                ;
            }
            assert((low + 1 - 1) as nat == low);
            assert(nearest(num, den, low + 1));
        }
    } else {
        assert(nearest(num, den, low));
    }
}

/// Rounding keeps the order of quantities.
pub proof fn lemma_rounded_monotone(n1: nat, d1: nat, n2: nat, d2: nat)
    requires
        d1 > 0,
        d2 > 0,
        n1 * d2 <= n2 * d1,
    ensures
        rounded(n1, d1) <= rounded(n2, d2) <= INF_MAG,
{
    lemma_rounded_exists(n1, d1);
    lemma_rounded_exists(n2, d2);
    lemma_nearest_monotone(n1, d1, rounded(n1, d1), n2, d2, rounded(n2, d2));
}

/// A significand at a shift, representable or not in normal form, is a
/// magnitude.
pub proof fn lemma_representable(q: nat, s: nat) -> (mag: nat)
    requires
        q < 2 * HIDDEN,
        s <= 2045,
    ensures
        mag < INF_MAG,
        units(mag) == q * pow2(s),
    decreases s,
{
    if s == 0 || q >= HIDDEN {
        lemma_units_at(s, q);
        s * (HIDDEN as nat) + q
    } else {
        lemma_pow2_unfold(s);
        let below = (s - 1) as nat;
        assert((2 * q) * pow2(below) == q * pow2(s)) by (nonlinear_arith)
            requires
                pow2(s) == 2 * pow2(below),
        ;
        lemma_representable(2 * q, below)
    }
}

/// Integers below 2^53 are represented exactly.
pub proof fn lemma_of_nat(n: nat)
    requires
        n < 0x20_0000_0000_0000,
    ensures
        Binary64::of_nat(n).finite(),
        !Binary64::of_nat(n).negative(),
        units(Binary64::of_nat(n).mag()) == n * pow2(1074),
        Binary64::of_nat(n).mag() == rounded(n * pow2(1074), 1),
{
    reveal(Binary64::of_nat);
    let mag = lemma_representable(n, 1074);
    lemma_exact_rounds(mag);
}

/// A fraction of integers below 2^53 is their quotient, rounded once.
pub proof fn lemma_fraction(num: nat, den: nat)
    requires
        num < 0x20_0000_0000_0000,
        0 < den < 0x20_0000_0000_0000,
    ensures
        !Binary64::fraction(num, den).negative(),
        Binary64::fraction(num, den).finite(),
        Binary64::fraction(num, den).mag() == rounded(num * pow2(1074), den),
{
    reveal(Binary64::quotient);
    lemma_of_nat(num);
    lemma_of_nat(den);
    let c = pow2(1074);
    lemma_pow2_pos(1074);
    let a = Binary64::of_nat(num);
    let b = Binary64::of_nat(den);
    assert(den * c > 0) by (nonlinear_arith)
        requires
            den > 0,
            c > 0,
    ;
    assert(b.mag() != 0) by {
        assert(shift_of(0) == 0 && significand_of(0) == 0);
        assert(0 * pow2(0) == 0) by (nonlinear_arith);
    }
    let n = num * c * c;
    let d = den * c;
    assert(n * den == (num * c) * d) by (nonlinear_arith)
        requires
            n == num * c * c,
            d == den * c,
    ;
    lemma_rounded_monotone(n, d, num * c, den);
    lemma_rounded_monotone(num * c, den, n, d);
    // The result is at most `num` itself, which is representable.
    let mag = lemma_representable(num, 1074);
    lemma_exact_rounds(mag);
    assert((num * c) * 1 <= (num * c) * den) by (nonlinear_arith)
        requires
            den >= 1,
    ;
    lemma_rounded_monotone(num * c, den, num * c, 1);
}

/// Fractions are ordered as the numbers they stand for.
pub proof fn lemma_fraction_order(n1: nat, d1: nat, n2: nat, d2: nat)
    requires
        n1 < 0x20_0000_0000_0000,
        0 < d1 < 0x20_0000_0000_0000,
        n2 < 0x20_0000_0000_0000,
        0 < d2 < 0x20_0000_0000_0000,
        n1 * d2 <= n2 * d1,
    ensures
        Binary64::fraction(n1, d1).at_most(Binary64::fraction(n2, d2)),
{
    reveal(Binary64::at_most);
    lemma_fraction(n1, d1);
    lemma_fraction(n2, d2);
    let c = pow2(1074);
    assert((n1 * c) * d2 <= (n2 * c) * d1) by (nonlinear_arith)
        requires
            n1 * d2 <= n2 * d1,
    ;
    lemma_rounded_monotone(n1 * c, d1, n2 * c, d2);
    let a = Binary64::fraction(n1, d1);
    let b = Binary64::fraction(n2, d2);
    lemma_signed_order(a, b);
}

/// A whole number is a fraction with denominator one.
pub proof fn lemma_whole_fraction(n: nat)
    requires
        n < 0x20_0000_0000_0000,
    ensures
        Binary64::fraction(n, 1) == Binary64::of_nat(n),
{
    lemma_fraction(n, 1);
    lemma_of_nat(n);
}

/// Nothing rounds to nothing.
pub proof fn lemma_rounded_zero(den: nat)
    requires
        den > 0,
    ensures
        rounded(0, den) == 0,
        units(0) == 0,
{
    lemma_signed_order(Binary64 { bits: 0 }, Binary64 { bits: 0 });
    lemma_units_step(0);
    let above = units(0) + units(1);
    assert(above * den > 0) by (nonlinear_arith)
        requires
            above > 0,
            den > 0,
    ;
    assert(nearest(0, den, 0));
    lemma_rounded_is(0, den, 0);
}

/// Zero has no bit set.
pub proof fn lemma_zero()
    ensures
        Binary64::of_nat(0) == (Binary64 { bits: 0 }),
{
    reveal(Binary64::of_nat);
    lemma_rounded_zero(1);
    assert(0 * pow2(1074) == 0) by (nonlinear_arith);
}

/// Zero times anything finite truncates to zero.
pub proof fn lemma_zero_product(x: Binary64)
    requires
        x.finite(),
    ensures
        Binary64::of_nat(0).product(x).truncated() == 0,
{
    reveal(Binary64::product);
    reveal(Binary64::truncated);
    lemma_zero();
    lemma_pow2_pos(1074);
    lemma_rounded_zero(pow2(1074));
    assert(0 * units(x.mag()) == 0) by (nonlinear_arith);
    vstd::arithmetic::div_mod::lemma_basic_div(0, pow2(1074) as int);
}

/// A value below one, times an integer, is at most the integer.
pub proof fn lemma_part_of_integer(m: nat, q: nat)
    requires
        m <= u64::MAX,
        q <= 99,
    ensures
        Binary64::of_nat(m).product(Binary64::fraction(q, 100)).truncated() <= m,
{
    reveal(Binary64::of_nat);
    reveal(Binary64::product);
    reveal(Binary64::truncated);
    let c = pow2(1074);
    lemma_pow2_pos(1074);
    lemma_pow2_pos(1067);
    lemma_pow2_adds(1067, 7);
    lemma2_to64();
    let g = pow2(1067);
    assert(c == g * 128);
    lemma_fraction(q, 100);
    let f = Binary64::fraction(q, 100);
    // The factor is at most 127/128.
    let top = lemma_representable(127, 1067);
    lemma_exact_rounds(top);
    assert((q * c) * 1 <= (127 * g) * 100) by (nonlinear_arith)
        requires
            q <= 99,
            c == g * 128,
    ;
    lemma_rounded_monotone(q * c, 100, 127 * g, 1);
    lemma_units_order(f.mag(), top);
    let x = Binary64::of_nat(m);
    // An integer that is at least the product and at most `m`.
    let (low, high, low_mag, high_mag) = lemma_integers_around(m);
    lemma_exact_rounds(low_mag);
    lemma_exact_rounds(high_mag);
    assert((m * c) * 1 <= (high * c) * 1) by (nonlinear_arith)
        requires
            m <= high,
    ;
    lemma_rounded_monotone(m * c, 1, high * c, 1);
    lemma_units_order(x.mag(), high_mag);
    let n = units(x.mag()) * units(f.mag());
    assert(n * 1 <= (low * c) * c) by (nonlinear_arith)
        requires
            n == units(x.mag()) * units(f.mag()),
            units(x.mag()) <= high * c,
            units(f.mag()) <= 127 * g,
            127 * high <= 128 * low,
            c == g * 128,
    ;
    lemma_rounded_monotone(n, c, low * c, 1);
    let p = x.product(f);
    lemma_units_order(p.mag(), low_mag);
    assert(units(p.mag()) / c <= low) by (nonlinear_arith)
        requires
            units(p.mag()) <= low * c,
            c > 0,
    ;
}

/// One tenth is rounded up, by one part in 2^54 of itself.
proof fn lemma_tenth()
    ensures
        units(Binary64::fraction(10, 100).mag()) == 0x1999_9999_9999_9a * pow2(1018),
{
    let q: nat = 0x1999_9999_9999_9a;
    let g = pow2(1018);
    let c = pow2(1074);
    let mag: nat = 1018 * (HIDDEN as nat) + q;
    lemma_pow2_pos(1018);
    lemma_pow2_adds(1018, 56);
    lemma2_to64_rest();
    assert(c == g * 0x100_0000_0000_0000);
    lemma_units_at(1018, q);
    lemma_units_at(1018, (q - 1) as nat);
    lemma_units_at(1018, q + 1);
    assert(mag - 1 == 1018 * (HIDDEN as nat) + (q - 1));
    assert(mag + 1 == 1018 * (HIDDEN as nat) + (q + 1));
    assert(((q - 1) * g + q * g) * 100 < 2 * (10 * c)) by (nonlinear_arith)
        requires
            q == 0x1999_9999_9999_9a,
            c == g * 0x100_0000_0000_0000,
            g > 0,
    ;
    assert(2 * (10 * c) < (q * g + (q + 1) * g) * 100) by (nonlinear_arith)
        requires
            q == 0x1999_9999_9999_9a,
            c == g * 0x100_0000_0000_0000,
            g > 0,
    ;
    assert(nearest(10 * c, 100, mag));
    lemma_rounded_is(10 * c, 100, mag);
    lemma_fraction(10, 100);
}

/// One tenth of an integer, truncated, is the integer divided by ten.
pub proof fn lemma_tenth_of_integer(m: nat)
    requires
        m < 0x14_0000_0000_0000,
    ensures
        Binary64::of_nat(m).product(Binary64::fraction(10, 100)).truncated() == m / 10,
{
    reveal(Binary64::product);
    reveal(Binary64::truncated);
    let q: nat = 0x1999_9999_9999_9a;
    let g = pow2(1018);
    let u = pow2(1070);
    let c = pow2(1074);
    lemma_pow2_pos(1018);
    lemma_pow2_adds(1018, 52);
    lemma_pow2_adds(1070, 4);
    lemma2_to64();
    lemma2_to64_rest();
    assert(u == g * 0x10_0000_0000_0000);
    assert(c == u * 16);
    lemma_tenth();
    lemma_fraction(10, 100);
    lemma_of_nat(m);
    let x = Binary64::of_nat(m);
    let f = Binary64::fraction(10, 100);
    let n = units(x.mag()) * units(f.mag());
    let k = m / 10;
    // The product lies between `k` and fifteen sixteenths more.
    let low = lemma_representable(k, 1074);
    let high = lemma_representable(16 * k + 15, 1070);
    lemma_exact_rounds(low);
    lemma_exact_rounds(high);
    assert(k * c <= m * (q * g)) by (nonlinear_arith)
        requires
            10 * k <= m,
            c == u * 16,
            u == g * 0x10_0000_0000_0000,
            q == 0x1999_9999_9999_9a,
            g > 0,
    ;
    assert(m * (q * g) <= (16 * k + 15) * u) by (nonlinear_arith)
        requires
            m <= 10 * k + 9,
            k < 0x2_0000_0000_0000,
            u == g * 0x10_0000_0000_0000,
            q == 0x1999_9999_9999_9a,
            g > 0,
    ;
    assert(n == (m * (q * g)) * c) by (nonlinear_arith)
        requires
            n == (m * c) * (q * g),
    ;
    assert((k * c) * c <= n * 1) by (nonlinear_arith)
        requires
            n == (m * (q * g)) * c,
            k * c <= m * (q * g),
            c >= 0,
    ;
    assert(n * 1 <= ((16 * k + 15) * u) * c) by (nonlinear_arith)
        requires
            n == (m * (q * g)) * c,
            m * (q * g) <= (16 * k + 15) * u,
            c >= 0,
    ;
    lemma_rounded_monotone(k * c, 1, n, c);
    lemma_rounded_monotone(n, c, (16 * k + 15) * u, 1);
    let p = x.product(f);
    lemma_units_order(low, p.mag());
    lemma_units_order(p.mag(), high);
    assert(units(p.mag()) / c == k) by (nonlinear_arith)
        requires
            k * c <= units(p.mag()) <= (16 * k + 15) * u,
            c == u * 16,
            u > 0,
    ;
}

/// A greater magnitude stands for at least as many units.
pub proof fn lemma_units_order(a: nat, b: nat)
    requires
        a <= b,
    ensures
        units(a) <= units(b),
{
    if a < b {
        lemma_units_increase(a, b);
    }
}

/// Two representable integers around an integer, close to each other.
proof fn lemma_integers_around(m: nat) -> (r: (nat, nat, nat, nat))
    requires
        m <= u64::MAX,
    ensures
        r.0 <= m <= r.1,
        127 * r.1 <= 128 * r.0,
        r.2 < INF_MAG,
        units(r.2) == r.0 * pow2(1074),
        r.3 < INF_MAG,
        units(r.3) == r.1 * pow2(1074),
{
    if m < 0x20_0000_0000_0000 {
        let mag = lemma_representable(m, 1074);
        (m, m, mag, mag)
    } else {
        let q = m / 2048;
        lemma_pow2_adds(1074, 11);
        lemma_pow2_adds(1074, 12);
        lemma2_to64();
        let c = pow2(1074);
        let low_mag = lemma_representable(q, 1085);
        assert(q * pow2(1085) == (q * 2048) * c) by (nonlinear_arith)
            requires
                pow2(1085) == c * 2048,
        ;
        let half = (q + 2) / 2;
        let high_mag = lemma_representable(half, 1086);
        assert(half * pow2(1086) == (half * 4096) * c) by (nonlinear_arith)
            requires
                pow2(1086) == c * 4096,
        ;
        (q * 2048, half * 4096, low_mag, high_mag)
    }
}

/// Integers of 64 bits are finite and keep their order.
pub proof fn lemma_integer_order(a: nat, b: nat)
    requires
        a <= b <= u64::MAX,
    ensures
        Binary64::of_nat(a).mag() <= Binary64::of_nat(b).mag(),
        Binary64::of_nat(a).finite(),
        Binary64::of_nat(b).finite(),
        !Binary64::of_nat(a).negative(),
        !Binary64::of_nat(b).negative(),
{
    reveal(Binary64::of_nat);
    let c = pow2(1074);
    let (low, high, low_mag, high_mag) = lemma_integers_around(b);
    lemma_exact_rounds(high_mag);
    assert((b * c) * 1 <= (high * c) * 1) by (nonlinear_arith)
        requires
            b <= high,
    ;
    lemma_rounded_monotone(b * c, 1, high * c, 1);
    assert((a * c) * 1 <= (b * c) * 1) by (nonlinear_arith)
        requires
            a <= b,
    ;
    lemma_rounded_monotone(a * c, 1, b * c, 1);
}

/// Integers keep their order when they are divided.
pub proof fn lemma_quotient_order(a: nat, b: nat, den: nat)
    requires
        a <= b <= u64::MAX,
        0 < den < 0x20_0000_0000_0000,
    ensures
        Binary64::of_nat(a).quotient(Binary64::of_nat(den)).at_most(
            Binary64::of_nat(b).quotient(Binary64::of_nat(den)),
        ),
{
    reveal(Binary64::quotient);
    reveal(Binary64::at_most);
    lemma_integer_order(a, b);
    lemma_of_nat(den);
    let x = Binary64::of_nat(a);
    let y = Binary64::of_nat(b);
    let d = Binary64::of_nat(den);
    let c = pow2(1074);
    lemma_pow2_pos(1074);
    assert(den * c > 0) by (nonlinear_arith)
        requires
            den > 0,
            c > 0,
    ;
    lemma_rounded_zero(1);
    lemma_units_order(x.mag(), y.mag());
    let u = units(d.mag());
    assert((units(x.mag()) * c) * u <= (units(y.mag()) * c) * u) by (nonlinear_arith)
        requires
            units(x.mag()) <= units(y.mag()),
    ;
    lemma_rounded_monotone(units(x.mag()) * c, u, units(y.mag()) * c, u);
    lemma_units_order(x.quotient(d).mag(), y.quotient(d).mag());
}

/// A greater part of an integer is at least as great.
pub proof fn lemma_part_order(m: nat, p: nat, q: nat)
    requires
        m <= u64::MAX,
        p <= q <= 100,
    ensures
        Binary64::of_nat(m).product(Binary64::fraction(p, 100)).truncated() <= Binary64::of_nat(m).product(
            Binary64::fraction(q, 100),
        ).truncated(),
{
    reveal(Binary64::product);
    reveal(Binary64::truncated);
    let c = pow2(1074);
    lemma_pow2_pos(1074);
    lemma_integer_order(m, m);
    lemma_fraction(p, 100);
    lemma_fraction(q, 100);
    assert((p * c) * 100 <= (q * c) * 100) by (nonlinear_arith)
        requires
            p <= q,
    ;
    lemma_rounded_monotone(p * c, 100, q * c, 100);
    let x = Binary64::of_nat(m);
    let f = Binary64::fraction(p, 100);
    let g = Binary64::fraction(q, 100);
    lemma_units_order(f.mag(), g.mag());
    let u = units(x.mag());
    assert((u * units(f.mag())) * c <= (u * units(g.mag())) * c) by (nonlinear_arith)
        requires
            units(f.mag()) <= units(g.mag()),
    ;
    lemma_rounded_monotone(u * units(f.mag()), c, u * units(g.mag()), c);
    lemma_units_order(x.product(f).mag(), x.product(g).mag());
    vstd::arithmetic::div_mod::lemma_div_is_ordered(
        units(x.product(f).mag()) as int,
        units(x.product(g).mag()) as int,
        c as int,
    );
}

/// Fractions with small terms differ where the numbers they stand for do.
pub proof fn lemma_fractions_apart(n1: nat, d1: nat, n2: nat, d2: nat)
    requires
        n1 <= 1000,
        0 < d1 <= 1000,
        n2 <= 1000,
        0 < d2 <= 1000,
        n1 * d2 < n2 * d1,
    ensures
        !Binary64::fraction(n2, d2).at_most(Binary64::fraction(n1, d1)),
{
    reveal(Binary64::at_most);
    lemma_fraction(n1, d1);
    lemma_fraction(n2, d2);
    let c = pow2(1074);
    let g = pow2(1052);
    lemma_pow2_pos(1052);
    lemma_pow2_adds(1052, 22);
    lemma2_to64();
    // Two multiples of 2^-22 lie between the numbers.
    let e = 0x40_0000nat;
    let q = (n1 * e) / d1 + 1;
    assert(c == g * e);
    assert(n1 * e < q * d1 <= n1 * e + d1) by (nonlinear_arith)
        requires
            q == (n1 * e) / d1 + 1,
            d1 > 0,
    ;
    assert(q <= n1 * e + 1) by (nonlinear_arith)
        requires
            q == (n1 * e) / d1 + 1,
            d1 > 0,
    ;
    let a = lemma_representable(q, 1052);
    let b = lemma_representable(q + 1, 1052);
    lemma_exact_rounds(a);
    lemma_exact_rounds(b);
    assert((n1 * c) * 1 <= (q * g) * d1) by (nonlinear_arith)
        requires
            n1 * e < q * d1,
            c == g * e,
    ;
    lemma_rounded_monotone(n1 * c, d1, q * g, 1);
    assert((q + 1) * d2 <= n2 * e) by (nonlinear_arith)
        requires
            q * d1 <= n1 * e + d1,
            n1 * d2 + 1 <= n2 * d1,
            0 < d1 <= 1000,
            0 < d2 <= 1000,
            e == 0x40_0000nat,
    {
        assert(d1 * d2 <= 1000000);
        assert((q + 1) * d2 * d1 <= (n1 * e + 2 * d1) * d2);
        assert((n1 * e + 2 * d1) * d2 == (n1 * d2) * e + 2 * (d1 * d2));
        assert((n1 * d2 + 1) * e <= (n2 * d1) * e);
        assert((q + 1) * d2 * d1 <= n2 * e * d1);
    }
    assert(((q + 1) * g) * d2 <= (n2 * c) * 1) by (nonlinear_arith)
        requires
            (q + 1) * d2 <= n2 * e,
            c == g * e,
    ;
    lemma_rounded_monotone((q + 1) * g, 1, n2 * c, d2);
    assert(q * g < (q + 1) * g) by (nonlinear_arith)
        requires
            g > 0,
    ;
    if b <= a {
        lemma_units_order(b, a);
    }
    lemma_signed_order(Binary64::fraction(n1, d1), Binary64::fraction(n2, d2));
}

} // verus!
