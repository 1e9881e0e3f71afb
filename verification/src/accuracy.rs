//! How rounded arithmetic compares with exact arithmetic: it keeps the order
//! of its arguments, and stays close to the exact result.

use crate::binary64::{
    lemma_exact_rounds, lemma_fraction, lemma_of_nat, lemma_representable, lemma_rounded_monotone,
    lemma_rounded_zero, lemma_units_increase, lemma_units_order, lemma_zero, rounded,
    shift_of, significand_of, units, with_sign, Binary64, HIDDEN, INF_MAG,
};
use vstd::arithmetic::power2::{lemma2_to64, lemma_pow2_adds, lemma_pow2_pos, lemma_pow2_unfold, pow2};
use vstd::prelude::*;

verus! {

// ---------------------------------------------------------------------------
// Order
// ---------------------------------------------------------------------------

/// Sign and magnitude are what they were put together from.
pub proof fn lemma_with_sign(negative: bool, mag: nat)
    requires
        mag <= INF_MAG,
    ensures
        with_sign(negative, mag).mag() == mag,
        with_sign(negative, mag).negative() == negative,
        !with_sign(negative, mag).nan(),
        with_sign(negative, mag).signed_units() == if negative {
            -(units(mag) as int)
        } else {
            units(mag) as int
        },
{
}

/// The value of a sum of units, rounded.
spec fn rounded_sum(total: int) -> int {
    if total < 0 {
        -(units(rounded((-total) as nat, 1)) as int)
    } else {
        units(rounded(total as nat, 1)) as int
    }
}

proof fn lemma_rounded_sum_order(a: int, b: int)
    requires
        a <= b,
    ensures
        rounded_sum(a) <= rounded_sum(b),
{
    lemma_rounded_zero(1);
    if b < 0 {
        lemma_rounded_monotone((-b) as nat, 1, (-a) as nat, 1);
        lemma_units_order(rounded((-b) as nat, 1), rounded((-a) as nat, 1));
    } else if a >= 0 {
        lemma_rounded_monotone(a as nat, 1, b as nat, 1);
        lemma_units_order(rounded(a as nat, 1), rounded(b as nat, 1));
    }
}

proof fn lemma_sum_value(a: Binary64, b: Binary64)
    requires
        a.finite(),
        b.finite(),
    ensures
        !a.sum(b).nan(),
        a.sum(b).signed_units() == rounded_sum(a.signed_units() + b.signed_units()),
{
    reveal(Binary64::sum);
    let total = a.signed_units() + b.signed_units();
    lemma_rounded_zero(1);
    if total < 0 {
        lemma_rounded_monotone((-total) as nat, 1, (-total) as nat, 1);
    } else {
        lemma_rounded_monotone(total as nat, 1, total as nat, 1);
    }
}

/// A greater value gives a sum at least as great.
pub proof fn lemma_sum_order(a: Binary64, b: Binary64, x: Binary64)
    requires
        a.at_most(b),
        a.finite(),
        b.finite(),
        x.finite(),
    ensures
        a.sum(x).at_most(b.sum(x)),
        x.sum(a).at_most(x.sum(b)),
{
    reveal(Binary64::at_most);
    lemma_sum_value(a, x);
    lemma_sum_value(b, x);
    lemma_sum_value(x, a);
    lemma_sum_value(x, b);
    lemma_rounded_sum_order(a.signed_units() + x.signed_units(), b.signed_units() + x.signed_units());
    lemma_rounded_sum_order(x.signed_units() + a.signed_units(), x.signed_units() + b.signed_units());
}

/// A negated value has its units negated.
pub proof fn lemma_negated(a: Binary64)
    requires
        !a.nan(),
    ensures
        a.negated().signed_units() == -a.signed_units(),
        a.negated().mag() == a.mag(),
{
}

/// Taking more away leaves no more; taking away from more leaves no less.
pub proof fn lemma_difference_order(a: Binary64, b: Binary64, x: Binary64)
    requires
        a.at_most(b),
        a.finite(),
        b.finite(),
        x.finite(),
    ensures
        x.difference(b).at_most(x.difference(a)),
        a.difference(x).at_most(b.difference(x)),
{
    reveal(Binary64::at_most);
    lemma_negated(a);
    lemma_negated(b);
    lemma_negated(x);
    assert(b.negated().at_most(a.negated()));
    lemma_sum_order(b.negated(), a.negated(), x);
    lemma_sum_order(a, b, x.negated());
}

/// A difference is negative, zero or positive as the order of its terms says.
pub proof fn lemma_difference_sign(a: Binary64, b: Binary64)
    requires
        a.finite(),
        b.finite(),
    ensures
        a.at_most(b) <==> a.difference(b).signed_units() <= 0,
        a.less(b) <==> a.difference(b).signed_units() < 0,
        !a.difference(b).nan(),
{
    reveal(Binary64::at_most);
    reveal(Binary64::less);
    lemma_negated(b);
    lemma_sum_value(a, b.negated());
    let total = a.signed_units() - b.signed_units();
    lemma_rounded_zero(1);
    // One unit is representable, so no difference rounds to nothing.
    lemma_units_increase(0, 1);
    lemma_exact_rounds(1);
    lemma_one_unit();
    if total < 0 {
        lemma_rounded_monotone(1, 1, (-total) as nat, 1);
        lemma_units_order(1, rounded((-total) as nat, 1));
    } else if total > 0 {
        lemma_rounded_monotone(1, 1, total as nat, 1);
        lemma_units_order(1, rounded(total as nat, 1));
    }
}

proof fn lemma_one_unit()
    ensures
        units(1) == 1,
{
    lemma2_to64();
    assert(crate::binary64::shift_of(1) == 0);
    assert(1 * pow2(0) == 1) by (nonlinear_arith)
        requires
            pow2(0) == 1,
    ;
}

/// A greater factor gives a product at least as great.
pub proof fn lemma_product_order(a: Binary64, b: Binary64, x: Binary64)
    requires
        a.at_most(b),
        a.finite(),
        b.finite(),
        x.finite(),
        !a.negative(),
        !b.negative(),
        !x.negative(),
    ensures
        a.product(x).at_most(b.product(x)),
        x.product(a).at_most(x.product(b)),
        !a.product(x).negative(),
        !x.product(a).negative(),
{
    reveal(Binary64::at_most);
    reveal(Binary64::product);
    let c = pow2(1074);
    lemma_pow2_pos(1074);
    let (ua, ub, ux) = (units(a.mag()), units(b.mag()), units(x.mag()));
    assert((ua * ux) * c <= (ub * ux) * c) by (nonlinear_arith)
        requires
            ua <= ub,
    ;
    assert(ua * ux == ux * ua && ub * ux == ux * ub) by (nonlinear_arith);
    lemma_rounded_monotone(ua * ux, c, ub * ux, c);
    lemma_units_order(rounded(ua * ux, c), rounded(ub * ux, c));
}

/// A greater dividend gives a quotient at least as great.
pub proof fn lemma_dividend_order(a: Binary64, b: Binary64, x: Binary64)
    requires
        a.at_most(b),
        a.finite(),
        b.finite(),
        x.finite(),
        x.mag() > 0,
        !a.negative(),
        !b.negative(),
        !x.negative(),
    ensures
        a.quotient(x).at_most(b.quotient(x)),
        !a.quotient(x).negative(),
{
    reveal(Binary64::at_most);
    reveal(Binary64::quotient);
    let c = pow2(1074);
    lemma_rounded_zero(1);
    let (ua, ub, ux) = (units(a.mag()), units(b.mag()), units(x.mag()));
    lemma_units_increase(0, x.mag());
    assert((ua * c) * ux <= (ub * c) * ux) by (nonlinear_arith)
        requires
            ua <= ub,
    ;
    lemma_rounded_monotone(ua * c, ux, ub * c, ux);
    lemma_units_order(rounded(ua * c, ux), rounded(ub * c, ux));
}

/// A value without sign, fraction by fraction: its integer part grows with it.
pub proof fn lemma_truncation_order(a: Binary64, b: Binary64)
    requires
        a.at_most(b),
    ensures
        a.truncated() <= b.truncated(),
{
    reveal(Binary64::at_most);
    reveal(Binary64::truncated);
    lemma_pow2_pos(1074);
    lemma_rounded_zero(1);
    if !a.negative() {
        if b.negative() {
            assert(units(a.mag()) == 0);
            vstd::arithmetic::div_mod::lemma_basic_div(0, pow2(1074) as int);
        } else {
            vstd::arithmetic::div_mod::lemma_div_is_ordered(
                units(a.mag()) as int,
                units(b.mag()) as int,
                pow2(1074) as int,
            );
        }
    }
}

// ---------------------------------------------------------------------------
// Neutral elements
// ---------------------------------------------------------------------------

/// Values with the same sign and units are the same.
pub proof fn lemma_same_units(a: nat, b: nat)
    requires
        units(a) == units(b),
    ensures
        a == b,
{
    if a < b {
        lemma_units_increase(a, b);
    } else if b < a {
        lemma_units_increase(b, a);
    }
}

/// Once a value is the value; divided by one it is the value too.
pub proof fn lemma_times_one(x: Binary64)
    requires
        x.finite(),
    ensures
        x.product(Binary64::of_nat(1)) == x,
        Binary64::of_nat(1).product(x) == x,
        x.quotient(Binary64::of_nat(1)) == x,
{
    reveal(Binary64::product);
    reveal(Binary64::quotient);
    let c = pow2(1074);
    lemma_pow2_pos(1074);
    lemma_of_nat(1);
    let one = Binary64::of_nat(1);
    let u = units(x.mag());
    assert(1 * c == c) by (nonlinear_arith);
    lemma_rounded_zero(1);
    assert(one.mag() != 0);
    assert(units(one.mag()) == c);
    assert(u * c == c * u) by (nonlinear_arith);
    assert((u * c) * 1 == u * c) by (nonlinear_arith);
    lemma_rounded_monotone(u * c, c, u, 1);
    lemma_rounded_monotone(u, 1, u * c, c);
    lemma_exact_rounds(x.mag());
    assert(with_sign(x.negative(), x.mag()) == x);
}

/// Nothing added or taken away leaves the value.
pub proof fn lemma_plus_zero(x: Binary64)
    requires
        x.finite(),
        !x.negative(),
    ensures
        x.sum(Binary64::of_nat(0)) == x,
        Binary64::of_nat(0).sum(x) == x,
        x.difference(Binary64::of_nat(0)) == x,
{
    reveal(Binary64::sum);
    lemma_zero();
    lemma_rounded_zero(1);
    lemma_exact_rounds(x.mag());
    let zero = Binary64::of_nat(0);
    lemma_negated(zero);
    if x.mag() > 0 {
        lemma_units_increase(0, x.mag());
    }
}

/// Zero times a value is nothing.
pub proof fn lemma_times_zero(x: Binary64)
    requires
        x.finite(),
        !x.negative(),
    ensures
        x.product(Binary64::of_nat(0)) == Binary64::of_nat(0),
        Binary64::of_nat(0).product(x) == Binary64::of_nat(0),
{
    reveal(Binary64::product);
    lemma_zero();
    lemma_pow2_pos(1074);
    lemma_rounded_zero(pow2(1074));
    assert(0 * units(x.mag()) == 0) by (nonlinear_arith);
    assert(units(x.mag()) * 0 == 0) by (nonlinear_arith);
}

/// A value less itself is nothing.
pub proof fn lemma_minus_self(x: Binary64)
    requires
        x.finite(),
        !x.negative(),
    ensures
        x.difference(x) == Binary64::of_nat(0),
{
    reveal(Binary64::sum);
    lemma_zero();
    lemma_negated(x);
}

/// A value other than zero, divided by itself, is one.
pub proof fn lemma_over_self(x: Binary64)
    requires
        x.finite(),
        x.mag() > 0,
    ensures
        x.quotient(x) == Binary64::of_nat(1),
{
    reveal(Binary64::quotient);
    lemma_of_nat(1);
    let c = pow2(1074);
    let u = units(x.mag());
    lemma_rounded_zero(1);
    lemma_units_increase(0, x.mag());
    assert((u * c) * 1 == (1 * c) * u) by (nonlinear_arith);
    lemma_rounded_monotone(u * c, u, 1 * c, 1);
    lemma_rounded_monotone(1 * c, 1, u * c, u);
}

/// Zero divided by anything else is zero.
pub proof fn lemma_zero_over(x: Binary64)
    requires
        x.finite(),
        !x.negative(),
        x.mag() > 0,
    ensures
        Binary64::of_nat(0).quotient(x) == Binary64::of_nat(0),
{
    reveal(Binary64::quotient);
    lemma_zero();
    lemma_rounded_zero(1);
    lemma_units_increase(0, x.mag());
    lemma_rounded_zero(units(x.mag()));
    assert(0 * pow2(1074) == 0) by (nonlinear_arith);
}

// ---------------------------------------------------------------------------
// Closeness
// ---------------------------------------------------------------------------

/// Whether a value lies between `low` and `high` steps of 2^(s - 1074).
pub open spec fn lies(x: Binary64, low: nat, high: nat, s: nat) -> bool {
    &&& x.finite()
    &&& !x.negative()
    &&& low * pow2(s) <= units(x.mag()) <= high * pow2(s)
}

/// What lies between two values of few digits still does when rounded.
pub proof fn lemma_round_within(num: nat, den: nat, low: nat, high: nat, s: nat)
    requires
        den > 0,
        (low * pow2(s)) * den <= num <= (high * pow2(s)) * den,
        high < 0x20_0000_0000_0000,
        s <= 2045,
    ensures
        rounded(num, den) < INF_MAG,
        low * pow2(s) <= units(rounded(num, den)) <= high * pow2(s),
{
    if low > high {
        lemma_pow2_pos(s);
        assert((high * pow2(s)) * den < (low * pow2(s)) * den) by (nonlinear_arith)
            requires
                high < low,
                pow2(s) > 0,
                den > 0,
        ;
    }
    let a = crate::binary64::lemma_representable(low, s);
    let b = crate::binary64::lemma_representable(high, s);
    lemma_exact_rounds(a);
    lemma_exact_rounds(b);
    assert((low * pow2(s)) * den <= num * 1);
    lemma_rounded_monotone(low * pow2(s), 1, num, den);
    lemma_rounded_monotone(num, den, high * pow2(s), 1);
    lemma_units_order(a, rounded(num, den));
    lemma_units_order(rounded(num, den), b);
}

/// Fractions that stand for one number are one value.
pub proof fn lemma_same_fraction(n1: nat, d1: nat, n2: nat, d2: nat)
    requires
        n1 < 0x20_0000_0000_0000,
        0 < d1 < 0x20_0000_0000_0000,
        n2 < 0x20_0000_0000_0000,
        0 < d2 < 0x20_0000_0000_0000,
        n1 * d2 == n2 * d1,
    ensures
        Binary64::fraction(n1, d1) == Binary64::fraction(n2, d2),
{
    lemma_fraction(n1, d1);
    lemma_fraction(n2, d2);
    let c = pow2(1074);
    assert((n1 * c) * d2 == (n2 * c) * d1) by (nonlinear_arith)
        requires
            n1 * d2 == n2 * d1,
    ;
    lemma_rounded_monotone(n1 * c, d1, n2 * c, d2);
    lemma_rounded_monotone(n2 * c, d2, n1 * c, d1);
}

/// A fraction lies within one step of 2^-(1074 - s) of the number it stands
/// for.
pub proof fn lemma_fraction_lies(p: nat, q: nat, e: nat)
    requires
        p < 0x20_0000_0000_0000,
        0 < q < 0x20_0000_0000_0000,
        e <= 1074,
        (p * pow2(e)) / q + 1 < 0x20_0000_0000_0000,
    ensures
        lies(Binary64::fraction(p, q), (p * pow2(e)) / q, (p * pow2(e)) / q + 1, (1074 - e) as nat),
{
    lemma_fraction(p, q);
    let s = (1074 - e) as nat;
    let c = pow2(1074);
    let (g, h) = (pow2(s), pow2(e));
    lemma_pow2_adds(s, e);
    let f = (p * h) / q;
    vstd::arithmetic::div_mod::lemma_fundamental_div_mod((p * h) as int, q as int);
    vstd::arithmetic::div_mod::lemma_mod_bound((p * h) as int, q as int);
    assert(f * q <= p * h < (f + 1) * q) by (nonlinear_arith)
        requires
            p * h == q * f + (p * h) % q,
            0 <= (p * h) % q < q,
    ;
    assert((f * g) * q <= p * c <= ((f + 1) * g) * q) by (nonlinear_arith)
        requires
            f * q <= p * h < (f + 1) * q,
            c == g * h,
    ;
    lemma_round_within(p * c, q, f, f + 1, s);
}

/// The product of an integer and a value that lies between two steps.
proof fn lemma_product_lies(n: nat, x: Binary64, low: nat, high: nat, e: nat, d: nat)
    requires
        n < 0x20_0000_0000_0000,
        lies(x, low, high, e),
        e + d <= 1074,
        (n * high) / pow2(d) + 1 < 0x20_0000_0000_0000,
    ensures
        lies(
            Binary64::of_nat(n).product(x),
            (n * low) / pow2(d),
            (n * high) / pow2(d) + 1,
            e + d,
        ),
        x.product(Binary64::of_nat(n)) == Binary64::of_nat(n).product(x),
{
    reveal(Binary64::product);
    lemma_of_nat(n);
    let c = pow2(1074);
    let (g, h, w) = (pow2(e), pow2(d), pow2(e + d));
    lemma_pow2_adds(e, d);
    lemma_pow2_pos(d);
    lemma_pow2_pos(1074);
    let u = units(x.mag());
    let num = (n * c) * u;
    let a = (n * low) / h;
    let b = (n * high) / h + 1;
    vstd::arithmetic::div_mod::lemma_fundamental_div_mod((n * low) as int, h as int);
    vstd::arithmetic::div_mod::lemma_mod_bound((n * low) as int, h as int);
    vstd::arithmetic::div_mod::lemma_fundamental_div_mod((n * high) as int, h as int);
    vstd::arithmetic::div_mod::lemma_mod_bound((n * high) as int, h as int);
    assert(a * h <= n * low) by (nonlinear_arith)
        requires
            n * low == h * a + (n * low) % h,
            (n * low) % h >= 0,
    ;
    assert(n * high <= b * h) by (nonlinear_arith)
        requires
            n * high == h * (b - 1) + (n * high) % h,
            (n * high) % h < h,
    ;
    assert(a * w <= n * u) by (nonlinear_arith)
        requires
            a * h <= n * low,
            low * g <= u,
            w == g * h,
            g >= 0,
            n >= 0,
    {
        assert(a * w == (a * h) * g);
        assert((a * h) * g <= (n * low) * g);
        assert((n * low) * g == n * (low * g));
        assert(n * (low * g) <= n * u);
    }
    assert(n * u <= b * w) by (nonlinear_arith)
        requires
            n * high <= b * h,
            u <= high * g,
            w == g * h,
            g >= 0,
            n >= 0,
    {
        assert(b * w == (b * h) * g);
        assert((n * high) * g <= (b * h) * g);
        assert((n * high) * g == n * (high * g));
        assert(n * u <= n * (high * g));
    }
    assert((a * w) * c <= num <= (b * w) * c) by (nonlinear_arith)
        requires
            a * w <= n * u <= b * w,
            num == (n * c) * u,
            c >= 0,
    ;
    assert((n * c) * u == u * (n * c)) by (nonlinear_arith);
    lemma_round_within(num, c, a, b, e + d);
}

/// The integer part of a value between two steps.
proof fn lemma_truncation_lies(x: Binary64, low: nat, high: nat, e: nat)
    requires
        lies(x, low, high, e),
        e <= 1074,
        high <= u64::MAX,
    ensures
        x.truncated() * pow2((1074 - e) as nat) <= high,
        low < (x.truncated() + 1) * pow2((1074 - e) as nat),
{
    reveal(Binary64::truncated);
    let d = (1074 - e) as nat;
    let (g, h, c) = (pow2(e), pow2(d), pow2(1074));
    lemma_pow2_adds(e, d);
    lemma_pow2_pos(e);
    lemma_pow2_pos(d);
    lemma_pow2_pos(1074);
    let u = units(x.mag());
    let t = u / c;
    vstd::arithmetic::div_mod::lemma_fundamental_div_mod(u as int, c as int);
    vstd::arithmetic::div_mod::lemma_mod_bound(u as int, c as int);
    assert(t * c <= u < (t + 1) * c) by (nonlinear_arith)
        requires
            u == c * t + u % c,
            0 <= u % c < c,
    ;
    assert(t * h <= high) by (nonlinear_arith)
        requires
            t * c <= u,
            u <= high * g,
            c == g * h,
            g > 0,
    {
        assert((t * h) * g <= high * g);
    }
    assert(low < (t + 1) * h) by (nonlinear_arith)
        requires
            u < (t + 1) * c,
            low * g <= u,
            c == g * h,
            g > 0,
    {
        assert(low * g < ((t + 1) * h) * g);
    }
    assert(t <= t * h) by (nonlinear_arith)
        requires
            h >= 1,
            t >= 0,
    ;
}

proof fn lemma_powers()
    ensures
        pow2(11) == 2048,
        pow2(40) == 0x100_0000_0000,
        pow2(41) == 0x200_0000_0000,
        pow2(51) == 0x8_0000_0000_0000,
        pow2(52) == 0x10_0000_0000_0000,
{
    lemma2_to64();
    vstd::arithmetic::power2::lemma2_to64_rest();
}

/// The integer part of a decimal part of an integer is that of the exact
/// product, but that an exact integer may come out one too low.
pub proof fn lemma_part_is_close(n: nat, p: nat, q: nat)
    requires
        n < 0x100_0000_0000,
        0 < q <= 1000,
        p <= 2 * q,
    ensures
        q * Binary64::of_nat(n).product(Binary64::fraction(p, q)).truncated() <= n * p,
        n * p <= q * (Binary64::of_nat(n).product(Binary64::fraction(p, q)).truncated() + 1),
        Binary64::of_nat(n).product(Binary64::fraction(p, q)).truncated() <= 2 * n,
{
    lemma_powers();
    let h: nat = 0x8_0000_0000_0000;
    let f = (p * h) / q;
    let x = Binary64::fraction(p, q);
    vstd::arithmetic::div_mod::lemma_fundamental_div_mod((p * h) as int, q as int);
    vstd::arithmetic::div_mod::lemma_mod_bound((p * h) as int, q as int);
    assert(f * q <= p * h < (f + 1) * q && f <= 2 * h) by (nonlinear_arith)
        requires
            p * h == q * f + (p * h) % q,
            0 <= (p * h) % q < q,
            p <= 2 * q,
            q > 0,
    {
        assert(q * f <= (2 * q) * h);
    }
    lemma_fraction_lies(p, q, 51);
    let w: nat = 0x100_0000_0000;
    let a = (n * f) / w;
    let b = (n * (f + 1)) / w + 1;
    assert(b < 0x20_0000_0000_0000) by (nonlinear_arith)
        requires
            b == (n * (f + 1)) / w + 1,
            n < w,
            w == 0x100_0000_0000,
            f <= 0x10_0000_0000_0000,
    {
        assert(n * (f + 1) <= w * (f + 1));
        assert((n * (f + 1)) / w <= f + 1);
    }
    lemma_product_lies(n, x, f, f + 1, 1023, 40);
    let y = Binary64::of_nat(n).product(x);
    lemma_truncation_lies(y, a, b, 1063);
    let t = y.truncated();
    vstd::arithmetic::div_mod::lemma_fundamental_div_mod((n * f) as int, w as int);
    vstd::arithmetic::div_mod::lemma_mod_bound((n * f) as int, w as int);
    vstd::arithmetic::div_mod::lemma_fundamental_div_mod((n * (f + 1)) as int, w as int);
    vstd::arithmetic::div_mod::lemma_mod_bound((n * (f + 1)) as int, w as int);
    assert(t * 2048 <= b && a < (t + 1) * 2048);
    assert((b - 1) * w <= n * (f + 1)) by (nonlinear_arith)
        requires
            n * (f + 1) == w * (b - 1) + (n * (f + 1)) % w,
            (n * (f + 1)) % w >= 0,
    ;
    let rest = (n * f) % w;
    assert(n * f < (a + 1) * w) by (nonlinear_arith)
        requires
            n * f == w * a + rest,
            rest < w,
    ;
    assert(q * t < n * p + 1) by (nonlinear_arith)
        requires
            t * 2048 <= b,
            (b - 1) * w <= n * (f + 1),
            f * q <= p * h,
            h == 2048 * w,
            w == 0x100_0000_0000,
            n < w,
            0 < q <= 1000,
    {
        assert(t * h <= n * (f + 1) + w);
        assert(q * (t * h) <= q * (n * (f + 1) + w));
        assert(q * (n * (f + 1)) == n * (f * q) + n * q);
        assert(n * (f * q) <= n * (p * h));
        assert(n * q <= w * q);
        assert(q * (t * h) == (q * t) * h);
        assert(n * (p * h) == (n * p) * h);
        assert((q * t) * h <= (n * p) * h + 2 * (w * q));
        assert(2 * (w * q) < h);
        assert((q * t) * h < (n * p + 1) * h);
    }
    assert(n * p < q * (t + 1) + 1) by (nonlinear_arith)
        requires
            a < (t + 1) * 2048,
            n * f < (a + 1) * w,
            p * h < (f + 1) * q,
            h == 2048 * w,
            w == 0x100_0000_0000,
            n < w,
            0 < q <= 1000,
    {
        assert(a + 1 <= (t + 1) * 2048);
        assert((a + 1) * w <= (t + 1) * h);
        assert(n * f < (t + 1) * h);
        assert(q * (n * f) <= q * ((t + 1) * h));
        assert(n * (p * h) <= n * ((f + 1) * q));
        assert(n * ((f + 1) * q) == q * (n * f) + n * q);
        assert(n * q <= w * q);
        assert(w * q < h);
        assert((n * p) * h == n * (p * h));
        assert(q * ((t + 1) * h) == (q * (t + 1)) * h);
        assert((n * p) * h < (q * (t + 1) + 1) * h);
    }
    assert(t <= 2 * n) by (nonlinear_arith)
        requires
            q * t <= n * p,
            p <= 2 * q,
            q > 0,
    {
        assert(n * p <= n * (2 * q));
        assert(q * t <= q * (2 * n));
    }
}

/// The weighted mean of two integers with decimal weights that add up to one
/// has the integer part of the exact mean, but that an exact integer may come
/// out one too low.
pub proof fn lemma_mean_is_close(p: nat, q: nat, new: nat, old: nat)
    requires
        0 < q <= 100,
        p <= q,
        new < 0x100_0000_0000,
        old < 0x100_0000_0000,
    ensures
        ({
            let alpha = Binary64::fraction(p, q);
            let r = alpha.product(Binary64::of_nat(new)).sum(
                Binary64::of_nat(1).difference(alpha).product(Binary64::of_nat(old)),
            ).truncated();
            &&& q * r <= p * new + (q - p) * old
            &&& p * new + (q - p) * old <= q * (r + 1)
            &&& r <= 2 * 0x100_0000_0000
        }),
        ({
            let alpha = Binary64::fraction(p, q);
            let x = alpha.product(Binary64::of_nat(new));
            let y = Binary64::of_nat(1).difference(alpha).product(Binary64::of_nat(old));
            x.sum(y) == y.sum(x)
        }),
{
    lemma_powers();
    let h: nat = 0x10_0000_0000_0000;
    let w: nat = 0x200_0000_0000;
    let f = (p * h) / q;
    let rest = (p * h) % q;
    let alpha = Binary64::fraction(p, q);
    vstd::arithmetic::div_mod::lemma_fundamental_div_mod((p * h) as int, q as int);
    vstd::arithmetic::div_mod::lemma_mod_bound((p * h) as int, q as int);
    assert(f * q <= p * h < (f + 1) * q && f <= h) by (nonlinear_arith)
        requires
            p * h == q * f + rest,
            0 <= rest < q,
            p <= q,
            q > 0,
    {
        assert(q * f <= q * h);
    }
    lemma_fraction_lies(p, q, 52);
    // What is left of one.
    lemma_rest_lies(p, q);
    let g: nat = if f < h {
        (h - f - 1) as nat
    } else {
        0
    };
    let beta = Binary64::of_nat(1).difference(alpha);
    lemma_quarter(new, f, w);
    lemma_quarter(old, g, w);
    lemma_product_lies(new, alpha, f, f + 1, 1022, 41);
    lemma_product_lies(old, beta, g, g + 1, 1022, 41);
    let x = alpha.product(Binary64::of_nat(new));
    let y = beta.product(Binary64::of_nat(old));
    let (a1, b1) = ((new * f) / w, (new * (f + 1)) / w + 1);
    let (a2, b2) = ((old * g) / w, (old * (g + 1)) / w + 1);
    lemma_sum_lies(x, y, a1, b1, a2, b2, 1063);
    lemma_sum_commutes(x, y);
    let z = x.sum(y);
    lemma_truncation_lies(z, a1 + a2, b1 + b2, 1063);
    let t = z.truncated();
    lemma_mean_upper(p, q, new, old, f, g, t, b1, b2);
    lemma_mean_lower(p, q, new, old, f, g, t, a1, a2);
}

/// What a decimal leaves of one.
proof fn lemma_rest_lies(p: nat, q: nat)
    requires
        0 < q <= 100,
        p <= q,
    ensures
        ({
            let h: nat = 0x10_0000_0000_0000;
            let f = (p * h) / q;
            let g: nat = if f < h {
                (h - f - 1) as nat
            } else {
                0
            };
            lies(Binary64::of_nat(1).difference(Binary64::fraction(p, q)), g, g + 1, 1022)
        }),
{
    lemma_powers();
    let h: nat = 0x10_0000_0000_0000;
    let f = (p * h) / q;
    let alpha = Binary64::fraction(p, q);
    assert(f <= h) by (nonlinear_arith)
        requires
            f == (p * h) / q,
            p <= q,
            q > 0,
            h > 0,
    {
        vstd::arithmetic::div_mod::lemma_div_is_ordered((p * h) as int, (h * q) as int, q as int);
        vstd::arithmetic::div_mod::lemma_div_by_multiple(h as int, q as int);
    }
    lemma_fraction_lies(p, q, 52);
    lemma_fraction(p, q);
    let one = Binary64::of_nat(1);
    lemma_of_nat(1);
    let c = pow2(1074);
    let u = pow2(1022);
    lemma_pow2_adds(1022, 52);
    lemma_pow2_pos(1022);
    assert(c == u * h);
    assert(1 * c == c) by (nonlinear_arith);
    // The fraction is at most one.
    assert((p * c) * 1 <= c * q) by (nonlinear_arith)
        requires
            p <= q,
    ;
    lemma_rounded_monotone(p * c, q, c, 1);
    lemma_exact_rounds(one.mag());
    lemma_units_order(alpha.mag(), one.mag());
    let ua = units(alpha.mag());
    lemma_negated(alpha);
    lemma_sum_value(one, alpha.negated());
    let left = (c - ua) as nat;
    let g: nat = if f < h {
        (h - f - 1) as nat
    } else {
        0
    };
    assert((g * u) * 1 <= left <= ((g + 1) * u) * 1) by (nonlinear_arith)
        requires
            left == c - ua,
            f * u <= ua <= (f + 1) * u,
            ua <= c,
            c == u * h,
            f <= h,
            g == if f < h {
                (h - f - 1) as nat
            } else {
                0
            },
            u > 0,
    {
        if f < h {
            assert((h - f - 1) * u == h * u - (f + 1) * u);
            assert((h - f) * u == h * u - f * u);
        }
    }
    lemma_round_within(left, 1, g, g + 1, 1022);
    lemma_rounded_zero(1);
    reveal(Binary64::sum);
    lemma_with_sign(false, rounded(left, 1));
}

proof fn lemma_quarter(n: nat, f: nat, w: nat)
    requires
        n < 0x100_0000_0000,
        f <= 0x10_0000_0000_0000,
        w == 0x200_0000_0000,
    ensures
        (n * (f + 1)) / w + 1 < 0x10_0000_0000_0000,
{
    assert((n * (f + 1)) / w + 1 < 0x10_0000_0000_0000) by (nonlinear_arith)
        requires
            n < 0x100_0000_0000,
            f <= 0x10_0000_0000_0000,
            w == 0x200_0000_0000,
    {
        assert(n * (f + 1) <= 0x100_0000_0000 * (0x10_0000_0000_0000 + 1));
    }
}

/// A sum lies between the sums of the bounds.
pub proof fn lemma_sum_lies(x: Binary64, y: Binary64, a1: nat, b1: nat, a2: nat, b2: nat, e: nat)
    requires
        lies(x, a1, b1, e),
        lies(y, a2, b2, e),
        b1 + b2 < 0x20_0000_0000_0000,
        e <= 1074,
    ensures
        lies(x.sum(y), a1 + a2, b1 + b2, e),
{
    lemma_sum_value(x, y);
    let g = pow2(e);
    let total = x.signed_units() + y.signed_units();
    assert(((a1 + a2) * g) * 1 <= total <= ((b1 + b2) * g) * 1) by (nonlinear_arith)
        requires
            a1 * g + a2 * g <= total <= b1 * g + b2 * g,
    ;
    lemma_round_within(total as nat, 1, a1 + a2, b1 + b2, e);
    lemma_rounded_zero(1);
    reveal(Binary64::sum);
    lemma_with_sign(false, rounded(total as nat, 1));
}

proof fn lemma_mean_upper(p: nat, q: nat, new: nat, old: nat, f: nat, g: nat, t: nat, b1: nat, b2: nat)
    requires
        0 < q <= 100,
        p <= q,
        new < 0x100_0000_0000,
        old < 0x100_0000_0000,
        f * q <= p * 0x10_0000_0000_0000 < (f + 1) * q,
        f <= 0x10_0000_0000_0000,
        g == if f < 0x10_0000_0000_0000 {
            (0x10_0000_0000_0000 - f - 1) as nat
        } else {
            0
        },
        b1 == (new * (f + 1)) / 0x200_0000_0000 + 1,
        b2 == (old * (g + 1)) / 0x200_0000_0000 + 1,
        t * 2048 <= b1 + b2,
    ensures
        q * t <= p * new + (q - p) * old,
        t <= 2 * 0x100_0000_0000,
{
    let h: nat = 0x10_0000_0000_0000;
    let w: nat = 0x200_0000_0000;
    assert((b1 - 1) * w <= new * (f + 1)) by (nonlinear_arith)
        requires
            b1 == (new * (f + 1)) / w + 1,
            w > 0,
    ;
    assert((b2 - 1) * w <= old * (g + 1)) by (nonlinear_arith)
        requires
            b2 == (old * (g + 1)) / w + 1,
            w > 0,
    ;
    // (g + 1) / h exceeds (q - p) / q by at most one step.
    assert((g + 1) * q <= (q - p) * h + q) by (nonlinear_arith)
        requires
            p * h < (f + 1) * q,
            f * q <= p * h,
            f <= h,
            p <= q,
            g == if f < h {
                (h - f - 1) as nat
            } else {
                0
            },
    {
        if f < h {
            assert((g + 1) * q == h * q - f * q);
            assert(f * q >= p * h - q) by {
                assert((f + 1) * q == f * q + q);
            }
            assert((q - p) * h == q * h - p * h);
        } else {
            assert((q - p) * h >= 0);
        }
    }
    let goal = p * new + (q - p) * old;
    assert(q * t < goal + 1) by (nonlinear_arith)
        requires
            t * 2048 <= b1 + b2,
            (b1 - 1) * w <= new * (f + 1),
            (b2 - 1) * w <= old * (g + 1),
            f * q <= p * h,
            (g + 1) * q <= (q - p) * h + q,
            goal == p * new + (q - p) * old,
            h == 2048 * w,
            w == 0x200_0000_0000,
            new < 0x100_0000_0000,
            old < 0x100_0000_0000,
            0 < q <= 100,
            p <= q,
    {
        assert(t * h <= new * (f + 1) + old * (g + 1) + 2 * w);
        assert(q * (t * h) <= q * (new * (f + 1) + old * (g + 1) + 2 * w));
        assert(q * (new * (f + 1)) == new * (f * q) + new * q);
        assert(q * (old * (g + 1)) == old * ((g + 1) * q));
        assert(new * (f * q) <= new * (p * h));
        assert(old * ((g + 1) * q) <= old * ((q - p) * h + q));
        assert(old * ((q - p) * h + q) == ((q - p) * old) * h + old * q);
        assert(new * (p * h) == (p * new) * h);
        assert(new * q <= w * q && old * q <= w * q);
        assert((q * t) * h == q * (t * h));
        assert(goal * h == (p * new) * h + ((q - p) * old) * h);
        assert((q * t) * h <= goal * h + 4 * (w * q));
        assert(4 * (w * q) < h);
        assert((q * t) * h < (goal + 1) * h);
    }
    assert(t <= 2 * 0x100_0000_0000) by (nonlinear_arith)
        requires
            q * t <= goal,
            goal == p * new + (q - p) * old,
            new < 0x100_0000_0000,
            old < 0x100_0000_0000,
            0 < q,
            p <= q,
    {
        assert(p * new <= q * 0x100_0000_0000);
        assert((q - p) * old <= q * 0x100_0000_0000);
    }
}

proof fn lemma_mean_lower(p: nat, q: nat, new: nat, old: nat, f: nat, g: nat, t: nat, a1: nat, a2: nat)
    requires
        0 < q <= 100,
        p <= q,
        new < 0x100_0000_0000,
        old < 0x100_0000_0000,
        f * q <= p * 0x10_0000_0000_0000 < (f + 1) * q,
        f <= 0x10_0000_0000_0000,
        g == if f < 0x10_0000_0000_0000 {
            (0x10_0000_0000_0000 - f - 1) as nat
        } else {
            0
        },
        a1 == (new * f) / 0x200_0000_0000,
        a2 == (old * g) / 0x200_0000_0000,
        a1 + a2 < (t + 1) * 2048,
    ensures
        p * new + (q - p) * old <= q * (t + 1),
{
    let h: nat = 0x10_0000_0000_0000;
    let w: nat = 0x200_0000_0000;
    assert(new * f < (a1 + 1) * w) by (nonlinear_arith)
        requires
            a1 == (new * f) / w,
            w > 0,
    ;
    assert(old * g < (a2 + 1) * w) by (nonlinear_arith)
        requires
            a2 == (old * g) / w,
            w > 0,
    ;
    assert((q - p) * h <= (g + 1) * q) by (nonlinear_arith)
        requires
            f * q <= p * h,
            p * h < (f + 1) * q,
            f <= h,
            p <= q,
            g == if f < h {
                (h - f - 1) as nat
            } else {
                0
            },
    {
        assert((q - p) * h == q * h - p * h);
        if f < h {
            assert((g + 1) * q == h * q - f * q);
        }
        assert(f * q <= p * h);
        assert((f + 1) * q == f * q + q);
    }
    let goal = p * new + (q - p) * old;
    assert(goal < q * (t + 1) + 1) by (nonlinear_arith)
        requires
            a1 + a2 < (t + 1) * 2048,
            new * f < (a1 + 1) * w,
            old * g < (a2 + 1) * w,
            p * h < (f + 1) * q,
            (q - p) * h <= (g + 1) * q,
            goal == p * new + (q - p) * old,
            h == 2048 * w,
            w == 0x200_0000_0000,
            new < 0x100_0000_0000,
            old < 0x100_0000_0000,
            0 < q <= 100,
            p <= q,
    {
        assert(new * f + old * g <= (t + 1) * h + 2 * w);
        assert(q * (new * f + old * g) <= q * ((t + 1) * h + 2 * w));
        assert(new * (p * h) <= new * ((f + 1) * q));
        assert(old * ((q - p) * h) <= old * ((g + 1) * q));
        assert(new * ((f + 1) * q) == q * (new * f) + new * q);
        assert(old * ((g + 1) * q) == q * (old * g) + old * q);
        assert(new * q <= w * q && old * q <= w * q);
        assert(goal * h == new * (p * h) + old * ((q - p) * h));
        assert((q * (t + 1)) * h == q * ((t + 1) * h));
        assert(goal * h <= (q * (t + 1)) * h + 4 * (w * q));
        assert(4 * (w * q) < h);
        assert(goal * h < (q * (t + 1) + 1) * h);
    }
}

/// A dyadic part of an integer is exact.
pub proof fn lemma_dyadic_part(n: nat, p: nat, j: nat)
    requires
        n < 0x20_0000_0000_0000,
        p < 0x20_0000_0000_0000,
        n * p < 0x20_0000_0000_0000,
        j <= 20,
    ensures
        Binary64::of_nat(n).product(Binary64::fraction(p, pow2(j))).truncated() == (n * p) / pow2(j),
{
    reveal(Binary64::product);
    reveal(Binary64::truncated);
    let d = pow2(j);
    lemma_pow2_pos(j);
    lemma2_to64();
    if j < 20 {
        vstd::arithmetic::power2::lemma_pow2_strictly_increases(j, 20);
    }
    let s = (1074 - j) as nat;
    let (g, c) = (pow2(s), pow2(1074));
    lemma_pow2_adds(s, j);
    lemma_pow2_pos(s);
    lemma_pow2_pos(1074);
    lemma_fraction(p, d);
    lemma_of_nat(n);
    // The fraction itself is exact.
    assert((p * g) * d == p * c) by (nonlinear_arith)
        requires
            c == g * d,
    ;
    lemma_round_within(p * c, d, p, p, s);
    let x = Binary64::of_nat(n);
    let f = Binary64::fraction(p, d);
    let num = units(x.mag()) * units(f.mag());
    assert(num == ((n * p) * g) * c) by (nonlinear_arith)
        requires
            num == (n * c) * (p * g),
    ;
    lemma_round_within(num, c, n * p, n * p, s);
    let u = (n * p) * g;
    let whole = (n * p) / d;
    assert(u / c == whole) by {
        vstd::arithmetic::div_mod::lemma_div_denominator(u as int, g as int, d as int);
        vstd::arithmetic::div_mod::lemma_div_multiples_vanish((n * p) as int, g as int);
        assert((n * p) * g == g * (n * p)) by (nonlinear_arith);
    }
    assert(whole <= n * p) by (nonlinear_arith)
        requires
            whole == (n * p) / d,
            d >= 1,
    ;
    lemma_with_sign(false, rounded(num, c));
}

/// The integer part of a rounded quotient of integers is that of the exact
/// one.
pub proof fn lemma_whole_quotient(n: nat, d: nat)
    requires
        n < 0x100_0000_0000,
        0 < d <= 1024,
    ensures
        Binary64::of_nat(n).quotient(Binary64::of_nat(d)).truncated() == n / d,
{
    lemma2_to64();
    lemma_fraction(n, d);
    let c = pow2(1074);
    let g = pow2(1064);
    lemma_pow2_adds(1064, 10);
    lemma_pow2_pos(1064);
    let k = n / d;
    let rest = n % d;
    vstd::arithmetic::div_mod::lemma_fundamental_div_mod(n as int, d as int);
    vstd::arithmetic::div_mod::lemma_mod_bound(n as int, d as int);
    let low = k * 1024;
    let high = k * 1024 + 1023;
    assert(k <= n) by (nonlinear_arith)
        requires
            n == d * k + rest,
            d >= 1,
            k >= 0,
            rest >= 0,
    ;
    assert((low * g) * d <= n * c <= (high * g) * d) by (nonlinear_arith)
        requires
            n == d * k + rest,
            0 <= rest < d,
            d <= 1024,
            c == g * 1024,
            low == k * 1024,
            high == k * 1024 + 1023,
            g > 0,
    {
        assert((low * g) * d == (d * k) * (1024 * g));
        assert((high * g) * d == (d * k) * (1024 * g) + (1023 * d) * g);
        assert(n * c == (d * k) * (1024 * g) + (rest * 1024) * g);
        assert(rest * 1024 <= 1023 * d);
    }
    lemma_round_within(n * c, d, low, high, 1064);
    let x = Binary64::of_nat(n).quotient(Binary64::of_nat(d));
    lemma_truncation_lies(x, low, high, 1064);
    let t = x.truncated();
    assert(t == k) by (nonlinear_arith)
        requires
            t * 1024 <= k * 1024 + 1023,
            k * 1024 < (t + 1) * 1024,
    ;
}

/// A whole number of seconds is that number.
pub proof fn lemma_whole_seconds(w: nat)
    requires
        w < 0x20_0000_0000_0000,
    ensures
        crate::measure::seconds(w * 1_000_000_000) == Binary64::of_nat(w),
{
    let ns = w * 1_000_000_000;
    assert(ns / 1_000_000_000 == w && ns % 1_000_000_000 == 0);
    let d = Binary64::of_nat(1_000_000_000);
    lemma_of_nat(1_000_000_000);
    lemma_rounded_zero(1);
    let c = pow2(1074);
    lemma_pow2_pos(1074);
    assert(1_000_000_000 * c > 0) by (nonlinear_arith)
        requires
            c > 0,
    ;
    assert(d.mag() > 0);
    lemma_zero_over(d);
    lemma_of_nat(w);
    lemma_plus_zero(Binary64::of_nat(w));
}

/// A greater value less a smaller one is positive.
pub proof fn lemma_positive_difference(a: Binary64, b: Binary64)
    requires
        a.finite(),
        b.finite(),
        a.less(b),
    ensures
        !b.difference(a).negative(),
        !b.difference(a).nan(),
        b.difference(a).mag() > 0,
{
    reveal(Binary64::less);
    reveal(Binary64::at_most);
    lemma_difference_sign(b, a);
    lemma_rounded_zero(1);
}

/// A value less one that is no greater has no sign.
pub proof fn lemma_nonnegative_difference(a: Binary64, b: Binary64)
    requires
        a.finite(),
        b.finite(),
        !b.negative(),
        a.at_most(b),
    ensures
        !b.difference(a).negative(),
        !b.difference(a).nan(),
{
    reveal(Binary64::less);
    reveal(Binary64::at_most);
    lemma_difference_sign(b, a);
    lemma_rounded_zero(1);
    lemma_negated(a);
    reveal(Binary64::sum);
}

/// Of two values without sign, the smaller has the smaller magnitude.
pub proof fn lemma_at_most_mag(a: Binary64, b: Binary64)
    requires
        a.at_most(b),
        !a.negative(),
        !b.negative(),
        b.finite(),
    ensures
        a.mag() <= b.mag(),
        a.finite(),
{
    reveal(Binary64::at_most);
    if b.mag() < a.mag() {
        lemma_units_increase(b.mag(), a.mag());
    }
}

/// What is left of an integer when a decimal part of it is taken away, to one.
pub proof fn lemma_rest_is_close(n: nat, p: nat, q: nat)
    requires
        0 < q <= 100,
        p <= q,
        n < 0x100_0000_0000,
    ensures
        ({
            let t = Binary64::of_nat(n).product(
                Binary64::of_nat(1).difference(Binary64::fraction(p, q)),
            ).truncated();
            q * t <= (q - p) * n <= q * (t + 1)
        }),
{
    lemma_powers();
    lemma_mean_is_close(p, q, 0, n);
    let alpha = Binary64::fraction(p, q);
    let rest = Binary64::of_nat(1).difference(alpha);
    lemma_fraction(p, q);
    lemma_times_zero(alpha);
    lemma_rest_lies(p, q);
    let h: nat = 0x10_0000_0000_0000;
    let f = (p * h) / q;
    vstd::arithmetic::div_mod::lemma_fundamental_div_mod((p * h) as int, q as int);
    let g: nat = if f < h {
        (h - f - 1) as nat
    } else {
        0
    };
    assert(g <= h);
    lemma_quarter(n, g, 0x200_0000_0000);
    lemma_product_lies(n, rest, g, g + 1, 1022, 41);
    lemma_plus_zero(rest.product(Binary64::of_nat(n)));
    assert(p * 0 == 0);
}

/// The difference of integers is theirs.
pub proof fn lemma_whole_difference(a: nat, b: nat)
    requires
        b <= a < 0x20_0000_0000_0000,
    ensures
        Binary64::of_nat(a).difference(Binary64::of_nat(b)) == Binary64::of_nat((a - b) as nat),
{
    let c = pow2(1074);
    lemma_of_nat(a);
    lemma_of_nat(b);
    lemma_of_nat((a - b) as nat);
    lemma_negated(Binary64::of_nat(b));
    reveal(Binary64::sum);
    reveal(Binary64::of_nat);
    assert(a * c - b * c == (a - b) * c) by (nonlinear_arith);
    if a == b {
        assert(0 * c == 0);
        lemma_rounded_zero(1);
    } else {
        lemma_pow2_pos(1074);
        assert((a - b) * c > 0) by (nonlinear_arith)
            requires
                a > b,
                c > 0,
        ;
    }
}

/// The sum of integers is theirs.
pub proof fn lemma_whole_sum(a: nat, b: nat)
    requires
        a + b < 0x20_0000_0000_0000,
    ensures
        Binary64::of_nat(a).sum(Binary64::of_nat(b)) == Binary64::of_nat(a + b),
{
    let c = pow2(1074);
    lemma_of_nat(a);
    lemma_of_nat(b);
    lemma_of_nat(a + b);
    reveal(Binary64::sum);
    reveal(Binary64::of_nat);
    assert(a * c + b * c == (a + b) * c) by (nonlinear_arith);
    if a + b == 0 {
        assert(0 * c == 0);
        lemma_rounded_zero(1);
    } else {
        lemma_pow2_pos(1074);
        assert((a + b) * c > 0) by (nonlinear_arith)
            requires
                a + b > 0,
                c > 0,
        ;
    }
}

/// The product of integers is theirs.
pub proof fn lemma_whole_product(a: nat, b: nat)
    requires
        a < 0x20_0000_0000_0000,
        b < 0x20_0000_0000_0000,
        a * b < 0x20_0000_0000_0000,
    ensures
        Binary64::of_nat(a).product(Binary64::of_nat(b)) == Binary64::of_nat(a * b),
{
    let c = pow2(1074);
    lemma_of_nat(a);
    lemma_of_nat(b);
    lemma_of_nat(a * b);
    lemma_pow2_pos(1074);
    reveal(Binary64::product);
    let exact = (a * b) * c;
    lemma_exact_rounds(Binary64::of_nat(a * b).mag());
    assert(((a * c) * (b * c)) * 1 == exact * c) by (nonlinear_arith)
        requires
            exact == (a * b) * c,
    ;
    lemma_rounded_monotone((a * c) * (b * c), c, exact, 1);
    lemma_rounded_monotone(exact, 1, (a * c) * (b * c), c);
    reveal(Binary64::of_nat);
}

/// Sums do not depend on the order of two values.
pub proof fn lemma_sum_commutes(a: Binary64, b: Binary64)
    requires
        a.finite(),
        b.finite(),
    ensures
        a.sum(b) == b.sum(a),
{
    reveal(Binary64::sum);
}

/// Products do not depend on the order of two values.
pub proof fn lemma_product_commutes(a: Binary64, b: Binary64)
    ensures
        a.product(b) == b.product(a),
{
    reveal(Binary64::product);
    assert(units(a.mag()) * units(b.mag()) == units(b.mag()) * units(a.mag())) by (nonlinear_arith);
}

/// Half of a value has half its integer part.
pub proof fn lemma_half_truncates(x: Binary64)
    requires
        x.finite(),
        !x.negative(),
        x.truncated() < 0x20_0000_0000_0000,
    ensures
        x.product(Binary64::fraction(5, 10)).truncated() == x.truncated() / 2,
{
    lemma2_to64();
    lemma_same_fraction(5, 10, 1, 2);
    let half = Binary64::fraction(1, 2);
    let c = pow2(1074);
    let h = pow2(1073);
    lemma_pow2_unfold(1074);
    lemma_pow2_pos(1073);
    lemma_fraction(1, 2);
    assert(units(half.mag()) == h) by {
        let m = lemma_representable(1, 1073);
        lemma_exact_rounds(m);
        assert(1 * h == h);
        lemma_rounded_monotone(1 * c, 2, h, 1);
        lemma_rounded_monotone(h, 1, 1 * c, 2);
    }
    let u = units(x.mag());
    let s = shift_of(x.mag());
    let q = significand_of(x.mag());
    reveal(Binary64::product);
    reveal(Binary64::truncated);
    let r = rounded(u * h, c);
    if s >= 1 {
        let e = x.mag() / (HIDDEN as nat);
        assert(q < 2 * HIDDEN && s <= 2045) by {
            assert(s == e - 1);
            assert(q == x.mag() - (e - 1) * HIDDEN);
        }
        lemma_pow2_unfold(s);
        let below = (s - 1) as nat;
        let m = lemma_representable(q, below);
        lemma_exact_rounds(m);
        let v = q * pow2(below);
        assert(u == 2 * v) by (nonlinear_arith)
            requires
                u == q * pow2(s),
                pow2(s) == 2 * pow2(below),
                v == q * pow2(below),
        ;
        assert((u * h) * 1 == v * c) by (nonlinear_arith)
            requires
                u == 2 * v,
                c == 2 * h,
        ;
        lemma_rounded_monotone(u * h, c, v, 1);
        lemma_rounded_monotone(v, 1, u * h, c);
        assert(r == m);
        assert(units(r) == v);
        lemma_half_quotient(v, c);
    } else {
        assert(pow2(0) == 1);
        assert(u == q) by (nonlinear_arith)
            requires
                u == q * pow2(s),
                pow2(s) == 1,
        ;
        assert(u < 2 * HIDDEN) by {
            let e = x.mag() / (HIDDEN as nat);
        }
        lemma_pow2_adds(64, 1010);
        lemma_pow2_pos(1010);
        let small = pow2(64);
        assert(small == 0x1_0000_0000_0000_0000);
        assert(c >= small) by (nonlinear_arith)
            requires
                c == small * pow2(1010),
                pow2(1010) >= 1,
        ;
        let m = lemma_representable(u, 0);
        lemma_exact_rounds(m);
        assert((u * h) * 1 <= u * c) by (nonlinear_arith)
            requires
                c == 2 * h,
        ;
        assert(u * 1 == u);
        lemma_rounded_monotone(u * h, c, u, 1);
        lemma_units_order(r, m);
        vstd::arithmetic::div_mod::lemma_basic_div(u as int, c as int);
        vstd::arithmetic::div_mod::lemma_basic_div(units(r) as int, c as int);
    }
    lemma_with_sign(false, r);
}

proof fn lemma_half_quotient(v: nat, c: nat)
    requires
        c > 0,
    ensures
        v / c == ((2 * v) / c) / 2,
{
    vstd::arithmetic::div_mod::lemma_div_denominator((2 * v) as int, c as int, 2);
    vstd::arithmetic::div_mod::lemma_div_denominator((2 * v) as int, 2, c as int);
    assert(c * 2 == 2 * c);
    assert((2 * v) / 2 == v);
}

} // verus!
