//! Square roots of binary64 values.

use crate::binary64::{lemma_of_nat, lemma_rounded_zero, lemma_zero, lemma_units_at, lemma_units_order, lemma_units_step, parts, shift_of, units, with_sign, Binary64, HIDDEN, INF_MAG, NAN_BITS, SIGN_BIT};
use vstd::arithmetic::power2::{lemma2_to64, lemma2_to64_rest, lemma_pow2_adds, lemma_pow2_pos, lemma_pow2_unfold, pow2};
use vstd::prelude::*;

verus! {

/// Whether `mag` is the magnitude nearest to the square root of `n` squared
/// units, an even magnitude where two are equally near.
pub open spec fn nearest_root(n: nat, mag: nat) -> bool {
    &&& mag <= INF_MAG
    &&& mag > 0 ==> {
        let mid = units((mag - 1) as nat) + units(mag);
        mid * mid < 4 * n || (mid * mid == 4 * n && mag % 2 == 0)
    }
    &&& mag < INF_MAG ==> {
        let mid = units(mag) + units(mag + 1);
        4 * n < mid * mid || (4 * n == mid * mid && mag % 2 == 0)
    }
}

/// The magnitude that the square root of `n` squared units rounds to.
pub open spec fn rounded_root(n: nat) -> nat {
    choose|mag: nat| nearest_root(n, mag)
}

impl Binary64 {
    /// The square root.
    pub open spec fn root(self) -> Binary64 {
        if self.nan() || (self.negative() && self.mag() > 0) {
            Binary64::nan_value()
        } else if self.infinite() || self.mag() == 0 {
            self
        } else {
            with_sign(false, rounded_root(units(self.mag()) * pow2(1074)))
        }
    }
}

/// Only one magnitude is nearest.
proof fn lemma_root_is(n: nat, mag: nat)
    requires
        nearest_root(n, mag),
    ensures
        rounded_root(n) == mag,
{
    let other = rounded_root(n);
    if other < mag {
        lemma_roots_apart(n, other, mag);
    } else if mag < other {
        lemma_roots_apart(n, mag, other);
    }
}

proof fn lemma_roots_apart(n: nat, a: nat, b: nat)
    requires
        a < b,
        nearest_root(n, b),
        a < INF_MAG,
    ensures
        !nearest_root(n, a),
{
    lemma_units_order(a, (b - 1) as nat);
    lemma_units_order(a + 1, b);
    lemma_units_step(a);
    if a + 1 < b {
        lemma_units_step((b - 1) as nat);
        lemma_units_order(a + 1, (b - 1) as nat);
    }
    let x = units(a) + units(a + 1);
    let y = units((b - 1) as nat) + units(b);
    assert(x <= y);
    assert(x * x <= y * y) by (nonlinear_arith)
        requires
            x <= y,
    ;
    if a + 1 < b {
        assert(x < y);
        assert(x * x < y * y) by (nonlinear_arith)
            requires
                x < y,
        ;
    }
}

/// The integer square root of a number of 107 or 108 bits.
fn integer_root(n: u128) -> (q: u64)
    requires
        0x400_0000_0000_0000_0000_0000_0000 <= n < 0x1000_0000_0000_0000_0000_0000_0000,
    ensures
        0x20_0000_0000_0000 <= q < 0x40_0000_0000_0000,
        q * q <= n < (q + 1) * (q + 1),
{
    let mut low: u64 = 0x20_0000_0000_0000;
    let mut high: u64 = 0x40_0000_0000_0000;
    assert(0x20_0000_0000_0000 * 0x20_0000_0000_0000 == 0x400_0000_0000_0000_0000_0000_0000) by (nonlinear_arith);
    assert(0x40_0000_0000_0000 * 0x40_0000_0000_0000 == 0x1000_0000_0000_0000_0000_0000_0000) by (nonlinear_arith);
    while high - low > 1
        invariant
            0x20_0000_0000_0000 <= low < high <= 0x40_0000_0000_0000,
            low * low <= n < high * high,
        decreases high - low,
    {
        let mid: u64 = low + (high - low) / 2;
        assert(mid * mid <= 0x1000_0000_0000_0000_0000_0000_0000) by (nonlinear_arith)
            requires
                mid <= 0x40_0000_0000_0000,
        ;
        if mid as u128 * mid as u128 <= n {
            low = mid;
        } else {
            high = mid;
        }
    }
    assert(high == low + 1);
    low
}

impl Binary64 {
    /// The square root.
    pub fn sqrt(self) -> (r: Binary64)
        ensures
            r == self.root(),
    {
        let a: u64 = self.bits % SIGN_BIT;
        if a > INF_MAG || (self.bits >= SIGN_BIT && a > 0) {
            return Binary64 { bits: NAN_BITS };
        }
        if a == INF_MAG || a == 0 {
            return self;
        }
        let (m, s): (u64, i32) = parts(a);
        // The value is `p * 4^h` squared units.
        let odd: bool = (s + 1074) % 2 != 0;
        let mut p: u128 = if odd {
            2 * m as u128
        } else {
            m as u128
        };
        let mut h: i32 = (s + 1074) / 2;
        let ghost n = units(a as nat) * pow2(1074);
        proof {
            lemma_pow2_adds(s as nat, 1074);
            lemma_pow2_adds(h as nat, h as nat);
            let e = (s + 1074) as nat;
            assert(n == m * pow2(e)) by (nonlinear_arith)
                requires
                    n == (m * pow2(s as nat)) * pow2(1074),
                    pow2(e) == pow2(s as nat) * pow2(1074),
            ;
            if odd {
                lemma_pow2_unfold(e);
                let t = pow2((e - 1) as nat);
                assert(m * (2 * t) == (2 * m) * t) by (nonlinear_arith);
            }
            assert(n == p * (pow2(h as nat) * pow2(h as nat)));
        }
        let h0: i32 = h;
        let mut i: i32 = 0;
        proof {
            lemma2_to64();
        }
        while p < 0x400_0000_0000_0000_0000_0000_0000
            invariant
                0 < p < 0x1000_0000_0000_0000_0000_0000_0000,
                0 <= i <= 53,
                h == h0 - i,
                537 <= h0 <= 1600,
                p >= pow2((2 * i) as nat),
                n == p * (pow2(h as nat) * pow2(h as nat)),
            decreases 53 - i,
        {
            proof {
                lemma2_to64();
                lemma2_to64_rest();
                lemma_pow2_adds(64, 42);
                assert(pow2(106) == 0x400_0000_0000_0000_0000_0000_0000) by (nonlinear_arith)
                    requires
                        pow2(106) == pow2(64) * pow2(42),
                        pow2(64) == 0x1_0000_0000_0000_0000,
                        pow2(42) == 0x400_0000_0000,
                ;
                lemma_pow2_unfold((2 * i + 1) as nat);
                lemma_pow2_unfold((2 * i + 2) as nat);
                lemma_pow2_unfold(h as nat);
                let t = pow2((h - 1) as nat);
                assert(p * ((2 * t) * (2 * t)) == (4 * p) * (t * t)) by (nonlinear_arith);
            }
            p = 4 * p;
            h = h - 1;
            i = i + 1;
        }
        let q: u64 = integer_root(p);
        let exact: bool = q as u128 * q as u128 == p;
        let up: bool = q % 2 == 1 && (!exact || (q / 2) % 2 == 1);
        let sig: u64 = if up {
            q / 2 + 1
        } else {
            q / 2
        };
        let mag: u64 = (h + 1) as u64 * HIDDEN + sig;
        proof {
            lemma_root_found(n, p as nat, h as nat, q as nat, sig as nat, mag as nat);
            lemma_root_is(n, mag as nat);
        }
        Binary64 { bits: mag }
    }
}

/// The significand found is the nearest one.
proof fn lemma_root_found(n: nat, p: nat, h: nat, q: nat, sig: nat, mag: nat)
    requires
        n == p * (pow2(h) * pow2(h)),
        0x20_0000_0000_0000 <= q < 0x40_0000_0000_0000,
        q * q <= p < (q + 1) * (q + 1),
        h <= 2000,
        sig == if q % 2 == 1 && (q * q != p || (q / 2) % 2 == 1) {
            q / 2 + 1
        } else {
            q / 2
        },
        mag == (h + 1) * HIDDEN + sig,
    ensures
        nearest_root(n, mag),
        mag < INF_MAG,
{
    let t = pow2(h);
    lemma_pow2_pos(h);
    lemma_pow2_unfold(h + 1);
    lemma_pow2_unfold(h + 2);
    lemma_units_at(h + 1, sig);
    lemma_units_step(mag);
    lemma_units_step((mag - 1) as nat);
    let hd = HIDDEN as nat;
    assert(mag < INF_MAG) by {
        assert((h + 1) * hd <= 2001 * hd) by (nonlinear_arith)
            requires
                h <= 2000,
        ;
    }
    // The magnitude and its neighbours.
    let u = units(mag);
    assert(u == sig * (2 * t));
    assert(shift_of(mag) == if sig < 2 * hd {
        h + 1
    } else {
        h + 2
    }) by {
        lemma_shift(h + 1, sig);
    }
    assert(shift_of((mag - 1) as nat) == if sig > hd {
        h + 1
    } else {
        h
    }) by {
        if sig > hd {
            lemma_shift(h + 1, (sig - 1) as nat);
            assert((mag - 1) == (h + 1) * hd + (sig - 1));
        } else {
            assert(mag - 1 == h * hd + (2 * hd - 1)) by (nonlinear_arith)
                requires
                    mag == (h + 1) * hd + sig,
                    sig == hd,
            ;
            if h > 0 {
                lemma_shift(h, (2 * hd - 1) as nat);
            } else {
                lemma_shift(0, (2 * hd - 1) as nat);
            }
        }
    }
    let low = units((mag - 1) as nat) + u;
    let high = u + units(mag + 1);
    // Twice the root is between `2 q t` and `2 (q + 1) t`.
    let four_n = 4 * n;
    assert((2 * q * t) * (2 * q * t) <= four_n) by (nonlinear_arith)
        requires
            four_n == 4 * (p * (t * t)),
            q * q <= p,
    ;
    assert(four_n < (2 * (q + 1) * t) * (2 * (q + 1) * t)) by (nonlinear_arith)
        requires
            four_n == 4 * (p * (t * t)),
            p + 1 <= (q + 1) * (q + 1),
            t > 0,
    ;
    assert(q * q == p ==> four_n == (2 * q * t) * (2 * q * t)) by (nonlinear_arith)
        requires
            four_n == 4 * (p * (t * t)),
    ;
    assert(q * q < p ==> (2 * q * t) * (2 * q * t) < four_n) by (nonlinear_arith)
        requires
            four_n == 4 * (p * (t * t)),
            t > 0,
    ;
    let a = 2 * q * t;
    let b = 2 * (q + 1) * t;
    // The midpoints against these.
    if sig == q / 2 {
        assert(high >= (4 * sig + 2) * t) by (nonlinear_arith)
            requires
                u == sig * (2 * t),
                high >= 2 * u + 2 * t,
        ;
        assert(low < 4 * sig * t) by (nonlinear_arith)
            requires
                u == sig * (2 * t),
                low < 2 * u,
        ;
        assert(low < a) by (nonlinear_arith)
            requires
                low < 4 * sig * t,
                2 * sig <= q,
                a == 2 * q * t,
        ;
        assert(low * low < a * a) by (nonlinear_arith)
            requires
                low < a,
        ;
        if q % 2 == 0 {
            assert(b <= high) by (nonlinear_arith)
                requires
                    high >= (4 * sig + 2) * t,
                    q == 2 * sig,
                    b == 2 * (q + 1) * t,
            ;
            assert(b * b <= high * high) by (nonlinear_arith)
                requires
                    b <= high,
            ;
        } else {
            assert(a <= high) by (nonlinear_arith)
                requires
                    high >= (4 * sig + 2) * t,
                    q == 2 * sig + 1,
                    a == 2 * q * t,
            ;
            assert(a * a <= high * high) by (nonlinear_arith)
                requires
                    a <= high,
            ;
            lemma_even_magnitude(h + 1, sig);
        }
    } else {
        assert(q == 2 * sig - 1);
        assert(sig > hd);
        assert(low == a) by (nonlinear_arith)
            requires
                low == 2 * u - 2 * t,
                u == sig * (2 * t),
                q == 2 * sig - 1,
                a == 2 * q * t,
        ;
        assert(b < high) by (nonlinear_arith)
            requires
                high >= 2 * u + 2 * t,
                u == sig * (2 * t),
                q == 2 * sig - 1,
                b == 2 * (q + 1) * t,
                t > 0,
        ;
        assert(b * b < high * high) by (nonlinear_arith)
            requires
                b < high,
        ;
        lemma_even_magnitude(h + 1, sig);
    }
}

proof fn lemma_shift(s: nat, q: nat)
    requires
        q <= 2 * HIDDEN,
        s > 0 ==> q >= HIDDEN,
    ensures
        shift_of(s * (HIDDEN as nat) + q) == if q < 2 * HIDDEN {
            s
        } else {
            s + 1
        },
{
    let h = HIDDEN as int;
    let mag = s * (HIDDEN as nat) + q;
    if q == 2 * HIDDEN {
        assert(mag == (s + 2) * h) by (nonlinear_arith)
            requires
                mag == s * h + 2 * h,
        ;
        vstd::arithmetic::div_mod::lemma_fundamental_div_mod_converse(mag as int, h, (s + 2) as int, 0);
    } else if q >= HIDDEN {
        assert(mag == (s + 1) * h + (q - h)) by (nonlinear_arith)
            requires
                mag == s * h + q,
        ;
        vstd::arithmetic::div_mod::lemma_fundamental_div_mod_converse(mag as int, h, (s + 1) as int, q - h);
    } else {
        assert(s == 0);
        assert(0 * h == 0) by (nonlinear_arith);
        vstd::arithmetic::div_mod::lemma_fundamental_div_mod_converse(mag as int, h, 0, q as int);
    }
}

proof fn lemma_even_magnitude(s: nat, q: nat)
    ensures
        (s * (HIDDEN as nat) + q) % 2 == q % 2,
{
    let half = s * 0x8_0000_0000_0000;
    assert(s * (HIDDEN as nat) == 2 * half) by (nonlinear_arith)
        requires
            half == s * 0x8_0000_0000_0000,
    ;
}

/// The root of a square is what was squared.
pub proof fn law_root_of_a_square(k: nat)
    requires
        k < 0x400_0000,
    ensures
        Binary64::of_nat(k * k).root() == Binary64::of_nat(k),
{
    assert(k * k < 0x20_0000_0000_0000) by (nonlinear_arith)
        requires
            k < 0x400_0000,
    ;
    lemma_of_nat(k);
    lemma_of_nat(k * k);
    lemma_of_nat(0);
    lemma_zero();
    let c = pow2(1074);
    lemma_pow2_pos(1074);
    let x = Binary64::of_nat(k * k);
    let r = Binary64::of_nat(k);
    if k == 0 {
        assert(x == r);
        assert(x.mag() == 0);
    } else {
        let mag = r.mag();
        let n = units(x.mag()) * c;
        let u = units(mag);
        assert(n == u * u) by (nonlinear_arith)
            requires
                n == ((k * k) * c) * c,
                u == k * c,
        ;
        assert(k * c > 0 && (k * k) * c > 0) by (nonlinear_arith)
            requires
                k > 0,
                c > 0,
        ;
        lemma_rounded_zero(1);
        assert(mag > 0 && x.mag() > 0);
        lemma_units_step(mag);
        lemma_units_step((mag - 1) as nat);
        let below = units((mag - 1) as nat) + u;
        let above = u + units(mag + 1);
        assert(below * below < 4 * (u * u)) by (nonlinear_arith)
            requires
                below < 2 * u,
        ;
        assert(4 * (u * u) < above * above) by (nonlinear_arith)
            requires
                above > 2 * u,
        ;
        lemma_root_is(n, mag);
        assert(x.root() == with_sign(false, mag));
        crate::accuracy::lemma_with_sign(false, mag);
    }
}

} // verus!
