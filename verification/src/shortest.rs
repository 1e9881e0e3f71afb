//! The shortest decimal text of a binary64 value.
//!
//! A value is written with as few digits as tell it apart from its
//! neighbours: every number between the two midpoints reads back as the
//! value, so it is enough to write the digits down to the first place at
//! which the midpoints and the value differ.

use crate::binary64::{lemma_units_step, nearest, parts, shift_of, significand_of, units, Binary64, HIDDEN, INF_MAG, SIGN_BIT};
use crate::text::{decimal, digit, digit_str, lemma_pow10_positive, pow10, push_decimal};
use vstd::arithmetic::div_mod::{lemma_div_denominator, lemma_div_is_ordered, lemma_fundamental_div_mod_converse};
use vstd::arithmetic::power2::{lemma2_to64, lemma_pow2_adds, lemma_pow2_pos, lemma_pow2_unfold, pow2};
use vstd::prelude::*;

verus! {

// ---------------------------------------------------------------------------
// What the shortest digits are
// ---------------------------------------------------------------------------

/// Five to the power of `n`.
pub open spec fn pow5(n: nat) -> nat
    decreases n,
{
    if n == 0 {
        1
    } else {
        5 * pow5((n - 1) as nat)
    }
}

/// Whether the numbers differ in what is left of them without their last `k`
/// digits.
pub open spec fn differ_at(a: nat, x: nat, h: nat, k: nat) -> bool {
    a / pow10(k) != x / pow10(k) || x / pow10(k) != h / pow10(k)
}

/// The highest place at which the numbers differ.
pub open spec fn place(a: nat, x: nat, h: nat) -> nat {
    choose|k: nat| #[trigger] differ_at(a, x, h, k) && !differ_at(a, x, h, k + 1)
}

/// `x` without its last `k` digits, rounded to a number that is above `a` and
/// at most `h`; the nearer one of two, the greater one of two equally near.
pub open spec fn leading(a: nat, x: nat, h: nat, k: nat) -> nat {
    let d = x / pow10(k);
    let rest = x % pow10(k);
    if d < h / pow10(k) && (a / pow10(k) == d || 2 * rest >= pow10(k)) {
        d + 1
    } else {
        d
    }
}

/// The value of a magnitude in units of 10^-1075.
pub open spec fn exactly(mag: nat) -> nat {
    2 * units(mag) * pow5(1075)
}

/// The greatest number of 10^-1075 that is too little to read back as a
/// magnitude.
pub open spec fn too_little(mag: nat) -> nat {
    ((units((mag - 1) as nat) + units(mag)) * pow5(1075) - (if mag % 2 == 0 {
        1int
    } else {
        0
    })) as nat
}

/// The greatest number of 10^-1075 that reads back as a magnitude.
pub open spec fn at_most_this(mag: nat) -> nat {
    ((units(mag) + units(mag + 1)) * pow5(1075) - (if mag % 2 == 0 {
        0int
    } else {
        1
    })) as nat
}

/// How many places of 10^-1075 the shortest text of a magnitude leaves out.
pub open spec fn shortest_place(mag: nat) -> nat {
    place(too_little(mag), exactly(mag), at_most_this(mag))
}

/// The digits of the shortest text of a magnitude, as a number.
pub open spec fn shortest_digits(mag: nat) -> nat {
    leading(too_little(mag), exactly(mag), at_most_this(mag), shortest_place(mag))
}

// ---------------------------------------------------------------------------
// Text
// ---------------------------------------------------------------------------

/// A number of zeros.
pub open spec fn zeros(n: nat) -> Seq<char> {
    Seq::new(n, |i: int| '0')
}

/// An integer in decimal digits.
pub open spec fn signed_decimal(n: int) -> Seq<char> {
    if n < 0 {
        seq!['-'] + decimal((-n) as nat)
    } else {
        decimal(n as nat)
    }
}

/// Digits with the decimal point `p` places behind the start, and at least one
/// digit on either side of it.
pub open spec fn plain_text(digits: Seq<char>, p: int) -> Seq<char> {
    if p <= 0 {
        seq!['0', '.'] + zeros((-p) as nat) + digits
    } else if p >= digits.len() {
        digits + zeros((p - digits.len()) as nat) + seq!['.', '0']
    } else {
        digits.take(p) + seq!['.'] + digits.skip(p)
    }
}

/// Digits with the decimal point behind the first, times a power of ten.
pub open spec fn scientific_text(digits: Seq<char>, p: int) -> Seq<char> {
    digits.take(1) + (if digits.len() > 1 {
        seq!['.'] + digits.skip(1)
    } else {
        Seq::empty()
    }) + seq!['e'] + signed_decimal(p - 1)
}

/// The shortest text of a value: plain from 10^-4 up to 10^16, scientific
/// elsewhere.
pub open spec fn float_text(x: Binary64) -> Seq<char> {
    let sign = if x.negative() {
        seq!['-']
    } else {
        Seq::empty()
    };
    if x.nan() {
        seq!['N', 'a', 'N']
    } else if x.infinite() {
        sign + seq!['i', 'n', 'f']
    } else if x.mag() == 0 {
        sign + seq!['0', '.', '0']
    } else {
        let digits = decimal(shortest_digits(x.mag()));
        let p = digits.len() + shortest_place(x.mag()) - 1075;
        if x.magnitude().less(Binary64::fraction(1, 10_000)) || Binary64::of_nat(
            10_000_000_000_000_000,
        ).at_most(x.magnitude()) {
            sign + scientific_text(digits, p)
        } else {
            sign + plain_text(digits, p)
        }
    }
}

// ---------------------------------------------------------------------------
// Digit by digit
// ---------------------------------------------------------------------------

/// The number with given decimal digits, least significant first.
spec fn val(d: Seq<u8>) -> nat
    decreases d.len(),
{
    if d.len() == 0 {
        0
    } else {
        d[0] as nat + 10 * val(d.skip(1))
    }
}

spec fn all_digits(d: Seq<u8>) -> bool {
    forall|i: int| 0 <= i < d.len() ==> #[trigger] d[i] < 10
}

proof fn lemma_val_push(d: Seq<u8>, x: u8)
    ensures
        val(d.push(x)) == val(d) + pow10(d.len()) * x,
    decreases d.len(),
{
    if d.len() == 0 {
        assert(d.push(x).skip(1) =~= Seq::<u8>::empty());
        assert(val(Seq::<u8>::empty()) == 0);
        assert(1 * x == x) by (nonlinear_arith);
    } else {
        assert(d.push(x).skip(1) =~= d.skip(1).push(x));
        lemma_val_push(d.skip(1), x);
        let p = pow10((d.len() - 1) as nat);
        assert(10 * (p * x) == (10 * p) * x) by (nonlinear_arith);
    }
}

proof fn lemma_val_step(d: Seq<u8>, i: int)
    requires
        0 <= i < d.len(),
    ensures
        val(d.skip(i)) == d[i] as nat + 10 * val(d.skip(i + 1)),
{
    assert(d.skip(i).skip(1) =~= d.skip(i + 1));
}

proof fn lemma_val_split(d: Seq<u8>, i: nat)
    requires
        i <= d.len(),
        all_digits(d),
    ensures
        val(d) == val(d.take(i as int)) + pow10(i) * val(d.skip(i as int)),
        val(d.take(i as int)) < pow10(i),
    decreases i,
{
    if i == 0 {
        assert(d.take(0) =~= Seq::<u8>::empty());
        assert(d.skip(0) =~= d);
        assert(1 * val(d) == val(d)) by (nonlinear_arith);
    } else {
        let j = (i - 1) as nat;
        lemma_val_split(d, j);
        assert(d.take(i as int) =~= d.take(j as int).push(d[j as int]));
        lemma_val_push(d.take(j as int), d[j as int]);
        lemma_val_step(d, j as int);
        let p = pow10(j);
        let x = d[j as int] as nat;
        let v = val(d.skip(i as int));
        assert(p * (x + 10 * v) == p * x + (10 * p) * v) by (nonlinear_arith);
        assert(p + p * x <= 10 * p) by (nonlinear_arith)
            requires
                x <= 9,
        ;
    }
}

/// What is left of a number without its last digits, and those digits.
proof fn lemma_val_parts(d: Seq<u8>, i: nat)
    requires
        i <= d.len(),
        all_digits(d),
    ensures
        val(d) / pow10(i) == val(d.skip(i as int)),
        val(d) % pow10(i) == val(d.take(i as int)),
{
    lemma_val_split(d, i);
    lemma_pow10_positive(i);
    let p = pow10(i);
    let v = val(d.skip(i as int));
    assert(p * v == v * p) by (nonlinear_arith);
    lemma_fundamental_div_mod_converse(val(d) as int, p as int, v as int, val(d.take(i as int)) as int);
}

/// The digits of a machine integer.
fn small_digits(n: u64) -> (r: Vec<u8>)
    ensures
        all_digits(r@),
        val(r@) == n,
    decreases n,
{
    if n == 0 {
        Vec::new()
    } else {
        let mut r: Vec<u8> = Vec::new();
        let mut rest: u64 = n;
        assert(pow10(0) * n == n) by (nonlinear_arith)
            requires
                pow10(0) == 1,
        ;
        while rest > 0
            invariant
                all_digits(r@),
                val(r@) + pow10(r@.len()) * rest == n,
            decreases rest,
        {
            let x: u8 = (rest % 10) as u8;
            proof {
                lemma_val_push(r@, x);
                let p = pow10(r@.len());
                assert(p * rest == p * x + (10 * p) * (rest / 10)) by (nonlinear_arith)
                    requires
                        rest == 10 * (rest / 10) + x,
                ;
            }
            r.push(x);
            rest = rest / 10;
        }
        assert(pow10(r@.len()) * 0 == 0) by (nonlinear_arith);
        r
    }
}

/// The digits of a multiple.
fn times(d: &Vec<u8>, c: u64) -> (r: Vec<u8>)
    requires
        all_digits(d@),
        c <= 0x10_0000,
    ensures
        all_digits(r@),
        val(r@) == c * val(d@),
{
    let mut r: Vec<u8> = Vec::new();
    let mut carry: u64 = 0;
    let mut i: usize = 0;
    proof {
        assert(d@.skip(0) =~= d@);
        assert(pow10(0) == 1);
        assert(1 * (c * val(d@)) == c * val(d@)) by (nonlinear_arith);
    }
    while i < d.len()
        invariant
            i <= d@.len(),
            all_digits(d@),
            all_digits(r@),
            c <= 0x10_0000,
            carry <= c,
            r@.len() == i,
            val(r@) + pow10(i as nat) * (c * val(d@.skip(i as int)) + carry) == c * val(d@),
        decreases d.len() - i,
    {
        assert(d@[i as int] < 10);
        assert(d@[i as int] * c <= 9 * c) by (nonlinear_arith)
            requires
                d@[i as int] < 10,
        ;
        let t: u64 = d[i] as u64 * c + carry;
        let x: u8 = (t % 10) as u8;
        proof {
            lemma_val_push(r@, x);
            lemma_val_step(d@, i as int);
            let p = pow10(i as nat);
            let v = val(d@.skip(i + 1));
            let e = d@[i as int] as nat;
            assert(p * (c * (e + 10 * v) + carry) == p * x + (10 * p) * (c * v + t / 10)) by (nonlinear_arith)
                requires
                    t == e * c + carry,
                    t == 10 * (t / 10) + x,
            ;
        }
        r.push(x);
        carry = t / 10;
        i = i + 1;
    }
    proof {
        assert(d@.skip(i as int) =~= Seq::<u8>::empty());
        assert(c * 0 == 0) by (nonlinear_arith);
    }
    while carry > 0
        invariant
            all_digits(r@),
            val(r@) + pow10(r@.len()) * carry == c * val(d@),
        decreases carry,
    {
        let x: u8 = (carry % 10) as u8;
        proof {
            lemma_val_push(r@, x);
            let p = pow10(r@.len());
            assert(p * carry == p * x + (10 * p) * (carry / 10)) by (nonlinear_arith)
                requires
                    carry == 10 * (carry / 10) + x,
            ;
        }
        r.push(x);
        carry = carry / 10;
    }
    assert(pow10(r@.len()) * 0 == 0) by (nonlinear_arith);
    r
}

/// The digits of the number before.
fn one_less(d: &Vec<u8>) -> (r: Vec<u8>)
    requires
        all_digits(d@),
        val(d@) > 0,
    ensures
        all_digits(r@),
        val(r@) == val(d@) - 1,
{
    let mut r: Vec<u8> = Vec::new();
    let mut borrow: bool = true;
    let mut i: usize = 0;
    proof {
        assert(d@.skip(0) =~= d@);
        assert(pow10(0) == 1);
        assert(1 * (val(d@) - 1) == val(d@) - 1) by (nonlinear_arith);
    }
    while i < d.len()
        invariant
            i <= d@.len(),
            all_digits(d@),
            all_digits(r@),
            r@.len() == i,
            val(r@) + pow10(i as nat) * (val(d@.skip(i as int)) - (if borrow {
                1int
            } else {
                0
            })) == val(d@) - 1,
        decreases d.len() - i,
    {
        let e: u8 = d[i];
        assert(d@[i as int] < 10);
        let x: u8 = if !borrow {
            e
        } else if e == 0 {
            9
        } else {
            e - 1
        };
        proof {
            lemma_val_push(r@, x);
            lemma_val_step(d@, i as int);
            let p = pow10(i as nat);
            let v = val(d@.skip(i + 1)) as int;
            let before: int = if borrow {
                1
            } else {
                0
            };
            let after: int = if borrow && e == 0 {
                1
            } else {
                0
            };
            assert(e - before == x - 10 * after);
            assert(p * (e + 10 * v - before) == p * x + (10 * p) * (v - after)) by (nonlinear_arith)
                requires
                    e - before == x - 10 * after,
            ;
        }
        r.push(x);
        borrow = borrow && e == 0;
        i = i + 1;
    }
    proof {
        assert(d@.skip(i as int) =~= Seq::<u8>::empty());
        lemma_val_split(r@, r@.len());
        assert(r@.take(r@.len() as int) =~= r@);
        assert(pow10(i as nat) * (0 - 1) == -pow10(i as nat)) by (nonlinear_arith);
        assert(pow10(i as nat) * (0 - 0) == 0) by (nonlinear_arith);
    }
    r
}

/// Zeros in front of digits change nothing.
fn pad(d: &mut Vec<u8>, n: usize)
    requires
        all_digits(old(d)@),
    ensures
        all_digits(final(d)@),
        val(final(d)@) == val(old(d)@),
        final(d)@.len() >= n,
        final(d)@.len() == n || final(d)@.len() == old(d)@.len(),
{
    while d.len() < n
        invariant
            all_digits(d@),
            val(d@) == val(old(d)@),
            d@.len() <= n || d@.len() == old(d)@.len(),
        decreases n - d.len(),
    {
        proof {
            lemma_val_push(d@, 0);
            assert(pow10(d@.len()) * 0 == 0) by (nonlinear_arith);
        }
        d.push(0);
    }
}

/// `q * 2^s` units of 2^-1075 in units of 10^-1075.
fn scaled(q: u64, s: i32) -> (r: Vec<u8>)
    requires
        0 <= s <= 3000,
    ensures
        all_digits(r@),
        val(r@) == q * pow2(s as nat) * pow5(1075),
{
    let mut r: Vec<u8> = small_digits(q);
    let mut i: usize = 0;
    proof {
        assert(q * 1 == q) by (nonlinear_arith);
    }
    while i < 215
        invariant
            i <= 215,
            all_digits(r@),
            val(r@) == q * pow5((5 * i) as nat),
        decreases 215 - i,
    {
        r = times(&r, 3125);
        proof {
            reveal_with_fuel(pow5, 6);
            let p = pow5((5 * i) as nat);
            assert(pow5((5 * i + 5) as nat) == 3125 * p);
            assert(3125 * (q * p) == q * (3125 * p)) by (nonlinear_arith);
        }
        i = i + 1;
    }
    let ghost t = pow5(1075);
    let mut k: i32 = 0;
    proof {
        lemma2_to64();
        assert(q * t == q * pow2(0) * t) by (nonlinear_arith)
            requires
                pow2(0) == 1,
        ;
    }
    while k < s
        invariant
            0 <= k <= s <= 3000,
            all_digits(r@),
            t == pow5(1075),
            val(r@) == q * pow2(k as nat) * t,
        decreases s - k,
    {
        if s - k >= 20 {
            r = times(&r, 0x10_0000);
            proof {
                lemma2_to64();
                lemma_pow2_adds(k as nat, 20);
                let p = pow2(k as nat);
                assert(0x10_0000 * (q * p * t) == q * (p * 0x10_0000) * t) by (nonlinear_arith);
            }
            k = k + 20;
        } else {
            r = times(&r, 2);
            proof {
                lemma_pow2_unfold((k + 1) as nat);
                let p = pow2(k as nat);
                assert(2 * (q * p * t) == q * (2 * p) * t) by (nonlinear_arith);
            }
            k = k + 1;
        }
    }
    r
}

// ---------------------------------------------------------------------------
// Finding the place
// ---------------------------------------------------------------------------

/// Numbers that are the same without their last `k` digits are the same
/// without more of them.
proof fn lemma_same_above(a: nat, x: nat, h: nat, k: nat, j: nat)
    requires
        !differ_at(a, x, h, k),
        k <= j,
    ensures
        !differ_at(a, x, h, j),
    decreases j - k,
{
    if k < j {
        lemma_pow10_positive(k);
        let p = pow10(k) as int;
        assert(pow10(k + 1) == 10 * pow10(k));
        lemma_div_denominator(a as int, p, 10);
        lemma_div_denominator(x as int, p, 10);
        lemma_div_denominator(h as int, p, 10);
        assert(p * 10 == 10 * p);
        lemma_same_above(a, x, h, k + 1, j);
    }
}

/// There is only one highest place at which numbers differ.
proof fn lemma_place_is(a: nat, x: nat, h: nat, k: nat)
    requires
        differ_at(a, x, h, k),
        !differ_at(a, x, h, k + 1),
    ensures
        place(a, x, h) == k,
{
    let c = place(a, x, h);
    if c < k {
        lemma_same_above(a, x, h, c + 1, k);
    } else if k < c {
        lemma_same_above(a, x, h, k + 1, c);
    }
}

/// The highest place at which numbers of the same length differ.
fn find_place(a: &Vec<u8>, x: &Vec<u8>, h: &Vec<u8>) -> (k: usize)
    requires
        all_digits(a@),
        all_digits(x@),
        all_digits(h@),
        a@.len() == x@.len(),
        h@.len() == x@.len(),
        val(a@) < val(x@),
    ensures
        k < x@.len(),
        k == place(val(a@), val(x@), val(h@)),
        differ_at(val(a@), val(x@), val(h@), k as nat),
        a@.skip(k + 1) == x@.skip(k + 1),
        x@.skip(k + 1) == h@.skip(k + 1),
{
    let n: usize = x.len();
    let mut k: usize = n;
    assert(a@.skip(n as int) =~= x@.skip(n as int));
    assert(h@.skip(n as int) =~= x@.skip(n as int));
    while k > 0 && a[k - 1] == x[k - 1] && x[k - 1] == h[k - 1]
        invariant
            k <= n,
            n == x@.len(),
            a@.len() == n,
            h@.len() == n,
            a@.skip(k as int) == x@.skip(k as int),
            x@.skip(k as int) == h@.skip(k as int),
        decreases k,
    {
        proof {
            let j = k - 1;
            assert(a@.skip(j) =~= seq![a@[j]] + a@.skip(k as int));
            assert(x@.skip(j) =~= seq![x@[j]] + x@.skip(k as int));
            assert(h@.skip(j) =~= seq![h@[j]] + h@.skip(k as int));
        }
        k = k - 1;
    }
    proof {
        if k == 0 {
            assert(a@.skip(0) =~= a@);
            assert(x@.skip(0) =~= x@);
        }
        let j = (k - 1) as nat;
        lemma_val_parts(a@, j);
        lemma_val_parts(x@, j);
        lemma_val_parts(h@, j);
        lemma_val_parts(a@, j + 1);
        lemma_val_parts(x@, j + 1);
        lemma_val_parts(h@, j + 1);
        lemma_val_step(a@, j as int);
        lemma_val_step(x@, j as int);
        lemma_val_step(h@, j as int);
        assert(differ_at(val(a@), val(x@), val(h@), j));
        assert(!differ_at(val(a@), val(x@), val(h@), j + 1));
        lemma_place_is(val(a@), val(x@), val(h@), j);
    }
    k - 1
}

/// Whether twice the last `k` digits is at least 10^k.
fn half_or_more(x: &Vec<u8>, k: usize) -> (r: bool)
    requires
        all_digits(x@),
        k <= x@.len(),
    ensures
        r == (2 * (val(x@) % pow10(k as nat)) >= pow10(k as nat)),
{
    proof {
        lemma_val_parts(x@, k as nat);
    }
    if k == 0 {
        assert(x@.take(0) =~= Seq::<u8>::empty());
        return false;
    }
    proof {
        let j = (k - 1) as nat;
        lemma_val_split(x@, j);
        assert(x@.take(k as int) =~= x@.take(j as int).push(x@[j as int]));
        lemma_val_push(x@.take(j as int), x@[j as int]);
        let p = pow10(j);
        let e = x@[j as int] as nat;
        assert(e >= 5 ==> p * e >= 5 * p) by (nonlinear_arith);
        assert(e <= 4 ==> p * e <= 4 * p) by (nonlinear_arith);
    }
    x[k - 1] >= 5
}

/// Digits without the zeros in front of them.
fn trim(d: &mut Vec<u8>)
    requires
        all_digits(old(d)@),
        val(old(d)@) > 0,
    ensures
        all_digits(final(d)@),
        val(final(d)@) == val(old(d)@),
        final(d)@.len() > 0,
        final(d)@.last() > 0,
        final(d)@.len() <= old(d)@.len(),
{
    assert(val(Seq::<u8>::empty()) == 0);
    while d.len() > 0 && d[d.len() - 1] == 0
        invariant
            all_digits(d@),
            val(d@) == val(old(d)@),
            d@.len() <= old(d)@.len(),
        decreases d.len(),
    {
        proof {
            let rest = d@.drop_last();
            assert(d@ =~= rest.push(0));
            lemma_val_push(rest, 0);
            assert(pow10(rest.len()) * 0 == 0) by (nonlinear_arith);
        }
        let _ = d.pop();
    }
    assert(d@.len() == 0 ==> d@ =~= Seq::<u8>::empty());
}

/// Digits without zeros in front of them are the decimal text, read from the
/// back.
proof fn lemma_decimal_of_digits(d: Seq<u8>)
    requires
        all_digits(d),
        d.len() > 0,
        d.last() > 0,
    ensures
        decimal(val(d)) == Seq::new(d.len(), |i: int| digit(d[d.len() - 1 - i] as nat)),
        val(d) > 0,
    decreases d.len(),
{
    let rest = d.skip(1);
    if d.len() == 1 {
        assert(val(rest) == 0);
        assert(d.last() == d[0] && d[0] < 10);
        assert(val(d) == d[0] as nat);
        assert(decimal(val(d)) =~= Seq::new(d.len(), |i: int| digit(d[d.len() - 1 - i] as nat)));
    } else {
        assert forall|i: int| 0 <= i < rest.len() implies #[trigger] rest[i] < 10 by {
            assert(d[i + 1] < 10);
        }
        assert(rest.last() == d.last());
        lemma_decimal_of_digits(rest);
        assert(d[0] < 10);
        assert(val(d) == d[0] as nat + 10 * val(rest));
        assert(val(d) / 10 == val(rest) && val(d) % 10 == d[0] as nat);
        assert(decimal(val(d)) =~= Seq::new(d.len(), |i: int| digit(d[d.len() - 1 - i] as nat)));
    }
}

/// The digits of what bounds the texts of a magnitude, and of the magnitude.
fn bounds(mag: u64) -> (r: (Vec<u8>, Vec<u8>, Vec<u8>))
    requires
        0 < mag < INF_MAG,
    ensures
        all_digits(r.0@),
        all_digits(r.1@),
        all_digits(r.2@),
        val(r.0@) == too_little(mag as nat),
        val(r.1@) == exactly(mag as nat),
        val(r.2@) == at_most_this(mag as nat),
        val(r.0@) < val(r.1@) <= val(r.2@),
{
    let (m, s): (u64, i32) = parts(mag);
    let below: u64 = if s > 0 && m == HIDDEN {
        1
    } else {
        2
    };
    // In units of 2^-1075 times two to the power of `shift`.
    let (q, shift): (u64, i32) = if s > 0 {
        (4 * m, s - 1)
    } else {
        (2 * m, 0)
    };
    let (low, high): (u64, u64) = if s > 0 {
        (4 * m - below, 4 * m + 2)
    } else {
        (2 * m - 1, 2 * m + 1)
    };
    let x: Vec<u8> = scaled(q, shift);
    let a: Vec<u8> = scaled(low, shift);
    let h: Vec<u8> = scaled(high, shift);
    proof {
        lemma_midpoints(mag as nat, m as nat, s as nat, q as nat, low as nat, high as nat, shift as nat);
        lemma_pow5_positive(1075);
        let u = units(mag as nat);
        let lo = units((mag - 1) as nat) + u;
        let hi = u + units((mag + 1) as nat);
        let t = pow5(1075);
        assert(lo * t < (2 * u) * t && (2 * u) * t < hi * t && lo * t > 0) by (nonlinear_arith)
            requires
                0 < lo < 2 * u < hi,
                t > 0,
        ;
    }
    if mag % 2 == 0 {
        (one_less(&a), x, h)
    } else {
        (a, x, one_less(&h))
    }
}

/// The digits of `x` down to the highest place at which the numbers differ,
/// least significant first, and that place.
fn cut(mut a: Vec<u8>, mut x: Vec<u8>, mut h: Vec<u8>) -> (r: (Vec<u8>, usize))
    requires
        all_digits(a@),
        all_digits(x@),
        all_digits(h@),
        val(a@) < val(x@) <= val(h@),
    ensures
        all_digits(r.0@),
        r.0@.len() > 0,
        r.0@.last() > 0,
        r.1 == place(val(a@), val(x@), val(h@)),
        val(r.0@) == leading(val(a@), val(x@), val(h@), r.1 as nat),
        r.0@.len() + r.1 <= usize::MAX,
{
    let ghost av = val(a@);
    let ghost xv = val(x@);
    let ghost hv = val(h@);
    let mut n: usize = x.len();
    if a.len() > n {
        n = a.len();
    }
    if h.len() > n {
        n = h.len();
    }
    pad(&mut x, n);
    pad(&mut a, n);
    pad(&mut h, n);
    let k: usize = find_place(&a, &x, &h);
    proof {
        lemma_val_parts(a@, k as nat);
        lemma_val_parts(x@, k as nat);
        lemma_val_parts(h@, k as nat);
        lemma_val_step(a@, k as int);
        lemma_val_step(x@, k as int);
        lemma_val_step(h@, k as int);
        lemma_pow10_positive(k as nat);
        lemma_div_is_ordered(av as int, xv as int, pow10(k as nat) as int);
        lemma_div_is_ordered(xv as int, hv as int, pow10(k as nat) as int);
        assert(a@[k as int] < 10 && x@[k as int] < 10 && h@[k as int] < 10);
    }
    let up: bool = x[k] < h[k] && (a[k] == x[k] || half_or_more(&x, k));
    let first: u8 = if up {
        x[k] + 1
    } else {
        x[k]
    };
    let mut d: Vec<u8> = with_first(&x, k, first);
    assert(val(d@) == leading(av, xv, hv, k as nat));
    trim(&mut d);
    (d, k)
}

/// The digits from a place on, the first of them replaced.
fn with_first(x: &Vec<u8>, k: usize, first: u8) -> (d: Vec<u8>)
    requires
        all_digits(x@),
        k < x@.len(),
        0 < first < 10,
    ensures
        all_digits(d@),
        val(d@) == first as nat + 10 * val(x@.skip(k + 1)),
        d@.len() == x@.len() - k,
{
    let n: usize = x.len();
    let mut d: Vec<u8> = Vec::new();
    d.push(first);
    let mut i: usize = k + 1;
    assert(d@ =~= seq![first] + x@.subrange(k + 1, i as int));
    while i < n
        invariant
            k < i <= n,
            n == x@.len(),
            d@ == seq![first] + x@.subrange(k + 1, i as int),
        decreases n - i,
    {
        d.push(x[i]);
        i = i + 1;
        assert(d@ =~= seq![first] + x@.subrange(k + 1, i as int));
    }
    proof {
        assert(d@.skip(1) =~= x@.skip(k + 1));
        assert forall|j: int| 0 <= j < d@.len() implies #[trigger] d@[j] < 10 by {
            if j > 0 {
                assert(d@[j] == x@[k + j]);
                assert(x@[k + j] < 10);
            }
        }
    }
    d
}

proof fn lemma_pow5_positive(n: nat)
    ensures
        pow5(n) > 0,
    decreases n,
{
    if n > 0 {
        lemma_pow5_positive((n - 1) as nat);
    }
}

/// Twice a magnitude and its midpoints with its neighbours.
proof fn lemma_midpoints(mag: nat, m: nat, s: nat, q: nat, low: nat, high: nat, shift: nat)
    requires
        0 < mag < INF_MAG,
        m == significand_of(mag),
        s == shift_of(mag),
        s > 0 ==> q == 4 * m && high == 4 * m + 2 && shift + 1 == s && low == 4 * m - (if m == HIDDEN {
            1int
        } else {
            2
        }),
        s == 0 ==> q == 2 * m && high == 2 * m + 1 && low == 2 * m - 1 && shift == 0,
    ensures
        q * pow2(shift) == 2 * units(mag),
        low * pow2(shift) == units((mag - 1) as nat) + units(mag),
        high * pow2(shift) == units(mag) + units(mag + 1),
        0 < units((mag - 1) as nat) + units(mag) < 2 * units(mag) < units(mag) + units(mag + 1),
{
    let below = (mag - 1) as nat;
    lemma_units_step(mag);
    lemma_units_step(below);
    let h = HIDDEN as nat;
    let e = mag / h;
    let f = mag % h;
    assert(mag == e * h + f && below / h == if f > 0 {
        e
    } else {
        (e - 1) as nat
    }) by {
        if f > 0 {
            lemma_fundamental_div_mod_converse(below as int, h as int, e as int, f - 1);
        } else {
            assert(e >= 1);
            assert(below == (e - 1) * h + (h - 1)) by (nonlinear_arith)
                requires
                    below == e * h - 1,
            ;
            lemma_fundamental_div_mod_converse(below as int, h as int, e - 1, h - 1);
        }
    }
    let p = pow2(shift);
    if s > 0 {
        assert(e == s + 1);
        assert(m == f + h) by {
            assert(s * h == e * h - h) by (nonlinear_arith)
                requires
                    s == e - 1,
            ;
        }
        lemma_pow2_unfold(s);
        assert(pow2(s) == 2 * p);
        assert((4 * m) * p == 2 * (m * (2 * p))) by (nonlinear_arith);
        assert((4 * m + 2) * p == 2 * (m * (2 * p)) + 2 * p) by (nonlinear_arith);
        assert((4 * m - 2) * p == 2 * (m * (2 * p)) - 2 * p) by (nonlinear_arith);
        assert((4 * m - 1) * p == 2 * (m * (2 * p)) - p) by (nonlinear_arith);
        if m == h {
            assert(shift_of(below) == s - 1);
        } else {
            assert(shift_of(below) == s);
        }
    } else {
        lemma2_to64();
        assert(shift_of(below) == 0);
        assert(p == 1);
        assert(m * 1 == m) by (nonlinear_arith);
        assert((2 * m) * 1 == 2 * m) by (nonlinear_arith);
        assert((2 * m + 1) * 1 == 2 * m + 1) by (nonlinear_arith);
        assert((2 * m - 1) * 1 == 2 * m - 1) by (nonlinear_arith);
    }
}

// ---------------------------------------------------------------------------
// Writing
// ---------------------------------------------------------------------------

/// The text of digits that are given least significant first.
spec fn read_back(d: Seq<u8>) -> Seq<char> {
    Seq::new(d.len(), |i: int| digit(d[d.len() - 1 - i] as nat))
}

fn push_run(out: &mut String, d: &Vec<u8>, from: usize, to: usize)
    requires
        all_digits(d@),
        from <= to <= d@.len(),
    ensures
        final(out)@ == old(out)@ + read_back(d@).subrange(from as int, to as int),
{
    let mut i: usize = from;
    assert(out@ =~= old(out)@ + read_back(d@).subrange(from as int, i as int));
    while i < to
        invariant
            all_digits(d@),
            from <= i <= to <= d@.len(),
            out@ == old(out)@ + read_back(d@).subrange(from as int, i as int),
        decreases to - i,
    {
        let at: usize = d.len() - 1 - i;
        assert(d@[at as int] < 10);
        out.append(digit_str(d[at] as u64));
        i = i + 1;
        assert(out@ =~= old(out)@ + read_back(d@).subrange(from as int, i as int));
    }
}

fn push_zeros(out: &mut String, n: u64)
    ensures
        final(out)@ == old(out)@ + zeros(n as nat),
{
    proof {
        reveal_strlit("0");
    }
    let mut i: u64 = 0;
    assert(out@ =~= old(out)@ + zeros(0));
    while i < n
        invariant
            i <= n,
            "0"@ =~= seq!['0'],
            out@ == old(out)@ + zeros(i as nat),
        decreases n - i,
    {
        out.append("0");
        i = i + 1;
        assert(out@ =~= old(out)@ + zeros(i as nat));
    }
}

fn push_plain(out: &mut String, d: &Vec<u8>, p: i128)
    requires
        all_digits(d@),
        -0x1_0000_0000_0000 <= p <= 0xffff_ffff_ffff_ffff,
    ensures
        final(out)@ == old(out)@ + plain_text(read_back(d@), p as int),
{
    proof {
        reveal_strlit("0.");
        reveal_strlit(".0");
        reveal_strlit(".");
        assert("0."@ =~= seq!['0', '.']);
        assert(".0"@ =~= seq!['.', '0']);
        assert("."@ =~= seq!['.']);
    }
    let n: usize = d.len();
    let ghost t = read_back(d@);
    if p <= 0 {
        out.append("0.");
        push_zeros(out, (0 - p) as u64);
        push_run(out, d, 0, n);
        assert(t.subrange(0, n as int) =~= t);
    } else if p >= n as i128 {
        push_run(out, d, 0, n);
        assert(t.subrange(0, n as int) =~= t);
        push_zeros(out, (p - n as i128) as u64);
        out.append(".0");
    } else {
        push_run(out, d, 0, p as usize);
        out.append(".");
        push_run(out, d, p as usize, n);
        assert(t.subrange(0, p as int) =~= t.take(p as int));
        assert(t.subrange(p as int, n as int) =~= t.skip(p as int));
    }
    assert(out@ =~= old(out)@ + plain_text(t, p as int));
}

fn push_scientific(out: &mut String, d: &Vec<u8>, p: i128)
    requires
        all_digits(d@),
        d@.len() > 0,
        -0x1_0000_0000_0000 <= p <= 0xffff_ffff_ffff_ffff,
    ensures
        final(out)@ == old(out)@ + scientific_text(read_back(d@), p as int),
{
    proof {
        reveal_strlit("e");
        reveal_strlit("-");
        reveal_strlit(".");
        assert("e"@ =~= seq!['e']);
        assert("-"@ =~= seq!['-']);
        assert("."@ =~= seq!['.']);
    }
    let n: usize = d.len();
    let ghost t = read_back(d@);
    push_run(out, d, 0, 1);
    assert(t.subrange(0, 1) =~= t.take(1));
    if n > 1 {
        out.append(".");
        push_run(out, d, 1, n);
        assert(t.subrange(1, n as int) =~= t.skip(1));
    }
    out.append("e");
    let e: i128 = p - 1;
    if e < 0 {
        out.append("-");
        push_decimal(out, (0 - e) as u64);
    } else {
        push_decimal(out, e as u64);
    }
    assert(out@ =~= old(out)@ + scientific_text(t, p as int));
}

/// Appends the shortest text of a value.
pub fn push_float(out: &mut String, x: Binary64)
    ensures
        final(out)@ == old(out)@ + float_text(x),
{
    let mag: u64 = x.bits % SIGN_BIT;
    proof {
        reveal_strlit("NaN");
        reveal_strlit("inf");
        reveal_strlit("-");
        reveal_strlit("0.0");
        assert("NaN"@ =~= seq!['N', 'a', 'N']);
        assert("inf"@ =~= seq!['i', 'n', 'f']);
        assert("-"@ =~= seq!['-']);
        assert("0.0"@ =~= seq!['0', '.', '0']);
    }
    if mag > INF_MAG {
        out.append("NaN");
        return;
    }
    if x.bits >= SIGN_BIT {
        out.append("-");
    }
    let ghost sign = if x.negative() {
        seq!['-']
    } else {
        Seq::<char>::empty()
    };
    assert(out@ =~= old(out)@ + sign);
    if mag == INF_MAG {
        out.append("inf");
    } else if mag == 0 {
        out.append("0.0");
    } else {
        let (a, y, h): (Vec<u8>, Vec<u8>, Vec<u8>) = bounds(mag);
        let (d, k): (Vec<u8>, usize) = cut(a, y, h);
        proof {
            lemma_decimal_of_digits(d@);
            assert(read_back(d@) =~= decimal(shortest_digits(mag as nat)));
        }
        let p: i128 = d.len() as i128 + k as i128 - 1075;
        let small: bool = x.abs().lt(Binary64::ratio(1, 10_000));
        if small || Binary64::from_u64(10_000_000_000_000_000).le(x.abs()) {
            push_scientific(out, &d, p);
        } else {
            push_plain(out, &d, p);
        }
    }
    assert(out@ =~= old(out)@ + float_text(x));
}

// ---------------------------------------------------------------------------
// Laws
// ---------------------------------------------------------------------------

/// The shortest digits of a magnitude read back as it.
pub proof fn law_shortest_text_reads_back(mag: nat)
    requires
        0 < mag < INF_MAG,
    ensures
        nearest(
            shortest_digits(mag) * pow10(shortest_place(mag)) * pow2(1074),
            pow10(1075),
            mag,
        ),
{
    let a = too_little(mag);
    let x = exactly(mag);
    let h = at_most_this(mag);
    lemma_bounds_order(mag);
    lemma_place_exists(a, x, h);
    let k = place(a, x, h);
    let p = pow10(k);
    lemma_pow10_positive(k);
    let d = shortest_digits(mag);
    lemma_between(a, x, h, k);
    lemma_reads_back(mag, d * p);
}

/// No text with fewer digits reads back as the magnitude.
pub proof fn law_no_shorter_text_reads_back(mag: nat, d: nat, k: nat)
    requires
        0 < mag < INF_MAG,
        k > shortest_place(mag),
    ensures
        !nearest(d * pow10(k) * pow2(1074), pow10(1075), mag),
{
    let a = too_little(mag);
    let x = exactly(mag);
    let h = at_most_this(mag);
    lemma_bounds_order(mag);
    lemma_place_exists(a, x, h);
    lemma_same_above(a, x, h, place(a, x, h) + 1, k);
    lemma_pow10_positive(k);
    let p = pow10(k);
    let n = d * p;
    if a < n <= h {
        lemma_div_is_ordered(a as int, n as int, p as int);
        lemma_div_is_ordered(n as int, h as int, p as int);
        vstd::arithmetic::div_mod::lemma_div_by_multiple(d as int, p as int);
        vstd::arithmetic::div_mod::lemma_fundamental_div_mod(a as int, p as int);
        assert(a >= d * p) by (nonlinear_arith)
            requires
                a == p * d + a % p,
                a % p >= 0,
        ;
    }
    lemma_reads_back(mag, n);
}

proof fn lemma_bounds_order(mag: nat)
    requires
        0 < mag < INF_MAG,
    ensures
        too_little(mag) < exactly(mag) <= at_most_this(mag),
        (units((mag - 1) as nat) + units(mag)) * pow5(1075) > 0,
        (units(mag) + units(mag + 1)) * pow5(1075) > 0,
{
    lemma_units_step(mag);
    lemma_units_step((mag - 1) as nat);
    lemma_pow5_positive(1075);
    let u = units(mag);
    let lo = units((mag - 1) as nat) + u;
    let hi = u + units(mag + 1);
    let t = pow5(1075);
    assert(lo * t < (2 * u) * t && (2 * u) * t < hi * t && lo * t > 0) by (nonlinear_arith)
        requires
            0 < lo < 2 * u < hi,
            t > 0,
    ;
}

proof fn lemma_below_pow10(n: nat)
    ensures
        n < pow10(n),
    decreases n,
{
    if n > 0 {
        lemma_below_pow10((n - 1) as nat);
    }
}

proof fn lemma_place_exists(a: nat, x: nat, h: nat)
    requires
        a < x <= h,
    ensures
        differ_at(a, x, h, place(a, x, h)),
        !differ_at(a, x, h, place(a, x, h) + 1),
{
    lemma_below_pow10(h);
    assert(!differ_at(a, x, h, h)) by {
        lemma_small_quotient(a, h);
        lemma_small_quotient(x, h);
        lemma_small_quotient(h, h);
    }
    let k = lemma_last_difference(a, x, h, h);
    lemma_place_is(a, x, h, k);
}

proof fn lemma_small_quotient(n: nat, h: nat)
    requires
        n <= h,
    ensures
        n / pow10(h) == 0,
{
    lemma_below_pow10(h);
    vstd::arithmetic::div_mod::lemma_basic_div(n as int, pow10(h) as int);
}

proof fn lemma_last_difference(a: nat, x: nat, h: nat, top: nat) -> (k: nat)
    requires
        a < x <= h,
        !differ_at(a, x, h, top),
    ensures
        differ_at(a, x, h, k),
        !differ_at(a, x, h, k + 1),
    decreases top,
{
    if top == 0 {
        assert(pow10(0) == 1);
        vstd::arithmetic::div_mod::lemma_div_basics(a as int);
        vstd::arithmetic::div_mod::lemma_div_basics(x as int);
        0
    } else {
        let below = (top - 1) as nat;
        if differ_at(a, x, h, below) {
            below
        } else {
            lemma_last_difference(a, x, h, below)
        }
    }
}

/// The digits down to a place at which the numbers differ stand for a number
/// between them.
proof fn lemma_between(a: nat, x: nat, h: nat, k: nat)
    requires
        a < x <= h,
        differ_at(a, x, h, k),
    ensures
        a < leading(a, x, h, k) * pow10(k) <= h,
{
    lemma_pow10_positive(k);
    let p = pow10(k) as int;
    lemma_div_is_ordered(a as int, x as int, p);
    lemma_div_is_ordered(x as int, h as int, p);
    vstd::arithmetic::div_mod::lemma_fundamental_div_mod(a as int, p);
    vstd::arithmetic::div_mod::lemma_fundamental_div_mod(x as int, p);
    vstd::arithmetic::div_mod::lemma_fundamental_div_mod(h as int, p);
    vstd::arithmetic::div_mod::lemma_mod_bound(a as int, p);
    vstd::arithmetic::div_mod::lemma_mod_bound(x as int, p);
    vstd::arithmetic::div_mod::lemma_mod_bound(h as int, p);
    let qa = a as int / p;
    let qx = x as int / p;
    let qh = h as int / p;
    let d = leading(a, x, h, k) as int;
    if d == qx {
        assert(qa < qx);
        assert(a < d * p && d * p <= x) by (nonlinear_arith)
            requires
                a == p * qa + a as int % p,
                a as int % p < p,
                qa + 1 <= d,
                x == p * d + x as int % p,
                x as int % p >= 0,
                p > 0,
        ;
    } else {
        assert(d == qx + 1 && qx < qh);
        assert(x < d * p && d * p <= h) by (nonlinear_arith)
            requires
                x == p * qx + x as int % p,
                x as int % p < p,
                d == qx + 1,
                d <= qh,
                h == p * qh + h as int % p,
                h as int % p >= 0,
                p > 0,
        ;
    }
}

/// A number of 10^-1075 reads back as a magnitude where it is between the
/// bounds, and only there.
proof fn lemma_reads_back(mag: nat, n: nat)
    requires
        0 < mag < INF_MAG,
    ensures
        nearest(n * pow2(1074), pow10(1075), mag) <==> too_little(mag) < n <= at_most_this(mag),
{
    lemma_bounds_order(mag);
    lemma_ten_is_two_fives(1075);
    lemma_pow2_unfold(1075);
    lemma_pow2_pos(1074);
    let c = pow2(1074);
    let t = pow5(1075);
    let lo = units((mag - 1) as nat) + units(mag);
    let hi = units(mag) + units(mag + 1);
    let den = pow10(1075);
    assert(lo * den == (2 * c) * (lo * t)) by (nonlinear_arith)
        requires
            den == (2 * c) * t,
    ;
    assert(hi * den == (2 * c) * (hi * t)) by (nonlinear_arith)
        requires
            den == (2 * c) * t,
    ;
    assert(2 * (n * c) == (2 * c) * n) by (nonlinear_arith);
    let e = 2 * c;
    let x = lo * t;
    let y = hi * t;
    assert(e * x < e * n <==> x < n) by (nonlinear_arith)
        requires
            e > 0,
    ;
    assert(e * x == e * n <==> x == n) by (nonlinear_arith)
        requires
            e > 0,
    ;
    assert(e * n < e * y <==> n < y) by (nonlinear_arith)
        requires
            e > 0,
    ;
    assert(e * n == e * y <==> n == y) by (nonlinear_arith)
        requires
            e > 0,
    ;
    let num = n * c;
    let below = lo * den;
    let above = hi * den;
    assert(below == e * x && above == e * y && 2 * num == e * n);
    assert(nearest(num, den, mag) <==> (below < 2 * num || (below == 2 * num && mag % 2 == 0)) && (2 * num < above || (
    2 * num == above && mag % 2 == 0)));
}

proof fn lemma_ten_is_two_fives(n: nat)
    ensures
        pow10(n) == pow2(n) * pow5(n),
    decreases n,
{
    if n == 0 {
        lemma2_to64();
    } else {
        lemma_ten_is_two_fives((n - 1) as nat);
        lemma_pow2_unfold(n);
        let p = pow2((n - 1) as nat);
        let q = pow5((n - 1) as nat);
        assert((2 * p) * (5 * q) == 10 * (p * q)) by (nonlinear_arith);
    }
}

} // verus!
