//! Numbers as text.

use crate::binary64::{parts, power_of_two, units, Binary64, INF_MAG, SIGN_BIT};
use vstd::arithmetic::power2::{lemma_pow2_adds, lemma_pow2_pos, pow2};
use vstd::prelude::*;

verus! {

/// The character of a decimal digit.
pub open spec fn digit(d: nat) -> char {
    (48 + d) as char
}

/// A number in decimal digits.
pub open spec fn decimal(n: nat) -> Seq<char>
    decreases n,
{
    if n < 10 {
        seq![digit(n)]
    } else {
        decimal(n / 10).push(digit(n % 10))
    }
}

/// The last `len` decimal digits of a number.
pub open spec fn padded(n: nat, len: nat) -> Seq<char>
    decreases len,
{
    if len == 0 {
        Seq::empty()
    } else {
        padded(n / 10, (len - 1) as nat).push(digit(n % 10))
    }
}

/// Ten to the power of `p`.
pub open spec fn pow10(p: nat) -> nat
    decreases p,
{
    if p == 0 {
        1
    } else {
        10 * pow10((p - 1) as nat)
    }
}

/// The integer nearest to `num / den`, the even one of two equally near.
pub open spec fn nearest_integer(num: nat, den: nat) -> nat {
    let q = num / den;
    let r = num % den;
    if 2 * r > den || (2 * r == den && q % 2 == 1) {
        q + 1
    } else {
        q
    }
}

/// A number of 10^-places as text.
pub open spec fn point_text(n: nat, places: nat) -> Seq<char> {
    if places == 0 {
        decimal(n)
    } else {
        decimal(n / pow10(places)) + seq!['.'] + padded(n % pow10(places), places)
    }
}

/// A value rounded to a number of decimal places, ties to even.
pub open spec fn fixed_text(x: Binary64, places: nat) -> Seq<char> {
    let sign = if x.negative() {
        seq!['-']
    } else {
        Seq::empty()
    };
    if x.nan() {
        seq!['N', 'a', 'N']
    } else if x.infinite() {
        sign + seq!['i', 'n', 'f']
    } else {
        sign + point_text(nearest_integer(units(x.mag()) * pow10(places), pow2(1074)), places)
    }
}

/// Parts with a separator between them.
pub open spec fn join(parts: Seq<Seq<char>>, separator: Seq<char>) -> Seq<char>
    decreases parts.len(),
{
    if parts.len() == 0 {
        Seq::empty()
    } else if parts.len() == 1 {
        parts[0]
    } else {
        join(parts.drop_last(), separator) + separator + parts.last()
    }
}

pub(crate) fn digit_str(d: u64) -> (r: &'static str)
    requires
        d < 10,
    ensures
        r@ == seq![digit(d as nat)],
{
    proof {
        reveal_strlit("0");
        reveal_strlit("1");
        reveal_strlit("2");
        reveal_strlit("3");
        reveal_strlit("4");
        reveal_strlit("5");
        reveal_strlit("6");
        reveal_strlit("7");
        reveal_strlit("8");
        reveal_strlit("9");
    }
    let r: &'static str = match d {
        0 => "0",
        1 => "1",
        2 => "2",
        3 => "3",
        4 => "4",
        5 => "5",
        6 => "6",
        7 => "7",
        8 => "8",
        _ => "9",
    };
    assert(r@ =~= seq![digit(d as nat)]);
    r
}

/// Appends a number in decimal digits.
pub fn push_decimal(out: &mut String, n: u64)
    ensures
        final(out)@ == old(out)@ + decimal(n as nat),
    decreases n,
{
    if n < 10 {
        out.append(digit_str(n));
    } else {
        push_decimal(out, n / 10);
        out.append(digit_str(n % 10));
        assert(out@ =~= old(out)@ + decimal((n / 10) as nat).push(digit((n % 10) as nat)));
    }
}

/// Appends the last `len` decimal digits of a number.
fn push_padded(out: &mut String, n: u64, len: usize)
    ensures
        final(out)@ == old(out)@ + padded(n as nat, len as nat),
    decreases len,
{
    if len > 0 {
        push_padded(out, n / 10, len - 1);
        out.append(digit_str(n % 10));
    }
    assert(out@ =~= old(out)@ + padded(n as nat, len as nat));
}

// ---------------------------------------------------------------------------
// Numbers beyond the machine's integers
// ---------------------------------------------------------------------------

/// The decimal digits of a number, least significant first.
spec fn digits(n: nat) -> Seq<u8>
    decreases n,
{
    if n < 10 {
        seq![n as u8]
    } else {
        seq![(n % 10) as u8] + digits(n / 10)
    }
}

/// A number without its last `i` decimal digits.
spec fn without(n: nat, i: nat) -> nat
    decreases i,
{
    if i == 0 {
        n
    } else {
        without(n / 10, (i - 1) as nat)
    }
}

proof fn lemma_digits(n: nat, i: nat)
    requires
        i < digits(n).len(),
    ensures
        digits(n).len() >= 1,
        digits(n).skip(i as int) == digits(without(n, i)),
        digits(n)[i as int] == without(n, i) % 10,
        digits(n)[i as int] < 10,
        i + 1 < digits(n).len() ==> without(n, i) >= 10 && without(n, i + 1) == without(n, i) / 10,
        i + 1 == digits(n).len() ==> without(n, i) < 10,
    decreases i,
{
    if i == 0 {
        assert(digits(n).skip(0) =~= digits(n));
        if n >= 10 {
            lemma_digits_nonempty(n / 10);
            assert(without(n, 1) == without(n / 10, 0));
        }
    } else {
        if n < 10 {
            assert(digits(n).len() == 1);
        } else {
            let rest = digits(n / 10);
            assert(digits(n).skip(i as int) =~= rest.skip(i - 1));
            lemma_digits(n / 10, (i - 1) as nat);
            assert(without(n, i + 1) == without(n / 10, i));
        }
    }
}

proof fn lemma_digits_nonempty(n: nat)
    ensures
        digits(n).len() >= 1,
{
}

/// The digits of a machine integer.
fn digits_of(n: u64) -> (r: Vec<u8>)
    ensures
        r@ == digits(n as nat),
{
    let mut r: Vec<u8> = Vec::new();
    let mut rest: u64 = n;
    assert(r@ + digits(n as nat) =~= digits(n as nat));
    while rest >= 10
        invariant
            r@ + digits(rest as nat) == digits(n as nat),
        decreases rest,
    {
        let ghost before = r@;
        r.push((rest % 10) as u8);
        proof {
            let d = (rest % 10) as u8;
            assert(before + (seq![d] + digits((rest / 10) as nat)) =~= before.push(d) + digits((rest / 10) as nat));
        }
        rest = rest / 10;
    }
    r.push(rest as u8);
    proof {
        assert(r@ =~= digits(n as nat));
    }
    r
}

/// The digits of twice a number.
fn twice(d: &Vec<u8>, Ghost(n): Ghost<nat>) -> (r: Vec<u8>)
    requires
        d@ == digits(n),
    ensures
        r@ == digits(2 * n),
{
    let mut r: Vec<u8> = Vec::new();
    let mut carry: u8 = 0;
    let mut i: usize = 0;
    proof {
        lemma_digits_nonempty(n);
        lemma_digits(n, 0);
        assert(r@ + digits(2 * n) =~= digits(2 * n));
    }
    while i < d.len() - 1
        invariant
            d@ == digits(n),
            d@.len() >= 1,
            i <= d@.len() - 1,
            carry <= 1,
            r@ + digits(2 * without(n, i as nat) + carry as nat) == digits(2 * n),
        decreases d.len() - i,
    {
        proof {
            lemma_digits(n, i as nat);
            lemma_digits(n, (i + 1) as nat);
        }
        let ghost before = r@;
        let ghost cur = without(n, i as nat);
        let ghost whole = 2 * cur + carry as nat;
        let t: u8 = 2 * d[i] + carry;
        r.push(t % 10);
        proof {
            let next = 2 * (cur / 10) + (t / 10) as nat;
            assert(whole >= 10);
            assert(whole % 10 == t % 10);
            assert(whole / 10 == next);
            assert(digits(whole) == seq![(t % 10) as u8] + digits(next));
            assert(before + (seq![t % 10] + digits(next)) =~= before.push(t % 10) + digits(next));
        }
        carry = t / 10;
        i = i + 1;
    }
    proof {
        lemma_digits(n, i as nat);
    }
    let t: u8 = 2 * d[i] + carry;
    let ghost before = r@;
    let ghost whole = 2 * without(n, i as nat) + carry as nat;
    assert(whole == t);
    if t < 10 {
        r.push(t);
        assert(r@ =~= before + seq![t]);
    } else {
        r.push(t % 10);
        r.push(t / 10);
        proof {
            assert(digits(whole / 10) == seq![(t / 10) as u8]);
            assert(r@ =~= before + (seq![(t % 10) as u8] + seq![(t / 10) as u8]));
        }
    }
    r
}

/// Appends a number given by its digits.
fn push_digits(out: &mut String, d: &Vec<u8>, Ghost(n): Ghost<nat>)
    requires
        d@ == digits(n),
    ensures
        final(out)@ == old(out)@ + decimal(n),
{
    proof {
        lemma_digits_nonempty(n);
        lemma_digits(n, (d@.len() - 1) as nat);
    }
    let mut i: usize = d.len() - 1;
    out.append(digit_str(d[i] as u64));
    assert(out@ =~= old(out)@ + decimal(without(n, i as nat)));
    while i > 0
        invariant
            d@ == digits(n),
            i < d@.len(),
            out@ == old(out)@ + decimal(without(n, i as nat)),
        decreases i,
    {
        proof {
            lemma_digits(n, (i - 1) as nat);
        }
        let ghost before = out@;
        i = i - 1;
        out.append(digit_str(d[i] as u64));
        proof {
            let cur = without(n, i as nat);
            assert(decimal(cur) == decimal(cur / 10).push(digit(cur % 10)));
            assert(out@ =~= old(out)@ + decimal(cur));
        }
    }
}

// ---------------------------------------------------------------------------
// Fixed-point text
// ---------------------------------------------------------------------------

/// Rounding a fraction does not depend on how it is written.
proof fn lemma_nearest_integer_scaled(num: nat, den: nat, c: nat)
    requires
        den > 0,
        c > 0,
    ensures
        nearest_integer(num * c, den * c) == nearest_integer(num, den),
{
    let q = num / den;
    let r = num % den;
    vstd::arithmetic::div_mod::lemma_fundamental_div_mod(num as int, den as int);
    vstd::arithmetic::div_mod::lemma_mod_bound(num as int, den as int);
    let d = den * c;
    let n = num * c;
    assert(d > 0) by (nonlinear_arith)
        requires
            d == den * c,
            den > 0,
            c > 0,
    ;
    assert(n == q * d + r * c) by (nonlinear_arith)
        requires
            num == den * q + r,
            n == num * c,
            d == den * c,
    ;
    assert(0 <= r * c < d) by (nonlinear_arith)
        requires
            0 <= r < den,
            c > 0,
            d == den * c,
    ;
    vstd::arithmetic::div_mod::lemma_fundamental_div_mod_converse(n as int, d as int, q as int, (r * c) as int);
    assert(2 * (r * c) > d <==> 2 * r > den) by (nonlinear_arith)
        requires
            d == den * c,
            c > 0,
    ;
    assert(2 * (r * c) == d <==> 2 * r == den) by (nonlinear_arith)
        requires
            d == den * c,
            c > 0,
    ;
}

pub proof fn lemma_pow10_positive(p: nat)
    ensures
        pow10(p) > 0,
    decreases p,
{
    if p > 0 {
        lemma_pow10_positive((p - 1) as nat);
    }
}

fn power_of_ten(p: usize) -> (r: u64)
    requires
        p <= 9,
    ensures
        r == pow10(p as nat),
        1 <= r <= 1_000_000_000,
    decreases p,
{
    if p == 0 {
        1
    } else {
        proof {
            reveal_with_fuel(pow10, 10);
        }
        10 * power_of_ten(p - 1)
    }
}

proof fn lemma_whole_point(n: nat, places: nat)
    ensures
        (n * pow10(places)) / pow10(places) == n,
        (n * pow10(places)) % pow10(places) == 0,
{
    lemma_pow10_positive(places);
    vstd::arithmetic::div_mod::lemma_div_by_multiple(n as int, pow10(places) as int);
    vstd::arithmetic::div_mod::lemma_mod_multiples_basic(n as int, pow10(places) as int);
}

proof fn lemma_no_remainder(n: nat, den: nat)
    requires
        den > 0,
    ensures
        nearest_integer(n * den, den) == n,
{
    vstd::arithmetic::div_mod::lemma_div_by_multiple(n as int, den as int);
    vstd::arithmetic::div_mod::lemma_mod_multiples_basic(n as int, den as int);
}

/// Appends a value rounded to a number of decimal places.
pub fn push_fixed(out: &mut String, x: Binary64, places: usize)
    requires
        places <= 9,
    ensures
        final(out)@ == old(out)@ + fixed_text(x, places as nat),
{
    let mag: u64 = x.bits % SIGN_BIT;
    proof {
        reveal_strlit("NaN");
        reveal_strlit("inf");
        reveal_strlit("-");
        reveal_strlit(".");
        assert("NaN"@ =~= seq!['N', 'a', 'N']);
        assert("inf"@ =~= seq!['i', 'n', 'f']);
        assert("-"@ =~= seq!['-']);
        assert("."@ =~= seq!['.']);
        lemma_pow2_pos(1074);
    }
    if mag > INF_MAG {
        out.append("NaN");
        return;
    }
    if x.bits >= SIGN_BIT {
        out.append("-");
    }
    let ghost sign = if x.negative() {
        seq!['-']
    } else {
        Seq::<char>::empty()
    };
    assert(out@ =~= old(out)@ + sign);
    if mag == INF_MAG {
        out.append("inf");
        assert(out@ =~= old(out)@ + fixed_text(x, places as nat));
        return;
    }
    let (m, s): (u64, i32) = parts(mag);
    let ten: u64 = power_of_ten(places);
    let ghost p10 = pow10(places as nat);
    let ghost value = nearest_integer(units(x.mag()) * p10, pow2(1074));
    if s >= 1074 {
        let mut d: Vec<u8> = digits_of(m);
        let mut k: i32 = 1074;
        let ghost mut n: nat = m as nat;
        proof {
            assert(pow2(0) == 1) by {
                vstd::arithmetic::power2::lemma2_to64();
            }
            assert(m * 1 == m) by (nonlinear_arith);
        }
        while k < s
            invariant
                1074 <= k <= s,
                d@ == digits(n),
                n == m * pow2((k - 1074) as nat),
            decreases s - k,
        {
            d = twice(&d, Ghost(n));
            proof {
                vstd::arithmetic::power2::lemma_pow2_unfold((k - 1074 + 1) as nat);
                let p = pow2((k - 1074) as nat);
                assert(2 * (m * p) == m * (2 * p)) by (nonlinear_arith);
                n = 2 * n;
            }
            k = k + 1;
        }
        push_digits(out, &d, Ghost(n));
        proof {
            let c = pow2(1074);
            lemma_pow2_adds((s - 1074) as nat, 1074);
            assert(units(x.mag()) * p10 == (n * p10) * c) by (nonlinear_arith)
                requires
                    units(x.mag()) == m * pow2(s as nat),
                    pow2(s as nat) == pow2((s - 1074) as nat) * c,
                    n == m * pow2((s - 1074) as nat),
            ;
            lemma_no_remainder(n * p10, c);
            lemma_whole_point(n, places as nat);
            assert(n * 1 == n) by (nonlinear_arith);
        }
        if places > 0 {
            out.append(".");
            push_padded(out, 0, places);
        }
        assert(out@ =~= old(out)@ + fixed_text(x, places as nat));
    } else {
        let k: i32 = 1074 - s;
        assert(m * ten <= 0x20_0000_0000_0000 * 1_000_000_000) by (nonlinear_arith)
            requires
                m <= 0x20_0000_0000_0000,
                ten <= 1_000_000_000,
        ;
        let num: u128 = m as u128 * ten as u128;
        proof {
            lemma_pow2_adds(s as nat, k as nat);
            lemma_pow2_pos(s as nat);
            lemma_pow2_pos(k as nat);
            let c = pow2(s as nat);
            assert(units(x.mag()) * p10 == num as nat * c) by (nonlinear_arith)
                requires
                    units(x.mag()) == m * c,
                    num == m * ten,
                    ten == p10,
            ;
            assert(pow2(1074) == pow2(k as nat) * c) by (nonlinear_arith)
                requires
                    pow2(1074) == c * pow2(k as nat),
            ;
            lemma_nearest_integer_scaled(num as nat, pow2(k as nat), c);
        }
        let n: u128 = if k > 100 {
            proof {
                vstd::arithmetic::power2::lemma_pow2_strictly_increases(100, k as nat);
                vstd::arithmetic::power2::lemma2_to64();
                vstd::arithmetic::power2::lemma2_to64_rest();
                lemma_pow2_adds(60, 40);
                assert(pow2(100) >= 0x1000_0000_0000_0000nat * 0x100_0000_0000nat) by (nonlinear_arith)
                    requires
                        pow2(100) == pow2(60) * pow2(40),
                        pow2(60) == 0x1000_0000_0000_0000nat,
                        pow2(40) == 0x100_0000_0000nat,
                ;
                vstd::arithmetic::div_mod::lemma_basic_div(num as int, pow2(k as nat) as int);
                vstd::arithmetic::div_mod::lemma_small_mod(num as nat, pow2(k as nat));
            }
            0
        } else {
            let den: u128 = power_of_two(k);
            let q: u128 = num / den;
            let r: u128 = num % den;
            proof {
                vstd::arithmetic::div_mod::lemma_div_is_ordered_by_denominator(num as int, 1, den as int);
                vstd::arithmetic::power2::lemma2_to64();
                if k < 100 {
                    vstd::arithmetic::power2::lemma_pow2_strictly_increases(k as nat, 100);
                }
                vstd::arithmetic::power2::lemma2_to64_rest();
                lemma_pow2_adds(60, 40);
                assert(pow2(100) == 0x10_0000_0000_0000_0000_0000_0000nat) by (nonlinear_arith)
                    requires
                        pow2(100) == pow2(60) * pow2(40),
                        pow2(60) == 0x1000_0000_0000_0000nat,
                        pow2(40) == 0x100_0000_0000nat,
                ;
            }
            if 2 * r > den || (2 * r == den && q % 2 == 1) {
                q + 1
            } else {
                q
            }
        };
        assert(n == value);
        let whole: u128 = n / ten as u128;
        let part: u64 = (n % ten as u128) as u64;
        proof {
            // The whole part is at most the significand plus one.
            assert(n <= num + 1);
            assert(num <= 0x20_0000_0000_0000 * ten) by (nonlinear_arith)
                requires
                    num == m * ten,
                    m <= 0x20_0000_0000_0000,
            ;
            assert(whole <= 0x20_0000_0000_0001) by (nonlinear_arith)
                requires
                    n <= 0x20_0000_0000_0000 * ten + 1,
                    whole == n / ten as u128,
                    ten >= 1,
            ;
        }
        push_decimal(out, whole as u64);
        if places > 0 {
            out.append(".");
            push_padded(out, part, places);
        }
        assert(places == 0 ==> whole == n) by {
            vstd::arithmetic::div_mod::lemma_div_basics(n as int);
        }
        assert(whole == value / p10 && part == value % p10);
        assert(out@ =~= old(out)@ + fixed_text(x, places as nat));
    }
}

/// One part more.
pub proof fn lemma_join_step(parts: Seq<Seq<char>>, i: int, separator: Seq<char>)
    requires
        0 <= i < parts.len(),
    ensures
        i == 0 ==> join(parts.take(i + 1), separator) == parts[0],
        i > 0 ==> join(parts.take(i + 1), separator) == join(parts.take(i), separator) + separator + parts[i],
        join(parts.take(0), separator) == Seq::<char>::empty(),
{
    assert(parts.take(0) =~= Seq::<Seq<char>>::empty());
    assert(parts.take(i + 1).drop_last() =~= parts.take(i));
}

/// Appends parts with a separator between them.
pub fn push_joined(out: &mut String, parts: &Vec<String>, separator: &str)
    ensures
        final(out)@ == old(out)@ + join(parts@.map_values(|p: String| p@), separator@),
{
    let ghost texts = parts@.map_values(|p: String| p@);
    let mut i: usize = 0;
    assert(texts.take(0) =~= Seq::<Seq<char>>::empty());
    assert(out@ =~= old(out)@ + join(texts.take(0), separator@));
    while i < parts.len()
        invariant
            i <= parts@.len(),
            texts == parts@.map_values(|p: String| p@),
            out@ == old(out)@ + join(texts.take(i as int), separator@),
        decreases parts.len() - i,
    {
        proof {
            lemma_join_step(texts, i as int, separator@);
        }
        if i > 0 {
            out.append(separator);
        }
        out.append(parts[i].as_str());
        assert(out@ =~= old(out)@ + join(texts.take(i + 1), separator@));
        i = i + 1;
    }
    assert(texts.take(i as int) =~= texts);
}

/// Whether two texts are the same.
pub fn same(a: &str, b: &str) -> (r: bool)
    ensures
        r == (a@ == b@),
{
    let n: usize = a.unicode_len();
    if b.unicode_len() != n {
        return false;
    }
    let mut i: usize = 0;
    while i < n
        invariant
            i <= n,
            n == a@.len(),
            n == b@.len(),
            a@.take(i as int) == b@.take(i as int),
        decreases n - i,
    {
        if a.get_char(i) != b.get_char(i) {
            assert(a@[i as int] != b@[i as int]);
            return false;
        }
        assert(a@.take(i + 1) =~= a@.take(i as int).push(a@[i as int]));
        assert(b@.take(i + 1) =~= b@.take(i as int).push(b@[i as int]));
        i = i + 1;
    }
    assert(a@.take(n as int) =~= a@);
    assert(b@.take(n as int) =~= b@);
    true
}

/// A copy of a text.
pub fn copy_of(s: &str) -> (r: String)
    ensures
        r@ == s@,
{
    String::from_str(s)
}

// ---------------------------------------------------------------------------
// Laws
// ---------------------------------------------------------------------------

/// The number that decimal digits stand for.
pub open spec fn value_of(text: Seq<char>) -> int
    decreases text.len(),
{
    if text.len() == 0 {
        0
    } else {
        value_of(text.drop_last()) * 10 + (text.last() as int - '0' as int)
    }
}

/// Whether a text is all decimal digits.
pub open spec fn is_decimal(text: Seq<char>) -> bool {
    forall|i: int| 0 <= i < text.len() ==> '0' <= #[trigger] text[i] <= '9'
}

/// The digits of a number stand for it, and begin with zero only for zero.
pub proof fn law_decimal_reads_back(n: nat)
    ensures
        value_of(decimal(n)) == n,
        is_decimal(decimal(n)),
        decimal(n).len() > 0,
        n > 0 ==> decimal(n)[0] != '0',
        n == 0 ==> decimal(n) == seq!['0'],
    decreases n,
{
    if n >= 10 {
        law_decimal_reads_back(n / 10);
        assert(decimal(n).drop_last() =~= decimal(n / 10));
    } else {
        assert(decimal(n).drop_last() =~= Seq::<char>::empty());
        assert(value_of(Seq::<char>::empty()) == 0);
    }
}

/// Padded digits are as many as asked for and stand for the number, as far as
/// they reach.
pub proof fn law_padded_reads_back(n: nat, len: nat)
    ensures
        padded(n, len).len() == len,
        is_decimal(padded(n, len)),
        n < pow10(len) ==> value_of(padded(n, len)) == n,
    decreases len,
{
    if len > 0 {
        law_padded_reads_back(n / 10, (len - 1) as nat);
        assert(padded(n, len).drop_last() =~= padded(n / 10, (len - 1) as nat));
    }
}

/// The nearest integer to a fraction is no further than a half from it, and
/// even where two are as near.
pub proof fn law_nearest_integer(num: nat, den: nat)
    requires
        den > 0,
    ensures
        ({
            let r = nearest_integer(num, den);
            &&& 2 * num <= 2 * (r * den) + den
            &&& 2 * (r * den) <= 2 * num + den
            &&& (2 * num == 2 * (r * den) + den || 2 * (r * den) == 2 * num + den) ==> r % 2 == 0
        }),
{
    vstd::arithmetic::div_mod::lemma_fundamental_div_mod(num as int, den as int);
    vstd::arithmetic::div_mod::lemma_mod_bound(num as int, den as int);
    let q = num / den;
    assert((q + 1) * den == q * den + den) by (nonlinear_arith);
    assert(den * q == q * den) by (nonlinear_arith);
}

/// Text to some places is the nearest number of such places: its digits stand
/// for the nearest number of the last place's units.
pub proof fn law_fixed_text_is_near(x: Binary64, places: nat)
    requires
        x.finite(),
        !x.negative(),
        places > 0,
    ensures
        ({
            let n = nearest_integer(units(x.mag()) * pow10(places), pow2(1074));
            let text = fixed_text(x, places);
            let whole = decimal(n / pow10(places));
            &&& text.len() == whole.len() + 1 + places
            &&& text.take(whole.len() as int) == whole
            &&& text[whole.len() as int] == '.'
            &&& value_of(text.skip((whole.len() + 1) as int)) == n % pow10(places)
            &&& 2 * (units(x.mag()) * pow10(places)) <= 2 * (n * pow2(1074)) + pow2(1074)
            &&& 2 * (n * pow2(1074)) <= 2 * (units(x.mag()) * pow10(places)) + pow2(1074)
        }),
{
    let n = nearest_integer(units(x.mag()) * pow10(places), pow2(1074));
    lemma_pow2_pos(1074);
    law_nearest_integer(units(x.mag()) * pow10(places), pow2(1074));
    let whole = decimal(n / pow10(places));
    lemma_ten_power(places);
    vstd::arithmetic::div_mod::lemma_mod_bound(n as int, pow10(places) as int);
    let rest = padded(n % pow10(places), places);
    law_padded_reads_back(n % pow10(places), places);
    let text = fixed_text(x, places);
    assert(text =~= whole + seq!['.'] + rest);
    assert(text.take(whole.len() as int) =~= whole);
    assert(text.skip((whole.len() + 1) as int) =~= rest);
}

proof fn lemma_ten_power(p: nat)
    ensures
        pow10(p) > 0,
    decreases p,
{
    if p > 0 {
        lemma_ten_power((p - 1) as nat);
    }
}

/// Joined parts follow each other with the separator between them.
pub proof fn law_join(parts: Seq<Seq<char>>, last: Seq<char>, separator: Seq<char>)
    ensures
        parts.len() > 0 ==> join(parts.push(last), separator) == join(parts, separator) + separator + last,
        join(seq![last], separator) == last,
        join(Seq::empty(), separator).len() == 0,
{
    assert(parts.push(last).drop_last() =~= parts);
}

/// A negative number is its sign and the text of what is without it; to no
/// places it is the digits of the nearest integer.
pub proof fn law_fixed_text_of_sign_and_whole(x: Binary64, places: nat)
    requires
        x.finite(),
    ensures
        x.negative() ==> fixed_text(x, places) == seq!['-'] + fixed_text(x.magnitude(), places),
        !x.negative() ==> value_of(fixed_text(x, 0)) == nearest_integer(units(x.mag()), pow2(1074)),
{
    crate::accuracy::lemma_with_sign(false, x.mag());
    if x.negative() {
        let text = point_text(nearest_integer(units(x.mag()) * pow10(places), pow2(1074)), places);
        assert(Seq::<char>::empty() + text =~= text);
    } else {
        assert(pow10(0) == 1);
        assert(units(x.mag()) * 1 == units(x.mag()));
        let n = nearest_integer(units(x.mag()), pow2(1074));
        law_decimal_reads_back(n);
        assert(Seq::<char>::empty() + decimal(n) =~= decimal(n));
    }
}

} // verus!
