//! Arithmetic on measured quantities.

use crate::accuracy::{lemma_plus_zero, lemma_same_fraction, lemma_whole_product, lemma_whole_sum};
use crate::binary64::{lemma_fraction, lemma_of_nat, lemma_whole_fraction, Binary64};
use crate::share::total;
use vstd::prelude::*;

verus! {

/// The greater of two numbers.
pub open spec fn larger(a: nat, b: nat) -> nat {
    if a >= b {
        a
    } else {
        b
    }
}

/// The difference, or zero where it would be negative.
pub open spec fn monus(a: nat, b: nat) -> nat {
    if a >= b {
        (a - b) as nat
    } else {
        0
    }
}

/// The integer part of `a * x`.
pub open spec fn scaled(a: nat, x: Binary64) -> u64 {
    Binary64::of_nat(a).product(x).truncated() as u64
}

/// An exponentially weighted moving average with weight `alpha` on the sample.
pub open spec fn blended(alpha: Binary64, sample: u64, old: u64) -> u64 {
    alpha.product(Binary64::of_nat(sample as nat)).sum(
        Binary64::of_nat(1).difference(alpha).product(Binary64::of_nat(old as nat)),
    ).truncated() as u64
}

/// The lesser of two numbers.
pub open spec fn smaller(a: nat, b: nat) -> nat {
    if a <= b {
        a
    } else {
        b
    }
}

/// The greatest of the values, zero if there is none.
pub open spec fn greatest(values: Seq<u64>) -> u64
    decreases values.len(),
{
    if values.len() == 0 {
        0
    } else {
        let rest = greatest(values.drop_last());
        if values.last() >= rest {
            values.last()
        } else {
            rest
        }
    }
}

/// The least of the values, zero if there is none.
pub open spec fn least(values: Seq<u64>) -> u64
    decreases values.len(),
{
    if values.len() == 0 {
        0
    } else if values.len() == 1 {
        values[0]
    } else {
        let rest = least(values.drop_last());
        if values.last() <= rest {
            values.last()
        } else {
            rest
        }
    }
}

/// The integer part of `a * x`.
pub fn scale(a: u64, x: Binary64) -> (r: u64)
    ensures
        r == scaled(a as nat, x),
{
    Binary64::from_u64(a).times(x).to_u64()
}

/// A moving average with weight `alpha` on the sample.
pub fn blend(alpha: Binary64, sample: u64, old: u64) -> (r: u64)
    ensures
        r == blended(alpha, sample, old),
{
    let rest: Binary64 = Binary64::from_u64(1).minus(alpha);
    alpha.times(Binary64::from_u64(sample)).plus(rest.times(Binary64::from_u64(old))).to_u64()
}

/// The greatest of the values, zero if there is none.
pub fn max_of(values: &Vec<u64>) -> (r: u64)
    ensures
        r == greatest(values@),
{
    let mut r: u64 = 0;
    let mut i: usize = 0;
    assert(values@.take(0) =~= Seq::<u64>::empty());
    while i < values.len()
        invariant
            i <= values@.len(),
            r == greatest(values@.take(i as int)),
        decreases values.len() - i,
    {
        assert(values@.take(i + 1).drop_last() =~= values@.take(i as int));
        if values[i] >= r {
            r = values[i];
        }
        i = i + 1;
    }
    assert(values@.take(i as int) =~= values@);
    r
}

/// The least of the values, zero if there is none.
pub fn min_of(values: &Vec<u64>) -> (r: u64)
    ensures
        r == least(values@),
{
    if values.len() == 0 {
        return 0;
    }
    let mut r: u64 = values[0];
    let mut i: usize = 1;
    assert(values@.take(1) =~= seq![values@[0]]);
    while i < values.len()
        invariant
            1 <= i <= values@.len(),
            r == least(values@.take(i as int)),
        decreases values.len() - i,
    {
        assert(values@.take(i + 1).drop_last() =~= values@.take(i as int));
        if values[i] <= r {
            r = values[i];
        }
        i = i + 1;
    }
    assert(values@.take(i as int) =~= values@);
    r
}

/// No value exceeds the greatest, nor goes below the least.
pub proof fn lemma_extremes(values: Seq<u64>, i: int)
    requires
        0 <= i < values.len(),
    ensures
        least(values) <= values[i] <= greatest(values),
    decreases values.len(),
{
    let shorter = values.drop_last();
    if i < shorter.len() {
        lemma_extremes(shorter, i);
    }
}

/// Nanoseconds in a second.
pub const NANOS_PER_SEC: u64 = 1_000_000_000;

/// A duration in seconds: whole seconds and the rest, rounded apart and added.
pub open spec fn seconds(ns: nat) -> Binary64 {
    Binary64::of_nat(ns / 1_000_000_000).sum(
        Binary64::of_nat(ns % 1_000_000_000).quotient(Binary64::of_nat(1_000_000_000)),
    )
}

/// A duration in seconds.
pub fn as_seconds(ns: u128) -> (r: Binary64)
    requires
        ns / 1_000_000_000 <= u64::MAX,
    ensures
        r == seconds(ns as nat),
{
    let whole: u64 = (ns / 1_000_000_000) as u64;
    let rest: u64 = (ns % 1_000_000_000) as u64;
    Binary64::from_u64(whole).plus(Binary64::from_u64(rest).over(Binary64::from_u64(NANOS_PER_SEC)))
}

/// Bytes per second in megabits per second.
pub open spec fn mbps(bytes_per_sec: Binary64) -> Binary64 {
    bytes_per_sec.product(Binary64::of_nat(8)).quotient(Binary64::of_nat(1_000_000))
}

/// Bytes per second in megabits per second.
pub fn as_mbps(bytes_per_sec: Binary64) -> (r: Binary64)
    ensures
        r == mbps(bytes_per_sec),
{
    bytes_per_sec.times(Binary64::from_u64(8)).over(Binary64::from_u64(1_000_000))
}

/// Microseconds in milliseconds.
pub open spec fn millis(us: nat) -> Binary64 {
    Binary64::of_nat(us).quotient(Binary64::of_nat(1000))
}

/// Microseconds in milliseconds.
pub fn as_millis(us: u64) -> (r: Binary64)
    ensures
        r == millis(us as nat),
{
    Binary64::from_u64(us).over(Binary64::from_u64(1000))
}

/// The sum of values, added from the first to the last.
pub open spec fn float_total(values: Seq<Binary64>) -> Binary64
    decreases values.len(),
{
    if values.len() == 0 {
        Binary64::of_nat(0)
    } else {
        float_total(values.drop_last()).sum(values.last())
    }
}

/// The mean of values.
pub open spec fn mean(values: Seq<Binary64>) -> Binary64 {
    float_total(values).quotient(Binary64::of_nat(values.len()))
}

/// The greatest of values, zero at least.
pub open spec fn peak(values: Seq<Binary64>) -> Binary64
    decreases values.len(),
{
    if values.len() == 0 {
        Binary64::of_nat(0)
    } else {
        peak(values.drop_last()).greater(values.last())
    }
}

/// The sum of values.
pub fn float_sum(values: &Vec<Binary64>) -> (r: Binary64)
    ensures
        r == float_total(values@),
{
    let mut r: Binary64 = Binary64::from_u64(0);
    let mut i: usize = 0;
    while i < values.len()
        invariant
            i <= values@.len(),
            r == float_total(values@.take(i as int)),
        decreases values.len() - i,
    {
        assert(values@.take(i + 1).drop_last() =~= values@.take(i as int));
        r = r.plus(values[i]);
        i = i + 1;
    }
    assert(values@.take(i as int) =~= values@);
    r
}

/// The mean of values.
pub fn mean_of(values: &Vec<Binary64>) -> (r: Binary64)
    ensures
        r == mean(values@),
{
    float_sum(values).over(Binary64::from_u64(values.len() as u64))
}

/// The greatest of values, zero at least.
pub fn peak_of(values: &Vec<Binary64>) -> (r: Binary64)
    ensures
        r == peak(values@),
{
    let mut r: Binary64 = Binary64::from_u64(0);
    let mut i: usize = 0;
    while i < values.len()
        invariant
            i <= values@.len(),
            r == peak(values@.take(i as int)),
        decreases values.len() - i,
    {
        assert(values@.take(i + 1).drop_last() =~= values@.take(i as int));
        r = r.max(values[i]);
        i = i + 1;
    }
    assert(values@.take(i as int) =~= values@);
    r
}

// ---------------------------------------------------------------------------
// Laws
// ---------------------------------------------------------------------------

/// The mean of integers is their sum over their number.
pub proof fn law_mean_of_integers(values: Seq<u64>)
    requires
        0 < values.len() < 0x20_0000_0000_0000,
        total(values) < 0x20_0000_0000_0000,
    ensures
        mean(values.map_values(|v: u64| Binary64::of_nat(v as nat))) == Binary64::fraction(total(values), values.len()),
{
    lemma_integer_total(values);
}

proof fn lemma_integer_total(values: Seq<u64>)
    requires
        total(values) < 0x20_0000_0000_0000,
    ensures
        float_total(values.map_values(|v: u64| Binary64::of_nat(v as nat))) == Binary64::of_nat(total(values)),
    decreases values.len(),
{
    let floats = values.map_values(|v: u64| Binary64::of_nat(v as nat));
    if values.len() > 0 {
        let shorter = values.drop_last();
        lemma_integer_total(shorter);
        assert(floats.drop_last() =~= shorter.map_values(|v: u64| Binary64::of_nat(v as nat)));
        lemma_whole_sum(total(shorter), values.last() as nat);
    }
}

/// The mean of one value many times over is that value, if it is an integer.
pub proof fn law_mean_of_equals(v: u64, n: nat)
    requires
        0 < n,
        n * v < 0x20_0000_0000_0000,
        n < 0x20_0000_0000_0000,
    ensures
        mean(Seq::new(n, |i: int| Binary64::of_nat(v as nat))) == Binary64::of_nat(v as nat),
{
    let values = Seq::new(n, |i: int| v);
    lemma_total_of_equals(v, n);
    law_mean_of_integers(values);
    assert(values.map_values(|v: u64| Binary64::of_nat(v as nat)) =~= Seq::new(n, |i: int| Binary64::of_nat(v as nat)));
    assert(v <= n * v) by (nonlinear_arith)
        requires
            n >= 1,
            v >= 0,
    ;
    assert(v * n == n * v) by (nonlinear_arith);
    lemma_same_fraction((n * v) as nat, n, v as nat, 1);
    lemma_whole_fraction(v as nat);
}

proof fn lemma_total_of_equals(v: u64, n: nat)
    ensures
        total(Seq::new(n, |i: int| v)) == n * v,
    decreases n,
{
    if n > 0 {
        lemma_total_of_equals(v, (n - 1) as nat);
        assert(Seq::new(n, |i: int| v).drop_last() =~= Seq::new((n - 1) as nat, |i: int| v));
        assert(n * v == (n - 1) * v + v) by (nonlinear_arith);
    } else {
        assert(0 * v == 0);
    }
}

/// No value exceeds the peak, which is one of the values or zero.
pub proof fn law_peak_is_the_greatest(values: Seq<Binary64>, i: int)
    requires
        0 <= i < values.len(),
    ensures
        !peak(values).less(values[i]),
        values.contains(peak(values)) || peak(values) == Binary64::of_nat(0),
        !peak(values).nan(),
    decreases values.len(),
{
    reveal(Binary64::less);
    lemma_of_nat(0);
    let shorter = values.drop_last();
    assert(values[values.len() - 1] == values.last());
    if shorter.len() > 0 {
        let j = if i < shorter.len() {
            i
        } else {
            0
        };
        law_peak_is_the_greatest(shorter, j);
        if shorter.contains(peak(shorter)) {
            let k = choose|k: int| 0 <= k < shorter.len() && shorter[k] == peak(shorter);
            assert(values[k] == peak(shorter));
        }
    } else {
        assert(peak(shorter) == Binary64::of_nat(0));
    }
}

/// A byte per second is eight bits per second, and a million of those a
/// megabit.
pub proof fn law_megabits(bytes_per_sec: nat)
    requires
        8 * bytes_per_sec < 0x20_0000_0000_0000,
    ensures
        mbps(Binary64::of_nat(bytes_per_sec)) == Binary64::fraction(8 * bytes_per_sec, 1_000_000),
        bytes_per_sec % 125_000 == 0 ==> mbps(Binary64::of_nat(bytes_per_sec)) == Binary64::of_nat(
            bytes_per_sec / 125_000,
        ),
{
    lemma_whole_product(bytes_per_sec, 8);
    if bytes_per_sec % 125_000 == 0 {
        let k = bytes_per_sec / 125_000;
        lemma_same_fraction(8 * bytes_per_sec, 1_000_000, k, 1);
        lemma_whole_fraction(k);
    }
}

/// A thousand microseconds are a millisecond.
pub proof fn law_milliseconds(us: nat)
    requires
        us < 0x20_0000_0000_0000,
    ensures
        millis(us) == Binary64::fraction(us, 1000),
        us % 1000 == 0 ==> millis(us) == Binary64::of_nat(us / 1000),
{
    if us % 1000 == 0 {
        lemma_same_fraction(us, 1000, us / 1000, 1);
        lemma_whole_fraction(us / 1000);
    }
}

/// A billion nanoseconds are a second.
pub proof fn law_seconds(ns: nat)
    requires
        ns < 0x20_0000_0000_0000,
    ensures
        ns % 1_000_000_000 == 0 ==> seconds(ns) == Binary64::of_nat(ns / 1_000_000_000),
        ns < 1_000_000_000 ==> seconds(ns) == Binary64::fraction(ns, 1_000_000_000),
{
    if ns % 1_000_000_000 == 0 {
        crate::accuracy::lemma_whole_seconds(ns / 1_000_000_000);
        assert((ns / 1_000_000_000) * 1_000_000_000 == ns);
    }
    if ns < 1_000_000_000 {
        lemma_fraction(ns, 1_000_000_000);
        lemma_plus_zero(Binary64::fraction(ns, 1_000_000_000));
    }
}

/// The difference taken away from the greater number leaves the smaller one.
pub proof fn law_monus(a: nat, b: nat)
    ensures
        a >= b ==> monus(a, b) + b == a,
        a <= b ==> monus(a, b) == 0,
        larger(a, b) >= a && larger(a, b) >= b && (larger(a, b) == a || larger(a, b) == b),
        smaller(a, b) <= a && smaller(a, b) <= b && (smaller(a, b) == a || smaller(a, b) == b),
{
}

/// The greatest and the least value bound all values and occur among them.
pub proof fn law_extremes(values: Seq<u64>, i: int)
    requires
        0 <= i < values.len(),
    ensures
        least(values) <= values[i] <= greatest(values),
        values.contains(greatest(values)),
        values.contains(least(values)),
{
    lemma_extremes(values, i);
    lemma_extremes_occur(values);
}

/// Extremes occur among the values.
pub proof fn lemma_extremes_occur(values: Seq<u64>)
    requires
        values.len() > 0,
    ensures
        values.contains(greatest(values)),
        values.contains(least(values)),
    decreases values.len(),
{
    let shorter = values.drop_last();
    assert(values[values.len() - 1] == values.last());
    if values.len() > 1 {
        lemma_extremes_occur(shorter);
        let g = choose|k: int| 0 <= k < shorter.len() && shorter[k] == greatest(shorter);
        let l = choose|k: int| 0 <= k < shorter.len() && shorter[k] == least(shorter);
        assert(values[g] == greatest(shorter) && values[l] == least(shorter));
    } else {
        assert(greatest(shorter) == 0);
    }
}

} // verus!
