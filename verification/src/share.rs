//! Proportional shares.
//!
//! Links, tiers and flows are all picked the same way: lay the shares side by
//! side on a line and see into which one a position falls.

use vstd::prelude::*;

verus! {

/// The sum of all shares.
pub open spec fn total(shares: Seq<u64>) -> nat
    decreases shares.len(),
{
    if shares.len() == 0 {
        0
    } else {
        total(shares.drop_last()) + shares.last() as nat
    }
}

/// Where share `i` begins on the line.
pub open spec fn start(shares: Seq<u64>, i: int) -> nat {
    total(shares.take(i))
}

/// The share that position `pos` falls into; `None` behind the last one.
pub open spec fn slot(shares: Seq<u64>, pos: nat) -> Option<usize>
    decreases shares.len(),
{
    if shares.len() == 0 {
        None
    } else {
        match slot(shares.drop_last(), pos) {
            Some(i) => Some(i),
            None => if pos < total(shares) {
                Some((shares.len() - 1) as usize)
            } else {
                None
            },
        }
    }
}

/// The position of the greatest value, the last one of several.
pub open spec fn last_max(values: Seq<u64>) -> Option<usize>
    decreases values.len(),
{
    if values.len() == 0 {
        None
    } else {
        match last_max(values.drop_last()) {
            Some(i) => if values.last() >= values[i as int] {
                Some((values.len() - 1) as usize)
            } else {
                Some(i)
            },
            None => Some((values.len() - 1) as usize),
        }
    }
}

/// The position of the greatest value, the first one of several.
pub open spec fn first_max(values: Seq<u64>) -> Option<usize>
    decreases values.len(),
{
    if values.len() == 0 {
        None
    } else {
        match first_max(values.drop_last()) {
            Some(i) => if values.last() > values[i as int] {
                Some((values.len() - 1) as usize)
            } else {
                Some(i)
            },
            None => Some((values.len() - 1) as usize),
        }
    }
}

/// The position of the least value, the first one of several.
pub open spec fn first_min(values: Seq<u64>) -> Option<usize>
    decreases values.len(),
{
    if values.len() == 0 {
        None
    } else {
        match first_min(values.drop_last()) {
            Some(i) => if values.last() < values[i as int] {
                Some((values.len() - 1) as usize)
            } else {
                Some(i)
            },
            None => Some((values.len() - 1) as usize),
        }
    }
}

pub proof fn lemma_total_take(shares: Seq<u64>, i: int)
    requires
        0 <= i < shares.len(),
    ensures
        start(shares, i + 1) == start(shares, i) + shares[i],
        shares.take(i + 1).drop_last() == shares.take(i),
{
    assert(shares.take(i + 1).drop_last() =~= shares.take(i));
}

pub proof fn lemma_start_grows(shares: Seq<u64>, i: int, j: int)
    requires
        0 <= i <= j <= shares.len(),
    ensures
        start(shares, i) <= start(shares, j) <= total(shares),
    decreases shares.len() - i,
{
    if i < j {
        lemma_total_take(shares, i);
        lemma_start_grows(shares, i + 1, j);
    } else if i < shares.len() {
        lemma_total_take(shares, i);
        lemma_start_grows(shares, i + 1, shares.len() as int);
    }
    assert(shares.take(shares.len() as int) =~= shares);
}

/// A position falls into share `i` exactly if it lies between the beginnings
/// of that share and the next: over all positions, every share is picked in
/// proportion, and an empty share never.
pub proof fn law_slot_is_proportional(shares: Seq<u64>, pos: nat, i: int)
    requires
        0 <= i < shares.len() <= usize::MAX,
    ensures
        start(shares, i + 1) == start(shares, i) + shares[i],
        slot(shares, pos) == Some(i as usize) <==> start(shares, i) <= pos < start(shares, i + 1),
        slot(shares, pos) is Some <==> pos < total(shares),
    decreases shares.len(),
{
    lemma_total_take(shares, i);
    let shorter = shares.drop_last();
    let n = shorter.len() as int;
    assert(shares.take(n) =~= shorter);
    assert(shares.take(n + 1) =~= shares);
    lemma_slot_in_range(shorter, pos);
    if i < n {
        assert(shares.take(i) =~= shorter.take(i));
        assert(shares.take(i + 1) =~= shorter.take(i + 1));
        law_slot_is_proportional(shorter, pos, i);
        lemma_start_grows(shorter, i + 1, n);
        assert(shorter.take(n) =~= shorter);
    } else if n > 0 {
        law_slot_is_proportional(shorter, pos, 0);
    }
}

proof fn lemma_slot_in_range(shares: Seq<u64>, pos: nat)
    requires
        shares.len() <= usize::MAX,
    ensures
        slot(shares, pos) is Some ==> slot(shares, pos)->0 < shares.len(),
        slot(shares, pos) is Some <==> pos < total(shares),
    decreases shares.len(),
{
    if shares.len() > 0 {
        lemma_slot_in_range(shares.drop_last(), pos);
    }
}

/// A slot exists exactly for the positions on the line, and is not empty.
pub proof fn lemma_slot(shares: Seq<u64>, pos: nat)
    requires
        shares.len() <= usize::MAX,
    ensures
        slot(shares, pos) is Some ==> slot(shares, pos)->0 < shares.len() && shares[slot(shares, pos)->0 as int] > 0,
        slot(shares, pos) is Some <==> pos < total(shares),
{
    lemma_slot_in_range(shares, pos);
    if slot(shares, pos) is Some {
        law_slot_is_proportional(shares, pos, slot(shares, pos)->0 as int);
    }
}

/// The greatest value is found, and none behind it is as great.
pub proof fn law_last_max(values: Seq<u64>)
    requires
        0 < values.len() <= usize::MAX,
    ensures
        last_max(values) matches Some(i) && i < values.len() && (forall|j: int|
            0 <= j < values.len() ==> #[trigger] values[j] <= values[i as int] && (j > i ==> values[j] < values[i as int])),
    decreases values.len(),
{
    let shorter = values.drop_last();
    if shorter.len() == 0 {
        assert(last_max(shorter) is None);
    } else {
        law_last_max(shorter);
        let i = last_max(values)->0;
        assert forall|j: int| 0 <= j < values.len() implies #[trigger] values[j] <= values[i as int] && (j > i
            ==> values[j] < values[i as int]) by {
            if j < shorter.len() {
                assert(values[j] == shorter[j]);
            }
        }
    }
}

/// How many of the `n` positions from `from` on, taken round and round the
/// line, fall into share `i`.
pub open spec fn picks(shares: Seq<u64>, from: nat, n: nat, i: int) -> nat
    decreases n,
{
    if n == 0 {
        0
    } else {
        let last = (from + n - 1) as nat;
        picks(shares, from, (n - 1) as nat, i) + if slot(shares, last % total(shares)) == Some(i as usize) {
            1nat
        } else {
            0
        }
    }
}

proof fn lemma_picks_from_zero(shares: Seq<u64>, n: nat, i: int)
    requires
        0 <= i < shares.len() <= usize::MAX,
        n <= total(shares),
    ensures
        picks(shares, 0, n, i) == if n <= start(shares, i) {
            0
        } else if n <= start(shares, i + 1) {
            n - start(shares, i)
        } else {
            shares[i] as int
        },
    decreases n,
{
    lemma_total_take(shares, i);
    if n > 0 {
        let last = (n - 1) as nat;
        lemma_picks_from_zero(shares, last, i);
        vstd::arithmetic::div_mod::lemma_small_mod(last, total(shares));
        law_slot_is_proportional(shares, last, i);
    }
}

proof fn lemma_picks_shift(shares: Seq<u64>, from: nat, n: nat, i: int)
    ensures
        picks(shares, from + 1, n, i) + (if slot(shares, from % total(shares)) == Some(i as usize) {
            1nat
        } else {
            0
        }) == picks(shares, from, n + 1, i),
    decreases n,
{
    if n > 0 {
        lemma_picks_shift(shares, from, (n - 1) as nat, i);
        assert((from + 1 + n - 1) as nat == (from + (n + 1) - 1) as nat);
    } else {
        assert(picks(shares, from, 0, i) == 0);
        assert((from + 1 - 1) as nat == from);
        reveal_with_fuel(picks, 2);
    }
}

/// In every full round, wherever it begins, each share is picked exactly as
/// often as it is large.
pub proof fn law_full_round(shares: Seq<u64>, from: nat, i: int)
    requires
        0 <= i < shares.len() <= usize::MAX,
        total(shares) > 0,
    ensures
        picks(shares, from, total(shares), i) == shares[i],
    decreases from,
{
    let n = total(shares);
    if from == 0 {
        lemma_picks_from_zero(shares, n, i);
        lemma_start_grows(shares, i + 1, shares.len() as int);
        lemma_total_take(shares, i);
    } else {
        let before = (from - 1) as nat;
        law_full_round(shares, before, i);
        lemma_picks_shift(shares, before, n, i);
        // One position leaves the round and its like enters.
        vstd::arithmetic::div_mod::lemma_mod_add_multiples_vanish(before as int, n as int);
        assert((before + (n + 1) - 1) as nat == before + n);
        assert(((before + n) as nat) % n == before % n);
    }
}

/// The least value is found, and none before it is as small.
pub proof fn law_first_min(values: Seq<u64>)
    requires
        0 < values.len() <= usize::MAX,
    ensures
        first_min(values) matches Some(i) && i < values.len() && (forall|j: int|
            0 <= j < values.len() ==> #[trigger] values[j] >= values[i as int] && (j < i ==> values[j] > values[i as int])),
    decreases values.len(),
{
    let shorter = values.drop_last();
    if shorter.len() == 0 {
        assert(first_min(shorter) is None);
    } else {
        law_first_min(shorter);
        let i = first_min(values)->0;
        assert forall|j: int| 0 <= j < values.len() implies #[trigger] values[j] >= values[i as int] && (j < i
            ==> values[j] > values[i as int]) by {
            if j < shorter.len() {
                assert(values[j] == shorter[j]);
            }
        }
    }
}

/// What is kept of some shares is no more than all of them.
pub proof fn lemma_filtered_total<A>(items: Seq<A>, keep: spec_fn(A) -> bool, share: spec_fn(A) -> u64)
    ensures
        total(items.filter(keep).map_values(share)) <= total(items.map_values(share)),
    decreases items.len(),
{
    reveal(Seq::filter);
    if items.len() > 0 {
        let shorter = items.drop_last();
        lemma_filtered_total(shorter, keep, share);
        assert(items.map_values(share).drop_last() =~= shorter.map_values(share));
        let kept = shorter.filter(keep);
        if keep(items.last()) {
            let all = kept.push(items.last());
            assert(all.map_values(share).drop_last() =~= kept.map_values(share));
        }
    }
}

pub proof fn lemma_total_update(shares: Seq<u64>, i: int, v: u64)
    requires
        0 <= i < shares.len(),
    ensures
        total(shares.update(i, v)) + shares[i] == total(shares) + v,
    decreases shares.len(),
{
    let shorter = shares.drop_last();
    if i < shorter.len() {
        lemma_total_update(shorter, i, v);
        assert(shares.update(i, v).drop_last() =~= shorter.update(i, v));
    } else {
        assert(shares.update(i, v).drop_last() =~= shorter);
    }
}

/// The shares of the listed positions.
pub open spec fn shares_at(shares: Seq<u64>, positions: Seq<usize>) -> Seq<u64> {
    positions.map_values(|i: usize| shares[i as int])
}

/// Some of the shares, each taken once, are no more than all of them.
pub proof fn lemma_part_of_total(shares: Seq<u64>, positions: Seq<usize>)
    requires
        forall|p: int| 0 <= p < positions.len() ==> (#[trigger] positions[p]) < shares.len(),
        forall|p: int, q: int| 0 <= p < q < positions.len() ==> positions[p] != positions[q],
    ensures
        total(shares_at(shares, positions)) <= total(shares),
    decreases positions.len(),
{
    if positions.len() > 0 {
        let last = positions.last() as int;
        let rest = positions.drop_last();
        let without = shares.update(last, 0);
        lemma_total_update(shares, last, 0);
        lemma_part_of_total(without, rest);
        assert(shares_at(shares, positions).drop_last() =~= shares_at(without, rest)) by {
            assert forall|p: int| 0 <= p < rest.len() implies shares[rest[p] as int] == without[rest[p] as int] by {
                assert(positions[p] != positions[positions.len() - 1]);
            }
        }
    }
}

/// The sum of all shares, or `None` where it exceeds the machine.
pub fn checked_sum(shares: &Vec<u64>) -> (r: Option<u64>)
    ensures
        r is Some <==> total(shares@) <= u64::MAX,
        r is Some ==> r->0 == total(shares@),
{
    let mut sum: u64 = 0;
    let mut i: usize = 0;
    assert(shares@.take(0) =~= Seq::<u64>::empty());
    while i < shares.len()
        invariant
            i <= shares@.len(),
            sum == start(shares@, i as int),
        decreases shares.len() - i,
    {
        proof {
            lemma_total_take(shares@, i as int);
            lemma_start_grows(shares@, i + 1, shares@.len() as int);
        }
        if shares[i] > u64::MAX - sum {
            return None;
        }
        sum = sum + shares[i];
        i = i + 1;
    }
    assert(shares@.take(i as int) =~= shares@);
    Some(sum)
}

/// The sum of all shares.
pub fn sum(shares: &Vec<u64>) -> (r: u64)
    requires
        total(shares@) <= u64::MAX,
    ensures
        r == total(shares@),
{
    match checked_sum(shares) {
        Some(r) => r,
        None => 0,
    }
}

/// The share that position `pos` falls into.
pub fn pick(shares: &Vec<u64>, pos: u64) -> (r: Option<usize>)
    ensures
        r == slot(shares@, pos as nat),
        r is Some ==> r->0 < shares@.len(),
{
    let mut left: u64 = pos;
    let mut i: usize = 0;
    assert(shares.len() <= usize::MAX);
    assert(shares@.take(0) =~= Seq::<u64>::empty());
    while i < shares.len()
        invariant
            i <= shares@.len(),
            shares@.len() <= usize::MAX,
            left + start(shares@, i as int) == pos,
            slot(shares@.take(i as int), pos as nat) is None,
        decreases shares.len() - i,
    {
        proof {
            lemma_total_take(shares@, i as int);
        }
        if left < shares[i] {
            proof {
                law_slot_is_proportional(shares@, pos as nat, i as int);
            }
            return Some(i);
        }
        left = left - shares[i];
        i = i + 1;
    }
    assert(shares@.take(i as int) =~= shares@);
    None
}

/// The position of the greatest value, the last one of several.
pub fn position_of_last_max(values: &Vec<u64>) -> (r: Option<usize>)
    ensures
        r == last_max(values@),
        r is Some ==> r->0 < values@.len(),
        r is None ==> values@.len() == 0,
{
    if values.len() == 0 {
        return None;
    }
    let mut best: usize = 0;
    let mut i: usize = 1;
    assert(values@.take(1).drop_last() =~= Seq::<u64>::empty());
    assert(last_max(values@.take(1).drop_last()) is None);
    while i < values.len()
        invariant
            1 <= i <= values@.len(),
            best < i,
            last_max(values@.take(i as int)) == Some(best),
        decreases values.len() - i,
    {
        assert(values@.take(i + 1).drop_last() =~= values@.take(i as int));
        if values[i] >= values[best] {
            best = i;
        }
        i = i + 1;
    }
    assert(values@.take(i as int) =~= values@);
    Some(best)
}

/// The position of the greatest value, the first one of several.
pub fn position_of_first_max(values: &Vec<u64>) -> (r: Option<usize>)
    ensures
        r == first_max(values@),
        r is Some ==> r->0 < values@.len(),
        r is None ==> values@.len() == 0,
{
    if values.len() == 0 {
        return None;
    }
    let mut best: usize = 0;
    let mut i: usize = 1;
    assert(values@.take(1).drop_last() =~= Seq::<u64>::empty());
    assert(first_max(values@.take(1).drop_last()) is None);
    while i < values.len()
        invariant
            1 <= i <= values@.len(),
            best < i,
            first_max(values@.take(i as int)) == Some(best),
        decreases values.len() - i,
    {
        assert(values@.take(i + 1).drop_last() =~= values@.take(i as int));
        if values[i] > values[best] {
            best = i;
        }
        i = i + 1;
    }
    assert(values@.take(i as int) =~= values@);
    Some(best)
}

/// The greatest value is no smaller than any, and greater than those before
/// it.
pub proof fn law_first_max(values: Seq<u64>)
    requires
        0 < values.len() <= usize::MAX,
    ensures
        first_max(values) is Some,
        first_max(values)->0 < values.len(),
        forall|i: int| 0 <= i < values.len() ==> #[trigger] values[i] <= values[first_max(values)->0 as int],
        forall|i: int| 0 <= i < first_max(values)->0 ==> #[trigger] values[i] < values[first_max(values)->0 as int],
    decreases values.len(),
{
    let shorter = values.drop_last();
    if shorter.len() > 0 {
        law_first_max(shorter);
        let best = first_max(shorter)->0 as int;
        assert forall|i: int| 0 <= i < shorter.len() implies #[trigger] values[i] <= values[best] by {
            assert(shorter[i] == values[i]);
        }
        assert forall|i: int| 0 <= i < best implies #[trigger] values[i] < values[best] by {
            assert(shorter[i] == values[i]);
        }
    }
}

/// The position of the least value, the first one of several.
pub fn position_of_first_min(values: &Vec<u64>) -> (r: Option<usize>)
    ensures
        r == first_min(values@),
        r is Some ==> r->0 < values@.len(),
        r is None ==> values@.len() == 0,
{
    if values.len() == 0 {
        return None;
    }
    let mut best: usize = 0;
    let mut i: usize = 1;
    assert(values@.take(1).drop_last() =~= Seq::<u64>::empty());
    assert(first_min(values@.take(1).drop_last()) is None);
    while i < values.len()
        invariant
            1 <= i <= values@.len(),
            best < i,
            first_min(values@.take(i as int)) == Some(best),
        decreases values.len() - i,
    {
        assert(values@.take(i + 1).drop_last() =~= values@.take(i as int));
        if values[i] < values[best] {
            best = i;
        }
        i = i + 1;
    }
    assert(values@.take(i as int) =~= values@);
    Some(best)
}

} // verus!
