//! Stable sorting by integer keys.

use vstd::prelude::*;

verus! {

/// `sorted` with position `i` put behind every position whose key is not
/// greater.
pub open spec fn insert_by(keys: Seq<u64>, sorted: Seq<usize>, i: usize) -> Seq<usize>
    decreases sorted.len(),
{
    if sorted.len() == 0 || keys[sorted.last() as int] <= keys[i as int] {
        sorted.push(i)
    } else {
        insert_by(keys, sorted.drop_last(), i).push(sorted.last())
    }
}

/// The first `n` positions of `keys` in the order of their keys; positions
/// with equal keys in their own order.
pub open spec fn order_of(keys: Seq<u64>, n: nat) -> Seq<usize>
    decreases n,
{
    if n == 0 {
        Seq::empty()
    } else {
        insert_by(keys, order_of(keys, (n - 1) as nat), (n - 1) as usize)
    }
}

/// Whether `order` lists `n` positions, each once, by key and then by
/// position.
pub open spec fn is_stable_order(keys: Seq<u64>, n: nat, order: Seq<usize>) -> bool {
    &&& order.len() == n
    &&& forall|p: int| 0 <= p < n ==> (#[trigger] order[p]) < n
    &&& forall|p: int, q: int|
        0 <= p < q < n ==> keys[(#[trigger] order[p]) as int] < keys[(#[trigger] order[q]) as int] || (keys[order[p] as int]
            == keys[order[q] as int] && order[p] < order[q])
}

/// Where `insert_by` puts a position.
proof fn lemma_insert_at(keys: Seq<u64>, sorted: Seq<usize>, i: usize, at: int)
    requires
        0 <= at <= sorted.len(),
        at > 0 ==> keys[sorted[at - 1] as int] <= keys[i as int],
        forall|k: int| at <= k < sorted.len() ==> keys[(#[trigger] sorted[k]) as int] > keys[i as int],
    ensures
        insert_by(keys, sorted, i) == sorted.insert(at, i),
    decreases sorted.len(),
{
    if at == sorted.len() {
        assert(sorted.insert(at, i) =~= sorted.push(i));
    } else {
        lemma_insert_at(keys, sorted.drop_last(), i, at);
        assert(sorted.drop_last().insert(at, i).push(sorted.last()) =~= sorted.insert(at, i));
    }
}

/// Inserting keeps the order.
proof fn lemma_insert_keeps_order(keys: Seq<u64>, sorted: Seq<usize>, i: usize)
    requires
        is_stable_order(keys, i as nat, sorted),
    ensures
        is_stable_order(keys, (i + 1) as nat, insert_by(keys, sorted, i)),
{
    let at = lemma_insert_place(keys, sorted, i);
    lemma_insert_at(keys, sorted, i, at);
    let r = sorted.insert(at, i);
    assert forall|p: int, q: int| 0 <= p < q < r.len() implies keys[(#[trigger] r[p]) as int]
        < keys[(#[trigger] r[q]) as int] || (keys[r[p] as int] == keys[r[q] as int] && r[p] < r[q]) by {
        let p0 = if p < at {
            p
        } else {
            p - 1
        };
        let q0 = if q < at {
            q
        } else {
            q - 1
        };
        if p != at {
            assert(r[p] == sorted[p0]);
        }
        if q != at {
            assert(r[q] == sorted[q0]);
        }
    }
}

/// The place of a position among sorted ones.
proof fn lemma_insert_place(keys: Seq<u64>, sorted: Seq<usize>, i: usize) -> (at: int)
    requires
        forall|p: int, q: int|
            0 <= p < q < sorted.len() ==> keys[(#[trigger] sorted[p]) as int] <= keys[(#[trigger] sorted[q]) as int],
    ensures
        0 <= at <= sorted.len(),
        forall|k: int| 0 <= k < at ==> keys[(#[trigger] sorted[k]) as int] <= keys[i as int],
        forall|k: int| at <= k < sorted.len() ==> keys[(#[trigger] sorted[k]) as int] > keys[i as int],
    decreases sorted.len(),
{
    if sorted.len() == 0 || keys[sorted.last() as int] <= keys[i as int] {
        sorted.len() as int
    } else {
        let shorter = sorted.drop_last();
        assert forall|p: int, q: int| 0 <= p < q < shorter.len() implies keys[(#[trigger] shorter[p]) as int]
            <= keys[(#[trigger] shorter[q]) as int] by {
            assert(shorter[p] == sorted[p] && shorter[q] == sorted[q]);
        }
        let at = lemma_insert_place(keys, shorter, i);
        assert forall|k: int| 0 <= k < at implies keys[(#[trigger] sorted[k]) as int] <= keys[i as int] by {
            assert(sorted[k] == shorter[k]);
        }
        assert forall|k: int| at <= k < sorted.len() implies keys[(#[trigger] sorted[k]) as int] > keys[i as int] by {
            if k < shorter.len() {
                assert(sorted[k] == shorter[k]);
            }
        }
        at
    }
}

/// The order lists every position once, by key and then by position.
pub proof fn law_order_is_stable(keys: Seq<u64>, n: nat)
    requires
        n <= keys.len(),
        n <= usize::MAX,
    ensures
        is_stable_order(keys, n, order_of(keys, n)),
    decreases n,
{
    if n > 0 {
        law_order_is_stable(keys, (n - 1) as nat);
        lemma_insert_keeps_order(keys, order_of(keys, (n - 1) as nat), (n - 1) as usize);
    }
}

/// The positions of `keys` in the order of their keys.
pub fn stable_order(keys: &Vec<u64>) -> (order: Vec<usize>)
    ensures
        order@ == order_of(keys@, keys@.len()),
        is_stable_order(keys@, keys@.len(), order@),
{
    let mut order: Vec<usize> = Vec::new();
    let mut i: usize = 0;
    while i < keys.len()
        invariant
            i <= keys@.len(),
            order@ == order_of(keys@, i as nat),
            is_stable_order(keys@, i as nat, order@),
        decreases keys.len() - i,
    {
        let mut at: usize = order.len();
        while at > 0 && keys[order[at - 1]] > keys[i]
            invariant
                i < keys@.len(),
                at <= order@.len(),
                is_stable_order(keys@, i as nat, order@),
                forall|k: int| at <= k < order@.len() ==> keys@[(#[trigger] order@[k]) as int] > keys@[i as int],
            decreases at,
        {
            at = at - 1;
        }
        proof {
            lemma_insert_at(keys@, order@, i, at as int);
            lemma_insert_keeps_order(keys@, order@, i);
        }
        order.insert(at, i);
        i = i + 1;
    }
    order
}

/// Filtering one element more.
pub proof fn lemma_filter_step<A>(s: Seq<A>, keep: spec_fn(A) -> bool, i: int)
    requires
        0 <= i < s.len(),
    ensures
        s.take(i + 1).filter(keep) == if keep(s[i]) {
            s.take(i).filter(keep).push(s[i])
        } else {
            s.take(i).filter(keep)
        },
{
    reveal(Seq::filter);
    assert(s.take(i + 1).drop_last() =~= s.take(i));
}

/// Filtering nothing.
pub proof fn lemma_filter_start<A>(s: Seq<A>, keep: spec_fn(A) -> bool)
    ensures
        s.take(0).filter(keep) == Seq::<A>::empty(),
        s.take(s.len() as int) == s,
{
    reveal(Seq::filter);
    assert(s.take(0) =~= Seq::<A>::empty());
    assert(s.take(s.len() as int) =~= s);
}

proof fn lemma_insert_keeps_keys(keys: Seq<u64>, sorted: Seq<usize>, i: usize)
    ensures
        insert_by(keys, sorted, i).map_values(|k: usize| keys[k as int]).to_multiset() == sorted.map_values(
            |k: usize| keys[k as int],
        ).to_multiset().insert(keys[i as int]),
    decreases sorted.len(),
{
    broadcast use vstd::seq_lib::group_to_multiset_ensures;

    let key = |k: usize| keys[k as int];
    if sorted.len() == 0 || keys[sorted.last() as int] <= keys[i as int] {
        assert(sorted.push(i).map_values(key) =~= sorted.map_values(key).push(keys[i as int]));
    } else {
        let shorter = sorted.drop_last();
        let last = sorted.last();
        lemma_insert_keeps_keys(keys, shorter, i);
        let inserted = insert_by(keys, shorter, i);
        assert(inserted.push(last).map_values(key) =~= inserted.map_values(key).push(keys[last as int]));
        assert(sorted.map_values(key) =~= shorter.map_values(key).push(keys[last as int]));
        assert(inserted.map_values(key).to_multiset().insert(keys[last as int]) =~= shorter.map_values(
            key,
        ).to_multiset().insert(keys[last as int]).insert(keys[i as int]));
    }
}

/// Put in order, the keys are the same keys.
pub proof fn law_order_keeps_keys(keys: Seq<u64>, n: nat)
    requires
        n <= keys.len(),
        n <= usize::MAX,
    ensures
        order_of(keys, n).map_values(|k: usize| keys[k as int]).to_multiset() == keys.take(n as int).to_multiset(),
    decreases n,
{
    broadcast use vstd::seq_lib::group_to_multiset_ensures;

    let key = |k: usize| keys[k as int];
    if n == 0 {
        assert(order_of(keys, 0).map_values(key) =~= Seq::<u64>::empty());
        assert(keys.take(0) =~= Seq::<u64>::empty());
    } else {
        law_order_keeps_keys(keys, (n - 1) as nat);
        lemma_insert_keeps_keys(keys, order_of(keys, (n - 1) as nat), (n - 1) as usize);
        assert(keys.take(n as int) =~= keys.take(n - 1).push(keys[n - 1]));
    }
}

} // verus!
