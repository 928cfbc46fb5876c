//! Facts about sequences used by the term enumeration proofs.

use vstd::prelude::*;

verus! {

/// At most the first `cap` elements of `s`, or all of `s` without a cap.
pub open spec fn take_up_to<A>(s: Seq<A>, cap: Option<int>) -> Seq<A> {
    match cap {
        None => s,
        Some(c) => if s.len() <= c {
            s
        } else {
            s.take(c)
        },
    }
}

/// An optional limit as a cap on a sequence's length.
pub open spec fn cap_of(limit: Option<usize>) -> Option<int> {
    match limit {
        None => None,
        Some(l) => Some(l as int),
    }
}

/// A scan over `cand` that gathers the elements passing `pred` and stops
/// once `limit` of them are gathered gives the first `limit` of them: it
/// has either seen all of `cand` within the limit, or gathered exactly the
/// limit from the first `k` elements.
pub proof fn lemma_limited_scan<A>(
    cand: Seq<A>,
    k: int,
    pred: spec_fn(A) -> bool,
    limit: Option<usize>,
    full: bool,
)
    requires
        0 <= k <= cand.len(),
        !full ==> k == cand.len() && (limit matches Some(l) ==> cand.take(k).filter(pred).len()
            <= l),
        full ==> (limit matches Some(l) && cand.take(k).filter(pred).len() == l),
    ensures
        cand.take(k).filter(pred) == take_up_to(cand.filter(pred), cap_of(limit)),
{
    let seen = cand.take(k);
    let tail = cand.skip(k);
    assert(cand =~= seen + tail);
    Seq::filter_distributes_over_add(seen, tail, pred);
    if full {
        assert((seen.filter(pred) + tail.filter(pred)).take(seen.filter(pred).len() as int)
            =~= seen.filter(pred));
    } else {
        assert(seen =~= cand);
    }
}

/// Filtering keeps nothing of a sequence whose elements all fail.
pub proof fn lemma_filter_none<A>(s: Seq<A>, pred: spec_fn(A) -> bool)
    requires
        forall|i: int| 0 <= i < s.len() ==> !pred(#[trigger] s[i]),
    ensures
        s.filter(pred) == Seq::<A>::empty(),
    decreases s.len(),
{
    reveal(Seq::filter);
    if s.len() > 0 {
        lemma_filter_none(s.drop_last(), pred);
        assert(!pred(s[s.len() - 1]));
    }
    assert(s.filter(pred) =~= Seq::<A>::empty());
}

/// Filtering keeps all of a sequence whose elements all pass.
pub proof fn lemma_filter_all<A>(s: Seq<A>, pred: spec_fn(A) -> bool)
    requires
        forall|i: int| 0 <= i < s.len() ==> pred(#[trigger] s[i]),
    ensures
        s.filter(pred) == s,
    decreases s.len(),
{
    reveal(Seq::filter);
    if s.len() > 0 {
        lemma_filter_all(s.drop_last(), pred);
        assert(pred(s[s.len() - 1]));
        assert(s.drop_last().push(s.last()) =~= s);
    } else {
        assert(s.filter(pred) =~= s);
    }
}

/// When exactly the elements in `[lo, hi)` pass, filtering leaves that range.
pub proof fn lemma_filter_block<A>(s: Seq<A>, pred: spec_fn(A) -> bool, lo: int, hi: int)
    requires
        0 <= lo <= hi <= s.len(),
        forall|i: int| 0 <= i < s.len() ==> (pred(#[trigger] s[i]) <==> lo <= i < hi),
    ensures
        s.filter(pred) == s.subrange(lo, hi),
{
    let a = s.subrange(0, lo);
    let b = s.subrange(lo, hi);
    let c = s.subrange(hi, s.len() as int);
    assert(s =~= a + b + c);
    Seq::filter_distributes_over_add(a + b, c, pred);
    Seq::filter_distributes_over_add(a, b, pred);
    assert forall|i: int| 0 <= i < a.len() implies !pred(#[trigger] a[i]) by {
        assert(a[i] == s[i]);
    }
    assert forall|i: int| 0 <= i < b.len() implies pred(#[trigger] b[i]) by {
        assert(b[i] == s[lo + i]);
    }
    assert forall|i: int| 0 <= i < c.len() implies !pred(#[trigger] c[i]) by {
        assert(c[i] == s[hi + i]);
    }
    lemma_filter_none(a, pred);
    lemma_filter_all(b, pred);
    lemma_filter_none(c, pred);
    assert(Seq::<A>::empty() + b + Seq::<A>::empty() =~= b);
}

/// Filtering a sequence extended by one element.
pub proof fn lemma_filter_push<A>(s: Seq<A>, x: A, pred: spec_fn(A) -> bool)
    ensures
        s.push(x).filter(pred) == if pred(x) {
            s.filter(pred).push(x)
        } else {
            s.filter(pred)
        },
{
    reveal(Seq::filter);
    assert(s.push(x).drop_last() =~= s);
}


/// No two pairs of `s` have the same key.
pub open spec fn keys_distinct<K, V>(s: Seq<(K, V)>) -> bool {
    forall|i: int, j: int| 0 <= i < j < s.len() ==> s[i].0 != s[j].0
}

/// The pairs of a sequence with distinct keys, as a map from key to value.
pub open spec fn assoc_map<K, V>(s: Seq<(K, V)>) -> Map<K, V> {
    Map::new(
        |k: K| exists|i: int| 0 <= i < s.len() && s[i].0 == k,
        |k: K| s[choose|i: int| 0 <= i < s.len() && s[i].0 == k].1,
    )
}

/// The map of the pairs of `s`, a later pair winning over an earlier one
/// with the same key.
pub open spec fn fold_insert<K, V>(s: Seq<(K, V)>) -> Map<K, V>
    decreases s.len(),
{
    if s.len() == 0 {
        Map::empty()
    } else {
        fold_insert(s.drop_last()).insert(s.last().0, s.last().1)
    }
}

/// A pair of a sequence with distinct keys is what the map holds at its key.
pub proof fn lemma_assoc_at<K, V>(s: Seq<(K, V)>, i: int)
    requires
        keys_distinct(s),
        0 <= i < s.len(),
    ensures
        assoc_map(s).contains_key(s[i].0),
        assoc_map(s)[s[i].0] == s[i].1,
{
    let k = s[i].0;
    assert(exists|j: int| 0 <= j < s.len() && s[j].0 == k);
    let j = choose|j: int| 0 <= j < s.len() && s[j].0 == k;
    assert(j == i);
}

/// The map of the empty sequence is empty.
pub proof fn lemma_assoc_empty<K, V>(s: Seq<(K, V)>)
    requires
        s.len() == 0,
    ensures
        assoc_map(s) == Map::<K, V>::empty(),
{
    assert(assoc_map(s) =~= Map::<K, V>::empty());
}

/// Replacing the pair with a given key updates the map at that key.
pub proof fn lemma_assoc_update<K, V>(s: Seq<(K, V)>, i: int, r: (K, V))
    requires
        keys_distinct(s),
        0 <= i < s.len(),
        s[i].0 == r.0,
    ensures
        keys_distinct(s.update(i, r)),
        assoc_map(s.update(i, r)) == assoc_map(s).insert(r.0, r.1),
{
    let w = s.update(i, r);
    assert forall|a: int, b: int| 0 <= a < b < w.len() implies w[a].0 != w[b].0 by {
        assert(s[a].0 != s[b].0);
    }
    assert(assoc_map(w) =~= assoc_map(s).insert(r.0, r.1)) by {
        assert forall|k: K| #[trigger] assoc_map(w).contains_key(k) == assoc_map(s).insert(
            r.0,
            r.1,
        ).contains_key(k) by {
            if exists|j: int| 0 <= j < s.len() && s[j].0 == k {
                let j = choose|j: int| 0 <= j < s.len() && s[j].0 == k;
                assert(w[j].0 == k);
            }
            if exists|j: int| 0 <= j < w.len() && w[j].0 == k {
                let j = choose|j: int| 0 <= j < w.len() && w[j].0 == k;
                assert(s[j].0 == k);
            }
            if k == r.0 {
                assert(w[i].0 == k);
            }
        }
        assert forall|k: K| #[trigger] assoc_map(w).contains_key(k) implies assoc_map(w)[k]
            == assoc_map(s).insert(r.0, r.1)[k] by {
            let jw = choose|j: int| 0 <= j < w.len() && w[j].0 == k;
            if k == r.0 {
                assert(w[i].0 == k);
                assert(jw == i);
            } else {
                let js = choose|j: int| 0 <= j < s.len() && s[j].0 == k;
                assert(w[js].0 == k);
                assert(jw == js);
            }
        }
    }
}

/// Appending a pair with a new key adds it to the map.
pub proof fn lemma_assoc_push<K, V>(s: Seq<(K, V)>, r: (K, V))
    requires
        keys_distinct(s),
        !assoc_map(s).contains_key(r.0),
    ensures
        keys_distinct(s.push(r)),
        assoc_map(s.push(r)) == assoc_map(s).insert(r.0, r.1),
{
    let w = s.push(r);
    assert forall|a: int, b: int| 0 <= a < b < w.len() implies w[a].0 != w[b].0 by {
        if b == s.len() {
            assert(s[a].0 != r.0);
        }
    }
    assert(assoc_map(w) =~= assoc_map(s).insert(r.0, r.1)) by {
        assert forall|k: K| #[trigger] assoc_map(w).contains_key(k) == assoc_map(s).insert(
            r.0,
            r.1,
        ).contains_key(k) by {
            if exists|j: int| 0 <= j < s.len() && s[j].0 == k {
                let j = choose|j: int| 0 <= j < s.len() && s[j].0 == k;
                assert(w[j].0 == k);
            }
            if k == r.0 {
                assert(w[s.len() as int].0 == k);
            }
            if exists|j: int| 0 <= j < w.len() && w[j].0 == k {
                let j = choose|j: int| 0 <= j < w.len() && w[j].0 == k;
                if j < s.len() {
                    assert(s[j].0 == k);
                }
            }
        }
        assert forall|k: K| #[trigger] assoc_map(w).contains_key(k) implies assoc_map(w)[k]
            == assoc_map(s).insert(r.0, r.1)[k] by {
            let jw = choose|j: int| 0 <= j < w.len() && w[j].0 == k;
            if k == r.0 {
                assert(w[s.len() as int].0 == k);
            } else {
                let js = choose|j: int| 0 <= j < s.len() && s[j].0 == k;
                assert(w[js].0 == k);
                assert(jw == js);
            }
        }
    }
}

/// Removing the pair at a position removes its key from the map.
pub proof fn lemma_assoc_remove<K, V>(s: Seq<(K, V)>, i: int)
    requires
        keys_distinct(s),
        0 <= i < s.len(),
    ensures
        keys_distinct(s.remove(i)),
        assoc_map(s.remove(i)) == assoc_map(s).remove(s[i].0),
{
    let w = s.remove(i);
    let key = s[i].0;
    assert forall|a: int, b: int| 0 <= a < b < w.len() implies w[a].0 != w[b].0 by {
        let sa = if a < i {
            a
        } else {
            a + 1
        };
        let sb = if b < i {
            b
        } else {
            b + 1
        };
        assert(w[a] == s[sa] && w[b] == s[sb]);
    }
    assert(assoc_map(w) =~= assoc_map(s).remove(key)) by {
        assert forall|k: K| #[trigger] assoc_map(w).contains_key(k) == assoc_map(s).remove(
            key,
        ).contains_key(k) by {
            if exists|j: int| 0 <= j < w.len() && w[j].0 == k {
                let j = choose|j: int| 0 <= j < w.len() && w[j].0 == k;
                let sj = if j < i {
                    j
                } else {
                    j + 1
                };
                assert(s[sj].0 == k);
                assert(k != key);
            }
            if k != key && exists|j: int| 0 <= j < s.len() && s[j].0 == k {
                let j = choose|j: int| 0 <= j < s.len() && s[j].0 == k;
                assert(j != i);
                let wj = if j < i {
                    j
                } else {
                    j - 1
                };
                assert(w[wj].0 == k);
            }
        }
        assert forall|k: K| #[trigger] assoc_map(w).contains_key(k) implies assoc_map(w)[k]
            == assoc_map(s).remove(key)[k] by {
            let jw = choose|j: int| 0 <= j < w.len() && w[j].0 == k;
            let sj = if jw < i {
                jw
            } else {
                jw + 1
            };
            assert(s[sj] == w[jw]);
            let js = choose|j: int| 0 <= j < s.len() && s[j].0 == k;
            assert(js == sj);
        }
    }
}


/// A sequence with distinct keys has as many keys in its map as pairs.
pub proof fn lemma_assoc_len<K, V>(s: Seq<(K, V)>)
    requires
        keys_distinct(s),
    ensures
        assoc_map(s).dom().finite(),
        assoc_map(s).len() == s.len(),
    decreases s.len(),
{
    if s.len() == 0 {
        lemma_assoc_empty(s);
    } else {
        let t = s.drop_last();
        let r = s.last();
        assert(keys_distinct(t));
        lemma_assoc_len(t);
        if assoc_map(t).contains_key(r.0) {
            let j = choose|j: int| 0 <= j < t.len() && t[j].0 == r.0;
            assert(s[j].0 != s[s.len() - 1].0);
        }
        lemma_assoc_push(t, r);
        assert(t.push(r) =~= s);
    }
}

/// For a sequence with distinct keys, inserting the pairs one by one gives
/// its map.
pub proof fn lemma_fold_insert_distinct<K, V>(s: Seq<(K, V)>)
    requires
        keys_distinct(s),
    ensures
        fold_insert(s) == assoc_map(s),
    decreases s.len(),
{
    if s.len() == 0 {
        lemma_assoc_empty(s);
    } else {
        let t = s.drop_last();
        let r = s.last();
        assert(keys_distinct(t));
        lemma_fold_insert_distinct(t);
        if assoc_map(t).contains_key(r.0) {
            let j = choose|j: int| 0 <= j < t.len() && t[j].0 == r.0;
            assert(s[j].0 != s[s.len() - 1].0);
        }
        lemma_assoc_push(t, r);
        assert(t.push(r) =~= s);
    }
}

} // verus!
