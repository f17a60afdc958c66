//! Sorted association sequences: the mathematical model of an ordered map.
//!
//! An ordered map with `u64` keys is modelled as the sequence of its
//! `(key, value)` entries in strictly ascending key order. The functions here
//! say what insertion, removal and the two kinds of lookup mean on such a
//! sequence, and the lemmas relate them to each other and to `Map`.

use vstd::prelude::*;

verus! {

/// Keys strictly increase along the sequence, so no key occurs twice.
pub open spec fn ascending<V>(s: Seq<(u64, V)>) -> bool {
    forall|i: int, j: int| 0 <= i < j < s.len() ==> s[i].0 < s[j].0
}

/// The number of entries whose key is below `bound`.
pub open spec fn rank<V>(s: Seq<(u64, V)>, bound: int) -> nat
    decreases s.len(),
{
    if s.len() == 0 {
        0
    } else if s.last().0 < bound {
        rank(s.drop_last(), bound) + 1
    } else {
        rank(s.drop_last(), bound)
    }
}

/// Position `p` separates the keys below `bound` from those at or above it.
pub open spec fn splits_at<V>(s: Seq<(u64, V)>, bound: int, p: int) -> bool {
    &&& 0 <= p <= s.len()
    &&& forall|i: int| 0 <= i < p ==> (#[trigger] s[i]).0 < bound
    &&& forall|i: int| p <= i < s.len() ==> (#[trigger] s[i]).0 >= bound
}

/// The value stored under `k`, if any.
pub open spec fn lookup<V>(s: Seq<(u64, V)>, k: u64) -> Option<V> {
    let p = rank(s, k as int) as int;
    if p < s.len() && s[p].0 == k {
        Some(s[p].1)
    } else {
        None
    }
}

/// The position of the entry with the greatest key that is at most `k`.
pub open spec fn floor<V>(s: Seq<(u64, V)>, k: u64) -> Option<int> {
    let p = rank(s, k as int + 1) as int;
    if p == 0 {
        None
    } else {
        Some(p - 1)
    }
}

/// The sequence after `k` has been bound to `v`: an existing entry for `k` is
/// overwritten, otherwise a new entry takes its place in key order.
pub open spec fn upsert<V>(s: Seq<(u64, V)>, k: u64, v: V) -> Seq<(u64, V)> {
    let p = rank(s, k as int) as int;
    if p < s.len() && s[p].0 == k {
        s.update(p, (k, v))
    } else {
        s.insert(p, (k, v))
    }
}

/// The sequence without the entry for `k`; unchanged if there is none.
pub open spec fn erase<V>(s: Seq<(u64, V)>, k: u64) -> Seq<(u64, V)> {
    let p = rank(s, k as int) as int;
    if p < s.len() && s[p].0 == k {
        s.remove(p)
    } else {
        s
    }
}

/// The finite map that the sequence represents.
pub open spec fn as_map<V>(s: Seq<(u64, V)>) -> Map<u64, V> {
    Map::new(|k: u64| lookup(s, k) is Some, |k: u64| lookup(s, k).unwrap())
}

/// The rank is a position of the sequence or its length.
pub proof fn lemma_rank_bound<V>(s: Seq<(u64, V)>, bound: int)
    ensures
        rank(s, bound) <= s.len(),
    decreases s.len(),
{
    if s.len() > 0 {
        lemma_rank_bound(s.drop_last(), bound);
    }
}

/// In an ascending sequence, `rank` is a separating position.
pub proof fn lemma_rank_splits<V>(s: Seq<(u64, V)>, bound: int)
    requires
        ascending(s),
    ensures
        splits_at(s, bound, rank(s, bound) as int),
    decreases s.len(),
{
    if s.len() > 0 {
        let t = s.drop_last();
        assert(ascending(t));
        lemma_rank_splits(t, bound);
        let r = rank(t, bound) as int;
        if s.last().0 < bound {
            if r < t.len() {
                assert(t[r].0 >= bound);
                assert(s[r].0 < s[s.len() - 1].0);
            }
            assert forall|i: int| 0 <= i < s.len() implies (#[trigger] s[i]).0 < bound by {
                if i < t.len() {
                    assert(s[i] == t[i]);
                }
            }
        } else {
            assert forall|i: int| 0 <= i < r implies (#[trigger] s[i]).0 < bound by {
                assert(s[i] == t[i]);
            }
            assert forall|i: int| r <= i < s.len() implies (#[trigger] s[i]).0 >= bound by {
                if i < t.len() {
                    assert(s[i] == t[i]);
                }
            }
        }
    }
}

/// A separating position is the rank.
pub proof fn lemma_split_is_rank<V>(s: Seq<(u64, V)>, bound: int, p: int)
    requires
        splits_at(s, bound, p),
    ensures
        rank(s, bound) == p,
    decreases s.len(),
{
    if s.len() > 0 {
        let t = s.drop_last();
        let q = if p == s.len() { p - 1 } else { p };
        assert forall|i: int| 0 <= i < q implies (#[trigger] t[i]).0 < bound by {
            assert(t[i] == s[i]);
        }
        assert forall|i: int| q <= i < t.len() implies (#[trigger] t[i]).0 >= bound by {
            assert(t[i] == s[i]);
        }
        lemma_split_is_rank(t, bound, q);
        if p == s.len() {
            assert(s[s.len() - 1].0 < bound);
        } else {
            assert(s[s.len() - 1].0 >= bound);
        }
    }
}

/// In an ascending sequence every entry is found under its own key.
pub proof fn lemma_lookup_entry<V>(s: Seq<(u64, V)>, i: int)
    requires
        ascending(s),
        0 <= i < s.len(),
    ensures
        rank(s, s[i].0 as int) == i,
        lookup(s, s[i].0) == Some(s[i].1),
        floor(s, s[i].0) == Some(i),
{
    lemma_split_is_rank(s, s[i].0 as int, i);
    lemma_split_is_rank(s, s[i].0 as int + 1, i + 1);
}

/// A successful lookup names an entry of the sequence, and a failed one means
/// that no entry has the key.
pub proof fn lemma_lookup_position<V>(s: Seq<(u64, V)>, k: u64)
    requires
        ascending(s),
    ensures
        lookup(s, k) is Some <==> exists|i: int| 0 <= i < s.len() && (#[trigger] s[i]).0 == k,
        lookup(s, k) is Some ==> {
            let p = rank(s, k as int) as int;
            0 <= p < s.len() && s[p] == (k, lookup(s, k).unwrap())
        },
{
    lemma_rank_splits(s, k as int);
    if exists|i: int| 0 <= i < s.len() && (#[trigger] s[i]).0 == k {
        let i = choose|i: int| 0 <= i < s.len() && (#[trigger] s[i]).0 == k;
        lemma_lookup_entry(s, i);
    }
}

/// `floor` yields the last entry whose key does not exceed `k`.
pub proof fn lemma_floor<V>(s: Seq<(u64, V)>, k: u64)
    requires
        ascending(s),
    ensures
        match floor(s, k) {
            Some(p) => {
                &&& 0 <= p < s.len()
                &&& s[p].0 <= k
                &&& forall|i: int| p < i < s.len() ==> (#[trigger] s[i]).0 > k
            },
            None => forall|i: int| 0 <= i < s.len() ==> (#[trigger] s[i]).0 > k,
        },
{
    lemma_rank_splits(s, k as int + 1);
}

/// The entry at `p` is the floor of `k` if its key is at most `k` and every
/// later key is greater.
pub proof fn lemma_floor_is<V>(s: Seq<(u64, V)>, k: u64, p: int)
    requires
        ascending(s),
        0 <= p < s.len(),
        s[p].0 <= k,
        forall|i: int| p < i < s.len() ==> (#[trigger] s[i]).0 > k,
    ensures
        floor(s, k) == Some(p),
{
    assert forall|i: int| 0 <= i < p + 1 implies (#[trigger] s[i]).0 < k as int + 1 by {
        if i < p {
            assert(s[i].0 < s[p].0);
        }
    }
    lemma_split_is_rank(s, k as int + 1, p + 1);
}

/// What binding a key does to an ascending sequence.
pub proof fn lemma_upsert<V>(s: Seq<(u64, V)>, k: u64, v: V)
    requires
        ascending(s),
    ensures
        ascending(upsert(s, k, v)),
        lookup(upsert(s, k, v), k) == Some(v),
        forall|other: u64| other != k ==> lookup(upsert(s, k, v), other) == lookup(s, other),
        as_map(upsert(s, k, v)) == as_map(s).insert(k, v),
        upsert(s, k, v).len() == if lookup(s, k) is Some { s.len() } else { s.len() + 1 },
{
    let p = rank(s, k as int) as int;
    let t = upsert(s, k, v);
    lemma_rank_splits(s, k as int);
    let hit = p < s.len() && s[p].0 == k;
    let d: int = if hit { 0 } else { 1 };
    assert(t.len() == s.len() + d);
    assert(t[p] == (k, v));
    assert forall|i: int| 0 <= i < p implies t[i] == s[i] by {}
    assert forall|i: int| p < i < t.len() implies t[i] == s[i - d] by {}
    assert forall|i: int, j: int| 0 <= i < j < t.len() implies t[i].0 < t[j].0 by {
        if i < p {
            assert(t[i] == s[i]);
        } else if i > p {
            assert(t[i] == s[i - d]);
        }
        if j < p {
            assert(t[j] == s[j]);
        } else if j > p {
            assert(t[j] == s[j - d]);
        }
    }
    lemma_lookup_entry(t, p);
    assert forall|other: u64| other != k implies lookup(t, other) == lookup(s, other) by {
        let q = rank(s, other as int) as int;
        lemma_rank_splits(s, other as int);
        if other < k {
            assert(q <= p) by {
                if q > p {
                    assert(s[p].0 < other);
                }
            }
            assert forall|i: int| 0 <= i < q implies (#[trigger] t[i]).0 < other by {
                assert(t[i] == s[i]);
            }
            assert forall|i: int| q <= i < t.len() implies (#[trigger] t[i]).0 >= other by {
                if i < p {
                    assert(t[i] == s[i]);
                } else if i > p {
                    assert(t[i] == s[i - d]);
                }
            }
            lemma_split_is_rank(t, other as int, q);
            if q < p {
                assert(t[q] == s[q]);
            }
        } else {
            assert(q >= p + 1 - d) by {
                if q < p + 1 - d {
                    assert(s[q].0 >= other);
                    if q < p {
                        assert(s[q].0 < k);
                    }
                }
            }
            assert forall|i: int| 0 <= i < q + d implies (#[trigger] t[i]).0 < other by {
                if i < p {
                    assert(t[i] == s[i]);
                } else if i > p {
                    assert(t[i] == s[i - d]);
                }
            }
            assert forall|i: int| q + d <= i < t.len() implies (#[trigger] t[i]).0 >= other by {
                assert(t[i] == s[i - d]);
            }
            lemma_split_is_rank(t, other as int, q + d);
            if q < s.len() {
                assert(t[q + d] == s[q]);
            }
        }
    }
    assert(as_map(t) =~= as_map(s).insert(k, v));
}

/// What removing a key does to an ascending sequence.
pub proof fn lemma_erase<V>(s: Seq<(u64, V)>, k: u64)
    requires
        ascending(s),
    ensures
        ascending(erase(s, k)),
        lookup(erase(s, k), k) is None,
        forall|other: u64| other != k ==> lookup(erase(s, k), other) == lookup(s, other),
        as_map(erase(s, k)) == as_map(s).remove(k),
        erase(s, k).len() == if lookup(s, k) is Some { s.len() - 1 } else { s.len() as int },
{
    let p = rank(s, k as int) as int;
    let t = erase(s, k);
    lemma_rank_splits(s, k as int);
    let hit = p < s.len() && s[p].0 == k;
    let d: int = if hit { 1 } else { 0 };
    assert(t.len() == s.len() - d);
    assert forall|i: int| 0 <= i < p implies t[i] == s[i] by {}
    assert forall|i: int| p <= i < t.len() implies t[i] == s[i + d] by {}
    assert forall|i: int, j: int| 0 <= i < j < t.len() implies t[i].0 < t[j].0 by {
        if i < p {
            assert(t[i] == s[i]);
        } else {
            assert(t[i] == s[i + d]);
        }
        if j < p {
            assert(t[j] == s[j]);
        } else {
            assert(t[j] == s[j + d]);
        }
    }
    assert forall|i: int| 0 <= i < p implies (#[trigger] t[i]).0 < k by {
        assert(t[i] == s[i]);
    }
    assert forall|i: int| p <= i < t.len() implies (#[trigger] t[i]).0 >= k by {
        assert(t[i] == s[i + d]);
    }
    lemma_split_is_rank(t, k as int, p);
    if p < t.len() {
        assert(t[p] == s[p + d]);
        if hit {
            assert(s[p].0 < s[p + 1].0);
        }
    }
    assert forall|other: u64| other != k implies lookup(t, other) == lookup(s, other) by {
        let q = rank(s, other as int) as int;
        lemma_rank_splits(s, other as int);
        let q2 = if q > p { q - d } else { q };
        if q > p && hit {
            assert(s[p].0 < other);
        }
        assert forall|i: int| 0 <= i < q2 implies (#[trigger] t[i]).0 < other by {
            if i < p {
                assert(t[i] == s[i]);
            } else {
                assert(t[i] == s[i + d]);
            }
        }
        assert forall|i: int| q2 <= i < t.len() implies (#[trigger] t[i]).0 >= other by {
            if i < p {
                assert(t[i] == s[i]);
            } else {
                assert(t[i] == s[i + d]);
            }
        }
        lemma_split_is_rank(t, other as int, q2);
        if q2 < t.len() {
            if q2 < p {
                assert(t[q2] == s[q2]);
            } else {
                assert(t[q2] == s[q2 + d]);
            }
        }
        if q < s.len() && s[q].0 == other {
            if hit && q == p {
                assert(false);
            }
        }
    }
    assert(as_map(t) =~= as_map(s).remove(k));
}

/// A sorted sequence is its front with its last entry bound on top.
pub proof fn lemma_last_is_upsert<V>(s: Seq<(u64, V)>)
    requires
        ascending(s),
        s.len() > 0,
    ensures
        s == upsert(s.drop_last(), s.last().0, s.last().1),
        ascending(s.drop_last()),
{
    let front = s.drop_last();
    assert forall|i: int| 0 <= i < front.len() implies (#[trigger] front[i]).0 < s.last().0 by {
        assert(front[i] == s[i]);
    }
    lemma_split_is_rank(front, s.last().0 as int, front.len() as int);
    assert(s =~= front.insert(front.len() as int, s.last()));
}

/// An ascending sequence represents a finite map with as many keys as the
/// sequence has entries.
pub proof fn lemma_key_count<V>(s: Seq<(u64, V)>)
    requires
        ascending(s),
    ensures
        as_map(s).dom().finite(),
        as_map(s).dom().len() == s.len(),
    decreases s.len(),
{
    if s.len() == 0 {
        assert(as_map(s).dom() =~= Set::<u64>::empty());
    } else {
        let front = s.drop_last();
        lemma_last_is_upsert(s);
        lemma_key_count(front);
        lemma_upsert(front, s.last().0, s.last().1);
        assert(as_map(s).dom() =~= as_map(front).dom().insert(s.last().0));
        assert(!as_map(front).dom().contains(s.last().0));
    }
}

} // verus!
