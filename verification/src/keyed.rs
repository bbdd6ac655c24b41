//! Sequences of key/value pairs read as finite maps.
//!
//! The ledgers and buffers of this crate are stored as vectors of pairs in which
//! no key occurs twice. This module gives such a sequence its meaning as a `Map`
//! and proves how the usual edits of the sequence change that map.

use vstd::prelude::*;
use crate::timestamp::{same, Timestamp};

verus! {

/// `x` occurs among the first `n` items of `s`.
pub open spec fn among<E>(s: Seq<E>, n: int, x: E) -> bool {
    exists|j: int| 0 <= j < n && j < s.len() && #[trigger] s[j] == x
}

/// No key occurs at two positions of `s`.
pub open spec fn keys_distinct<K, V>(s: Seq<(K, V)>) -> bool {
    forall|i: int, j: int| 0 <= i < j < s.len() ==> (#[trigger] s[i]).0 != (#[trigger] s[j]).0
}

/// Some pair of `s` has the key `k`.
pub open spec fn has_key<K, V>(s: Seq<(K, V)>, k: K) -> bool {
    exists|i: int| 0 <= i < s.len() && (#[trigger] s[i]).0 == k
}

/// A position at which `k` occurs in `s`, when it occurs at all.
pub open spec fn position<K, V>(s: Seq<(K, V)>, k: K) -> int {
    choose|i: int| 0 <= i < s.len() && (#[trigger] s[i]).0 == k
}

/// The map that sends each key of `s` to the value paired with it.
pub open spec fn as_map<K, V>(s: Seq<(K, V)>) -> Map<K, V> {
    Map::new(|k: K| has_key(s, k), |k: K| s[position(s, k)].1)
}

/// With distinct keys, the pair at position `i` is the one that the map holds for its key.
pub proof fn lemma_as_map_at<K, V>(s: Seq<(K, V)>, i: int)
    requires
        keys_distinct(s),
        0 <= i < s.len(),
    ensures
        has_key(s, s[i].0),
        position(s, s[i].0) == i,
        as_map(s).contains_key(s[i].0),
        as_map(s)[s[i].0] == s[i].1,
{
    let k = s[i].0;
    assert(has_key(s, k));
    let p = position(s, k);
    assert(0 <= p < s.len() && s[p].0 == k);
    if p < i {
        assert(s[p].0 != s[i].0);
    } else if i < p {
        assert(s[i].0 != s[p].0);
    }
}

/// The empty sequence is the empty map.
pub proof fn lemma_as_map_empty<K, V>()
    ensures
        keys_distinct(Seq::<(K, V)>::empty()),
        as_map(Seq::<(K, V)>::empty()) == Map::<K, V>::empty(),
{
    assert(as_map(Seq::<(K, V)>::empty()) =~= Map::<K, V>::empty());
}

/// A map read from a sequence is empty only if the sequence is.
pub proof fn lemma_as_map_empty_iff<K, V>(s: Seq<(K, V)>)
    ensures
        as_map(s) == Map::<K, V>::empty() <==> s.len() == 0,
{
    if s.len() == 0 {
        assert(as_map(s) =~= Map::<K, V>::empty());
    } else {
        assert(has_key(s, s[0].0));
        assert(as_map(s).contains_key(s[0].0));
    }
}

/// Appending a pair with a fresh key inserts it into the map.
pub proof fn lemma_as_map_push<K, V>(s: Seq<(K, V)>, k: K, v: V)
    requires
        keys_distinct(s),
        !has_key(s, k),
    ensures
        keys_distinct(s.push((k, v))),
        as_map(s.push((k, v))) == as_map(s).insert(k, v),
{
    let t = s.push((k, v));
    assert(keys_distinct(t)) by {
        assert forall|i: int, j: int| 0 <= i < j < t.len() implies (#[trigger] t[i]).0 != (
        #[trigger] t[j]).0 by {
            if j < s.len() {
                assert(s[i].0 != s[j].0);
            } else {
                assert(s[i].0 != k);
            }
        }
    }
    assert forall|x: K| has_key(t, x) <==> (x == k || has_key(s, x)) by {
        if x == k {
            assert(t[s.len() as int].0 == k);
        }
        if has_key(s, x) {
            let i = position(s, x);
            assert(t[i].0 == x);
        }
        if has_key(t, x) && x != k {
            let i = position(t, x);
            assert(s[i].0 == x);
        }
    }
    assert forall|x: K| has_key(t, x) implies #[trigger] as_map(t)[x] == as_map(s).insert(k, v)[x] by {
        let i = position(t, x);
        lemma_as_map_at(t, i);
        if x != k {
            assert(i < s.len());
            lemma_as_map_at(s, i);
        } else {
            if i < s.len() {
                assert(s[i].0 == k);
            }
        }
    }
    assert(as_map(t) =~= as_map(s).insert(k, v));
}

/// Replacing the value at position `i` overwrites the map at that key.
pub proof fn lemma_as_map_set<K, V>(s: Seq<(K, V)>, i: int, v: V)
    requires
        keys_distinct(s),
        0 <= i < s.len(),
    ensures
        keys_distinct(s.update(i, (s[i].0, v))),
        as_map(s.update(i, (s[i].0, v))) == as_map(s).insert(s[i].0, v),
{
    let k = s[i].0;
    let t = s.update(i, (k, v));
    assert(keys_distinct(t)) by {
        assert forall|a: int, b: int| 0 <= a < b < t.len() implies (#[trigger] t[a]).0 != (
        #[trigger] t[b]).0 by {
            assert(s[a].0 != s[b].0);
        }
    }
    assert forall|x: K| has_key(t, x) <==> has_key(s, x) by {
        if has_key(s, x) {
            let j = position(s, x);
            assert(t[j].0 == x);
        }
        if has_key(t, x) {
            let j = position(t, x);
            assert(s[j].0 == x);
        }
    }
    lemma_as_map_at(s, i);
    assert forall|x: K| has_key(t, x) implies #[trigger] as_map(t)[x] == as_map(s).insert(k, v)[x] by {
        let j = position(t, x);
        lemma_as_map_at(t, j);
        if j != i {
            lemma_as_map_at(s, j);
        }
    }
    assert(as_map(t) =~= as_map(s).insert(k, v));
}

/// Moving the last pair into position `i` and dropping the tail removes the key
/// that stood at `i` from the map.
pub proof fn lemma_as_map_swap_remove<K, V>(s: Seq<(K, V)>, i: int)
    requires
        keys_distinct(s),
        0 <= i < s.len(),
    ensures
        keys_distinct(s.update(i, s.last()).drop_last()),
        as_map(s.update(i, s.last()).drop_last()) == as_map(s).remove(s[i].0),
{
    let k = s[i].0;
    let n = s.len() - 1;
    let t = s.update(i, s.last()).drop_last();
    // every position of `t` shows a pair of `s` found at `src(j)`
    assert forall|j: int| 0 <= j < t.len() implies #[trigger] t[j] == s[if j == i { n } else { j }] by {}
    assert(keys_distinct(t)) by {
        assert forall|a: int, b: int| 0 <= a < b < t.len() implies (#[trigger] t[a]).0 != (
        #[trigger] t[b]).0 by {
            let sa = if a == i { n } else { a };
            let sb = if b == i { n } else { b };
            assert(t[a] == s[sa]);
            assert(t[b] == s[sb]);
            if sa < sb {
                assert(s[sa].0 != s[sb].0);
            } else {
                assert(s[sb].0 != s[sa].0);
            }
        }
    }
    assert forall|x: K| has_key(t, x) <==> (x != k && has_key(s, x)) by {
        if has_key(t, x) {
            let j = position(t, x);
            let sj = if j == i { n } else { j };
            assert(t[j] == s[sj]);
            assert(s[sj].0 == x);
            if sj < i {
                assert(s[sj].0 != s[i].0);
            } else {
                assert(s[i].0 != s[sj].0);
            }
        }
        if x != k && has_key(s, x) {
            let j = position(s, x);
            if j == n {
                assert(t[i] == s[n]);
                assert(t[i].0 == x);
            } else {
                assert(t[j] == s[j]);
                assert(t[j].0 == x);
            }
        }
    }
    assert forall|x: K| has_key(t, x) implies #[trigger] as_map(t)[x] == as_map(s).remove(k)[x] by {
        let j = position(t, x);
        lemma_as_map_at(t, j);
        let sj = if j == i { n } else { j };
        assert(t[j] == s[sj]);
        lemma_as_map_at(s, sj);
    }
    assert(as_map(t) =~= as_map(s).remove(k));
}

/// A map read from a sequence has a finite domain, with one key per pair
/// where the keys are distinct.
pub proof fn lemma_as_map_finite<K, V>(s: Seq<(K, V)>)
    ensures
        as_map(s).dom().finite(),
        keys_distinct(s) ==> as_map(s).dom().len() == s.len(),
    decreases s.len(),
{
    if s.len() == 0 {
        assert(as_map(s).dom() =~= Set::<K>::empty());
    } else {
        let t = s.drop_last();
        lemma_as_map_finite(t);
        let k = s.last().0;
        assert forall|x: K| has_key(s, x) <==> (x == k || has_key(t, x)) by {
            if has_key(s, x) && x != k {
                let i = position(s, x);
                assert(t[i].0 == x);
            }
            if has_key(t, x) {
                let i = position(t, x);
                assert(s[i].0 == x);
            }
            if x == k {
                assert(s[s.len() - 1].0 == k);
            }
        }
        assert(as_map(s).dom() =~= as_map(t).dom().insert(k));
        if keys_distinct(s) {
            assert(keys_distinct(t)) by {
                assert forall|i: int, j: int| 0 <= i < j < t.len() implies (#[trigger] t[i]).0 != (
                #[trigger] t[j]).0 by {
                    assert(s[i].0 != s[j].0);
                }
            }
            assert(!has_key(t, k)) by {
                if has_key(t, k) {
                    let i = position(t, k);
                    assert(s[i].0 != s[s.len() - 1].0);
                }
            }
        }
    }
}

/// Looks `key` up in a vector of pairs: the first position at which it occurs, if any.
pub fn find<T: Timestamp, V>(items: &Vec<(T, V)>, key: &T) -> (r: Option<usize>)
    ensures
        match r {
            Some(i) => i < items@.len() && items@[i as int].0 == *key && forall|j: int|
                0 <= j < i ==> (#[trigger] items@[j]).0 != *key,
            None => !has_key(items@, *key),
        },
{
    let mut i: usize = 0;
    while i < items.len()
        invariant
            i <= items@.len(),
            forall|j: int| 0 <= j < i ==> (#[trigger] items@[j]).0 != *key,
        decreases items@.len() - i,
    {
        if same(&items[i].0, key) {
            return Some(i);
        }
        i += 1;
    }
    None
}

} // verus!
