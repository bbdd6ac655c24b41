//! The delta ledger: signed counts per timestamp, merged by addition and pruned at zero.

use vstd::prelude::*;
use crate::keyed::{
    as_map, find, has_key, keys_distinct, lemma_as_map_at, lemma_as_map_empty,
    lemma_as_map_empty_iff, lemma_as_map_finite, lemma_as_map_push, lemma_as_map_set,
    lemma_as_map_swap_remove, position,
};
use crate::timestamp::Timestamp;

verus! {

/// The count that a ledger holds for `k`: zero where it has no entry.
pub open spec fn count<T>(m: Map<T, int>, k: T) -> int {
    if m.contains_key(k) {
        m[k]
    } else {
        0
    }
}

/// One delta merged into a ledger: `d` is added to the count of `k`, and the
/// entry is dropped when the sum is zero.
pub open spec fn ledger_apply<T>(m: Map<T, int>, k: T, d: int) -> Map<T, int> {
    let n = count(m, k) + d;
    if n == 0 {
        m.remove(k)
    } else {
        m.insert(k, n)
    }
}

/// A list of deltas merged into a ledger, first to last.
pub open spec fn ledger_merge<T>(m: Map<T, int>, deltas: Seq<(T, i64)>) -> Map<T, int>
    decreases deltas.len(),
{
    if deltas.len() == 0 {
        m
    } else {
        ledger_apply(ledger_merge(m, deltas.drop_last()), deltas.last().0, deltas.last().1 as int)
    }
}

/// The count that the delta at position `i` produces, after those before it
/// have been merged into `m`, is within `i64`.
pub open spec fn delta_fits<T>(m: Map<T, int>, deltas: Seq<(T, i64)>, i: int) -> bool {
    let n = count(ledger_merge(m, deltas.take(i)), deltas[i].0) + deltas[i].1;
    i64::MIN <= n <= i64::MAX
}

/// Every intermediate count stays within `i64` while `deltas` are merged into `m` one by one.
pub open spec fn merge_fits<T>(m: Map<T, int>, deltas: Seq<(T, i64)>) -> bool {
    forall|i: int| 0 <= i < deltas.len() ==> #[trigger] delta_fits(m, deltas, i)
}

/// Some entry of the ledger sits at or before `time`: more input may still
/// arrive at `time`.
pub open spec fn holds_back<T: Timestamp>(m: Map<T, int>, time: T) -> bool {
    exists|k: T| m.contains_key(k) && #[trigger] k.le_spec(time)
}

/// Every count of the ledger is above zero.
pub open spec fn all_positive<T>(m: Map<T, int>) -> bool {
    forall|k: T| m.contains_key(k) ==> #[trigger] m[k] > 0
}

/// No ledger entry is zero.
pub open spec fn no_zero<T>(m: Map<T, int>) -> bool {
    forall|k: T| m.contains_key(k) ==> #[trigger] m[k] != 0
}

/// The stored pairs with their counts widened to `int`.
pub open spec fn widen<T>(entries: Seq<(T, i64)>) -> Seq<(T, int)> {
    entries.map_values(|e: (T, i64)| (e.0, e.1 as int))
}

/// Widening the counts changes no key: distinct keys stay distinct, and the
/// same keys occur.
pub proof fn lemma_widen_keys<T>(entries: Seq<(T, i64)>)
    ensures
        keys_distinct(entries) ==> keys_distinct(widen(entries)),
        forall|k: T| has_key(widen(entries), k) <==> has_key(entries, k),
{
    let wide = widen(entries);
    if keys_distinct(entries) {
        assert forall|i: int, j: int| 0 <= i < j < wide.len() implies (#[trigger] wide[i]).0 != (
        #[trigger] wide[j]).0 by {
            assert(entries[i].0 != entries[j].0);
        }
    }
    assert forall|k: T| has_key(wide, k) <==> has_key(entries, k) by {
        if has_key(wide, k) {
            let i = position(wide, k);
            assert(entries[i].0 == k);
        }
        if has_key(entries, k) {
            let i = position(entries, k);
            assert(wide[i].0 == k);
        }
    }
}

/// A delta ledger over timestamps of type `T`.
///
/// Its meaning is the map `self@` from timestamps to non-zero counts. The pairs
/// are also available as a sequence, `self.entries()`, whose order carries no
/// meaning; `wf` ties the two together.
pub struct CountMap<T: Timestamp> {
    entries: Vec<(T, i64)>,
}

impl<T: Timestamp> View for CountMap<T> {
    type V = Map<T, int>;

    open spec fn view(&self) -> Map<T, int> {
        as_map(widen(self.entries()))
    }
}

impl<T: Timestamp> CountMap<T> {
    /// The ledger's pairs in the order in which `iterate` and `drain` hand them out.
    pub closed spec fn entries(&self) -> Seq<(T, i64)> {
        self.entries@
    }

    /// No timestamp has two entries and no entry is zero.
    pub open spec fn wf(&self) -> bool {
        &&& keys_distinct(self.entries())
        &&& forall|i: int| 0 <= i < self.entries().len() ==> (#[trigger] self.entries()[i]).1 != 0
    }

    /// How the pairs and the map of a well-formed ledger go together: the map
    /// holds no zero count and has exactly one key per pair, so the ledger is
    /// as large as the number of timestamps with a count.
    pub proof fn lemma_view(&self)
        requires
            self.wf(),
        ensures
            no_zero(self@),
            self@.dom().finite(),
            self@.dom().len() == self.entries().len(),
            self@ == Map::<T, int>::empty() <==> self.entries().len() == 0,
            forall|i: int|
                0 <= i < self.entries().len() ==> self@.contains_key((#[trigger] self.entries()[i]).0)
                    && self@[self.entries()[i].0] == self.entries()[i].1,
            forall|k: T|
                self@.contains_key(k) ==> exists|i: int|
                    0 <= i < self.entries().len() && (#[trigger] self.entries()[i]).0 == k,
    {
        let e = self.entries();
        let w = widen(e);
        lemma_widen_keys(e);
        assert forall|k: T| self@.contains_key(k) implies #[trigger] self@[k] != 0 by {
            let i = position(w, k);
            lemma_as_map_at(w, i);
            assert(e[i].1 != 0);
        }
        lemma_as_map_empty_iff(w);
        assert forall|i: int| 0 <= i < e.len() implies self@.contains_key((#[trigger] e[i]).0)
            && self@[e[i].0] == e[i].1 by {
            lemma_as_map_at(w, i);
            assert(w[i].0 == e[i].0);
        }
        assert forall|k: T| self@.contains_key(k) implies exists|i: int|
            0 <= i < e.len() && (#[trigger] e[i]).0 == k by {
            let i = position(w, k);
            assert(w[i].0 == k);
            assert(e[i].0 == k);
        }
        lemma_as_map_finite(w);
    }

    /// The empty ledger.
    pub fn new() -> (ledger: Self)
        ensures
            ledger.wf(),
            ledger@ == Map::<T, int>::empty(),
            ledger.entries() == Seq::<(T, i64)>::empty(),
    {
        let ledger = CountMap { entries: Vec::new() };
        proof {
            lemma_as_map_empty::<T, int>();
            assert(widen(ledger.entries()) =~= Seq::<(T, int)>::empty());
        }
        ledger
    }

    /// Merges `delta` into the count of `key` and returns the new count. An
    /// entry that reaches zero is removed; a zero delta for an absent key adds
    /// nothing.
    pub fn update(&mut self, key: T, delta: i64) -> (total: i64)
        requires
            old(self).wf(),
            i64::MIN <= count(old(self)@, key) + delta <= i64::MAX,
        ensures
            final(self).wf(),
            final(self)@ == ledger_apply(old(self)@, key, delta as int),
            total == count(old(self)@, key) + delta,
    {
        let ghost before = widen(self.entries());
        proof {
            lemma_widen_keys(self.entries());
        }
        match find(&self.entries, &key) {
            Some(i) => {
                proof {
                    lemma_as_map_at(before, i as int);
                    assert(before[i as int].1 == self.entries@[i as int].1);
                }
                let total = self.entries[i].1 + delta;
                if total == 0 {
                    self.entries.swap_remove(i);
                    proof {
                        lemma_as_map_swap_remove(before, i as int);
                        assert(widen(self.entries@) =~= before.update(i as int, before.last()).drop_last());
                    }
                } else {
                    self.entries[i].1 = total;
                    proof {
                        lemma_as_map_set(before, i as int, total as int);
                        assert(widen(self.entries@) =~= before.update(
                            i as int,
                            (before[i as int].0, total as int),
                        ));
                    }
                }
                total
            },
            None => {
                if delta != 0 {
                    self.entries.push((key, delta));
                    proof {
                        lemma_as_map_push(before, key, delta as int);
                        assert(widen(self.entries@) =~= before.push((key, delta as int)));
                    }
                } else {
                    assert(old(self)@.remove(key) =~= old(self)@);
                }
                delta
            },
        }
    }

    /// The count held for `key`: zero where there is no entry.
    pub fn count(&self, key: &T) -> (n: i64)
        requires
            self.wf(),
        ensures
            n == count(self@, *key),
    {
        proof {
            self.lemma_view();
            lemma_widen_keys(self.entries());
        }
        match find(&self.entries, key) {
            Some(i) => {
                proof {
                    assert(self.entries()[i as int].0 == *key);
                }
                self.entries[i].1
            },
            None => 0,
        }
    }

    /// A ledger with the same entries.
    pub fn copy(&self) -> (twin: Self)
        ensures
            twin.entries() == self.entries(),
            twin@ == self@,
            self.wf() ==> twin.wf(),
    {
        let mut entries: Vec<(T, i64)> = Vec::with_capacity(self.entries.len());
        let mut i: usize = 0;
        while i < self.entries.len()
            invariant
                i <= self.entries@.len(),
                entries@ == self.entries@.take(i as int),
            decreases self.entries@.len() - i,
        {
            entries.push(self.entries[i]);
            proof {
                assert(self.entries@.take(i + 1) =~= self.entries@.take(i as int).push(
                    self.entries@[i as int],
                ));
            }
            i += 1;
        }
        proof {
            assert(self.entries@.take(i as int) =~= self.entries@);
        }
        CountMap { entries }
    }

    /// Tests whether `deltas` can be merged one by one without any count
    /// leaving the range of `i64`: what `update_all` asks of its caller.
    pub fn fits(&self, deltas: &Vec<(T, i64)>) -> (ok: bool)
        requires
            self.wf(),
        ensures
            ok == merge_fits(self@, deltas@),
    {
        let mut scratch = self.copy();
        let mut i: usize = 0;
        while i < deltas.len()
            invariant
                i <= deltas@.len(),
                scratch.wf(),
                scratch@ == ledger_merge(self@, deltas@.take(i as int)),
                forall|j: int| 0 <= j < i ==> #[trigger] delta_fits(self@, deltas@, j),
            decreases deltas@.len() - i,
        {
            let (key, delta) = deltas[i];
            let held = scratch.count(&key);
            match held.checked_add(delta) {
                None => {
                    proof {
                        assert(deltas@[i as int] == (key, delta));
                        assert(!delta_fits(self@, deltas@, i as int));
                    }
                    return false;
                },
                Some(_) => {
                    proof {
                        assert(deltas@[i as int] == (key, delta));
                        assert(delta_fits(self@, deltas@, i as int));
                        assert(deltas@.take(i + 1).drop_last() =~= deltas@.take(i as int));
                    }
                    scratch.update(key, delta);
                },
            }
            i += 1;
        }
        true
    }

    /// Merges a list of deltas into the ledger, first to last.
    pub fn update_all(&mut self, deltas: &Vec<(T, i64)>)
        requires
            old(self).wf(),
            merge_fits(old(self)@, deltas@),
        ensures
            final(self).wf(),
            final(self)@ == ledger_merge(old(self)@, deltas@),
    {
        let mut i: usize = 0;
        while i < deltas.len()
            invariant
                i <= deltas@.len(),
                self.wf(),
                self@ == ledger_merge(old(self)@, deltas@.take(i as int)),
                merge_fits(old(self)@, deltas@),
            decreases deltas@.len() - i,
        {
            let (key, delta) = deltas[i];
            proof {
                assert(deltas@[i as int] == (key, delta));
                assert(delta_fits(old(self)@, deltas@, i as int));
                assert(deltas@.take(i + 1).drop_last() =~= deltas@.take(i as int));
            }
            self.update(key, delta);
            i += 1;
        }
        proof {
            assert(deltas@.take(i as int) =~= deltas@);
        }
    }

    /// Tests whether some entry sits at or before `time`.
    pub fn holds_back(&self, time: &T) -> (found: bool)
        requires
            self.wf(),
        ensures
            found == holds_back(self@, *time),
    {
        proof {
            self.lemma_view();
        }
        let mut i: usize = 0;
        while i < self.entries.len()
            invariant
                i <= self.entries@.len(),
                forall|j: int| 0 <= j < i ==> !(#[trigger] self.entries@[j]).0.le_spec(*time),
                forall|j: int|
                    0 <= j < self.entries().len() ==> self@.contains_key(
                        (#[trigger] self.entries()[j]).0,
                    ),
                self.entries() == self.entries@,
            decreases self.entries@.len() - i,
        {
            if self.entries[i].0.le(time) {
                proof {
                    assert(self@.contains_key(self.entries()[i as int].0));
                }
                return true;
            }
            i += 1;
        }
        proof {
            if holds_back(self@, *time) {
                let k = choose|k: T| self@.contains_key(k) && #[trigger] k.le_spec(*time);
                let j = choose|j: int|
                    0 <= j < self.entries().len() && (#[trigger] self.entries()[j]).0 == k;
                assert(!self.entries@[j].0.le_spec(*time));
            }
        }
        false
    }

    /// The current pairs, in no particular order.
    pub fn iterate(&self) -> (pairs: &Vec<(T, i64)>)
        ensures
            pairs@ == self.entries(),
    {
        &self.entries
    }

    /// Hands out all pairs and leaves the ledger empty.
    pub fn drain(&mut self) -> (pairs: Vec<(T, i64)>)
        requires
            old(self).wf(),
        ensures
            pairs@ == old(self).entries(),
            final(self).wf(),
            final(self)@ == Map::<T, int>::empty(),
            final(self).entries() == Seq::<(T, i64)>::empty(),
    {
        let mut pairs: Vec<(T, i64)> = Vec::new();
        core::mem::swap(&mut pairs, &mut self.entries);
        proof {
            lemma_as_map_empty::<T, int>();
            assert(widen(self.entries()) =~= Seq::<(T, int)>::empty());
        }
        pairs
    }
}

/// Two updates of one key amount to a single update by the sum of their deltas.
pub proof fn lemma_update_twice_is_sum<T>(m: Map<T, int>, k: T, a: int, b: int)
    ensures
        ledger_apply(ledger_apply(m, k, a), k, b) == ledger_apply(m, k, a + b),
{
    assert(ledger_apply(ledger_apply(m, k, a), k, b) =~= ledger_apply(m, k, a + b));
}

/// A delta followed by its opposite on a key that had no entry leaves the key without one.
pub proof fn lemma_update_then_cancel<T>(m: Map<T, int>, k: T, d: int)
    requires
        !m.contains_key(k),
    ensures
        !ledger_apply(ledger_apply(m, k, d), k, -d).contains_key(k),
        ledger_apply(ledger_apply(m, k, d), k, -d) == m,
{
    assert(ledger_apply(ledger_apply(m, k, d), k, -d) =~= m);
}

/// Two deltas for one key in a row merge as their sum does.
pub proof fn lemma_merge_twice_is_sum<T>(m: Map<T, int>, k: T, a: i64, b: i64)
    requires
        i64::MIN <= a + b <= i64::MAX,
    ensures
        ledger_merge(m, seq![(k, a), (k, b)]) == ledger_merge(m, seq![(k, (a + b) as i64)]),
{
    let two = seq![(k, a), (k, b)];
    let one = seq![(k, (a + b) as i64)];
    assert(two.drop_last() =~= seq![(k, a)]);
    assert(seq![(k, a)].drop_last() =~= Seq::<(T, i64)>::empty());
    assert(one.drop_last() =~= Seq::<(T, i64)>::empty());
    assert(ledger_merge(m, Seq::<(T, i64)>::empty()) == m);
    assert(ledger_merge(m, seq![(k, a)]) == ledger_apply(m, k, a as int));
    assert(ledger_merge(m, two) == ledger_apply(ledger_apply(m, k, a as int), k, b as int));
    assert(ledger_merge(m, one) == ledger_apply(m, k, a + b));
    lemma_update_twice_is_sum(m, k, a as int, b as int);
}

/// Updates may be merged in either order.
pub proof fn lemma_update_commutes<T>(m: Map<T, int>, k1: T, d1: int, k2: T, d2: int)
    ensures
        ledger_apply(ledger_apply(m, k1, d1), k2, d2) == ledger_apply(
            ledger_apply(m, k2, d2),
            k1,
            d1,
        ),
{
    assert(ledger_apply(ledger_apply(m, k1, d1), k2, d2) =~= ledger_apply(
        ledger_apply(m, k2, d2),
        k1,
        d1,
    ));
}

/// Merging two lists one after the other is merging their concatenation.
pub proof fn lemma_merge_concat<T>(m: Map<T, int>, first: Seq<(T, i64)>, second: Seq<(T, i64)>)
    ensures
        ledger_merge(ledger_merge(m, first), second) == ledger_merge(m, first + second),
    decreases second.len(),
{
    if second.len() == 0 {
        assert(first + second =~= first);
    } else {
        lemma_merge_concat(m, first, second.drop_last());
        assert((first + second).drop_last() =~= first + second.drop_last());
    }
}

/// Merging keeps a ledger free of zero entries.
pub proof fn lemma_apply_no_zero<T>(m: Map<T, int>, k: T, d: int)
    requires
        no_zero(m),
    ensures
        no_zero(ledger_apply(m, k, d)),
{
}

} // verus!
