//! Antichains: frontiers kept as sets of mutually incomparable elements.

use vstd::prelude::*;
use crate::keyed::among;
use crate::timestamp::PartialOrder;

verus! {

/// Some element of `s` is at or before `e`.
pub open spec fn dominated<E: PartialOrder>(s: Set<E>, e: E) -> bool {
    exists|x: E| s.contains(x) && #[trigger] x.le_spec(e)
}

/// A set of elements none of which is at or before another: the minimal
/// elements of everything that was inserted.
pub struct Antichain<E: PartialOrder> {
    elements: Vec<E>,
}

impl<E: PartialOrder> View for Antichain<E> {
    type V = Set<E>;

    open spec fn view(&self) -> Set<E> {
        self.elements().to_set()
    }
}

impl<E: PartialOrder> Antichain<E> {
    /// The elements in the order in which they are stored.
    pub closed spec fn elements(&self) -> Seq<E> {
        self.elements@
    }

    /// No element is at or before another one.
    pub open spec fn wf(&self) -> bool {
        forall|i: int, j: int|
            0 <= i < self.elements().len() && 0 <= j < self.elements().len() && i != j
                ==> !(#[trigger] self.elements()[i]).le_spec(#[trigger] self.elements()[j])
    }

    /// The empty antichain.
    pub fn new() -> (chain: Self)
        ensures
            chain.wf(),
            chain@ == Set::<E>::empty(),
    {
        let chain = Antichain { elements: Vec::new() };
        assert(chain@ =~= Set::<E>::empty());
        chain
    }

    /// The antichain that holds `element` alone.
    pub fn from_elem(element: E) -> (chain: Self)
        ensures
            chain.wf(),
            chain@ == Set::<E>::empty().insert(element),
    {
        let mut elements: Vec<E> = Vec::new();
        elements.push(element);
        let chain = Antichain { elements };
        assert(chain.elements()[0] == element);
        assert(chain@ =~= Set::<E>::empty().insert(element));
        chain
    }

    /// Offers `element` to the antichain. It is taken, and `true` returned,
    /// unless an element already present is at or before it; when it is taken,
    /// every element that it precedes leaves.
    pub fn insert(&mut self, element: E) -> (added: bool)
        requires
            old(self).wf(),
        ensures
            final(self).wf(),
            added == !dominated(old(self)@, element),
            final(self)@ == if added {
                old(self)@.filter(|x: E| !element.le_spec(x)).insert(element)
            } else {
                old(self)@
            },
    {
        let mut i: usize = 0;
        while i < self.elements.len()
            invariant
                i <= self.elements@.len(),
                self.elements@ == old(self).elements@,
                self.wf(),
                forall|j: int| 0 <= j < i ==> !(#[trigger] self.elements@[j]).le_spec(element),
            decreases self.elements@.len() - i,
        {
            if self.elements[i].le(&element) {
                proof {
                    assert(old(self)@.contains(self.elements@[i as int]));
                }
                return false;
            }
            i += 1;
        }
        proof {
            assert(!dominated(old(self)@, element)) by {
                if dominated(old(self)@, element) {
                    let x = choose|x: E| old(self)@.contains(x) && #[trigger] x.le_spec(element);
                    let j = choose|j: int| 0 <= j < self.elements@.len() && self.elements@[j] == x;
                    assert(!self.elements@[j].le_spec(element));
                }
            }
        }
        let mut kept: Vec<E> = Vec::new();
        let mut i: usize = 0;
        while i < self.elements.len()
            invariant
                i <= self.elements@.len(),
                self.elements@ == old(self).elements@,
                forall|a: int| 0 <= a < kept@.len() ==> !element.le_spec(#[trigger] kept@[a]),
                forall|a: int|
                    0 <= a < kept@.len() ==> among(self.elements@, i as int, #[trigger] kept@[a]),
                forall|j: int|
                    0 <= j < i && !element.le_spec(#[trigger] self.elements@[j])
                        ==> kept@.contains(self.elements@[j]),
                forall|a: int, b: int|
                    0 <= a < kept@.len() && 0 <= b < kept@.len() && a != b ==> !(
                    #[trigger] kept@[a]).le_spec(#[trigger] kept@[b]),
                self.wf(),
            decreases self.elements@.len() - i,
        {
            let x = self.elements[i];
            if !element.le(&x) {
                proof {
                    assert forall|a: int| 0 <= a < kept@.len() implies !(#[trigger] kept@[a]).le_spec(
                        x,
                    ) && !x.le_spec(kept@[a]) by {
                        assert(among(self.elements@, i as int, kept@[a]));
                        assert(self.elements() == self.elements@);
                        let j = choose|j: int|
                            0 <= j < i && j < self.elements@.len() && #[trigger] self.elements@[j]
                                == kept@[a];
                        assert(!self.elements@[j].le_spec(self.elements@[i as int]));
                        assert(!self.elements@[i as int].le_spec(self.elements@[j]));
                    }
                }
                let ghost before = kept@;
                kept.push(x);
                proof {
                    assert(kept@[before.len() as int] == x);
                    assert forall|j: int|
                        0 <= j < i + 1 && !element.le_spec(
                            #[trigger] self.elements@[j],
                        ) implies kept@.contains(self.elements@[j]) by {
                        if j < i {
                            let a = choose|a: int|
                                0 <= a < before.len() && before[a] == self.elements@[j];
                            assert(kept@[a] == self.elements@[j]);
                        }
                    }
                    assert forall|a: int| 0 <= a < kept@.len() implies among(
                        self.elements@,
                        i + 1,
                        #[trigger] kept@[a],
                    ) by {
                        if a < before.len() {
                            assert(among(self.elements@, i as int, before[a]));
                            let j = choose|j: int|
                                0 <= j < i && j < self.elements@.len() && #[trigger] self.elements@[j]
                                    == before[a];
                            assert(self.elements@[j] == kept@[a]);
                        } else {
                            assert(self.elements@[i as int] == kept@[a]);
                        }
                    }
                }
            }
            i += 1;
        }
        let ghost survivors = kept@;
        kept.push(element);
        self.elements = kept;
        proof {
            let now = self.elements@;
            assert(now[survivors.len() as int] == element);
            assert forall|a: int, b: int|
                0 <= a < now.len() && 0 <= b < now.len() && a != b implies !(#[trigger] now[a]).le_spec(
                #[trigger] now[b]) by {
                if a == survivors.len() {
                    assert(!element.le_spec(survivors[b]));
                } else if b == survivors.len() {
                    assert(among(old(self).elements@, i as int, survivors[a]));
                    let j = choose|j: int|
                        0 <= j < old(self).elements@.len() && #[trigger] old(self).elements@[j]
                            == survivors[a];
                    assert(!old(self).elements@[j].le_spec(element));
                } else {
                    assert(!survivors[a].le_spec(survivors[b]));
                }
            }
            let goal = old(self)@.filter(|x: E| !element.le_spec(x)).insert(element);
            assert forall|x: E| self@.contains(x) <==> goal.contains(x) by {
                if self@.contains(x) {
                    let a = choose|a: int| 0 <= a < now.len() && now[a] == x;
                    if a < survivors.len() {
                        assert(among(old(self).elements@, i as int, survivors[a]));
                        let j = choose|j: int|
                            0 <= j < old(self).elements@.len() && #[trigger] old(self).elements@[j]
                                == survivors[a];
                        assert(old(self)@.contains(x));
                        assert(!element.le_spec(survivors[a]));
                    }
                }
                if goal.contains(x) {
                    if x == element {
                        assert(now[survivors.len() as int] == x);
                    } else {
                        let j = choose|j: int|
                            0 <= j < old(self).elements@.len() && old(self).elements@[j] == x;
                        assert(!element.le_spec(old(self).elements@[j]));
                        assert(survivors.contains(x));
                        let a = choose|a: int| 0 <= a < survivors.len() && survivors[a] == x;
                        assert(now[a] == x);
                    }
                }
            }
            assert(self@ =~= goal);
        }
        true
    }

    /// The elements, in no particular order.
    pub fn elements_vec(&self) -> (elements: &Vec<E>)
        ensures
            elements@ == self.elements(),
    {
        &self.elements
    }
}

} // verus!
