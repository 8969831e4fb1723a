//! Callers that wait for a log entry to commit.
use vstd::prelude::*;

use crate::types::primitives::LogIndex;
use crate::types::primitives::Term;

verus! {

/// Somebody who waits for the entry with a term and an index.
pub type Waiting<V> = (Term, LogIndex, V);

/// Whether position `i` holds who waits for this entry.
pub open spec fn waits_at<V>(waiting: Seq<Waiting<V>>, term: Term, index: LogIndex, i: int) -> bool {
    0 <= i < waiting.len() && waiting[i].0 == term && waiting[i].1 == index
}

/// Whether anybody waits for this entry.
pub open spec fn is_awaited<V>(waiting: Seq<Waiting<V>>, term: Term, index: LogIndex) -> bool {
    exists|i: int| waits_at(waiting, term, index, i)
}

/// Where in the list the one is who waits for this entry.
pub open spec fn place_of<V>(waiting: Seq<Waiting<V>>, term: Term, index: LogIndex) -> int {
    choose|i: int| waits_at(waiting, term, index, i)
}

/// The list without whoever waits for this entry.
pub open spec fn without<V>(waiting: Seq<Waiting<V>>, term: Term, index: LogIndex) -> Seq<
    Waiting<V>,
> {
    if is_awaited(waiting, term, index) {
        waiting.remove(place_of(waiting, term, index))
    } else {
        waiting
    }
}

/// No two wait for the same entry.
pub open spec fn distinct<V>(waiting: Seq<Waiting<V>>) -> bool {
    forall|i: int, j: int|
        0 <= i < j < waiting.len() ==> !((#[trigger] waiting[i]).0 == (#[trigger] waiting[j]).0
            && waiting[i].1 == waiting[j].1)
}

/// Those who wait for an entry to commit, keyed by its term and index, longest first.
///
/// The term is part of the key because an index alone does not identify a submission. If leadership
/// changes before the entry commits, a different leader can write an unrelated entry at the same
/// index, and an index-keyed map would hand that entry's result to this caller.
pub struct Waiters<V> {
    items: Vec<Waiting<V>>,
}

impl<V> View for Waiters<V> {
    type V = Seq<Waiting<V>>;

    closed spec fn view(&self) -> Seq<Waiting<V>> {
        self.items@
    }
}

impl<V> Waiters<V> {
    #[verifier::type_invariant]
    spec fn inv(self) -> bool {
        distinct(self.items@)
    }

    /// Nobody waits.
    pub fn new() -> (waiters: Self)
        ensures
            waiters@ == Seq::<Waiting<V>>::empty(),
    {
        Waiters { items: Vec::new() }
    }

    /// How many wait.
    pub fn len(&self) -> (len: usize)
        ensures
            len == self@.len(),
    {
        self.items.len()
    }

    fn find(&self, term: Term, index: LogIndex) -> (place: Option<usize>)
        ensures
            place is Some <==> is_awaited(self@, term, index),
            place matches Some(i) ==> i < self@.len() && i == place_of(self@, term, index),
    {
        proof {
            use_type_invariant(self);
        }
        let mut i: usize = 0;
        while i < self.items.len()
            invariant
                i <= self.items.len(),
                distinct(self.items@),
                forall|k: int| 0 <= k < i ==> !waits_at(self@, term, index, k),
            decreases self.items.len() - i,
        {
            if self.items[i].0.value == term.value && self.items[i].1.value == index.value {
                proof {
                    assert(waits_at(self@, term, index, i as int));
                    let j = place_of(self@, term, index);
                    assert(waits_at(self@, term, index, j));
                    assert(i == j);
                }
                return Some(i);
            }
            i = i + 1;
        }
        None
    }

    /// Takes out whoever waits for this entry.
    pub fn remove(&mut self, term: Term, index: LogIndex) -> (waiter: Option<V>)
        ensures
            final(self)@ == without(old(self)@, term, index),
            waiter is Some <==> is_awaited(old(self)@, term, index),
            waiter matches Some(w) ==> w == old(self)@[place_of(old(self)@, term, index)].2,
            distinct(final(self)@),
    {
        let place = self.find(term, index);
        match place {
            Some(i) => {
                proof {
                    use_type_invariant(&*self);
                }
                let mut items: Vec<Waiting<V>> = Vec::new();
                std::mem::swap(&mut items, &mut self.items);
                let found = items.remove(i);
                self.items = items;
                Some(found.2)
            },
            None => {
                proof {
                    use_type_invariant(&*self);
                }
                None
            },
        }
    }

    /// Makes `waiter` the one who waits for this entry.
    pub fn insert(&mut self, term: Term, index: LogIndex, waiter: V)
        ensures
            final(self)@ == without(old(self)@, term, index).push((term, index, waiter)),
            distinct(final(self)@),
    {
        let ghost before = self@;
        proof {
            use_type_invariant(&*self);
        }
        self.remove(term, index);
        proof {
            use_type_invariant(&*self);
            assert forall|k: int| !waits_at(self@, term, index, k) by {
                if waits_at(self@, term, index, k) {
                    if is_awaited(before, term, index) {
                        let p = place_of(before, term, index);
                        assert(waits_at(before, term, index, p));
                        let k2 = if k < p {
                            k
                        } else {
                            k + 1
                        };
                        assert(before[k2] == self@[k]);
                        assert(waits_at(before, term, index, k2));
                    } else {
                        assert(waits_at(before, term, index, k));
                    }
                }
            }
        }
        let ghost kept = self@;
        let mut items: Vec<Waiting<V>> = Vec::new();
        std::mem::swap(&mut items, &mut self.items);
        items.push((term, index, waiter));
        proof {
            assert forall|i: int, j: int| 0 <= i < j < items@.len() implies !((#[trigger] items@[i]).0
                == (#[trigger] items@[j]).0 && items@[i].1 == items@[j].1) by {
                if j == kept.len() {
                    assert(!waits_at(kept, term, index, i));
                }
            }
        }
        self.items = items;
    }

    /// Takes out everybody.
    pub fn drain(&mut self) -> (waiting: Vec<Waiting<V>>)
        ensures
            waiting@ == old(self)@,
            final(self)@ == Seq::<Waiting<V>>::empty(),
    {
        let mut items: Vec<Waiting<V>> = Vec::new();
        std::mem::swap(&mut items, &mut self.items);
        items
    }
}

/// Taking one out takes out who waits for that entry, and nobody else.
pub proof fn lemma_without<V>(waiting: Seq<Waiting<V>>, term: Term, index: LogIndex)
    requires
        distinct(waiting),
    ensures
        distinct(without(waiting, term, index)),
        forall|w: Waiting<V>| #[trigger]
            without(waiting, term, index).contains(w) <==> waiting.contains(w) && !(w.0 == term
                && w.1 == index),
{
    let rest = without(waiting, term, index);
    if is_awaited(waiting, term, index) {
        let p = place_of(waiting, term, index);
        assert(waits_at(waiting, term, index, p));
        assert(rest == waiting.remove(p));
        assert forall|w: Waiting<V>| waiting.contains(w) && !(w.0 == term && w.1
            == index) implies #[trigger] rest.contains(w) by {
            let i = choose|i: int| 0 <= i < waiting.len() && waiting[i] == w;
            if i < p {
                assert(rest[i] == w);
            } else {
                assert(rest[i - 1] == w);
            }
        }
        assert forall|w: Waiting<V>| #[trigger] rest.contains(w) implies waiting.contains(w) && !(
        w.0 == term && w.1 == index) by {
            let i = choose|i: int| 0 <= i < rest.len() && rest[i] == w;
            if i < p {
                assert(waiting[i] == w);
            } else {
                assert(waiting[i + 1] == w);
            }
        }
        assert forall|i: int, j: int| 0 <= i < j < rest.len() implies !((#[trigger] rest[i]).0 == (
        #[trigger] rest[j]).0 && rest[i].1 == rest[j].1) by {
            let i2 = if i < p {
                i
            } else {
                i + 1
            };
            let j2 = if j < p {
                j
            } else {
                j + 1
            };
            assert(waiting[i2] == rest[i] && waiting[j2] == rest[j]);
        }
    } else {
        assert forall|w: Waiting<V>| #[trigger] waiting.contains(w) implies !(w.0 == term && w.1
            == index) by {
            let i = choose|i: int| 0 <= i < waiting.len() && waiting[i] == w;
            assert(!waits_at(waiting, term, index, i));
        }
    }
}

} // verus!
