//! A selector that walks a fixed list in order and starts over at its end.
use vstd::prelude::*;
use vstd::arithmetic::div_mod::{lemma_mod_self_0, lemma_small_mod};

verus! {

/// Yields the items of a non-empty list in order, then repeats the same order forever.
pub struct CyclicSelector<T> {
    items: Vec<T>,
    cursor: usize,
}

impl<T> CyclicSelector<T> {
    /// The list that is cycled through.
    pub closed spec fn items(&self) -> Seq<T> {
        self.items@
    }

    /// The position of the item that comes next.
    pub closed spec fn cursor(&self) -> nat {
        self.cursor as nat
    }

    pub open spec fn wf(&self) -> bool {
        &&& self.items().len() > 0
        &&& self.cursor() < self.items().len()
    }

    /// The item that `advance` moves past.
    pub open spec fn current_spec(&self) -> T {
        self.items()[self.cursor() as int]
    }

    pub fn new(items: Vec<T>) -> (r: Self)
        requires
            items@.len() > 0,
        ensures
            r.wf(),
            r.items() == items@,
            r.cursor() == 0,
    {
        CyclicSelector { items, cursor: 0 }
    }

    pub fn current(&self) -> (r: &T)
        requires
            self.wf(),
        ensures
            *r == self.current_spec(),
    {
        &self.items[self.cursor]
    }

    /// Moves to the next item, wrapping back to the first after the last.
    pub fn advance(&mut self)
        requires
            old(self).wf(),
        ensures
            final(self).wf(),
            final(self).items() == old(self).items(),
            final(self).cursor() == (old(self).cursor() + 1) % old(self).items().len(),
    {
        let n: usize = self.items.len();
        if self.cursor == n - 1 {
            self.cursor = 0;
            proof {
                lemma_mod_self_0(n as int);
            }
        } else {
            self.cursor = self.cursor + 1;
            proof {
                lemma_small_mod(self.cursor as nat, n as nat);
            }
        }
    }

    pub fn len(&self) -> (r: usize)
        ensures
            r == self.items().len(),
    {
        self.items.len()
    }
}

} // verus!
