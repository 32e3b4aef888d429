//! The frontier: discovered-but-unexpanded search nodes, popped in order
//! of ascending estimated total cost `f = g + h`, ties broken by insertion
//! order.

use vstd::prelude::*;

use crate::topology::NodeId;

verus! {

/// A candidate for expansion: a node, its 64-bit key, the accumulated
/// realized cost `g` from the start, and the heuristic estimate `h` to the
/// goal, both in scaled cost units.
#[derive(Clone, Copy)]
pub struct Entry {
    pub node: NodeId,
    pub key: u64,
    pub g: u64,
    pub h: u64,
}

impl Entry {
    /// The ordering key `g + h`, saturated at `u64::MAX`.
    pub open spec fn f_spec(self) -> int {
        if self.g + self.h > u64::MAX {
            u64::MAX as int
        } else {
            self.g + self.h
        }
    }

    /// Executable ordering key, equal to [`Entry::f_spec`].
    pub fn f(&self) -> (r: u64)
        ensures
            r == self.f_spec(),
    {
        if self.g <= u64::MAX - self.h {
            self.g + self.h
        } else {
            u64::MAX
        }
    }
}

/// A priority structure over [`Entry`] values. Duplicate entries for one
/// node may coexist; stale ones are skipped by the engine on pop.
pub struct Frontier {
    entries: Vec<Entry>,
}

impl View for Frontier {
    type V = Seq<Entry>;

    closed spec fn view(&self) -> Seq<Entry> {
        self.entries@
    }
}

impl Frontier {
    pub fn new() -> (r: Self)
        ensures
            r@ =~= Seq::<Entry>::empty(),
    {
        Frontier { entries: Vec::new() }
    }

    pub fn is_empty(&self) -> (r: bool)
        ensures
            r == (self@.len() == 0),
    {
        self.entries.len() == 0
    }

    /// Adds one candidate.
    pub fn push(&mut self, e: Entry)
        ensures
            final(self)@ == old(self)@.push(e),
    {
        self.entries.push(e);
    }

    /// Removes and returns the entry with the least `f`; among equal `f`
    /// values, the one inserted earliest.
    pub fn pop_min(&mut self) -> (r: Option<Entry>)
        ensures
            old(self)@.len() == 0 ==> r is None && final(self)@ == old(self)@,
            old(self)@.len() > 0 ==> match r {
                Some(e) => exists|i: int|
                    {
                        &&& 0 <= i < old(self)@.len()
                        &&& e == old(self)@[i]
                        &&& final(self)@ == old(self)@.remove(i)
                        &&& forall|j: int|
                            0 <= j < old(self)@.len() ==> (#[trigger] old(self)@[j]).f_spec()
                                >= e.f_spec()
                        &&& forall|j: int|
                            0 <= j < i ==> (#[trigger] old(self)@[j]).f_spec() > e.f_spec()
                    },
                None => false,
            },
    {
        if self.entries.len() == 0 {
            return None;
        }
        let mut best_i: usize = 0;
        let mut best_f: u64 = self.entries[0].f();
        let mut j: usize = 1;
        while j < self.entries.len()
            invariant
                1 <= j <= self.entries@.len(),
                best_i < j,
                best_f == self.entries@[best_i as int].f_spec(),
                forall|k: int|
                    0 <= k < j ==> (#[trigger] self.entries@[k]).f_spec() >= best_f,
                forall|k: int| 0 <= k < best_i ==> (#[trigger] self.entries@[k]).f_spec() > best_f,
            decreases self.entries@.len() - j,
        {
            let fj = self.entries[j].f();
            if fj < best_f {
                best_i = j;
                best_f = fj;
            }
            j = j + 1;
        }
        let e = self.entries.remove(best_i);
        Some(e)
    }
}

} // verus!
