//! The priority frontier of the path search: a bag of entries from which the
//! least is taken first.

use crate::maze::Point;
use vstd::multiset::Multiset;
use vstd::prelude::*;

verus! {

/// A cell waiting to be expanded, with the priority it was entered at.
#[derive(Copy, Clone, PartialEq, Eq, Debug, Structural)]
pub struct Entry {
    pub priority: usize,
    pub point: Point,
}

impl Entry {
    /// The order in which entries leave the frontier: by priority, then by
    /// row, then by column.
    pub open spec fn precedes(self, other: Entry) -> bool {
        ||| self.priority < other.priority
        ||| self.priority == other.priority && self.point.0 < other.point.0
        ||| self.priority == other.priority && self.point.0 == other.point.0 && self.point.1
            <= other.point.1
    }

    /// Whether `self` leaves the frontier no later than `other`.
    pub fn comes_before(&self, other: &Entry) -> (b: bool)
        ensures
            b == self.precedes(*other),
    {
        if self.priority != other.priority {
            self.priority < other.priority
        } else if self.point.0 != other.point.0 {
            self.point.0 < other.point.0
        } else {
            self.point.1 <= other.point.1
        }
    }
}

/// A bag of entries. Entries that are equal cannot be told apart, so the bag
/// is a multiset.
pub struct Frontier {
    entries: Vec<Entry>,
}

impl View for Frontier {
    type V = Multiset<Entry>;

    /// The entries, each as often as it was pushed and not yet taken out.
    closed spec fn view(&self) -> Multiset<Entry> {
        self.entries@.to_multiset()
    }
}

impl Frontier {
    /// An empty frontier.
    pub fn new() -> (frontier: Self)
        ensures
            frontier@ == Multiset::<Entry>::empty(),
    {
        let frontier = Frontier { entries: Vec::new() };
        proof {
            frontier.entries@.to_multiset_ensures();
            assert(frontier@ =~= Multiset::<Entry>::empty());
        }
        frontier
    }

    /// The number of entries, equal ones counted as often as they occur.
    pub fn len(&self) -> (len: usize)
        ensures
            len == self@.len(),
    {
        proof {
            self.entries@.to_multiset_ensures();
        }
        self.entries.len()
    }

    /// Whether the frontier holds no entry.
    pub fn is_empty(&self) -> (empty: bool)
        ensures
            empty == (self@.len() == 0),
    {
        self.len() == 0
    }

    /// Adds one entry.
    pub fn push(&mut self, entry: Entry)
        ensures
            final(self)@ == old(self)@.insert(entry),
    {
        proof {
            self.entries@.to_multiset_ensures();
        }
        self.entries.push(entry);
    }

    /// Takes out the entry that precedes all others. Returns `None` exactly
    /// when the frontier is empty.
    pub fn pop(&mut self) -> (least: Option<Entry>)
        ensures
            match least {
                Some(entry) => {
                    &&& old(self)@.contains(entry)
                    &&& forall|other: Entry| old(self)@.contains(other) ==> entry.precedes(other)
                    &&& final(self)@ == old(self)@.remove(entry)
                },
                None => old(self)@.len() == 0 && final(self)@ == old(self)@,
            },
    {
        proof {
            self.entries@.to_multiset_ensures();
        }
        if self.entries.len() == 0 {
            return None;
        }
        let mut best: usize = 0;
        let mut i: usize = 1;
        while i < self.entries.len()
            invariant
                0 <= best < i <= self.entries@.len(),
                forall|k: int| 0 <= k < i ==> self.entries@[best as int].precedes(self.entries@[k]),
            decreases self.entries@.len() - i,
        {
            if !self.entries[best].comes_before(&self.entries[i]) {
                best = i;
            }
            i = i + 1;
        }
        let ghost before = self.entries@;
        let entry = self.entries.remove(best);
        proof {
            assert(before.contains(entry));
            assert forall|other: Entry| old(self)@.contains(other) implies entry.precedes(
                other,
            ) by {
                assert(before.contains(other));
                let k = choose|k: int| 0 <= k < before.len() && before[k] == other;
                assert(before[best as int].precedes(before[k]));
            }
        }
        Some(entry)
    }
}

} // verus!
