//! Cell addresses.

use core::cmp::Ordering;
use vstd::prelude::*;
use vstd::std_specs::cmp::PartialOrdSpecImpl;

verus! {

/// A cell address: row first, then column. Points are ordered by row, and
/// within a row by column.
#[derive(Copy, Clone, Eq, PartialEq, Hash, Debug, Ord, Structural)]
pub struct Point(pub usize, pub usize);

impl PartialOrd for Point {
    /// Compares by row, then by column.
    fn partial_cmp(&self, other: &Self) -> (order: Option<Ordering>) {
        if self.0 < other.0 {
            Some(Ordering::Less)
        } else if self.0 > other.0 {
            Some(Ordering::Greater)
        } else if self.1 < other.1 {
            Some(Ordering::Less)
        } else if self.1 > other.1 {
            Some(Ordering::Greater)
        } else {
            Some(Ordering::Equal)
        }
    }
}

impl PartialOrdSpecImpl for Point {
    /// The comparison of points is what `partial_cmp_spec` says.
    open spec fn obeys_partial_cmp_spec() -> bool {
        true
    }

    /// The point in the lower row is less; in one row, the point in the
    /// lower column.
    open spec fn partial_cmp_spec(&self, other: &Self) -> Option<Ordering> {
        if self.0 < other.0 || (self.0 == other.0 && self.1 < other.1) {
            Some(Ordering::Less)
        } else if self.0 == other.0 && self.1 == other.1 {
            Some(Ordering::Equal)
        } else {
            Some(Ordering::Greater)
        }
    }
}

} // verus!
