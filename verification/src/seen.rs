//! The set of cell layouts that the search has already evaluated.
//!
//! Layouts are kept in buckets under a digest of their cells. A lookup
//! compares the cells themselves, so two different layouts are never taken
//! for one another, whatever their digests.

use crate::maze::Cell;
use std::collections::HashMap;
use vstd::prelude::*;

verus! {

broadcast use vstd::std_specs::hash::group_hash_axioms;

/// The modulus of the digest, a prime.
pub const DIGEST_MODULUS: u64 = 2305843009213693951;

/// The factor by which the digest is multiplied for each further cell.
pub const DIGEST_FACTOR: u64 = 1099511628211;

/// The number that stands for a cell in the digest.
pub open spec fn cell_number(cell: Cell) -> int {
    match cell {
        Cell::Space => 0,
        Cell::Wall => 1,
    }
}

/// The digest of a layout: its cells read as the digits of a number to the
/// base `DIGEST_FACTOR`, modulo `DIGEST_MODULUS`.
pub open spec fn digest(cells: Seq<Cell>) -> int
    decreases cells.len(),
{
    if cells.len() == 0 {
        0
    } else {
        (digest(cells.drop_last()) * DIGEST_FACTOR + cell_number(cells.last())) % (
        DIGEST_MODULUS as int)
    }
}

/// Whether two layouts are cell for cell the same.
pub fn same_cells(a: &Vec<Cell>, b: &Vec<Cell>) -> (same: bool)
    ensures
        same == (a@ == b@),
{
    if a.len() != b.len() {
        return false;
    }
    let mut i: usize = 0;
    while i < a.len()
        invariant
            a@.len() == b@.len(),
            i <= a@.len(),
            forall|k: int| 0 <= k < i ==> a@[k] == b@[k],
        decreases a@.len() - i,
    {
        if a[i] != b[i] {
            return false;
        }
        i = i + 1;
    }
    assert(a@ =~= b@);
    true
}

/// A copy of a layout.
fn copy_of(cells: &Vec<Cell>) -> (copy: Vec<Cell>)
    ensures
        copy@ == cells@,
{
    let mut copy: Vec<Cell> = Vec::new();
    let mut i: usize = 0;
    while i < cells.len()
        invariant
            i <= cells@.len(),
            copy@ == cells@.subrange(0, i as int),
        decreases cells@.len() - i,
    {
        copy.push(cells[i]);
        assert(copy@ =~= cells@.subrange(0, i + 1));
        i = i + 1;
    }
    assert(copy@ =~= cells@);
    copy
}

/// Computes the digest of a layout.
pub fn digest_of(cells: &Vec<Cell>) -> (value: u64)
    ensures
        value == digest(cells@),
{
    let mut value: u64 = 0;
    let mut i: usize = 0;
    while i < cells.len()
        invariant
            i <= cells@.len(),
            value == digest(cells@.subrange(0, i as int)),
            value < DIGEST_MODULUS,
        decreases cells@.len() - i,
    {
        let number: u128 = match cells[i] {
            Cell::Space => 0,
            Cell::Wall => 1,
        };
        assert(value as u128 * DIGEST_FACTOR as u128 + number <= u128::MAX) by (nonlinear_arith)
            requires
                value < DIGEST_MODULUS,
                number <= 1,
        ;
        let wide: u128 = (value as u128 * DIGEST_FACTOR as u128 + number) % (
        DIGEST_MODULUS as u128);
        proof {
            let longer = cells@.subrange(0, i + 1);
            assert(longer.drop_last() =~= cells@.subrange(0, i as int));
            assert(longer.last() == cells@[i as int]);
        }
        value = wide as u64;
        i = i + 1;
    }
    assert(cells@.subrange(0, i as int) =~= cells@);
    value
}

/// Whether one of the layouts in `bucket` is `cells`.
pub open spec fn bucket_holds(bucket: Seq<Vec<Cell>>, cells: Seq<Cell>) -> bool {
    exists|i: int| 0 <= i < bucket.len() && (#[trigger] bucket[i])@ == cells
}

/// A set of cell layouts.
pub struct SeenSet {
    buckets: HashMap<u64, Vec<Vec<Cell>>>,
}

impl View for SeenSet {
    type V = Set<Seq<Cell>>;

    /// The layouts in the set: each is found in the bucket of its digest.
    closed spec fn view(&self) -> Set<Seq<Cell>> {
        Set::new(
            |cells: Seq<Cell>|
                self.buckets@.contains_key(digest(cells) as u64) && bucket_holds(
                    self.buckets@[digest(cells) as u64]@,
                    cells,
                ),
        )
    }
}

impl SeenSet {
    /// The empty set.
    pub fn new() -> (seen: Self)
        ensures
            seen@ == Set::<Seq<Cell>>::empty(),
    {
        let seen = SeenSet { buckets: HashMap::new() };
        assert(seen@ =~= Set::<Seq<Cell>>::empty());
        seen
    }

    /// Whether the layout `cells` is in the set.
    pub fn contains(&self, cells: &Vec<Cell>) -> (found: bool)
        ensures
            found == self@.contains(cells@),
    {
        let key = digest_of(cells);
        match self.buckets.get(&key) {
            Some(bucket) => {
                let mut i: usize = 0;
                while i < bucket.len()
                    invariant
                        i <= bucket@.len(),
                        key == digest(cells@),
                        self.buckets@.contains_key(key),
                        self.buckets@[key] == *bucket,
                        forall|k: int| 0 <= k < i ==> (#[trigger] bucket@[k])@ != cells@,
                    decreases bucket@.len() - i,
                {
                    if same_cells(&bucket[i], cells) {
                        assert(bucket_holds(bucket@, cells@)) by {
                            assert(bucket@[i as int]@ == cells@);
                        }
                        return true;
                    }
                    i = i + 1;
                }
                false
            },
            None => false,
        }
    }

    /// Adds the layout `cells` to the set.
    pub fn insert(&mut self, cells: &Vec<Cell>)
        ensures
            final(self)@ == old(self)@.insert(cells@),
    {
        let key = digest_of(cells);
        let ghost added = cells@;
        let cells = copy_of(cells);
        let mut bucket = match self.buckets.remove(&key) {
            Some(bucket) => bucket,
            None => Vec::new(),
        };
        let ghost bucket_before = bucket@;
        bucket.push(cells);
        let ghost bucket_after = bucket@;
        self.buckets.insert(key, bucket);
        proof {
            assert forall|other: Seq<Cell>| bucket_holds(bucket_after, other) == (bucket_holds(
                bucket_before,
                other,
            ) || other == added) by {
                if bucket_holds(bucket_after, other) {
                    let i = choose|i: int|
                        0 <= i < bucket_after.len() && (#[trigger] bucket_after[i])@ == other;
                    if i < bucket_before.len() {
                        assert(bucket_before[i]@ == other);
                    }
                }
                if bucket_holds(bucket_before, other) {
                    let i = choose|i: int|
                        0 <= i < bucket_before.len() && (#[trigger] bucket_before[i])@ == other;
                    assert(bucket_after[i]@ == other);
                }
                if other == added {
                    assert(bucket_after[bucket_before.len() as int]@ == other);
                }
            }
            assert(final(self)@ =~= old(self)@.insert(added));
        }
    }
}

} // verus!
