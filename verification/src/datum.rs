//! Records that can be ordered and told apart.

use vstd::prelude::*;

verus! {

/// A record type with a total order given by an injective integer rank.
pub trait Datum: Sized {
    /// The position of this record in the order of its type.
    spec fn rank(&self) -> int;

    /// Two records of equal rank are the same record.
    proof fn rank_injective(a: Self, b: Self)
        requires
            a.rank() == b.rank(),
        ensures
            a == b,
    ;

    /// Whether this record comes strictly before `other`.
    fn precedes(&self, other: &Self) -> (b: bool)
        ensures
            b == (self.rank() < other.rank()),
    ;

    /// A copy of this record.
    fn duplicate(&self) -> (r: Self)
        ensures
            r == *self,
    ;
}

impl Datum for u64 {
    open spec fn rank(&self) -> int {
        *self as int
    }

    proof fn rank_injective(a: Self, b: Self) {
    }

    fn precedes(&self, other: &Self) -> (b: bool) {
        *self < *other
    }

    fn duplicate(&self) -> (r: Self) {
        *self
    }
}

impl Datum for (u64, u64) {
    open spec fn rank(&self) -> int {
        self.0 as int * 0x1_0000_0000_0000_0000 + self.1 as int
    }

    proof fn rank_injective(a: Self, b: Self) {
    }

    fn precedes(&self, other: &Self) -> (b: bool) {
        if self.0 < other.0 {
            true
        } else if other.0 < self.0 {
            false
        } else {
            self.1 < other.1
        }
    }

    fn duplicate(&self) -> (r: Self) {
        (self.0, self.1)
    }
}

} // verus!
