use vstd::prelude::*;

verus! {

/// A value that is its own ordering key: values are compared by an integer rank.
///
/// Two values of equal rank are equivalent for ordering purposes (they may still
/// differ in other respects, as a payload carried beside a sequence number does).
pub trait Ranked {
    /// The position of this value in the total order.
    spec fn rank(&self) -> int;

    /// `self` orders strictly before `other`.
    fn precedes(&self, other: &Self) -> (r: bool)
        ensures
            r == (self.rank() < other.rank()),
    ;

    /// `self` and `other` hold the same place in the order.
    fn ties(&self, other: &Self) -> (r: bool)
        ensures
            r == (self.rank() == other.rank()),
    ;
}

impl Ranked for i32 {
    open spec fn rank(&self) -> int {
        *self as int
    }

    fn precedes(&self, other: &Self) -> (r: bool) {
        *self < *other
    }

    fn ties(&self, other: &Self) -> (r: bool) {
        *self == *other
    }
}

impl Ranked for i64 {
    open spec fn rank(&self) -> int {
        *self as int
    }

    fn precedes(&self, other: &Self) -> (r: bool) {
        *self < *other
    }

    fn ties(&self, other: &Self) -> (r: bool) {
        *self == *other
    }
}

impl Ranked for u32 {
    open spec fn rank(&self) -> int {
        *self as int
    }

    fn precedes(&self, other: &Self) -> (r: bool) {
        *self < *other
    }

    fn ties(&self, other: &Self) -> (r: bool) {
        *self == *other
    }
}

impl Ranked for u64 {
    open spec fn rank(&self) -> int {
        *self as int
    }

    fn precedes(&self, other: &Self) -> (r: bool) {
        *self < *other
    }

    fn ties(&self, other: &Self) -> (r: bool) {
        *self == *other
    }
}

impl Ranked for usize {
    open spec fn rank(&self) -> int {
        *self as int
    }

    fn precedes(&self, other: &Self) -> (r: bool) {
        *self < *other
    }

    fn ties(&self, other: &Self) -> (r: bool) {
        *self == *other
    }
}

} // verus!
