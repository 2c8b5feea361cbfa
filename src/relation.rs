use vstd::prelude::*;

verus! {

/// Variable keys: copied freely and compared by value.
pub trait VarKey: Sized {
    fn same(&self, other: &Self) -> (r: bool)
        ensures
            r == (*self == *other),
    ;
}

/// A binary predicate over values; `spec_holds` is its meaning, and `holds`
/// computes it. Being a plain value, a relation is pure by construction.
pub trait Relation<V> {
    spec fn spec_holds(&self, x: V, y: V) -> bool;

    fn holds(&self, x: &V, y: &V) -> (r: bool)
        ensures
            r == self.spec_holds(*x, *y),
    ;
}

impl VarKey for i32 {
    fn same(&self, other: &i32) -> (r: bool) {
        *self == *other
    }
}

impl VarKey for i64 {
    fn same(&self, other: &i64) -> (r: bool) {
        *self == *other
    }
}

impl VarKey for u32 {
    fn same(&self, other: &u32) -> (r: bool) {
        *self == *other
    }
}

impl VarKey for u64 {
    fn same(&self, other: &u64) -> (r: bool) {
        *self == *other
    }
}

impl VarKey for usize {
    fn same(&self, other: &usize) -> (r: bool) {
        *self == *other
    }
}

impl VarKey for (usize, usize) {
    fn same(&self, other: &(usize, usize)) -> (r: bool) {
        self.0 == other.0 && self.1 == other.1
    }
}

} // verus!
