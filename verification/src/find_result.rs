//! The kind of match a query finds a value by.

use vstd::prelude::*;

verus! {

/// A value found by a query, with the kind of partition match it was found
/// by: an exact one, or one within a single dimension. Two results are equal
/// when they are of one kind and hold equal values.
#[derive(Clone, Debug, PartialEq, Eq, Hash)]
pub enum FindResult<V> {
    ZeroVariant(V),
    OneVariant(V),
}

impl<V> FindResult<V> {
    /// The value found.
    pub fn value(&self) -> (r: &V)
        ensures
            match self {
                FindResult::ZeroVariant(v) => r == v,
                FindResult::OneVariant(v) => r == v,
            },
    {
        match self {
            FindResult::ZeroVariant(v) => v,
            FindResult::OneVariant(v) => v,
        }
    }
}

} // verus!
