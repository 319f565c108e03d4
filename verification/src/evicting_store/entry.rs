//! Cache entries.

use vstd::prelude::*;

verus! {

/// An entry of a cache, filled from a backing store by token.
pub trait Entry<T, V>: Sized {
    fn new() -> Self;
    fn fetch(&mut self, token: T) -> V;
    fn value(self) -> Option<V>;
}

} // verus!
