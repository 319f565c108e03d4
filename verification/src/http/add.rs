//! Bodies of insertion requests.

use vstd::prelude::*;

verus! {

/// Scalars to insert.
#[derive(Clone, Debug)]
pub struct Request {
    pub scalars: Vec<usize>,
}

/// The outcome of each insertion.
#[derive(Debug)]
pub struct Response {
    pub scalars: Vec<ScalarResult>,
}

/// Whether a scalar was added.
#[derive(Debug)]
pub struct ScalarResult {
    pub scalar: usize,
    pub added: bool,
}

} // verus!
