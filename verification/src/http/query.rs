//! Bodies of query requests.

use vstd::prelude::*;
use std::collections::HashSet;

verus! {

/// Scalars to look up.
#[derive(Clone, Debug)]
pub struct Request {
    pub scalars: Vec<u64>,
}

/// The answer to each lookup.
#[derive(Debug)]
pub struct Response {
    pub scalars: Vec<ScalarResult>,
}

/// The values found near a scalar.
#[derive(Debug)]
pub struct ScalarResult {
    pub scalar: u64,
    pub found: HashSet<u64>,
}

} // verus!
