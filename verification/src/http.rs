//! The bodies of the HTTP interface's requests and responses.

pub mod add;
pub mod query;
