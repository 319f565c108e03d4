//! Hamming-distance similarity search.
//!
//! Given a query value, the database returns every indexed value whose
//! Hamming distance to the query is at most a configured tolerance, following
//! the HmSearch scheme of Zhang et al.: values are split into partitions, and
//! each partition is indexed by its one-dimension "deletion variants".

pub mod bits;
pub mod hashing;
pub mod deletion;
pub mod deletion_variant;
pub mod deleted_value;
pub mod find_result;
pub mod store;
pub mod http;
pub mod evicting_store;
pub mod id_map;
pub mod hamming;
pub mod result_accumulator;
pub mod db;
pub mod window;
pub mod window_width;
pub mod map_set;
pub mod index;
pub mod substitution;
pub mod substitution_variant;
pub mod bit_matrix;
pub mod byte_order;
pub mod value;
