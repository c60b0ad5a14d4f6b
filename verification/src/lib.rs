//! A chained hash table: an in-memory associative container mapping unique
//! keys to values, with hash-based bucket selection, per-bucket chaining for
//! collisions, and automatic growth of the bucket array as entries are added.

mod buckets;
pub mod key;
pub mod laws;
pub mod table;

pub use key::TableKey;
pub use table::HashMap;
pub use table::Iter;
