//! A chained hash map built from first principles: a dynamic array of
//! buckets, each bucket an unordered vector of key/value pairs, with an
//! amortized doubling growth policy, an entry protocol for single-lookup
//! insert-or-update access, and borrowing as well as consuming iteration.
//!
//! Every operation carries a contract stated over a mathematical view of
//! the container: a `Map` from the abstract value of each key to the
//! stored value.

pub mod bucket;
pub mod entry;
pub mod iter;
pub mod key;
pub mod laws;
pub mod map;

pub use entry::{Entry, OccupiedEntry, VacantEntry};
pub use iter::{IntoIter, Iter};
pub use key::MapKey;
pub use map::HashMap;
