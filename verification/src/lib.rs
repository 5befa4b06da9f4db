//! An associative container for unsigned integer keys, backed by a flat
//! array of `stride * stride` slots. Collisions are resolved by a two-level
//! double-hashing scheme: each key hashes to a bucket `key % stride`, and a
//! bucket's live entries occupy a contiguous, cyclically wrapping region of
//! the backing array. Insertion into a full bucket steals one slot from the
//! cyclic successor bucket, cascading the displaced entry forward; when no
//! slot can be found the whole table is rebuilt at a larger stride.

pub mod laws;
mod table;

pub use table::Entry;
pub use table::IntMap;
pub use table::Keytype;
