//! A bucketed hash table with separate chaining.
//!
//! The table owns a vector of buckets, each bucket a vector of key-value
//! entries (a chain). A fixed seed feeds the hash function for the table's
//! whole lifetime; a lookup walks the chain of the key's bucket and returns
//! the first entry whose key matches. `insert` appends unconditionally (a
//! repeated key leaves a shadowed duplicate behind the first match), growing
//! the bucket vector by doubling once the entry count reaches three quarters
//! of the capacity.

mod chains;
mod hashing;
mod table;

pub use table::PHashMap;
