//! A map from keys to values, kept as a hash table with separate chaining.
//!
//! The table is a sequence of buckets, each holding a chain of entries. A key
//! belongs in the bucket that its hash selects, so a lookup scans one chain.
//! The table starts without buckets; an insertion that finds it without
//! buckets, or with more than three entries for every four buckets, first
//! doubles the number of buckets and deals the entries out again. The test is
//! made on whole numbers, `4 * entries > 3 * buckets`, so an entry is only
//! ever placed in a table that is at most three quarters full. Removals
//! never shrink the table.
//!
//! - [`key`]: what a key must offer, and the keys that come with the crate.
//! - [`model`]: the table as sequences of chains, and what each operation
//!   does to them.
//! - [`table`]: the table and its operations.
//! - [`iter`]: the cursor that walks a table.
//! - [`lemmas`], [`traversal`], [`growth`]: facts about chains, about the
//!   order of traversal, and about growth.
//! - [`laws`]: what holds of the operations together.

pub mod growth;
pub mod iter;
pub mod key;
pub mod laws;
pub mod lemmas;
pub mod model;
pub mod table;
pub mod traversal;

pub use iter::Iter;
pub use key::Equivalent;
pub use key::Key;
pub use table::HashMap;
