//! A hash map in the lineage of the lock-striped, incrementally resized
//! concurrent hash table: a bucket array of bins, per-bin entry chains,
//! hash spreading, a 3/4-capacity resize threshold, and an operation surface
//! reached through a pinned reference.
//!
//! Every operation carries a contract stated against a mathematical model of
//! the table — a `Map` from key views to stored values — and is verified
//! against it.  Mutation goes through Rust's ownership discipline, which
//! plays the role that pinning and deferred reclamation play for a table
//! shared between threads: a reader's view stays valid for as long as the
//! borrow it came from.
pub mod counter;
pub mod hash;
pub mod key;
pub mod laws;
pub mod map;
pub mod map_ref;

pub use hash::{DefaultHashBuilder, HashBuilder, ZeroHashBuilder};
pub use key::{Key, ValEq};
pub use map::{HashMap, TryInsertError};
pub use map_ref::HashMapRef;
