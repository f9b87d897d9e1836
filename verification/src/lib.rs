//! A least-recently-used cache of fixed capacity, with its contracts.
//!
//! - `cache`: the cache, the cursor that walks it, and what each operation
//!   does to the values it holds;
//! - `chain`: the chain of slots that keeps the values in their order;
//! - `recency`: that order as a plain list, and what holds of it over any
//!   run of inserts and searches;
//! - `search`: what a search says of the predicate that it asks.

pub mod cache;
pub mod chain;
pub mod recency;
pub mod search;

pub use cache::{Entry, IterMut, LRUCache};
