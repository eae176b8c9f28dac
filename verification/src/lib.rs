//! An in-memory associative store for doublets: directed binary links
//! `(id, source, target)` whose endpoints are themselves link ids.
//!
//! The store keeps one contiguous slot table addressed by id, recycles
//! deleted ids through an intrusive free list, and maintains two
//! endpoint indices so that queries by `source` or `target` walk only
//! the links that share that endpoint. Every operation's effect on the
//! table, the free list and the iteration order is stated in its
//! contract and proved.

pub mod constants;
pub mod store;

pub use constants::LinkRange;
pub use constants::LinksConstants;
pub use store::Link;
pub use store::StoreError;
pub use store::UnitedLinks;
pub use store::Visitor;
