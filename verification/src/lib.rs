//! A subscription store for RSS-like feeds.
//!
//! The store tracks which subscribers follow which feeds, keeps the two
//! directions of that relation consistent, remembers a bounded history of
//! item hashes per feed so that freshly fetched items can be split into
//! "seen before" and "new", and serialises the whole state into a single
//! snapshot byte string that can be written to disk and read back.
//!
//! All file input and output is left to the caller: the store hands out
//! snapshot bytes and accepts them back, and counts how many persistence
//! writes its mutating operations have triggered.

pub mod assoc;
pub mod codec;
pub mod hashing;
pub mod laws;
pub mod store;
pub mod types;

pub use store::Database;
pub use types::Feed;
pub use types::Hub;
pub use types::Item;
pub use types::LinkPreview;
pub use types::Rss;
pub use types::StoreError;
pub use types::SubscriptionResult;
