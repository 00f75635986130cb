//! An embedded key-value storage engine.
//!
//! A flat data buffer holds variable-length values at byte offsets, and a
//! directory ([`index::Index`]) maps keys to the half-open byte ranges they
//! occupy.  The directory owns the allocation policy (first-fit over the gaps
//! between live ranges) and the compaction algorithm; the store
//! ([`store::DataBase`]) couples the directory to the buffer's byte layout.
//! The directory's persisted textual form (`key=start_end`, one line per
//! entry) is produced and parsed by [`codec`].

pub mod codec;
pub mod errors;
pub mod index;
pub mod store;
