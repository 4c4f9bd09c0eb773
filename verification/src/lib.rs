//! Block codec and merge iteration for a log-structured-merge storage engine.
//!
//! A `Block` is the atomic unit of sorted key/value storage: a byte buffer of
//! prefix-compressed entries plus an offset index. `BlockBuilder` packs sorted
//! entries under a size budget, `BlockIterator` decodes a block lazily and
//! supports binary-search seek, and `MergeIterator` combines any number of
//! sorted sources into one duplicate-resolved stream.

pub mod block;
pub mod iterators;
pub mod key;
