//! An embedded key/value store laid out as a copy-on-write B+tree over
//! fixed-size pages, with two alternating meta pages as its commit log.

pub mod codec;
pub mod keys;
pub mod errors;
pub mod page;
pub mod inode;
pub mod node;
pub mod in_bucket;
pub mod meta;
pub mod pgids;
pub mod freelist;
pub mod bucket;
pub mod cursor;
pub mod tx;
pub mod db;
pub mod fmt;
