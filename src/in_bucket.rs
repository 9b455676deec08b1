//! The on-file header of a bucket.

use vstd::prelude::*;
use crate::page::PgId;

verus! {

/// Bytes of a bucket header: root page id, then sequence.
pub const BUCKET_HEADER_SIZE: usize = 16;

/// A bucket's header as stored in its parent's leaf value: the root page (0 for an inline
/// bucket, whose root page follows the header) and the bucket's sequence.
#[derive(Debug, Clone, Copy, PartialEq, Eq, Default)]
pub struct InBucket {
    pub root: PgId,
    pub sequence: u64,
}

impl InBucket {
    pub fn new(root: PgId, sequence: u64) -> (r: InBucket)
        ensures
            r == (InBucket { root, sequence }),
    {
        InBucket { root, sequence }
    }

    pub fn root_page(&self) -> (r: PgId)
        ensures
            r == self.root,
    {
        self.root
    }

    pub fn set_root_page(&mut self, id: PgId)
        ensures
            *final(self) == (InBucket { root: id, ..*old(self) }),
    {
        self.root = id;
    }

    pub fn in_sequence(&self) -> (r: u64)
        ensures
            r == self.sequence,
    {
        self.sequence
    }

    pub fn set_in_sequence(&mut self, sequence: u64)
        ensures
            *final(self) == (InBucket { sequence, ..*old(self) }),
    {
        self.sequence = sequence;
    }

    pub fn inc_sequence(&mut self)
        requires
            old(self).sequence < u64::MAX,
        ensures
            *final(self) == (InBucket { sequence: (old(self).sequence + 1) as u64, ..*old(self) }),
    {
        self.sequence = self.sequence + 1;
    }
}

} // verus!
