//! The meta page: the superblock that names the root bucket, the freelist and the
//! high-water mark, and that commits a transaction by being written.

use vstd::prelude::*;
use crate::codec::{field, le_bytes, push_le, read_le, lemma_pow256_facts, lemma_le_bytes_len, lemma_le_round_trip};
use crate::errors::BoltError;
use crate::in_bucket::InBucket;
use crate::page::{Page, PgId, header_bytes, META_PAGE_FLAG, PAGE_HEADER_SIZE};

verus! {

/// Marks a file as a database.
pub const MAGIC: u32 = 0xED0CDAED;

/// Version of the file format.
pub const VERSION: u32 = 2;

/// Freelist page id meaning that no freelist is stored.
pub const PGID_NO_FREELIST: PgId = 0xFFFF_FFFF_FFFF_FFFF;

/// Bytes of a meta record.
pub const META_PAGE_SIZE: usize = 64;

/// Offset of the checksum within a meta record.
pub const META_CHECKSUM_OFFSET: usize = 56;

/// The 64-bit FNV-1a hash of a byte string.
pub uninterp spec fn fnv1a64(b: Seq<u8>) -> u64;

/// Relies on `fnv::FnvHasher`: from its default state, writing `b` and finishing gives the
/// 64-bit FNV-1a hash of `b`, a function of the bytes alone.
#[verifier::external_body]
fn fnv_sum64(b: &[u8]) -> (r: u64)
    ensures
        r == fnv1a64(b@),
{
    let mut h = fnv::FnvHasher::default();
    std::hash::Hasher::write(&mut h, b);
    std::hash::Hasher::finish(&h)
}

/// The superblock.
#[derive(Debug, Clone, Copy, PartialEq, Eq, Default)]
pub struct Meta {
    pub magic: u32,
    pub version: u32,
    pub page_size: u32,
    pub flags: u32,
    pub root: InBucket,
    pub freelist: PgId,
    pub pgid: PgId,
    pub txid: u64,
    pub checksum: u64,
}

/// The bytes of a meta record before its checksum.
pub open spec fn meta_prefix_bytes(m: Meta) -> Seq<u8> {
    le_bytes(m.magic as nat, 4) + le_bytes(m.version as nat, 4) + le_bytes(m.page_size as nat, 4)
        + le_bytes(m.flags as nat, 4) + le_bytes(m.root.root as nat, 8) + le_bytes(
        m.root.sequence as nat,
        8,
    ) + le_bytes(m.freelist as nat, 8) + le_bytes(m.pgid as nat, 8) + le_bytes(m.txid as nat, 8)
}

/// The sixty-four bytes of a meta record.
pub open spec fn meta_bytes(m: Meta) -> Seq<u8> {
    meta_prefix_bytes(m) + le_bytes(m.checksum as nat, 8)
}

/// The meta record that starts at `off` in `s`.
pub open spec fn meta_at(s: Seq<u8>, off: int) -> Meta {
    Meta {
        magic: field(s, off, 4) as u32,
        version: field(s, off + 4, 4) as u32,
        page_size: field(s, off + 8, 4) as u32,
        flags: field(s, off + 12, 4) as u32,
        root: InBucket { root: field(s, off + 16, 8) as u64, sequence: field(s, off + 24, 8) as u64 },
        freelist: field(s, off + 32, 8) as u64,
        pgid: field(s, off + 40, 8) as u64,
        txid: field(s, off + 48, 8) as u64,
        checksum: field(s, off + 56, 8) as u64,
    }
}

/// A meta record is valid when its magic, version and checksum are right.
pub open spec fn meta_valid(m: Meta) -> bool {
    m.magic == MAGIC && m.version == VERSION && m.checksum == fnv1a64(meta_prefix_bytes(m))
}

/// The meta page slot that transaction `txid` writes.
pub open spec fn meta_slot(txid: u64) -> u64 {
    txid % 2
}

impl Meta {
    /// The checksum of the record's bytes before the checksum field.
    pub fn sum64(&self) -> (r: u64)
        ensures
            r == fnv1a64(meta_prefix_bytes(*self)),
    {
        let mut b: Vec<u8> = Vec::with_capacity(META_CHECKSUM_OFFSET);
        self.write_prefix(&mut b);
        fnv_sum64(b.as_slice())
    }

    fn write_prefix(&self, buf: &mut Vec<u8>)
        ensures
            final(buf)@ == old(buf)@ + meta_prefix_bytes(*self),
    {
        proof {
            lemma_pow256_facts();
        }
        push_le(buf, self.magic as u64, 4);
        push_le(buf, self.version as u64, 4);
        push_le(buf, self.page_size as u64, 4);
        push_le(buf, self.flags as u64, 4);
        push_le(buf, self.root.root, 8);
        push_le(buf, self.root.sequence, 8);
        push_le(buf, self.freelist, 8);
        push_le(buf, self.pgid, 8);
        push_le(buf, self.txid, 8);
        proof {
            assert(final(buf)@ =~= old(buf)@ + meta_prefix_bytes(*self));
        }
    }

    /// Appends the record's sixty-four bytes.
    pub fn write_bytes(&self, buf: &mut Vec<u8>)
        ensures
            final(buf)@ == old(buf)@ + meta_bytes(*self),
    {
        self.write_prefix(buf);
        proof {
            lemma_pow256_facts();
        }
        push_le(buf, self.checksum, 8);
        proof {
            assert(final(buf)@ =~= old(buf)@ + meta_bytes(*self));
        }
    }

    /// Reads the record that starts at `off`.
    pub fn read_at(buf: &[u8], off: usize) -> (r: Meta)
        requires
            off + META_PAGE_SIZE <= buf@.len(),
        ensures
            r == meta_at(buf@, off as int),
    {
        let len = buf.len();
        proof {
            assert(off + META_PAGE_SIZE <= len);
            lemma_pow256_facts();
            crate::page::lemma_le_val_fits(buf@, off as int, 4);
            crate::page::lemma_le_val_fits(buf@, off + 4, 4);
            crate::page::lemma_le_val_fits(buf@, off + 8, 4);
            crate::page::lemma_le_val_fits(buf@, off + 12, 4);
        }
        Meta {
            magic: read_le(buf, off, 4) as u32,
            version: read_le(buf, off + 4, 4) as u32,
            page_size: read_le(buf, off + 8, 4) as u32,
            flags: read_le(buf, off + 12, 4) as u32,
            root: InBucket { root: read_le(buf, off + 16, 8), sequence: read_le(buf, off + 24, 8) },
            freelist: read_le(buf, off + 32, 8),
            pgid: read_le(buf, off + 40, 8),
            txid: read_le(buf, off + 48, 8),
            checksum: read_le(buf, off + 56, 8),
        }
    }

    /// Checks the magic, the version and the checksum, in that order.
    pub fn validate(&self) -> (r: Result<(), BoltError>)
        ensures
            r is Ok <==> meta_valid(*self),
            self.magic != MAGIC ==> r == Err::<(), BoltError>(BoltError::Invalid),
            self.magic == MAGIC && self.version != VERSION ==> r == Err::<(), BoltError>(
                BoltError::VersionMismatch,
            ),
            self.magic == MAGIC && self.version == VERSION && self.checksum != fnv1a64(
                meta_prefix_bytes(*self),
            ) ==> r == Err::<(), BoltError>(BoltError::Checksum),
    {
        if self.magic != MAGIC {
            return Err(BoltError::Invalid);
        } else if self.version != VERSION {
            return Err(BoltError::VersionMismatch);
        } else if self.checksum != self.sum64() {
            return Err(BoltError::Checksum);
        }
        Ok(())
    }

    /// Writes the meta onto a page: the page becomes meta page `txid % 2`, the checksum is
    /// recomputed, and the page header and the record are appended to `buf`.
    pub fn write(&mut self, page: &mut Page, buf: &mut Vec<u8>)
        requires
            old(self).root.root < old(self).pgid,
            old(self).freelist < old(self).pgid || old(self).freelist == PGID_NO_FREELIST,
        ensures
            *final(self) == (Meta { checksum: fnv1a64(meta_prefix_bytes(*old(self))), ..*old(self) }),
            *final(page) == (Page { id: meta_slot(old(self).txid), flags: META_PAGE_FLAG, ..*old(page) }),
            final(buf)@ == old(buf)@ + header_bytes(*final(page)) + meta_bytes(*final(self)),
            final(buf)@.len() == old(buf)@.len() + PAGE_HEADER_SIZE + META_PAGE_SIZE,
    {
        page.id = self.txid % 2;
        page.flags = META_PAGE_FLAG;
        self.checksum = self.sum64();
        page.write_header(buf);
        self.write_bytes(buf);
        proof {
            lemma_meta_bytes_len(*self);
            lemma_header_len(*page);
            assert(final(buf)@ =~= old(buf)@ + header_bytes(*final(page)) + meta_bytes(*final(self)));
        }
    }

    pub fn byte_size(&self) -> (r: usize)
        ensures
            r == META_PAGE_SIZE,
    {
        META_PAGE_SIZE
    }

    pub fn magic(&self) -> (r: u32)
        ensures
            r == self.magic,
    {
        self.magic
    }

    pub fn version(&self) -> (r: u32)
        ensures
            r == self.version,
    {
        self.version
    }

    pub fn page_size(&self) -> (r: u32)
        ensures
            r == self.page_size,
    {
        self.page_size
    }

    pub fn flags(&self) -> (r: u32)
        ensures
            r == self.flags,
    {
        self.flags
    }

    pub fn root_bucket(&self) -> (r: &InBucket)
        ensures
            *r == self.root,
    {
        &self.root
    }

    pub fn freelist(&self) -> (r: PgId)
        ensures
            r == self.freelist,
    {
        self.freelist
    }

    pub fn pgid(&self) -> (r: PgId)
        ensures
            r == self.pgid,
    {
        self.pgid
    }

    pub fn txid(&self) -> (r: u64)
        ensures
            r == self.txid,
    {
        self.txid
    }

    pub fn checksum(&self) -> (r: u64)
        ensures
            r == self.checksum,
    {
        self.checksum
    }

    pub fn set_magic(&mut self, v: u32)
        ensures
            *final(self) == (Meta { magic: v, ..*old(self) }),
    {
        self.magic = v;
    }

    pub fn set_version(&mut self, v: u32)
        ensures
            *final(self) == (Meta { version: v, ..*old(self) }),
    {
        self.version = v;
    }

    pub fn set_page_size(&mut self, v: u32)
        ensures
            *final(self) == (Meta { page_size: v, ..*old(self) }),
    {
        self.page_size = v;
    }

    pub fn set_flags(&mut self, v: u32)
        ensures
            *final(self) == (Meta { flags: v, ..*old(self) }),
    {
        self.flags = v;
    }

    pub fn set_root_bucket(&mut self, b: InBucket)
        ensures
            *final(self) == (Meta { root: b, ..*old(self) }),
    {
        self.root = b;
    }

    pub fn set_freelist(&mut self, v: PgId)
        ensures
            *final(self) == (Meta { freelist: v, ..*old(self) }),
    {
        self.freelist = v;
    }

    pub fn set_pgid(&mut self, id: PgId)
        ensures
            *final(self) == (Meta { pgid: id, ..*old(self) }),
    {
        self.pgid = id;
    }

    pub fn set_txid(&mut self, id: u64)
        ensures
            *final(self) == (Meta { txid: id, ..*old(self) }),
    {
        self.txid = id;
    }

    pub fn inc_txid(&mut self)
        requires
            old(self).txid < u64::MAX,
        ensures
            *final(self) == (Meta { txid: (old(self).txid + 1) as u64, ..*old(self) }),
    {
        self.txid = self.txid + 1;
    }

    pub fn dec_txid(&mut self)
        requires
            old(self).txid > 0,
        ensures
            *final(self) == (Meta { txid: (old(self).txid - 1) as u64, ..*old(self) }),
    {
        self.txid = self.txid - 1;
    }

    pub fn set_checksum(&mut self, v: u64)
        ensures
            *final(self) == (Meta { checksum: v, ..*old(self) }),
    {
        self.checksum = v;
    }

    /// Copies this meta into `dest`.
    pub fn copy(&self, dest: &mut Meta)
        ensures
            *final(dest) == *self,
    {
        *dest = *self;
    }

    /// A freelist page is stored.
    pub fn is_freelist_persisted(&self) -> (r: bool)
        ensures
            r == (self.freelist != PGID_NO_FREELIST),
    {
        self.freelist != PGID_NO_FREELIST
    }
}

/// A meta record read back from its own bytes is the record written.
pub proof fn lemma_meta_round_trip(m: Meta, pre: Seq<u8>, rest: Seq<u8>)
    ensures
        meta_at(pre + meta_bytes(m) + rest, pre.len() as int) == m,
{
    lemma_pow256_facts();
    let parts: Seq<(nat, nat)> = seq![
        (m.magic as nat, 4nat),
        (m.version as nat, 4nat),
        (m.page_size as nat, 4nat),
        (m.flags as nat, 4nat),
        (m.root.root as nat, 8nat),
        (m.root.sequence as nat, 8nat),
        (m.freelist as nat, 8nat),
        (m.pgid as nat, 8nat),
        (m.txid as nat, 8nat),
        (m.checksum as nat, 8nat),
    ];
    let s = pre + meta_bytes(m) + rest;
    let o = pre.len() as int;
    let b0 = le_bytes(m.magic as nat, 4);
    let b1 = le_bytes(m.version as nat, 4);
    let b2 = le_bytes(m.page_size as nat, 4);
    let b3 = le_bytes(m.flags as nat, 4);
    let b4 = le_bytes(m.root.root as nat, 8);
    let b5 = le_bytes(m.root.sequence as nat, 8);
    let b6 = le_bytes(m.freelist as nat, 8);
    let b7 = le_bytes(m.pgid as nat, 8);
    let b8 = le_bytes(m.txid as nat, 8);
    let b9 = le_bytes(m.checksum as nat, 8);
    lemma_le_bytes_len(m.magic as nat, 4);
    lemma_le_bytes_len(m.version as nat, 4);
    lemma_le_bytes_len(m.page_size as nat, 4);
    lemma_le_bytes_len(m.flags as nat, 4);
    lemma_le_bytes_len(m.root.root as nat, 8);
    lemma_le_bytes_len(m.root.sequence as nat, 8);
    lemma_le_bytes_len(m.freelist as nat, 8);
    lemma_le_bytes_len(m.pgid as nat, 8);
    lemma_le_bytes_len(m.txid as nat, 8);
    lemma_le_bytes_len(m.checksum as nat, 8);
    lemma_le_round_trip(m.magic as nat, 4);
    lemma_le_round_trip(m.version as nat, 4);
    lemma_le_round_trip(m.page_size as nat, 4);
    lemma_le_round_trip(m.flags as nat, 4);
    lemma_le_round_trip(m.root.root as nat, 8);
    lemma_le_round_trip(m.root.sequence as nat, 8);
    lemma_le_round_trip(m.freelist as nat, 8);
    lemma_le_round_trip(m.pgid as nat, 8);
    lemma_le_round_trip(m.txid as nat, 8);
    lemma_le_round_trip(m.checksum as nat, 8);
    assert(s.subrange(o, o + 4) =~= b0);
    assert(s.subrange(o + 4, o + 8) =~= b1);
    assert(s.subrange(o + 8, o + 12) =~= b2);
    assert(s.subrange(o + 12, o + 16) =~= b3);
    assert(s.subrange(o + 16, o + 24) =~= b4);
    assert(s.subrange(o + 24, o + 32) =~= b5);
    assert(s.subrange(o + 32, o + 40) =~= b6);
    assert(s.subrange(o + 40, o + 48) =~= b7);
    assert(s.subrange(o + 48, o + 56) =~= b8);
    assert(s.subrange(o + 56, o + 64) =~= b9);
}

/// A meta record takes sixty-four bytes.
pub proof fn lemma_meta_bytes_len(m: Meta)
    ensures
        meta_bytes(m).len() == META_PAGE_SIZE,
        meta_prefix_bytes(m).len() == META_CHECKSUM_OFFSET,
{
    lemma_le_bytes_len(m.magic as nat, 4);
    lemma_le_bytes_len(m.version as nat, 4);
    lemma_le_bytes_len(m.page_size as nat, 4);
    lemma_le_bytes_len(m.flags as nat, 4);
    lemma_le_bytes_len(m.root.root as nat, 8);
    lemma_le_bytes_len(m.root.sequence as nat, 8);
    lemma_le_bytes_len(m.freelist as nat, 8);
    lemma_le_bytes_len(m.pgid as nat, 8);
    lemma_le_bytes_len(m.txid as nat, 8);
    lemma_le_bytes_len(m.checksum as nat, 8);
}

/// A page header takes sixteen bytes.
pub proof fn lemma_header_len(p: Page)
    ensures
        header_bytes(p).len() == PAGE_HEADER_SIZE,
{
    lemma_le_bytes_len(p.id as nat, 8);
    lemma_le_bytes_len(p.flags as nat, 2);
    lemma_le_bytes_len(p.count as nat, 2);
    lemma_le_bytes_len(p.overflow as nat, 4);
}

/// A meta that `write` has checksummed is valid when its magic and version are right.
pub proof fn lemma_checksum_round_trip(m: Meta)
    requires
        m.magic == MAGIC,
        m.version == VERSION,
    ensures
        meta_valid(Meta { checksum: fnv1a64(meta_prefix_bytes(m)), ..m }),
{
    let w = Meta { checksum: fnv1a64(meta_prefix_bytes(m)), ..m };
    assert(meta_prefix_bytes(w) == meta_prefix_bytes(m));
}

/// Two successive transactions write their meta to different slots, both in `{0, 1}`.
pub proof fn lemma_meta_slots_alternate(t: u64)
    requires
        t < u64::MAX,
    ensures
        meta_slot(t) != meta_slot((t + 1) as u64),
        meta_slot(t) < 2,
        meta_slot((t + 1) as u64) < 2,
{
}

} // verus!
