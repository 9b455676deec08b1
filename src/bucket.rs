//! Buckets: ordered maps from byte-string keys to values or to nested buckets.

use vstd::prelude::*;
use crate::errors::BoltError;
use crate::in_bucket::InBucket;
use crate::inode::{InodeView, keys_sorted, copy_bytes};
use crate::keys::{lex_lt, lemma_lex_irreflexive};
use crate::node::{Node, put_result, same_place, DEFAULT_FILL_PERCENT};
use crate::page::BUCKET_LEAF_FLAG;

verus! {

/// The longest key, in bytes.
pub const MAX_KEY_SIZE: usize = 32768;

/// The longest value, in bytes.
pub const MAX_VALUE_SIZE: usize = 2147483646;

/// Copies a byte string.
pub fn clone_bytes(v: &[u8]) -> (r: Vec<u8>)
    ensures
        r@ == v@,
{
    copy_bytes(v)
}

/// The entry is a sub-bucket.
pub open spec fn is_bucket_flag(flags: u32) -> bool {
    flags & BUCKET_LEAF_FLAG != 0
}

/// The index of the entry with key `k` in `s`, if any.
pub open spec fn has_key(s: Seq<InodeView>, k: Seq<u8>) -> bool {
    exists|i: int| 0 <= i < s.len() && (#[trigger] s[i]).key == k
}

/// What `get` finds for `k` in `s`: the value of a plain entry with that key.
pub open spec fn lookup(s: Seq<InodeView>, k: Seq<u8>) -> Option<Seq<u8>> {
    if exists|i: int| 0 <= i < s.len() && (#[trigger] s[i]).key == k && !is_bucket_flag(s[i].flags) {
        let i = choose|i: int| 0 <= i < s.len() && (#[trigger] s[i]).key == k && !is_bucket_flag(s[i].flags);
        Some(s[i].value)
    } else {
        None
    }
}

/// The error `put` gives for `key` and `value` in a bucket holding `s`, if any.
pub open spec fn put_error(writable: bool, s: Seq<InodeView>, key: Seq<u8>, value: Seq<u8>) -> Option<BoltError> {
    if !writable {
        Some(BoltError::TxNotWritable)
    } else if key.len() == 0 {
        Some(BoltError::KeyRequired)
    } else if key.len() > MAX_KEY_SIZE {
        Some(BoltError::KeyTooLarge)
    } else if value.len() > MAX_VALUE_SIZE {
        Some(BoltError::ValueTooLarge)
    } else if exists|i: int| 0 <= i < s.len() && (#[trigger] s[i]).key == key && is_bucket_flag(s[i].flags) {
        Some(BoltError::IncompatibleValue)
    } else {
        None
    }
}

/// Statistics on the pages and entries of a bucket.
#[derive(Debug, Default, Clone, Copy, PartialEq, Eq)]
pub struct BucketStats {
    pub branch_page_n: i32,
    pub branch_overflow_n: i32,
    pub leaf_page_n: i32,
    pub leaf_overflow_n: i32,
    pub key_n: i32,
    pub depth: i32,
    pub branch_alloc: i32,
    pub branch_inuse: i32,
    pub leaf_alloc: i32,
    pub leaf_inuse: i32,
    pub bucket_n: i32,
    pub inline_bucket_n: i32,
    pub inline_bucket_inuse: i32,
}

/// Two counters add without leaving `i32`.
pub open spec fn sum_fits(a: i32, b: i32) -> bool {
    i32::MIN <= a + b <= i32::MAX
}

/// Every counter of `a` and `b` adds without leaving `i32`.
pub open spec fn stats_add_fits(a: BucketStats, b: BucketStats) -> bool {
    &&& sum_fits(a.branch_page_n, b.branch_page_n)
    &&& sum_fits(a.branch_overflow_n, b.branch_overflow_n)
    &&& sum_fits(a.leaf_page_n, b.leaf_page_n)
    &&& sum_fits(a.leaf_overflow_n, b.leaf_overflow_n)
    &&& sum_fits(a.key_n, b.key_n)
    &&& sum_fits(a.branch_alloc, b.branch_alloc)
    &&& sum_fits(a.branch_inuse, b.branch_inuse)
    &&& sum_fits(a.leaf_alloc, b.leaf_alloc)
    &&& sum_fits(a.leaf_inuse, b.leaf_inuse)
    &&& sum_fits(a.bucket_n, b.bucket_n)
    &&& sum_fits(a.inline_bucket_n, b.inline_bucket_n)
    &&& sum_fits(a.inline_bucket_inuse, b.inline_bucket_inuse)
}

impl BucketStats {
    /// Adds `other`'s counters to these; the depth becomes the greater of the two.
    pub fn add(&mut self, other: BucketStats)
        requires
            stats_add_fits(*old(self), other),
        ensures
            *final(self) == (BucketStats {
                branch_page_n: (old(self).branch_page_n + other.branch_page_n) as i32,
                branch_overflow_n: (old(self).branch_overflow_n + other.branch_overflow_n) as i32,
                leaf_page_n: (old(self).leaf_page_n + other.leaf_page_n) as i32,
                leaf_overflow_n: (old(self).leaf_overflow_n + other.leaf_overflow_n) as i32,
                key_n: (old(self).key_n + other.key_n) as i32,
                depth: if old(self).depth < other.depth { other.depth } else { old(self).depth },
                branch_alloc: (old(self).branch_alloc + other.branch_alloc) as i32,
                branch_inuse: (old(self).branch_inuse + other.branch_inuse) as i32,
                leaf_alloc: (old(self).leaf_alloc + other.leaf_alloc) as i32,
                leaf_inuse: (old(self).leaf_inuse + other.leaf_inuse) as i32,
                bucket_n: (old(self).bucket_n + other.bucket_n) as i32,
                inline_bucket_n: (old(self).inline_bucket_n + other.inline_bucket_n) as i32,
                inline_bucket_inuse: (old(self).inline_bucket_inuse + other.inline_bucket_inuse) as i32,
            }),
    {
        self.branch_page_n = self.branch_page_n + other.branch_page_n;
        self.branch_overflow_n = self.branch_overflow_n + other.branch_overflow_n;
        self.leaf_page_n = self.leaf_page_n + other.leaf_page_n;
        self.leaf_overflow_n = self.leaf_overflow_n + other.leaf_overflow_n;
        self.key_n = self.key_n + other.key_n;
        if self.depth < other.depth {
            self.depth = other.depth;
        }
        self.branch_alloc = self.branch_alloc + other.branch_alloc;
        self.branch_inuse = self.branch_inuse + other.branch_inuse;
        self.leaf_alloc = self.leaf_alloc + other.leaf_alloc;
        self.leaf_inuse = self.leaf_inuse + other.leaf_inuse;
        self.bucket_n = self.bucket_n + other.bucket_n;
        self.inline_bucket_n = self.inline_bucket_n + other.inline_bucket_n;
        self.inline_bucket_inuse = self.inline_bucket_inuse + other.inline_bucket_inuse;
    }
}

/// The shape of a bucket: its name, its number of entries, and its sub-buckets.
#[derive(Debug, Default)]
pub struct BucketStructure {
    pub name: String,
    pub key_n: i32,
    pub children: Vec<BucketStructure>,
}

/// A bucket inside a transaction: its header and its entries in key order. An entry that
/// is a sub-bucket carries the bucket flag, and its `pgid` field names the sub-bucket's
/// place in the transaction's list of buckets.
pub struct Bucket {
    pub header: InBucket,
    pub root: Node,
    pub fill_percent: u32,
}

impl Bucket {
    /// Entries are sorted by key, and no key is empty.
    pub open spec fn wf(&self) -> bool {
        self.root.wf() && self.root.is_leaf
    }

    pub open spec fn entries(&self) -> Seq<InodeView> {
        self.root.inodes@
    }

    /// An empty bucket with the given header.
    pub fn new(header: InBucket) -> (r: Bucket)
        ensures
            r.wf(),
            r.entries().len() == 0,
            r.header == header,
            r.fill_percent == DEFAULT_FILL_PERCENT,
    {
        Bucket { header, root: Node::new(true), fill_percent: DEFAULT_FILL_PERCENT }
    }

    /// The root page id from the header.
    pub fn root_page(&self) -> (r: u64)
        ensures
            r == self.header.root,
    {
        self.header.root
    }

    /// The index of the entry with `key`, if any.
    pub fn find(&self, key: &[u8]) -> (r: Option<usize>)
        requires
            self.wf(),
        ensures
            r matches Some(i) ==> i < self.entries().len() && self.entries()[i as int].key == key@,
            r is None ==> !has_key(self.entries(), key@),
    {
        self.root.child_index(key)
    }

    /// The value of the plain entry with `key`; `None` when there is none or the key
    /// names a sub-bucket.
    pub fn get(&self, key: &[u8]) -> (r: Option<&Vec<u8>>)
        requires
            self.wf(),
        ensures
            r matches Some(v) ==> lookup(self.entries(), key@) == Some(v@),
            r is None ==> lookup(self.entries(), key@) is None,
    {
        match self.find(key) {
            Some(i) => {
                let item = self.root.inodes.get(i);
                if item.flags & BUCKET_LEAF_FLAG != 0 {
                    proof {
                        self.lemma_unique_key(i as int);
                    }
                    None
                } else {
                    proof {
                        self.lemma_unique_key(i as int);
                    }
                    Some(&item.value)
                }
            },
            None => None,
        }
    }

    /// In a well-formed bucket, entry `i` is the only one with its key.
    pub proof fn lemma_unique_key(&self, i: int)
        requires
            self.wf(),
            0 <= i < self.entries().len(),
        ensures
            forall|j: int| 0 <= j < self.entries().len() && #[trigger] self.entries()[j].key == self.entries()[i].key ==> j == i,
    {
        let s = self.entries();
        assert forall|j: int| 0 <= j < s.len() && #[trigger] s[j].key == s[i].key implies j == i by {
            if j < i {
                assert(lex_lt(s[j].key, s[i].key));
                lemma_lex_irreflexive(s[i].key);
            } else if j > i {
                assert(lex_lt(s[i].key, s[j].key));
                lemma_lex_irreflexive(s[i].key);
            }
        }
    }

    /// Sets `key` to `value`, overwriting a plain entry. Fails on a read-only bucket, an
    /// empty or too long key, a too long value, or a key that names a sub-bucket.
    pub fn put(&mut self, writable: bool, key: &[u8], value: &[u8]) -> (r: Result<(), BoltError>)
        requires
            old(self).wf(),
        ensures
            final(self).wf(),
            final(self).header == old(self).header,
            r is Err ==> *final(self) == *old(self),
            r == match put_error(writable, old(self).entries(), key@, value@) {
                Some(e) => Err::<(), BoltError>(e),
                None => Ok(()),
            },
            r is Ok ==> put_result(
                old(self).entries(),
                key@,
                InodeView { flags: 0, pgid: 0, key: key@, value: value@ },
                final(self).entries(),
            ),
            r is Ok ==> lookup(final(self).entries(), key@) == Some(value@),
    {
        if !writable {
            return Err(BoltError::TxNotWritable);
        }
        if key.len() == 0 {
            return Err(BoltError::KeyRequired);
        }
        if key.len() > MAX_KEY_SIZE {
            return Err(BoltError::KeyTooLarge);
        }
        if value.len() > MAX_VALUE_SIZE {
            return Err(BoltError::ValueTooLarge);
        }
        if let Some(i) = self.find(key) {
            if self.root.inodes.get(i).flags & BUCKET_LEAF_FLAG != 0 {
                return Err(BoltError::IncompatibleValue);
            }
        }
        proof {
            if exists|i: int| 0 <= i < self.entries().len() && (#[trigger] self.entries()[i]).key == key@ && is_bucket_flag(self.entries()[i].flags) {
                let i = choose|i: int| 0 <= i < self.entries().len() && (#[trigger] self.entries()[i]).key == key@ && is_bucket_flag(self.entries()[i].flags);
                self.lemma_unique_key(i);
            }
            assert(same_place(self.entries(), key@, key@));
        }
        self.root.put(key, key, value, 0, 0);
        proof {
            self.lemma_put_lookup(*old(self), key@, value@);
        }
        Ok(())
    }

    proof fn lemma_put_lookup(&self, before: Bucket, key: Seq<u8>, value: Seq<u8>)
        requires
            self.wf(),
            put_result(before.entries(), key, InodeView { flags: 0, pgid: 0, key, value }, self.entries()),
        ensures
            lookup(self.entries(), key) == Some(value),
    {
        let s = before.entries();
        let r = self.entries();
        let nv = InodeView { flags: 0, pgid: 0, key, value };
        let k = if exists|i: int| 0 <= i < s.len() && #[trigger] s[i].key == key && r == s.update(i, nv) {
            choose|i: int| 0 <= i < s.len() && #[trigger] s[i].key == key && r == s.update(i, nv)
        } else {
            choose|i: int| 0 <= i <= s.len() && (forall|j: int| 0 <= j < i ==> lex_lt(#[trigger] s[j].key, key))
                && (forall|j: int| i <= j < s.len() ==> lex_lt(key, #[trigger] s[j].key)) && r == #[trigger] s.insert(i, nv)
        };
        assert(r[k] == nv);
        assert(0 & BUCKET_LEAF_FLAG == 0) by (bit_vector);
        self.lemma_unique_key(k);
    }

    /// Removes the plain entry with `key`, if any. Fails on a read-only bucket or when the
    /// key names a sub-bucket.
    pub fn delete(&mut self, writable: bool, key: &[u8]) -> (r: Result<(), BoltError>)
        requires
            old(self).wf(),
        ensures
            final(self).wf(),
            final(self).header == old(self).header,
            !writable ==> r == Err::<(), BoltError>(BoltError::TxNotWritable),
            writable && (exists|i: int| 0 <= i < old(self).entries().len() && (#[trigger] old(self).entries()[i]).key == key@ && is_bucket_flag(old(self).entries()[i].flags))
                ==> r == Err::<(), BoltError>(BoltError::IncompatibleValue),
            r is Err ==> *final(self) == *old(self),
            r is Ok ==> writable && lookup(final(self).entries(), key@) is None && !has_key(final(self).entries(), key@),
            r is Ok && has_key(old(self).entries(), key@) ==> exists|i: int| 0 <= i < old(self).entries().len()
                && #[trigger] old(self).entries()[i].key == key@ && final(self).entries() == old(self).entries().remove(i),
            r is Ok && !has_key(old(self).entries(), key@) ==> final(self).entries() == old(self).entries(),
            writable && !(exists|i: int| 0 <= i < old(self).entries().len() && (#[trigger] old(self).entries()[i]).key == key@ && is_bucket_flag(old(self).entries()[i].flags)) ==> r is Ok,
    {
        if !writable {
            return Err(BoltError::TxNotWritable);
        }
        match self.find(key) {
            Some(i) => {
                proof {
                    self.lemma_unique_key(i as int);
                }
                if self.root.inodes.get(i).flags & BUCKET_LEAF_FLAG != 0 {
                    return Err(BoltError::IncompatibleValue);
                }
            },
            None => {},
        }
        let ghost s = self.entries();
        self.root.del(key);
        proof {
            let r = self.entries();
            if has_key(s, key@) {
                let i = choose|i: int| 0 <= i < s.len() && #[trigger] s[i].key == key@ && r == s.remove(i);
                self.lemma_unique_key_before(s, i, key@);
            }
            if has_key(r, key@) {
                let j = choose|j: int| 0 <= j < r.len() && (#[trigger] r[j]).key == key@;
                assert(has_key(s, key@)) by {
                    if !has_key(s, key@) {
                        assert(r == s);
                    }
                }
            }
        }
        Ok(())
    }

    pub proof fn lemma_unique_key_before(&self, s: Seq<InodeView>, i: int, key: Seq<u8>)
        requires
            keys_sorted(s),
            0 <= i < s.len(),
            s[i].key == key,
            self.entries() == s.remove(i),
        ensures
            !has_key(self.entries(), key),
    {
        let r = self.entries();
        if has_key(r, key) {
            let j = choose|j: int| 0 <= j < r.len() && (#[trigger] r[j]).key == key;
            if j < i {
                assert(r[j] == s[j]);
                assert(lex_lt(s[j].key, s[i].key));
                lemma_lex_irreflexive(key);
            } else {
                assert(r[j] == s[j + 1]);
                assert(lex_lt(s[i].key, s[j + 1].key));
                lemma_lex_irreflexive(key);
            }
        }
    }

    /// The bucket's sequence number.
    pub fn sequence(&self) -> (r: u64)
        ensures
            r == self.header.sequence,
    {
        self.header.sequence
    }

    /// Sets the sequence number; fails on a read-only bucket.
    pub fn set_sequence(&mut self, writable: bool, v: u64) -> (r: Result<(), BoltError>)
        ensures
            !writable ==> r == Err::<(), BoltError>(BoltError::TxNotWritable) && *final(self) == *old(self),
            writable ==> r is Ok && final(self).header.sequence == v,
            final(self).header.root == old(self).header.root,
            final(self).root == old(self).root,
    {
        if !writable {
            return Err(BoltError::TxNotWritable);
        }
        self.header.sequence = v;
        Ok(())
    }

    /// Increments the sequence number and returns the new value; fails on a read-only
    /// bucket or when the sequence cannot grow.
    pub fn next_sequence(&mut self, writable: bool) -> (r: Result<u64, BoltError>)
        ensures
            !writable ==> r == Err::<u64, BoltError>(BoltError::TxNotWritable),
            writable && old(self).header.sequence == u64::MAX ==> r is Err,
            r is Err ==> *final(self) == *old(self),
            writable && old(self).header.sequence < u64::MAX ==> r == Ok::<u64, BoltError>((old(self).header.sequence + 1) as u64)
                && final(self).header.sequence == old(self).header.sequence + 1,
            final(self).header.root == old(self).header.root,
            final(self).root == old(self).root,
    {
        if !writable {
            return Err(BoltError::TxNotWritable);
        }
        if self.header.sequence == u64::MAX {
            return Err(BoltError::Unexpected("sequence overflow"));
        }
        self.header.sequence = self.header.sequence + 1;
        Ok(self.header.sequence)
    }
}

/// Walking a bucket's entries in order gives strictly ascending keys, so no key comes twice.
pub proof fn lemma_entries_ascend(b: Bucket)
    requires
        b.wf(),
    ensures
        forall|i: int, j: int| 0 <= i < j < b.entries().len() ==> lex_lt(#[trigger] b.entries()[i].key, #[trigger] b.entries()[j].key),
        forall|i: int, j: int| 0 <= i < j < b.entries().len() ==> #[trigger] b.entries()[i].key != #[trigger] b.entries()[j].key,
{
    assert forall|i: int, j: int| 0 <= i < j < b.entries().len() implies #[trigger] b.entries()[i].key != #[trigger] b.entries()[j].key by {
        lemma_lex_irreflexive(b.entries()[i].key);
    }
}

} // verus!
