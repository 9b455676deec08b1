//! Transactions: a snapshot of the meta, the buckets a transaction works on, and what a
//! commit writes.

use vstd::prelude::*;
use crate::bucket::{Bucket, is_bucket_flag, lookup, put_error, has_key};
use crate::codec::read_le;
use crate::db::{Db, read_page, page_span, page_readable, pad_to, MIN_PAGE_SIZE, MAX_PAGE_SIZE, slot_meta, image_consistent, meta_pages_kept, lemma_kept_slots, lemma_meta_at_local, lemma_prefix_kept};
use crate::errors::BoltError;
use crate::freelist::Freelist;
use crate::in_bucket::{InBucket, BUCKET_HEADER_SIZE};
use crate::inode::{Inode, InodeView, Inodes, keys_sorted, copy_bytes, read_inode_from_page, push_bytes, body_fits, elements_in_bounds, decoded_inodes};
use crate::keys::{compare_keys, lex_lt, lemma_lex_trans};
use crate::meta::{Meta, meta_valid, meta_slot, PGID_NO_FREELIST, META_PAGE_SIZE};
use crate::node::{Node, DEFAULT_FILL_PERCENT};
use crate::page::{Page, PgId, BUCKET_LEAF_FLAG, PAGE_HEADER_SIZE, header_of};

verus! {

/// How deep a page tree may be before it is taken for corrupt.
pub const MAX_TREE_DEPTH: u32 = 64;

/// The keys of `v` strictly ascend and none is empty.
pub fn check_sorted(v: &Vec<Inode>) -> (r: bool)
    ensures
        r ==> keys_sorted(v@.map_values(|i: Inode| i@)),
        r ==> forall|i: int| 0 <= i < v@.len() ==> (#[trigger] v@[i]).key@.len() > 0,
        keys_sorted(v@.map_values(|i: Inode| i@)) && (forall|i: int| 0 <= i < v@.len() ==> (#[trigger] v@[i]).key@.len() > 0) ==> r,
{
    let ghost s = v@.map_values(|i: Inode| i@);
    let mut i: usize = 0;
    while i < v.len()
        invariant
            i <= v@.len(),
            s == v@.map_values(|i: Inode| i@),
            forall|a: int, b: int| 0 <= a < b < i ==> lex_lt(#[trigger] s[a].key, #[trigger] s[b].key),
            forall|c: int| 0 <= c < i ==> (#[trigger] v@[c]).key@.len() > 0,
        decreases v@.len() - i,
    {
        if v[i].key.len() == 0 {
            return false;
        }
        if i > 0 {
            if compare_keys(v[i - 1].key.as_slice(), v[i].key.as_slice()) != -1 {
                proof {
                    assert(s[i - 1].key == v@[i - 1].key@);
                    assert(s[i as int].key == v@[i as int].key@);
                }
                return false;
            }
            proof {
                assert forall|a: int, b: int| 0 <= a < b < i + 1 implies lex_lt(#[trigger] s[a].key, #[trigger] s[b].key) by {
                    if b == i && a < i - 1 {
                        lemma_lex_trans(s[a].key, s[i - 1].key, s[i as int].key);
                    }
                }
            }
        }
        i = i + 1;
    }
    true
}

/// The bytes of page `pgid` and its overflow pages in `data`.
pub open spec fn page_bytes(data: Seq<u8>, page_size: int, pgid: int) -> Seq<u8> {
    data.subrange(pgid * page_size, pgid * page_size + page_span(data, page_size, pgid))
}

/// The leaf entries, in order, of the page tree rooted at `pgid` in the image `data`, read
/// through at most `depth` levels; `None` when a page is missing, malformed or of the
/// wrong kind, or the tree is deeper.
pub open spec fn tree_leaves(data: Seq<u8>, page_size: int, pgid: u64, depth: nat) -> Option<Seq<InodeView>>
    decreases depth, 0nat,
{
    if depth == 0 || !page_readable(data, page_size, pgid as int) {
        None
    } else {
        let b = page_bytes(data, page_size, pgid as int);
        let p = header_of(b);
        if p.spec_is_leaf() {
            if elements_in_bounds(true, b, p.count as int) {
                Some(decoded_inodes(true, b, p.count as int))
            } else {
                None
            }
        } else if p.spec_is_branch() {
            if elements_in_bounds(false, b, p.count as int) {
                children_leaves(data, page_size, decoded_inodes(false, b, p.count as int), (depth - 1) as nat)
            } else {
                None
            }
        } else {
            None
        }
    }
}

/// The leaf entries under the children `kids` of a branch page, in order.
pub open spec fn children_leaves(data: Seq<u8>, page_size: int, kids: Seq<InodeView>, depth: nat) -> Option<Seq<InodeView>>
    decreases depth, kids.len() + 1,
{
    if kids.len() == 0 {
        Some(Seq::empty())
    } else {
        match children_leaves(data, page_size, kids.drop_last(), depth) {
            Some(a) => match tree_leaves(data, page_size, kids.last().pgid, depth) {
                Some(l) => Some(a + l),
                None => None,
            },
            None => None,
        }
    }
}

/// Once the leaves under a prefix of the children cannot be read, those under all of
/// them cannot either.
proof fn lemma_children_none(data: Seq<u8>, page_size: int, kids: Seq<InodeView>, i: int, depth: nat)
    requires
        0 <= i <= kids.len(),
        children_leaves(data, page_size, kids.subrange(0, i), depth) is None,
    ensures
        children_leaves(data, page_size, kids, depth) is None,
    decreases kids.len() - i,
{
    if i < kids.len() {
        assert(kids.subrange(0, i + 1).drop_last() =~= kids.subrange(0, i));
        lemma_children_none(data, page_size, kids, i + 1, depth);
    } else {
        assert(kids.subrange(0, i) =~= kids);
    }
}

/// The views of a list of inodes.
pub open spec fn views(v: Seq<Inode>) -> Seq<InodeView> {
    v.map_values(|i: Inode| i@)
}

/// Appends to `out` the leaf entries of the page tree rooted at `pgid`, in page order, and
/// records each page read in `pages`.
fn collect_leaves(data: &[u8], page_size: usize, pgid: PgId, depth: u32, out: &mut Vec<Inode>, pages: &mut Vec<(PgId, u32)>) -> (r: Result<(), BoltError>)
    requires
        MIN_PAGE_SIZE <= page_size <= MAX_PAGE_SIZE,
    ensures
        r is Ok <==> tree_leaves(data@, page_size as int, pgid, depth as nat) is Some,
        r is Ok ==> views(final(out)@) == views(old(out)@) + tree_leaves(data@, page_size as int, pgid, depth as nat)->Some_0,
    decreases depth,
{
    if depth == 0 {
        return Err(BoltError::Unexpected("page tree too deep or circular"));
    }
    let (p, b) = read_page(data, page_size, pgid)?;
    proof {
        assert(b@ == page_bytes(data@, page_size as int, pgid as int));
    }
    pages.push((pgid, p.overflow));
    if p.is_leaf_page() {
        let mut inodes = read_inode_from_page(&p, b)?;
        let ghost got = inodes@;
        let ghost before = out@;
        out.append(&mut inodes.inodes);
        proof {
            assert(views(out@) =~= views(before) + got);
        }
        Ok(())
    } else if p.is_branch_page() {
        let inodes = read_inode_from_page(&p, b)?;
        let ghost kids = inodes@;
        let ghost start = out@;
        proof {
            assert(!p.spec_is_leaf() && p.spec_is_branch());
            assert(kids == decoded_inodes(false, page_bytes(data@, page_size as int, pgid as int), p.count as int));
            assert(tree_leaves(data@, page_size as int, pgid, depth as nat)
                == children_leaves(data@, page_size as int, kids, (depth - 1) as nat));
        }
        let mut i: usize = 0;
        proof {
            assert(kids.subrange(0, 0) =~= Seq::<InodeView>::empty());
            assert(views(out@) =~= views(start) + Seq::<InodeView>::empty());
        }
        while i < inodes.inodes.len()
            invariant
                MIN_PAGE_SIZE <= page_size <= MAX_PAGE_SIZE,
                depth > 0,
                kids == inodes@,
                tree_leaves(data@, page_size as int, pgid, depth as nat)
                    == children_leaves(data@, page_size as int, kids, (depth - 1) as nat),
                i <= kids.len(),
                children_leaves(data@, page_size as int, kids.subrange(0, i as int), (depth - 1) as nat) is Some,
                views(out@) == views(start) + children_leaves(data@, page_size as int, kids.subrange(0, i as int), (depth - 1) as nat)->Some_0,
            decreases inodes.inodes@.len() - i,
        {
            let ghost mid = out@;
            let ghost sub = kids.subrange(0, i + 1);
            proof {
                assert(sub.drop_last() =~= kids.subrange(0, i as int));
                assert(inodes.inodes@[i as int]@ == kids[i as int]);
            }
            let c = collect_leaves(data, page_size, inodes.inodes[i].pgid, depth - 1, out, pages);
            if c.is_err() {
                proof {
                    assert(sub.last() == kids[i as int]);
                    assert(tree_leaves(data@, page_size as int, sub.last().pgid, (depth - 1) as nat) is None);
                    assert(children_leaves(data@, page_size as int, sub, (depth - 1) as nat) is None);
                    lemma_children_none(data@, page_size as int, kids, i + 1, (depth - 1) as nat);
                }
                return c;
            }
            proof {
                assert(views(out@) =~= views(start) + children_leaves(data@, page_size as int, sub, (depth - 1) as nat)->Some_0);
            }
            i = i + 1;
        }
        proof {
            assert(kids.subrange(0, kids.len() as int) =~= kids);
        }
        Ok(())
    } else {
        Err(BoltError::Unexpected("page is neither a branch nor a leaf"))
    }
}

/// Reads a bucket header from the first sixteen bytes of a sub-bucket value.
fn read_in_bucket(v: &[u8]) -> (r: Result<InBucket, BoltError>)
    ensures
        r is Ok ==> v@.len() >= BUCKET_HEADER_SIZE,
{
    if v.len() < BUCKET_HEADER_SIZE {
        return Err(BoltError::Unexpected("sub-bucket value shorter than its header"));
    }
    Ok(InBucket { root: read_le(v, 0, 8), sequence: read_le(v, 8, 8) })
}

/// Some inode of `node` points at page `pgid`.
fn points_to(node: &Node, pgid: PgId) -> (r: bool)
    ensures
        !r ==> forall|j: int| 0 <= j < node.inodes@.len() ==> (#[trigger] node.inodes@[j]).pgid != pgid,
{
    let mut i: usize = 0;
    while i < node.inodes.len()
        invariant
            i <= node.inodes@.len(),
            forall|j: int| 0 <= j < i ==> (#[trigger] node.inodes@[j]).pgid != pgid,
        decreases node.inodes@.len() - i,
    {
        if node.inodes.get(i).pgid == pgid {
            return true;
        }
        i = i + 1;
    }
    false
}

/// The entries `e` of a loaded bucket are the leaf entries `s` it was read from: same keys,
/// flags and values in the same order, and the same page ids for plain entries. A
/// sub-bucket entry's page id names the sub-bucket's place in the transaction instead.
pub open spec fn loaded_from(e: Seq<InodeView>, s: Seq<InodeView>) -> bool {
    &&& e.len() == s.len()
    &&& forall|k: int| 0 <= k < s.len() ==> {
        &&& (#[trigger] e[k]).key == s[k].key
        &&& e[k].flags == s[k].flags
        &&& e[k].value == s[k].value
        &&& !is_bucket_flag(s[k].flags) ==> e[k].pgid == s[k].pgid
    }
}

/// A written page lies past the meta pages and its end is addressable.
pub open spec fn dirty_page_fits(d: (PgId, Vec<u8>), page_size: int) -> bool {
    d.0 >= 2 && d.0 * page_size + d.1@.len() <= usize::MAX
}

/// Every written page fits.
pub open spec fn dirty_fits(ds: Seq<(PgId, Vec<u8>)>, page_size: int) -> bool {
    forall|j: int| 0 <= j < ds.len() ==> #[trigger] dirty_page_fits(ds[j], page_size)
}

/// A bucket with entries `e` is written inline in its parent's value: it has no sub-buckets
/// and its leaf takes at most a quarter page less the bucket header.
pub open spec fn inlineable(e: Seq<InodeView>, page_size: int) -> bool {
    &&& forall|j: int| 0 <= j < e.len() ==> !is_bucket_flag(#[trigger] e[j].flags)
    &&& crate::node::inodes_size(e) <= page_size / 4 - BUCKET_HEADER_SIZE
    &&& e.len() <= 0xFFFF
}

/// Entries with no sub-bucket among them, whose keys are non-empty and strictly ascend.
pub open spec fn plain_sorted(s: Seq<InodeView>) -> bool {
    &&& forall|j: int| 0 <= j < s.len() ==> !is_bucket_flag(#[trigger] s[j].flags)
    &&& keys_sorted(s)
    &&& forall|j: int| 0 <= j < s.len() ==> (#[trigger] s[j]).key.len() > 0
}

/// Every bucket of the list is well formed.
pub open spec fn all_wf(bs: Seq<Bucket>) -> bool {
    forall|k: int| 0 <= k < bs.len() ==> (#[trigger] bs[k]).wf()
}

/// Loads the bucket with header `header` (and, for an inline bucket, the page bytes
/// `inline`) with all its sub-buckets into `buckets`; returns its place there.
fn load_bucket(buckets: &mut Vec<Bucket>, data: &[u8], page_size: usize, header: InBucket, inline: &[u8], depth: u32, pages: &mut Vec<(PgId, u32)>) -> (r: Result<usize, BoltError>)
    requires
        MIN_PAGE_SIZE <= page_size <= MAX_PAGE_SIZE,
        all_wf(old(buckets)@),
    ensures
        all_wf(final(buckets)@),
        final(buckets)@.len() >= old(buckets)@.len(),
        forall|k: int| 0 <= k < old(buckets)@.len() ==> #[trigger] final(buckets)@[k] == old(buckets)@[k],
        r matches Ok(i) ==> i < final(buckets)@.len() && final(buckets)@[i as int].header == header,
        depth > 0 && header.root != 0 && tree_leaves(data@, page_size as int, header.root, MAX_TREE_DEPTH as nat) is Some && plain_sorted(
            tree_leaves(data@, page_size as int, header.root, MAX_TREE_DEPTH as nat)->Some_0,
        ) ==> r is Ok,
        r matches Ok(i) ==> (header.root != 0 ==> tree_leaves(data@, page_size as int, header.root, MAX_TREE_DEPTH as nat) is Some
            && loaded_from(final(buckets)@[i as int].entries(), tree_leaves(data@, page_size as int, header.root, MAX_TREE_DEPTH as nat)->Some_0)),
    decreases depth,
{
    if depth == 0 {
        return Err(BoltError::Unexpected("buckets nested too deep"));
    }
    let mut items: Vec<Inode> = Vec::new();
    if header.root == 0 {
        if inline.len() < PAGE_HEADER_SIZE {
            return Err(BoltError::Unexpected("inline bucket shorter than a page header"));
        }
        let p = Page::read_header(inline);
        if !p.is_leaf_page() {
            return Err(BoltError::Unexpected("inline bucket page is not a leaf"));
        }
        let inodes = read_inode_from_page(&p, inline)?;
        items = inodes.inodes;
    } else {
        collect_leaves(data, page_size, header.root, MAX_TREE_DEPTH, &mut items, pages)?;
        proof {
            assert(views(items@) =~= tree_leaves(data@, page_size as int, header.root, MAX_TREE_DEPTH as nat)->Some_0);
        }
    }
    let ghost src = views(items@);
    proof {
        assert(loaded_from(views(items@), src));
    }
    let mut i: usize = 0;
    while i < items.len()
        invariant
            MIN_PAGE_SIZE <= page_size <= MAX_PAGE_SIZE,
            all_wf(buckets@),
            depth > 0,
            header.root != 0 ==> src == tree_leaves(data@, page_size as int, header.root, MAX_TREE_DEPTH as nat)->Some_0,
            loaded_from(views(items@), src),
            views(items@).len() == src.len(),
            (forall|j: int| 0 <= j < src.len() ==> !is_bucket_flag(#[trigger] src[j].flags)) ==> views(items@) == src,
            buckets@.len() >= old(buckets)@.len(),
            forall|k: int| 0 <= k < old(buckets)@.len() ==> #[trigger] buckets@[k] == old(buckets)@[k],
        decreases items@.len() - i,
    {
        if items[i].flags & BUCKET_LEAF_FLAG != 0 {
            proof {
                assert(views(items@)[i as int].flags == src[i as int].flags);
                assert(is_bucket_flag(src[i as int].flags));
            }
            let v = copy_bytes(items[i].value.as_slice());
            let h = read_in_bucket(v.as_slice())?;
            let rest = vstd::slice::slice_subrange(v.as_slice(), BUCKET_HEADER_SIZE, v.len());
            let c = load_bucket(buckets, data, page_size, h, rest, depth - 1, pages)?;
            let it = Inode {
                flags: items[i].flags,
                pgid: c as u64,
                key: copy_bytes(items[i].key.as_slice()),
                value: v,
            };
            let ghost prev = views(items@);
            items.set(i, it);
            proof {
                assert(views(items@) =~= prev.update(i as int, it@));
                assert(prev[i as int].value == v@);
            }
        }
        i = i + 1;
    }
    proof {
        assert(items@.map_values(|i: Inode| i@) == views(items@));
        if plain_sorted(src) {
            assert forall|j: int| 0 <= j < items@.len() implies (#[trigger] items@[j]).key@.len() > 0 by {
                assert(views(items@)[j] == src[j]);
            }
        }
    }
    if !check_sorted(&items) {
        return Err(BoltError::Unexpected("bucket keys out of order"));
    }
    let root = Node { is_leaf: true, pgid: header.root, key: Vec::new(), inodes: Inodes { inodes: items }, unbalanced: false, spilled: false };
    let idx = buckets.len();
    buckets.push(Bucket { header, root, fill_percent: DEFAULT_FILL_PERCENT });
    Ok(idx)
}

/// One more than `x`, staying at `i64::MAX`.
pub open spec fn bumped(x: i64) -> i64 {
    if x < i64::MAX {
        (x + 1) as i64
    } else {
        x
    }
}

/// `a - b`, kept within `i64`.
pub open spec fn sat_diff(a: i64, b: i64) -> i64 {
    if a - b > i64::MAX {
        i64::MAX
    } else if a - b < i64::MIN {
        i64::MIN
    } else {
        (a - b) as i64
    }
}

fn sub_sat(a: i64, b: i64) -> (r: i64)
    ensures
        r == sat_diff(a, b),
{
    if b < 0 && a > i64::MAX + b {
        i64::MAX
    } else if b > 0 && a < i64::MIN + b {
        i64::MIN
    } else {
        a - b
    }
}

/// Counts of what a transaction did. Time totals are in nanoseconds.
#[derive(Debug, Default, Clone, Copy, PartialEq, Eq)]
pub struct TxStats {
    pub page_count: i64,
    pub page_alloc: i64,
    pub cursor_count: i64,
    pub node_count: i64,
    pub node_deref: i64,
    pub rebalance: i64,
    pub split: i64,
    pub spill: i64,
    pub write: i64,
    pub spill_time: u64,
    pub write_time: u64,
    pub rebalance_time: u64,
}

impl TxStats {
    pub fn page_count(&self) -> (r: i64)
        ensures
            r == self.page_count,
    {
        self.page_count
    }

    pub fn inc_page_count(&mut self)
        ensures
            *final(self) == (TxStats { page_count: bumped(old(self).page_count), ..*old(self) }),
    {
        if self.page_count < i64::MAX {
            self.page_count = self.page_count + 1;
        }
    }

    pub fn page_alloc(&self) -> (r: i64)
        ensures
            r == self.page_alloc,
    {
        self.page_alloc
    }

    pub fn inc_page_alloc(&mut self)
        ensures
            *final(self) == (TxStats { page_alloc: bumped(old(self).page_alloc), ..*old(self) }),
    {
        if self.page_alloc < i64::MAX {
            self.page_alloc = self.page_alloc + 1;
        }
    }

    pub fn cursor_count(&self) -> (r: i64)
        ensures
            r == self.cursor_count,
    {
        self.cursor_count
    }

    pub fn inc_cursor_count(&mut self)
        ensures
            *final(self) == (TxStats { cursor_count: bumped(old(self).cursor_count), ..*old(self) }),
    {
        if self.cursor_count < i64::MAX {
            self.cursor_count = self.cursor_count + 1;
        }
    }

    pub fn node_count(&self) -> (r: i64)
        ensures
            r == self.node_count,
    {
        self.node_count
    }

    pub fn inc_node_count(&mut self)
        ensures
            *final(self) == (TxStats { node_count: bumped(old(self).node_count), ..*old(self) }),
    {
        if self.node_count < i64::MAX {
            self.node_count = self.node_count + 1;
        }
    }

    pub fn node_deref(&self) -> (r: i64)
        ensures
            r == self.node_deref,
    {
        self.node_deref
    }

    pub fn inc_node_deref(&mut self)
        ensures
            *final(self) == (TxStats { node_deref: bumped(old(self).node_deref), ..*old(self) }),
    {
        if self.node_deref < i64::MAX {
            self.node_deref = self.node_deref + 1;
        }
    }

    pub fn rebalance(&self) -> (r: i64)
        ensures
            r == self.rebalance,
    {
        self.rebalance
    }

    pub fn inc_rebalance(&mut self)
        ensures
            *final(self) == (TxStats { rebalance: bumped(old(self).rebalance), ..*old(self) }),
    {
        if self.rebalance < i64::MAX {
            self.rebalance = self.rebalance + 1;
        }
    }

    pub fn split(&self) -> (r: i64)
        ensures
            r == self.split,
    {
        self.split
    }

    pub fn inc_split(&mut self)
        ensures
            *final(self) == (TxStats { split: bumped(old(self).split), ..*old(self) }),
    {
        if self.split < i64::MAX {
            self.split = self.split + 1;
        }
    }

    pub fn spill(&self) -> (r: i64)
        ensures
            r == self.spill,
    {
        self.spill
    }

    pub fn inc_spill(&mut self)
        ensures
            *final(self) == (TxStats { spill: bumped(old(self).spill), ..*old(self) }),
    {
        if self.spill < i64::MAX {
            self.spill = self.spill + 1;
        }
    }

    pub fn write(&self) -> (r: i64)
        ensures
            r == self.write,
    {
        self.write
    }

    pub fn inc_write(&mut self)
        ensures
            *final(self) == (TxStats { write: bumped(old(self).write), ..*old(self) }),
    {
        if self.write < i64::MAX {
            self.write = self.write + 1;
        }
    }

    pub fn spill_time(&self) -> (r: u64)
        ensures
            r == self.spill_time,
    {
        self.spill_time
    }

    /// Adds `nanos` to the total, staying at `u64::MAX`.
    pub fn inc_spill_time(&mut self, nanos: u64)
        ensures
            *final(self) == (TxStats {
                spill_time: if old(self).spill_time + nanos > u64::MAX { u64::MAX } else { (old(self).spill_time + nanos) as u64 },
                ..*old(self)
            }),
    {
        if nanos > u64::MAX - self.spill_time {
            self.spill_time = u64::MAX;
        } else {
            self.spill_time = self.spill_time + nanos;
        }
    }

    pub fn write_time(&self) -> (r: u64)
        ensures
            r == self.write_time,
    {
        self.write_time
    }

    /// Adds `nanos` to the total, staying at `u64::MAX`.
    pub fn inc_write_time(&mut self, nanos: u64)
        ensures
            *final(self) == (TxStats {
                write_time: if old(self).write_time + nanos > u64::MAX { u64::MAX } else { (old(self).write_time + nanos) as u64 },
                ..*old(self)
            }),
    {
        if nanos > u64::MAX - self.write_time {
            self.write_time = u64::MAX;
        } else {
            self.write_time = self.write_time + nanos;
        }
    }

    pub fn rebalance_time(&self) -> (r: u64)
        ensures
            r == self.rebalance_time,
    {
        self.rebalance_time
    }

    /// Adds `nanos` to the total, staying at `u64::MAX`.
    pub fn inc_rebalance_time(&mut self, nanos: u64)
        ensures
            *final(self) == (TxStats {
                rebalance_time: if old(self).rebalance_time + nanos > u64::MAX { u64::MAX } else { (old(self).rebalance_time + nanos) as u64 },
                ..*old(self)
            }),
    {
        if nanos > u64::MAX - self.rebalance_time {
            self.rebalance_time = u64::MAX;
        } else {
            self.rebalance_time = self.rebalance_time + nanos;
        }
    }

    /// The counts of `self` less those of `other`, as for an interval between two
    /// snapshots.
    pub fn sub(&self, other: &TxStats) -> (r: TxStats)
        ensures
            r.page_count == sat_diff(self.page_count, other.page_count),
            r.page_alloc == sat_diff(self.page_alloc, other.page_alloc),
            r.cursor_count == sat_diff(self.cursor_count, other.cursor_count),
            r.node_count == sat_diff(self.node_count, other.node_count),
            r.node_deref == sat_diff(self.node_deref, other.node_deref),
            r.rebalance == sat_diff(self.rebalance, other.rebalance),
            r.split == sat_diff(self.split, other.split),
            r.spill == sat_diff(self.spill, other.spill),
            r.write == sat_diff(self.write, other.write),
            r.spill_time == if self.spill_time >= other.spill_time { (self.spill_time - other.spill_time) as u64 } else { 0 },
            r.write_time == if self.write_time >= other.write_time { (self.write_time - other.write_time) as u64 } else { 0 },
            r.rebalance_time == if self.rebalance_time >= other.rebalance_time { (self.rebalance_time - other.rebalance_time) as u64 } else { 0 },
    {
        TxStats {
            page_count: sub_sat(self.page_count, other.page_count),
            page_alloc: sub_sat(self.page_alloc, other.page_alloc),
            cursor_count: sub_sat(self.cursor_count, other.cursor_count),
            node_count: sub_sat(self.node_count, other.node_count),
            node_deref: sub_sat(self.node_deref, other.node_deref),
            rebalance: sub_sat(self.rebalance, other.rebalance),
            split: sub_sat(self.split, other.split),
            spill: sub_sat(self.spill, other.spill),
            write: sub_sat(self.write, other.write),
            spill_time: if self.spill_time >= other.spill_time { self.spill_time - other.spill_time } else { 0 },
            write_time: if self.write_time >= other.write_time { self.write_time - other.write_time } else { 0 },
            rebalance_time: if self.rebalance_time >= other.rebalance_time { self.rebalance_time - other.rebalance_time } else { 0 },
        }
    }
}

/// A transaction: a copy of the meta taken at its start, and the buckets it works on. The
/// root bucket is at `root`; the others are reached through sub-bucket entries.
pub struct Tx {
    pub meta: Meta,
    pub writable: bool,
    pub closed: bool,
    pub page_size: usize,
    pub buckets: Vec<Bucket>,
    pub root: usize,
    pub old_pages: Vec<(PgId, u32)>,
    pub freelist_overflow: u32,
    pub dirty: Vec<(PgId, Vec<u8>)>,
    pub stats: TxStats,
}

impl Tx {
    /// Its page size is accepted and its buckets are well formed.
    pub open spec fn wf(&self) -> bool {
        &&& MIN_PAGE_SIZE <= self.page_size <= MAX_PAGE_SIZE
        &&& all_wf(self.buckets@)
        &&& self.root < self.buckets@.len()
    }

    /// The transaction id.
    pub fn id(&self) -> (r: u64)
        ensures
            r == self.meta.txid,
    {
        self.meta.txid
    }

    pub fn writable(&self) -> (r: bool)
        ensures
            r == self.writable,
    {
        self.writable
    }

    /// The root bucket's place.
    pub fn root(&self) -> (r: usize)
        ensures
            r == self.root,
    {
        self.root
    }

    /// The statistics so far.
    pub fn stats(&self) -> (r: TxStats)
        ensures
            r == self.stats,
    {
        self.stats
    }

    /// Begins a transaction on `db`. A writer takes the next transaction id and first frees
    /// what no open reader can still see; a reader registers its id. The snapshot is the
    /// tree the authoritative meta names.
    pub fn begin(db: &mut Db, writable: bool) -> (r: Result<Tx, BoltError>)
        requires
            old(db).freelist.wf(),
            MIN_PAGE_SIZE <= old(db).page_size <= MAX_PAGE_SIZE,
        ensures
            final(db).freelist.wf(),
            final(db).page_size == old(db).page_size,
            final(db).data == old(db).data,
            final(db).meta == old(db).meta,
            writable && old(db).read_only ==> r == Err::<Tx, BoltError>(BoltError::DatabaseReadOnly),
            writable && old(db).writer_open ==> r is Err,
            r matches Ok(tx) ==> {
                &&& tx.wf()
                &&& tx.writable == writable
                &&& !tx.closed
                &&& tx.page_size == old(db).page_size
                &&& tx.meta == if writable { Meta { txid: (old(db).meta.txid + 1) as u64, ..old(db).meta } } else { old(db).meta }
                &&& writable ==> final(db).writer_open
                &&& tx.buckets@[tx.root as int].header == old(db).meta.root
                &&& old(db).meta.root.root != 0 ==> tree_leaves(old(db).data@, old(db).page_size as int, old(db).meta.root.root, MAX_TREE_DEPTH as nat) is Some
                    && loaded_from(tx.buckets@[tx.root as int].entries(),
                        tree_leaves(old(db).data@, old(db).page_size as int, old(db).meta.root.root, MAX_TREE_DEPTH as nat)->Some_0)
            },
            old(db).meta.root.root != 0 && tree_leaves(old(db).data@, old(db).page_size as int, old(db).meta.root.root, MAX_TREE_DEPTH as nat) is None
                ==> r is Err,
            !(writable && (old(db).read_only || old(db).writer_open || old(db).meta.txid == u64::MAX))
                && old(db).meta.root.root != 0
                && tree_leaves(old(db).data@, old(db).page_size as int, old(db).meta.root.root, MAX_TREE_DEPTH as nat) is Some
                && plain_sorted(tree_leaves(old(db).data@, old(db).page_size as int, old(db).meta.root.root, MAX_TREE_DEPTH as nat)->Some_0)
                && (old(db).meta.freelist == PGID_NO_FREELIST || page_readable(old(db).data@, old(db).page_size as int, old(db).meta.freelist as int))
                ==> r is Ok,
    {
        if writable && db.read_only {
            return Err(BoltError::DatabaseReadOnly);
        }
        if writable && db.writer_open {
            return Err(BoltError::Unexpected("a writing transaction is already open"));
        }
        let mut meta = db.meta;
        if writable {
            if meta.txid == u64::MAX {
                return Err(BoltError::Unexpected("transaction ids exhausted"));
            }
            meta.txid = meta.txid + 1;
        }
        let mut buckets: Vec<Bucket> = Vec::new();
        let mut pages: Vec<(PgId, u32)> = Vec::new();
        let empty: Vec<u8> = Vec::new();
        let root = load_bucket(&mut buckets, db.data.as_slice(), db.page_size, meta.root, empty.as_slice(), MAX_TREE_DEPTH, &mut pages)?;
        if root >= buckets.len() {
            return Err(BoltError::Unexpected("root bucket missing"));
        }
        let mut freelist_overflow: u32 = 0;
        if meta.freelist != PGID_NO_FREELIST {
            let (fp, _b) = read_page(db.data.as_slice(), db.page_size, meta.freelist)?;
            freelist_overflow = fp.overflow;
        }
        if writable {
            db.freelist.release_pending_pages();
            db.writer_open = true;
        } else {
            db.freelist.add_readonly_txid(meta.txid);
            proof {
                assert(db.freelist.wf()) by {
                    assert(db.freelist.ids == old(db).freelist.ids);
                }
            }
        }
        Ok(Tx {
            meta,
            writable,
            closed: false,
            page_size: db.page_size,
            buckets,
            root,
            old_pages: pages,
            freelist_overflow,
            dirty: Vec::new(),
            stats: TxStats {
                page_count: 0,
                page_alloc: 0,
                cursor_count: 0,
                node_count: 0,
                node_deref: 0,
                rebalance: 0,
                split: 0,
                spill: 0,
                write: 0,
                spill_time: 0,
                write_time: 0,
                rebalance_time: 0,
            },
        })
    }

    /// The bucket at place `b`.
    pub fn bucket_ref(&self, b: usize) -> (r: &Bucket)
        requires
            b < self.buckets@.len(),
        ensures
            *r == self.buckets@[b as int],
    {
        &self.buckets[b]
    }

    /// The place of the sub-bucket `name` of bucket `parent`, if there is one.
    pub fn bucket(&self, parent: usize, name: &[u8]) -> (r: Option<usize>)
        requires
            self.wf(),
        ensures
            r matches Some(c) ==> c < self.buckets@.len() && parent < self.buckets@.len() && exists|i: int|
                0 <= i < self.buckets@[parent as int].entries().len() && #[trigger] self.buckets@[parent as int].entries()[i].key == name@
                    && is_bucket_flag(self.buckets@[parent as int].entries()[i].flags)
                    && self.buckets@[parent as int].entries()[i].pgid == c,
            parent < self.buckets@.len() ==> forall|i: int| 0 <= i < self.buckets@[parent as int].entries().len()
                && #[trigger] self.buckets@[parent as int].entries()[i].key == name@
                && is_bucket_flag(self.buckets@[parent as int].entries()[i].flags)
                && self.buckets@[parent as int].entries()[i].pgid < self.buckets@.len()
                ==> r == Some(self.buckets@[parent as int].entries()[i].pgid as usize),
    {
        if parent >= self.buckets.len() {
            return None;
        }
        match self.buckets[parent].find(name) {
            Some(i) => {
                proof {
                    self.buckets@[parent as int].lemma_unique_key(i as int);
                }
                let it = self.buckets[parent].root.inodes.get(i);
                if it.flags & BUCKET_LEAF_FLAG != 0 && it.pgid < self.buckets.len() as u64 {
                    Some(it.pgid as usize)
                } else {
                    None
                }
            },
            None => None,
        }
    }

    /// The value of `key` in bucket `b`.
    pub fn get(&self, b: usize, key: &[u8]) -> (r: Option<Vec<u8>>)
        requires
            self.wf(),
        ensures
            b >= self.buckets@.len() ==> r is None,
            b < self.buckets@.len() ==> match r {
                Some(v) => lookup(self.buckets@[b as int].entries(), key@) == Some(v@),
                None => lookup(self.buckets@[b as int].entries(), key@) is None,
            },
    {
        if b >= self.buckets.len() {
            return None;
        }
        match self.buckets[b].get(key) {
            Some(v) => Some(copy_bytes(v.as_slice())),
            None => None,
        }
    }

    /// Sets `key` to `value` in bucket `b`.
    pub fn put(&mut self, b: usize, key: &[u8], value: &[u8]) -> (r: Result<(), BoltError>)
        requires
            old(self).wf(),
        ensures
            final(self).wf(),
            final(self).buckets@.len() == old(self).buckets@.len(),
            final(self).meta == old(self).meta,
            final(self).writable == old(self).writable,
            final(self).closed == old(self).closed,
            old(self).closed ==> r == Err::<(), BoltError>(BoltError::TxClosed),
            !old(self).closed && b >= old(self).buckets@.len() ==> r == Err::<(), BoltError>(BoltError::BucketNotFound),
            !old(self).closed && b < old(self).buckets@.len() ==> r == match put_error(old(self).writable, old(self).buckets@[b as int].entries(), key@, value@) {
                Some(e) => Err::<(), BoltError>(e),
                None => Ok(()),
            },
            r is Ok ==> lookup(final(self).buckets@[b as int].entries(), key@) == Some(value@),
            r is Ok ==> crate::node::put_result(
                old(self).buckets@[b as int].entries(),
                key@,
                InodeView { flags: 0, pgid: 0, key: key@, value: value@ },
                final(self).buckets@[b as int].entries(),
            ),
            r is Err ==> final(self).buckets@ == old(self).buckets@,
            forall|k: int| 0 <= k < old(self).buckets@.len() && k != b ==> #[trigger] final(self).buckets@[k] == old(self).buckets@[k],
    {
        if self.closed {
            return Err(BoltError::TxClosed);
        }
        if b >= self.buckets.len() {
            return Err(BoltError::BucketNotFound);
        }
        let w = self.writable;
        let ghost before = self.buckets@;
        let r = self.buckets[b].put(w, key, value);
        proof {
            if r is Err {
                assert(self.buckets@ =~= before);
            }
        }
        proof {
            assert forall|k: int| 0 <= k < self.buckets@.len() implies (#[trigger] self.buckets@[k]).wf() by {}
        }
        r
    }

    /// Removes `key` from bucket `b`.
    pub fn delete(&mut self, b: usize, key: &[u8]) -> (r: Result<(), BoltError>)
        requires
            old(self).wf(),
        ensures
            final(self).wf(),
            final(self).buckets@.len() == old(self).buckets@.len(),
            final(self).meta == old(self).meta,
            final(self).writable == old(self).writable,
            final(self).closed == old(self).closed,
            old(self).closed ==> r == Err::<(), BoltError>(BoltError::TxClosed),
            !old(self).closed && b >= old(self).buckets@.len() ==> r == Err::<(), BoltError>(BoltError::BucketNotFound),
            !old(self).closed && !old(self).writable ==> r == Err::<(), BoltError>(BoltError::TxNotWritable) || b >= old(self).buckets@.len(),
            r is Ok ==> lookup(final(self).buckets@[b as int].entries(), key@) is None,
            !old(self).closed && old(self).writable && b < old(self).buckets@.len() && !(exists|i: int|
                0 <= i < old(self).buckets@[b as int].entries().len() && (#[trigger] old(self).buckets@[b as int].entries()[i]).key == key@
                && is_bucket_flag(old(self).buckets@[b as int].entries()[i].flags)) ==> r is Ok,
            r is Ok && has_key(old(self).buckets@[b as int].entries(), key@) ==> exists|i: int| 0 <= i < old(self).buckets@[b as int].entries().len()
                && #[trigger] old(self).buckets@[b as int].entries()[i].key == key@
                && final(self).buckets@[b as int].entries() == old(self).buckets@[b as int].entries().remove(i),
            r is Ok && !has_key(old(self).buckets@[b as int].entries(), key@) ==> final(self).buckets@[b as int].entries() == old(self).buckets@[b as int].entries(),
            r is Err ==> final(self).buckets@ == old(self).buckets@,
            forall|k: int| 0 <= k < old(self).buckets@.len() && k != b ==> #[trigger] final(self).buckets@[k] == old(self).buckets@[k],
    {
        if self.closed {
            return Err(BoltError::TxClosed);
        }
        if b >= self.buckets.len() {
            return Err(BoltError::BucketNotFound);
        }
        let w = self.writable;
        let ghost before = self.buckets@;
        let r = self.buckets[b].delete(w, key);
        proof {
            if r is Err {
                assert(self.buckets@ =~= before);
            }
            assert forall|k: int| 0 <= k < self.buckets@.len() implies (#[trigger] self.buckets@[k]).wf() by {}
        }
        r
    }

    /// Creates the sub-bucket `name` in bucket `parent` and returns its place.
    pub fn create_bucket(&mut self, parent: usize, name: &[u8]) -> (r: Result<usize, BoltError>)
        requires
            old(self).wf(),
        ensures
            final(self).wf(),
            final(self).meta == old(self).meta,
            final(self).writable == old(self).writable,
            final(self).closed == old(self).closed,
            old(self).closed ==> r == Err::<usize, BoltError>(BoltError::TxClosed),
            !old(self).closed && !old(self).writable ==> r == Err::<usize, BoltError>(BoltError::TxNotWritable),
            !old(self).closed && old(self).writable && parent >= old(self).buckets@.len() ==> r == Err::<usize, BoltError>(BoltError::BucketNotFound),
            !old(self).closed && old(self).writable && parent < old(self).buckets@.len() && name@.len() == 0 ==> r == Err::<usize, BoltError>(BoltError::BucketNameRequired),
            !old(self).closed && old(self).writable && parent < old(self).buckets@.len() && name@.len() > 0 && has_key(old(self).buckets@[parent as int].entries(), name@)
                ==> r is Err,
            r is Err ==> final(self).buckets@ == old(self).buckets@,
            r matches Ok(c) ==> {
                &&& c == old(self).buckets@.len()
                &&& final(self).buckets@.len() == c + 1
                &&& final(self).buckets@[c as int].entries().len() == 0
                &&& exists|i: int| 0 <= i < final(self).buckets@[parent as int].entries().len()
                    && #[trigger] final(self).buckets@[parent as int].entries()[i].key == name@
                    && is_bucket_flag(final(self).buckets@[parent as int].entries()[i].flags)
                    && final(self).buckets@[parent as int].entries()[i].pgid == c
            },
            !old(self).closed && old(self).writable && parent < old(self).buckets@.len() && 0 < name@.len() <= crate::bucket::MAX_KEY_SIZE
                && !has_key(old(self).buckets@[parent as int].entries(), name@) ==> r is Ok,
    {
        if self.closed {
            return Err(BoltError::TxClosed);
        }
        if !self.writable {
            return Err(BoltError::TxNotWritable);
        }
        if parent >= self.buckets.len() {
            return Err(BoltError::BucketNotFound);
        }
        if name.len() == 0 {
            return Err(BoltError::BucketNameRequired);
        }
        if name.len() > crate::bucket::MAX_KEY_SIZE {
            return Err(BoltError::KeyTooLarge);
        }
        match self.buckets[parent].find(name) {
            Some(i) => {
                if self.buckets[parent].root.inodes.get(i).flags & BUCKET_LEAF_FLAG != 0 {
                    return Err(BoltError::BucketExists);
                }
                return Err(BoltError::IncompatibleValue);
            },
            None => {},
        }
        let c = self.buckets.len();
        let ghost before = self.buckets@;
        proof {
            assert(crate::node::same_place(before[parent as int].entries(), name@, name@));
        }
        let empty: Vec<u8> = Vec::new();
        self.buckets[parent].root.put(name, name, empty.as_slice(), c as u64, BUCKET_LEAF_FLAG);
        self.buckets.push(Bucket::new(InBucket { root: 0, sequence: 0 }));
        proof {
            let s = before[parent as int].entries();
            let e = self.buckets@[parent as int].entries();
            let nv = InodeView { flags: BUCKET_LEAF_FLAG, pgid: c as u64, key: name@, value: Seq::empty() };
            assert(!has_key(s, name@));
            let k = choose|k: int| 0 <= k <= s.len() && (forall|j: int| 0 <= j < k ==> lex_lt(#[trigger] s[j].key, name@))
                && (forall|j: int| k <= j < s.len() ==> lex_lt(name@, #[trigger] s[j].key)) && e == #[trigger] s.insert(k, nv);
            assert(e[k] == nv);
            assert(BUCKET_LEAF_FLAG & BUCKET_LEAF_FLAG != 0) by (bit_vector);
            assert forall|q: int| 0 <= q < self.buckets@.len() implies (#[trigger] self.buckets@[q]).wf() by {}
        }
        Ok(c)
    }

    /// The sub-bucket `name` of `parent`, created when missing.
    pub fn create_bucket_if_not_exists(&mut self, parent: usize, name: &[u8]) -> (r: Result<usize, BoltError>)
        requires
            old(self).wf(),
        ensures
            final(self).wf(),
            final(self).meta == old(self).meta,
            final(self).closed == old(self).closed,
            r matches Ok(c) ==> c < final(self).buckets@.len(),
            !old(self).closed && parent < old(self).buckets@.len() ==> forall|i: int| 0 <= i < old(self).buckets@[parent as int].entries().len()
                && #[trigger] old(self).buckets@[parent as int].entries()[i].key == name@
                && is_bucket_flag(old(self).buckets@[parent as int].entries()[i].flags)
                && old(self).buckets@[parent as int].entries()[i].pgid < old(self).buckets@.len()
                ==> r == Ok::<usize, BoltError>(old(self).buckets@[parent as int].entries()[i].pgid as usize)
                    && final(self).buckets@ == old(self).buckets@,
            !old(self).closed && old(self).writable && parent < old(self).buckets@.len() && 0 < name@.len() <= crate::bucket::MAX_KEY_SIZE
                && !has_key(old(self).buckets@[parent as int].entries(), name@) ==> r == Ok::<usize, BoltError>(old(self).buckets@.len() as usize)
                && final(self).buckets@.len() == old(self).buckets@.len() + 1
                && final(self).buckets@[old(self).buckets@.len() as int].entries().len() == 0,
    {
        match self.bucket(parent, name) {
            Some(c) => {
                if self.closed {
                    return Err(BoltError::TxClosed);
                }
                Ok(c)
            },
            None => self.create_bucket(parent, name),
        }
    }

    /// Deletes the sub-bucket `name` of `parent`, with everything in it.
    pub fn delete_bucket(&mut self, parent: usize, name: &[u8]) -> (r: Result<(), BoltError>)
        requires
            old(self).wf(),
        ensures
            final(self).wf(),
            final(self).meta == old(self).meta,
            final(self).closed == old(self).closed,
            final(self).buckets@.len() == old(self).buckets@.len(),
            old(self).closed ==> r == Err::<(), BoltError>(BoltError::TxClosed),
            !old(self).closed && !old(self).writable ==> r == Err::<(), BoltError>(BoltError::TxNotWritable),
            !old(self).closed && old(self).writable && parent < old(self).buckets@.len() && !has_key(old(self).buckets@[parent as int].entries(), name@)
                ==> r == Err::<(), BoltError>(BoltError::BucketNotFound),
            r is Err ==> final(self).buckets@ == old(self).buckets@,
            r is Ok ==> parent < old(self).buckets@.len() && !has_key(final(self).buckets@[parent as int].entries(), name@),
            r is Ok ==> exists|i: int| 0 <= i < old(self).buckets@[parent as int].entries().len()
                && #[trigger] old(self).buckets@[parent as int].entries()[i].key == name@
                && is_bucket_flag(old(self).buckets@[parent as int].entries()[i].flags)
                && final(self).buckets@[parent as int].entries() == old(self).buckets@[parent as int].entries().remove(i),
            !old(self).closed && old(self).writable && parent < old(self).buckets@.len() && (exists|i: int|
                0 <= i < old(self).buckets@[parent as int].entries().len()
                && #[trigger] old(self).buckets@[parent as int].entries()[i].key == name@
                && is_bucket_flag(old(self).buckets@[parent as int].entries()[i].flags)) ==> r is Ok,
            forall|k: int| 0 <= k < old(self).buckets@.len() && k != parent ==> #[trigger] final(self).buckets@[k] == old(self).buckets@[k],
    {
        if self.closed {
            return Err(BoltError::TxClosed);
        }
        if !self.writable {
            return Err(BoltError::TxNotWritable);
        }
        if parent >= self.buckets.len() {
            return Err(BoltError::BucketNotFound);
        }
        match self.buckets[parent].find(name) {
            Some(i) => {
                proof {
                    self.buckets@[parent as int].lemma_unique_key(i as int);
                }
                if self.buckets[parent].root.inodes.get(i).flags & BUCKET_LEAF_FLAG == 0 {
                    return Err(BoltError::IncompatibleValue);
                }
            },
            None => {
                return Err(BoltError::BucketNotFound);
            },
        }
        let ghost before = self.buckets@[parent as int];
        self.buckets[parent].root.del(name);
        proof {
            let s = before.entries();
            let i = choose|i: int| 0 <= i < s.len() && #[trigger] s[i].key == name@ && self.buckets@[parent as int].entries() == s.remove(i);
            self.buckets@[parent as int].lemma_unique_key_before(s, i, name@);
            before.lemma_unique_key(i);
            assert forall|q: int| 0 <= q < self.buckets@.len() implies (#[trigger] self.buckets@[q]).wf() by {}
        }
        Ok(())
    }

    /// Moves the sub-bucket `name` of bucket `src` into bucket `dst`. Fails when `name` is
    /// not in `src`, names a plain value, the two buckets are the same, or `dst` already
    /// has the key.
    pub fn move_bucket(&mut self, src: usize, name: &[u8], dst: usize) -> (r: Result<(), BoltError>)
        requires
            old(self).wf(),
        ensures
            final(self).wf(),
            final(self).meta == old(self).meta,
            final(self).closed == old(self).closed,
            final(self).buckets@.len() == old(self).buckets@.len(),
            old(self).closed ==> r == Err::<(), BoltError>(BoltError::TxClosed),
            !old(self).closed && !old(self).writable ==> r == Err::<(), BoltError>(BoltError::TxNotWritable),
            !old(self).closed && old(self).writable && src < old(self).buckets@.len() && dst < old(self).buckets@.len()
                && !has_key(old(self).buckets@[src as int].entries(), name@) ==> r == Err::<(), BoltError>(BoltError::BucketNotFound),
            !old(self).closed && old(self).writable && src < old(self).buckets@.len() && dst < old(self).buckets@.len()
                && has_key(old(self).buckets@[src as int].entries(), name@) && src != dst && has_key(old(self).buckets@[dst as int].entries(), name@)
                ==> r is Err,
            !old(self).closed && old(self).writable && src < old(self).buckets@.len() && dst < old(self).buckets@.len() && src != dst
                && !has_key(old(self).buckets@[dst as int].entries(), name@) && (exists|i: int|
                0 <= i < old(self).buckets@[src as int].entries().len()
                && #[trigger] old(self).buckets@[src as int].entries()[i].key == name@
                && is_bucket_flag(old(self).buckets@[src as int].entries()[i].flags)) ==> r is Ok,
            r is Err ==> final(self).buckets@ == old(self).buckets@,
            r is Ok ==> {
                &&& src != dst
                &&& !has_key(final(self).buckets@[src as int].entries(), name@)
                &&& exists|i: int| 0 <= i < final(self).buckets@[dst as int].entries().len()
                    && #[trigger] final(self).buckets@[dst as int].entries()[i].key == name@
                    && is_bucket_flag(final(self).buckets@[dst as int].entries()[i].flags)
            },
    {
        if self.closed {
            return Err(BoltError::TxClosed);
        }
        if !self.writable {
            return Err(BoltError::TxNotWritable);
        }
        if src >= self.buckets.len() || dst >= self.buckets.len() {
            return Err(BoltError::BucketNotFound);
        }
        let child = match self.buckets[src].find(name) {
            Some(i) => {
                proof {
                    self.buckets@[src as int].lemma_unique_key(i as int);
                }
                let it = self.buckets[src].root.inodes.get(i);
                if it.flags & BUCKET_LEAF_FLAG == 0 {
                    return Err(BoltError::IncompatibleValue);
                }
                it.pgid
            },
            None => {
                return Err(BoltError::BucketNotFound);
            },
        };
        if src == dst {
            return Err(BoltError::SameBuckets);
        }
        match self.buckets[dst].find(name) {
            Some(i) => {
                if self.buckets[dst].root.inodes.get(i).flags & BUCKET_LEAF_FLAG != 0 {
                    return Err(BoltError::BucketExists);
                }
                return Err(BoltError::IncompatibleValue);
            },
            None => {},
        }
        let ghost before = self.buckets@;
        self.buckets[src].root.del(name);
        proof {
            let s = before[src as int].entries();
            let i = choose|i: int| 0 <= i < s.len() && #[trigger] s[i].key == name@ && self.buckets@[src as int].entries() == s.remove(i);
            self.buckets@[src as int].lemma_unique_key_before(s, i, name@);
            assert(crate::node::same_place(before[dst as int].entries(), name@, name@));
            assert(self.buckets@[dst as int] == before[dst as int]);
        }
        let ghost mid = self.buckets@;
        let empty: Vec<u8> = Vec::new();
        self.buckets[dst].root.put(name, name, empty.as_slice(), child, BUCKET_LEAF_FLAG);
        proof {
            let s = mid[dst as int].entries();
            let e = self.buckets@[dst as int].entries();
            let nv = InodeView { flags: BUCKET_LEAF_FLAG, pgid: child, key: name@, value: Seq::empty() };
            assert(!has_key(s, name@));
            let k = choose|k: int| 0 <= k <= s.len() && (forall|j: int| 0 <= j < k ==> lex_lt(#[trigger] s[j].key, name@))
                && (forall|j: int| k <= j < s.len() ==> lex_lt(name@, #[trigger] s[j].key)) && e == #[trigger] s.insert(k, nv);
            assert(e[k] == nv);
            assert(BUCKET_LEAF_FLAG & BUCKET_LEAF_FLAG != 0) by (bit_vector);
            assert(self.buckets@[src as int] == mid[src as int]);
            assert forall|q: int| 0 <= q < self.buckets@.len() implies (#[trigger] self.buckets@[q]).wf() by {}
        }
        Ok(())
    }

    /// The entries of bucket `b` in key order, values left out for sub-buckets.
    pub fn entries(&self, b: usize) -> (r: Vec<crate::cursor::Entry>)
        requires
            self.wf(),
        ensures
            b >= self.buckets@.len() ==> r@.len() == 0,
            b < self.buckets@.len() ==> r@.len() == self.buckets@[b as int].entries().len() && forall|i: int|
                0 <= i < r@.len() ==> crate::cursor::entry_view(#[trigger] r@[i]) == crate::cursor::entry_at(self.buckets@[b as int].entries(), i),
    {
        let mut out: Vec<crate::cursor::Entry> = Vec::new();
        if b >= self.buckets.len() {
            return out;
        }
        let bk = &self.buckets[b];
        let mut i: usize = 0;
        while i < bk.root.inodes.len()
            invariant
                i <= bk.entries().len(),
                *bk == self.buckets@[b as int],
                out@.len() == i,
                forall|j: int| 0 <= j < i ==> crate::cursor::entry_view(#[trigger] out@[j]) == crate::cursor::entry_at(bk.entries(), j),
            decreases bk.entries().len() - i,
        {
            let it = bk.root.inodes.get(i);
            let key = copy_bytes(it.key.as_slice());
            if it.flags & BUCKET_LEAF_FLAG != 0 {
                out.push((key, None));
            } else {
                out.push((key, Some(copy_bytes(it.value.as_slice()))));
            }
            i = i + 1;
        }
        out
    }

    /// Takes `count` consecutive pages: from the freelist when it has such a run, else
    /// past the high-water mark, which then moves up.
    pub fn allocate(&mut self, fl: &mut Freelist, count: usize) -> (r: Result<PgId, BoltError>)
        requires
            old(fl).wf(),
            count > 0,
        ensures
            final(fl).wf(),
            final(fl).pending == old(fl).pending,
            final(fl).readonly_txids == old(fl).readonly_txids,
            final(self).buckets == old(self).buckets,
            final(self).root == old(self).root,
            final(self).page_size == old(self).page_size,
            final(self).writable == old(self).writable,
            final(self).closed == old(self).closed,
            final(self).meta == (Meta { pgid: final(self).meta.pgid, ..old(self).meta }),
            final(self).meta.pgid >= old(self).meta.pgid,
            r matches Ok(p) ==> p > 1 && p + count <= final(self).meta.pgid,
            r matches Ok(p) ==> (p == old(self).meta.pgid && final(self).meta.pgid == old(self).meta.pgid + count
                && final(fl).ids@ == old(fl).ids@) || (final(self).meta.pgid == old(self).meta.pgid && exists|i: int|
                #[trigger] crate::freelist::run_at(old(fl).ids@, i, count as int) && old(fl).ids@[i] == p),
            (forall|i: int| !#[trigger] crate::freelist::run_at(old(fl).ids@, i, count as int)) && old(self).meta.pgid >= 2
                && old(self).meta.pgid + count <= u64::MAX ==> r == Ok::<PgId, BoltError>(old(self).meta.pgid),
    {
        let p = fl.allocate(self.meta.txid, count);
        self.stats.inc_page_count();
        if p != 0 {
            if p > u64::MAX - count as u64 || p + count as u64 > self.meta.pgid {
                return Err(BoltError::Unexpected("free page beyond the high-water mark"));
            }
            return Ok(p);
        }
        let start = self.meta.pgid;
        if start < 2 || start > u64::MAX - count as u64 {
            return Err(BoltError::Unexpected("page ids exhausted"));
        }
        self.meta.pgid = start + count as u64;
        Ok(start)
    }

    /// Writes `node` to freshly allocated pages and returns the first page's id.
    fn write_node(&mut self, fl: &mut Freelist, node: &Node) -> (r: Result<PgId, BoltError>)
        requires
            old(fl).wf(),
            node.wf(),
            MIN_PAGE_SIZE <= old(self).page_size <= MAX_PAGE_SIZE,
        ensures
            final(fl).wf(),
            final(fl).pending == old(fl).pending,
            final(self).buckets == old(self).buckets,
            final(self).root == old(self).root,
            final(self).page_size == old(self).page_size,
            final(self).writable == old(self).writable,
            final(self).closed == old(self).closed,
            final(self).meta == (Meta { pgid: final(self).meta.pgid, ..old(self).meta }),
            final(self).meta.pgid >= old(self).meta.pgid,
            r matches Ok(p) ==> p > 1,
    {
        let size = match node.checked_size() {
            Some(v) => v,
            None => {
                return Err(BoltError::Unexpected("node too large"));
            },
        };
        if node.inodes.len() > 0xFFFF || size as u64 >= 0x1_0000_0000u64 {
            return Err(BoltError::Unexpected("node too large for a page"));
        }
        let ps = self.page_size;
        let q = size / ps;
        proof {
            assert(q <= size) by (nonlinear_arith)
                requires q == size / ps, ps >= 1;
        }
        if q == usize::MAX {
            return Err(BoltError::Unexpected("node page count out of range"));
        }
        let count = if size % ps != 0 { q + 1 } else { q };
        if count == 0 || count as u64 > 0x1_0000_0000u64 {
            return Err(BoltError::Unexpected("node page count out of range"));
        }
        let pgid = self.allocate(fl, count)?;
        if !node.is_leaf && points_to(node, pgid) {
            return Err(BoltError::Unexpected("branch page would point at itself"));
        }
        let mut page = Page::new(pgid, 0, 0, (count - 1) as u32);
        let mut buf: Vec<u8> = Vec::new();
        proof {
            assert(body_fits(node.inodes@));
        }
        node.write(&mut page, &mut buf);
        if count > usize::MAX / ps {
            return Err(BoltError::Unexpected("node pages too large"));
        }
        proof {
            assert(count * ps <= usize::MAX) by (nonlinear_arith)
                requires count <= usize::MAX / ps, ps >= 1;
        }
        pad_to(&mut buf, count * ps);
        self.dirty.push((pgid, buf));
        self.stats.inc_write();
        Ok(pgid)
    }

    /// Writes a leaf node and the branch levels above its parts; returns the root page.
    fn write_tree(&mut self, fl: &mut Freelist, node: Node, fill: u32) -> (r: Result<PgId, BoltError>)
        requires
            old(fl).wf(),
            node.wf(),
            MIN_PAGE_SIZE <= old(self).page_size <= MAX_PAGE_SIZE,
        ensures
            r matches Ok(p) ==> p > 1,
            final(fl).wf(),
            final(fl).pending == old(fl).pending,
            final(self).buckets == old(self).buckets,
            final(self).root == old(self).root,
            final(self).page_size == old(self).page_size,
            final(self).writable == old(self).writable,
            final(self).closed == old(self).closed,
            final(self).meta == (Meta { pgid: final(self).meta.pgid, ..old(self).meta }),
            final(self).meta.pgid >= old(self).meta.pgid,
    {
        let mut level = node.split(self.page_size, fill)?;
        let mut fuel: u32 = MAX_TREE_DEPTH;
        loop
            invariant
                fl.wf(),
                fl.pending == old(fl).pending,
                self.buckets == old(self).buckets,
                self.root == old(self).root,
                self.page_size == old(self).page_size,
                self.writable == old(self).writable,
                self.closed == old(self).closed,
                self.meta == (Meta { pgid: self.meta.pgid, ..old(self).meta }),
                self.meta.pgid >= old(self).meta.pgid,
                MIN_PAGE_SIZE <= self.page_size <= MAX_PAGE_SIZE,
                level@.len() > 0,
                forall|k: int| 0 <= k < level@.len() ==> (#[trigger] level@[k]).wf() && (level@.len() > 1 ==> level@[k].inodes@.len() > 0),
            decreases fuel,
        {
            let mut pgids: Vec<PgId> = Vec::new();
            let mut i: usize = 0;
            while i < level.len()
                invariant
                    fl.wf(),
                    fl.pending == old(fl).pending,
                    self.buckets == old(self).buckets,
                    self.root == old(self).root,
                    self.page_size == old(self).page_size,
                    self.writable == old(self).writable,
                    self.closed == old(self).closed,
                    self.meta == (Meta { pgid: self.meta.pgid, ..old(self).meta }),
                    self.meta.pgid >= old(self).meta.pgid,
                    MIN_PAGE_SIZE <= self.page_size <= MAX_PAGE_SIZE,
                    i <= level@.len(),
                    pgids@.len() == i,
                    forall|k: int| 0 <= k < i ==> #[trigger] pgids@[k] > 1,
                    forall|k: int| 0 <= k < level@.len() ==> (#[trigger] level@[k]).wf() && (level@.len() > 1 ==> level@[k].inodes@.len() > 0),
                decreases level@.len() - i,
            {
                let pgid = self.write_node(fl, &level[i])?;
                pgids.push(pgid);
                i = i + 1;
            }
            if level.len() == 1 {
                return Ok(pgids[0]);
            }
            if fuel == 0 {
                return Err(BoltError::Unexpected("page tree too deep"));
            }
            fuel = fuel - 1;
            let bn = Node::branch_of(&level, &pgids)?;
            level = bn.split(self.page_size, fill)?;
        }
    }

    /// Writes bucket `b` and its sub-buckets. Returns the bucket's new header and, for a
    /// bucket small enough to live inline in its parent's value, its page bytes.
    fn spill_bucket(&mut self, fl: &mut Freelist, b: usize, depth: u32) -> (r: Result<(InBucket, Vec<u8>), BoltError>)
        requires
            old(fl).wf(),
            old(self).wf(),
        ensures
            final(fl).wf(),
            final(fl).pending == old(fl).pending,
            final(self).buckets == old(self).buckets,
            final(self).root == old(self).root,
            final(self).page_size == old(self).page_size,
            final(self).writable == old(self).writable,
            final(self).closed == old(self).closed,
            final(self).meta == (Meta { pgid: final(self).meta.pgid, ..old(self).meta }),
            final(self).meta.pgid >= old(self).meta.pgid,
            final(self).wf(),
            r matches Ok((h, bytes)) ==> {
                &&& b < old(self).buckets@.len()
                &&& h.sequence == old(self).buckets@[b as int].header.sequence
                &&& (h.root == 0 <==> b != old(self).root && inlineable(old(self).buckets@[b as int].entries(), old(self).page_size as int))
                &&& h.root == 0 ==> bytes@ == crate::page::header_bytes(Page {
                    id: 0,
                    flags: crate::page::LEAF_PAGE_FLAG,
                    count: old(self).buckets@[b as int].entries().len() as u16,
                    overflow: 0,
                }) + crate::inode::body_bytes(true, old(self).buckets@[b as int].entries())
            },
        decreases depth,
    {
        if depth == 0 || b >= self.buckets.len() {
            return Err(BoltError::Unexpected("bucket missing or nested too deep"));
        }
        let n = self.buckets[b].root.inodes.len();
        let mut items: Vec<Inode> = Vec::new();
        let mut has_sub = false;
        let mut i: usize = 0;
        while i < n
            invariant
                fl.wf(),
                fl.pending == old(fl).pending,
                self.buckets == old(self).buckets,
                self.root == old(self).root,
                self.page_size == old(self).page_size,
                self.writable == old(self).writable,
                self.closed == old(self).closed,
                self.meta == (Meta { pgid: self.meta.pgid, ..old(self).meta }),
                self.meta.pgid >= old(self).meta.pgid,
                self.wf(),
                b < self.buckets@.len(),
                n == self.buckets@[b as int].entries().len(),
                i <= n,
                items@.len() == i,
                forall|j: int| 0 <= j < i ==> (#[trigger] items@[j])@.key == self.buckets@[b as int].entries()[j].key,
                !has_sub <==> forall|j: int| 0 <= j < i ==> !is_bucket_flag(#[trigger] self.buckets@[b as int].entries()[j].flags),
                !has_sub ==> forall|j: int| 0 <= j < i ==> (#[trigger] items@[j])@ == self.buckets@[b as int].entries()[j],
                depth > 0,
            decreases n - i,
        {
            let it = self.buckets[b].root.inodes.get(i).duplicate();
            let ghost e_i = self.buckets@[b as int].entries()[i as int];
            proof {
                assert(it@ == e_i);
            }
            if it.flags & BUCKET_LEAF_FLAG != 0 {
                proof {
                    assert(is_bucket_flag(e_i.flags));
                }
                let child = it.pgid;
                if child >= self.buckets.len() as u64 {
                    return Err(BoltError::Unexpected("sub-bucket missing"));
                }
                let (h, inline) = self.spill_bucket(fl, child as usize, depth - 1)?;
                let mut v: Vec<u8> = Vec::new();
                proof {
                    crate::codec::lemma_pow256_facts();
                }
                crate::codec::push_le(&mut v, h.root, 8);
                crate::codec::push_le(&mut v, h.sequence, 8);
                push_bytes(&mut v, inline.as_slice());
                items.push(Inode { flags: it.flags, pgid: 0, key: it.key, value: v });
                has_sub = true;
                proof {
                    assert(is_bucket_flag(self.buckets@[b as int].entries()[i as int].flags));
                }
            } else {
                proof {
                    assert(!is_bucket_flag(e_i.flags));
                }
                items.push(it);
            }
            i = i + 1;
        }
        let header = self.buckets[b].header;
        let fill = self.buckets[b].fill_percent;
        proof {
            let e = self.buckets@[b as int].entries();
            let v = items@.map_values(|x: Inode| x@);
            assert forall|a: int, c: int| 0 <= a < c < v.len() implies lex_lt(#[trigger] v[a].key, #[trigger] v[c].key) by {
                assert(v[a].key == e[a].key);
                assert(v[c].key == e[c].key);
            }
            assert forall|a: int| 0 <= a < v.len() implies (#[trigger] v[a]).key.len() > 0 by {
                assert(v[a].key == e[a].key);
            }
        }
        let node = Node { is_leaf: true, pgid: 0, key: Vec::new(), inodes: Inodes { inodes: items }, unbalanced: false, spilled: false };
        proof {
            if !has_sub {
                assert(node.inodes@ =~= self.buckets@[b as int].entries());
            } else {
                let j = choose|j: int| 0 <= j < n && is_bucket_flag(#[trigger] self.buckets@[b as int].entries()[j].flags);
            }
        }
        let ps = self.page_size;
        if b != self.root && !has_sub {
            if let Some(size) = node.checked_size() {
                if size <= ps / 4 - BUCKET_HEADER_SIZE && node.inodes.len() <= 0xFFFF {
                    let mut page = Page::new(0, 0, 0, 0);
                    let mut buf: Vec<u8> = Vec::new();
                    proof {
                        assert(body_fits(node.inodes@));
                    }
                    node.write(&mut page, &mut buf);
                    return Ok((InBucket { root: 0, sequence: header.sequence }, buf));
                }
            }
        }
        let root = self.write_tree(fl, node, fill)?;
        self.stats.inc_spill();
        Ok((InBucket { root, sequence: header.sequence }, Vec::new()))
    }

    /// Copies the pages written so far into the image of `db`.
    pub fn write(&mut self, db: &mut Db) -> (r: Result<(), BoltError>)
        requires
            MIN_PAGE_SIZE <= old(self).page_size <= MAX_PAGE_SIZE,
        ensures
            final(db).meta == old(db).meta,
            final(db).freelist == old(db).freelist,
            final(db).page_size == old(db).page_size,
            final(db).read_only == old(db).read_only,
            final(db).writer_open == old(db).writer_open,
            final(self).meta == old(self).meta,
            final(self).buckets == old(self).buckets,
            final(self).root == old(self).root,
            final(self).page_size == old(self).page_size,
            final(self).writable == old(self).writable,
            final(self).closed == old(self).closed,
            meta_pages_kept(old(db).data@, final(db).data@, old(self).page_size as int),
            r is Ok <==> dirty_fits(old(self).dirty@, old(self).page_size as int),
    {
        let ps = self.page_size as u64;
        let mut i: usize = 0;
        while i < self.dirty.len()
            invariant
                meta_pages_kept(old(db).data@, db.data@, self.page_size as int),
                i <= self.dirty@.len(),
                forall|j: int| 0 <= j < i ==> #[trigger] dirty_page_fits(self.dirty@[j], self.page_size as int),
                db.meta == old(db).meta,
                db.freelist == old(db).freelist,
                db.page_size == old(db).page_size,
                db.read_only == old(db).read_only,
                db.writer_open == old(db).writer_open,
                self == old(self),
                ps == self.page_size,
                MIN_PAGE_SIZE <= self.page_size <= MAX_PAGE_SIZE,
            decreases self.dirty@.len() - i,
        {
            let pgid = self.dirty[i].0;
            let n = self.dirty[i].1.len();
            if pgid < 2 {
                proof {
                    assert(!dirty_page_fits(self.dirty@[i as int], self.page_size as int));
                }
                return Err(BoltError::Unexpected("data page in a meta slot"));
            }
            if pgid > (usize::MAX as u64) / ps {
                proof {
                    assert(pgid * ps > usize::MAX) by (nonlinear_arith)
                        requires pgid > (usize::MAX as u64) / ps, ps > 0;
                    assert(!dirty_page_fits(self.dirty@[i as int], self.page_size as int));
                }
                return Err(BoltError::Unexpected("page offset out of range"));
            }
            proof {
                assert(pgid * ps <= usize::MAX) by (nonlinear_arith)
                    requires pgid <= (usize::MAX as u64) / ps, ps > 0;
            }
            let off = (pgid * ps) as usize;
            proof {
                assert(off >= 2 * self.page_size) by (nonlinear_arith)
                    requires off == pgid * ps, pgid >= 2, ps == self.page_size;
            }
            if n > usize::MAX - off {
                proof {
                    assert(!dirty_page_fits(self.dirty@[i as int], self.page_size as int));
                }
                return Err(BoltError::Unexpected("page end out of range"));
            }
            let ghost before_pad = db.data@;
            pad_to(&mut db.data, off + n);
            proof {
                if old(db).data@.len() >= 2 * self.page_size {
                    lemma_prefix_kept(before_pad, db.data@, 2 * self.page_size);
                }
            }
            let mut k: usize = 0;
            while k < n
                invariant
                    db.data@.len() >= off + n,
                    off + n <= usize::MAX,
                    off >= 2 * self.page_size,
                    meta_pages_kept(old(db).data@, db.data@, self.page_size as int),
                    n == self.dirty@[i as int].1@.len(),
                    i < self.dirty@.len(),
                    k <= n,
                    db.meta == old(db).meta,
                    db.freelist == old(db).freelist,
                    db.page_size == old(db).page_size,
                    db.read_only == old(db).read_only,
                    db.writer_open == old(db).writer_open,
                    self == old(self),
                    i < self.dirty@.len(),
                    forall|j: int| 0 <= j < i ==> #[trigger] dirty_page_fits(self.dirty@[j], self.page_size as int),
                decreases n - k,
            {
                let ghost before_set = db.data@;
                db.data.set(off + k, self.dirty[i].1[k]);
                proof {
                    if old(db).data@.len() >= 2 * self.page_size {
                        assert(db.data@.subrange(0, 2 * self.page_size) =~= before_set.subrange(0, 2 * self.page_size));
                    }
                }
                k = k + 1;
            }
            i = i + 1;
        }
        Ok(())
    }

    /// Writes the transaction's meta into meta page `txid % 2` of the image: the commit
    /// point.
    #[verifier::rlimit(60)]
    pub fn write_meta(&mut self, db: &mut Db) -> (r: Result<(), BoltError>)
        requires
            MIN_PAGE_SIZE <= old(self).page_size <= MAX_PAGE_SIZE,
        ensures
            final(db).freelist == old(db).freelist,
            final(db).page_size == old(db).page_size,
            final(db).read_only == old(db).read_only,
            final(db).writer_open == old(db).writer_open,
            final(db).meta == old(db).meta,
            r is Ok ==> final(self).meta == (Meta { checksum: crate::meta::fnv1a64(crate::meta::meta_prefix_bytes(old(self).meta)), ..old(self).meta }),
            r is Ok ==> meta_valid(final(self).meta),
            r is Err ==> final(db).data == old(db).data,
            r is Ok <==> old(self).meta.root.root < old(self).meta.pgid
                && (old(self).meta.freelist < old(self).meta.pgid || old(self).meta.freelist == PGID_NO_FREELIST)
                && old(self).meta.magic == crate::meta::MAGIC && old(self).meta.version == crate::meta::VERSION
                && old(db).page_size == old(self).page_size,
            r is Ok ==> slot_meta(final(db).data@, final(db).page_size as int, meta_slot(final(self).meta.txid) as int) == Some(final(self).meta),
            r is Ok && old(db).data@.len() >= 2 * old(db).page_size ==> {
                &&& final(db).data@.len() >= 2 * final(db).page_size
                &&& slot_meta(final(db).data@, final(db).page_size as int, 1 - meta_slot(final(self).meta.txid) as int)
                    == slot_meta(old(db).data@, old(db).page_size as int, 1 - meta_slot(final(self).meta.txid) as int)
            },
            final(self).buckets == old(self).buckets,
            final(self).root == old(self).root,
            final(self).page_size == old(self).page_size,
            final(self).writable == old(self).writable,
            final(self).closed == old(self).closed,
    {
        if self.meta.root.root >= self.meta.pgid {
            return Err(BoltError::Unexpected("root bucket page above the high-water mark"));
        }
        if self.meta.freelist >= self.meta.pgid && self.meta.freelist != PGID_NO_FREELIST {
            return Err(BoltError::Unexpected("freelist page above the high-water mark"));
        }
        if self.meta.magic != crate::meta::MAGIC || self.meta.version != crate::meta::VERSION {
            return Err(BoltError::Invalid);
        }
        if db.page_size != self.page_size {
            return Err(BoltError::Unexpected("transaction and database disagree on the page size"));
        }
        let mut page = Page::new(0, 0, 0, 0);
        let mut buf: Vec<u8> = Vec::new();
        self.meta.write(&mut page, &mut buf);
        proof {
            assert(page.id < 2);
            assert(page.id * self.page_size <= MAX_PAGE_SIZE) by (nonlinear_arith)
                requires page.id < 2, self.page_size <= MAX_PAGE_SIZE;
        }
        let off = (page.id as usize) * self.page_size;
        let n = buf.len();
        let ghost before_pad = db.data@;
        pad_to(&mut db.data, off + self.page_size);
        let ghost padded = db.data@;
        let len = db.data.len();
        let mut k: usize = 0;
        while k < n
            invariant
                n == buf@.len(),
                n == PAGE_HEADER_SIZE + META_PAGE_SIZE,
                off + n <= db.data@.len(),
                off + self.page_size <= db.data@.len(),
                len == db.data@.len(),
                off <= MAX_PAGE_SIZE,
                k <= n,
                forall|j: int| 0 <= j < k ==> db.data@[off + j] == buf@[j],
                padded.len() == len,
                forall|j: int| 0 <= j < len && (j < off || j >= off + n) ==> #[trigger] db.data@[j] == padded[j],
                db.freelist == old(db).freelist,
                db.page_size == old(db).page_size,
                db.read_only == old(db).read_only,
                db.writer_open == old(db).writer_open,
                db.meta == old(db).meta,
            decreases n - k,
        {
            db.data.set(off + k, buf[k]);
            k = k + 1;
        }
        proof {
            let m = self.meta;
            let d = db.data@;
            crate::meta::lemma_meta_bytes_len(m);
            crate::meta::lemma_header_len(page);
            assert(buf@ =~= crate::page::header_bytes(page) + crate::meta::meta_bytes(m));
            assert(d.subrange(off + 16, off + 80) =~= crate::meta::meta_bytes(m)) by {
                assert forall|j: int| 0 <= j < 64 implies d.subrange(off + 16, off + 80)[j] == crate::meta::meta_bytes(m)[j] by {
                    assert(d[off + 16 + j] == buf@[16 + j]);
                }
            }
            let pre = d.subrange(0, off + 16);
            let rest = d.subrange(off + 80, d.len() as int);
            assert(d =~= pre + crate::meta::meta_bytes(m) + rest);
            crate::meta::lemma_meta_round_trip(m, pre, rest);
            crate::meta::lemma_checksum_round_trip(old(self).meta);
            assert(crate::meta::meta_prefix_bytes(m) == crate::meta::meta_prefix_bytes(old(self).meta));
            assert(page.id == meta_slot(m.txid));
            let ps = self.page_size as int;
            if before_pad.len() >= 2 * ps {
                let o = (1 - page.id as int) * ps + 16;
                assert(o + 64 <= 2 * ps) by (nonlinear_arith)
                    requires page.id < 2, ps >= 512, o == (1 - page.id as int) * ps + 16;
                assert(off + n <= o || o + 64 <= off) by (nonlinear_arith)
                    requires page.id < 2, ps >= 512, o == (1 - page.id as int) * ps + 16, off == page.id * ps, n == 80;
                lemma_prefix_kept(before_pad, padded, 2 * ps);
                assert forall|j: int| 0 <= j < 64 implies #[trigger] d.subrange(o, o + 64)[j] == before_pad.subrange(o, o + 64)[j] by {
                    assert(d[o + j] == padded[o + j]);
                    assert(padded.subrange(0, 2 * ps)[o + j] == before_pad.subrange(0, 2 * ps)[o + j]);
                }
                assert(d.subrange(o, o + 64) =~= before_pad.subrange(o, o + 64));
                lemma_meta_at_local(before_pad, d, o);
                assert((1 - page.id as int) * ps + 16 == o);
            }
        }
        Ok(())
    }

    /// Writes everything but the meta: the buckets' pages, the freed pages, and the new
    /// freelist page.
    pub fn commit_data(&mut self, db: &mut Db) -> (r: Result<(), BoltError>)
        requires
            old(self).wf(),
            old(db).freelist.wf(),
        ensures
            final(db).freelist.wf(),
            final(db).meta == old(db).meta,
            final(db).page_size == old(db).page_size,
            final(db).read_only == old(db).read_only,
            final(db).writer_open == old(db).writer_open,
            final(self).wf(),
            final(self).meta.txid == old(self).meta.txid,
            final(self).page_size == old(self).page_size,
            final(self).writable == old(self).writable,
            final(self).closed == old(self).closed,
            meta_pages_kept(old(db).data@, final(db).data@, old(self).page_size as int),
            r is Ok ==> forall|k: int| 0 <= k < old(self).old_pages@.len() && #[trigger] old(self).old_pages@[k].0 > 1
                && old(self).old_pages@[k].0 + old(self).old_pages@[k].1 <= u64::MAX
                ==> crate::freelist::pending_ids(final(db).freelist.pending@).contains(old(self).old_pages@[k].0),
            old(self).closed ==> r == Err::<(), BoltError>(BoltError::TxClosed),
            !old(self).closed && !old(self).writable ==> r == Err::<(), BoltError>(BoltError::TxNotWritable),
    {
        if self.closed {
            return Err(BoltError::TxClosed);
        }
        if !self.writable {
            return Err(BoltError::TxNotWritable);
        }
        let txid = self.meta.txid;
        let mut i: usize = 0;
        while i < self.old_pages.len()
            invariant
                db.freelist.wf(),
                db.meta == old(db).meta,
                db.page_size == old(db).page_size,
                db.read_only == old(db).read_only,
                db.writer_open == old(db).writer_open,
                self.wf(),
                self.meta.txid == txid,
                db.data == old(db).data,
                self.page_size == old(self).page_size,
                txid == old(self).meta.txid,
                old(self).writable,
                !old(self).closed,
                self.writable == old(self).writable,
                self.closed == old(self).closed,
                self.old_pages == old(self).old_pages,
                i <= self.old_pages@.len(),
                forall|k: int| 0 <= k < i && #[trigger] self.old_pages@[k].0 > 1
                    && self.old_pages@[k].0 + self.old_pages@[k].1 <= u64::MAX
                    ==> crate::freelist::pending_ids(db.freelist.pending@).contains(self.old_pages@[k].0),
            decreases self.old_pages@.len() - i,
        {
            let (pgid, ov) = self.old_pages[i];
            let ghost before = db.freelist.pending@;
            if pgid > 1 && pgid <= u64::MAX - ov as u64 {
                db.freelist.free(txid, pgid, ov)?;
                proof {
                    let after = db.freelist.pending@;
                    assert(after[before.len() as int] == (txid, pgid));
                    assert forall|k: int| 0 <= k < i + 1 && #[trigger] self.old_pages@[k].0 > 1
                        && self.old_pages@[k].0 + self.old_pages@[k].1 <= u64::MAX
                        implies crate::freelist::pending_ids(after).contains(self.old_pages@[k].0) by {
                        if k < i {
                            let q = choose|q: int| 0 <= q < before.len() && (#[trigger] before[q]).1 == self.old_pages@[k].0;
                            assert(after[q] == before[q]);
                        } else {
                            assert(after[before.len() as int].1 == self.old_pages@[k].0);
                        }
                    }
                }
                proof {
                    assert forall|c: int| 0 <= c < db.freelist.pending@.len() implies (#[trigger] db.freelist.pending@[c]).1 > 1 by {
                        if c >= old(db).freelist.pending@.len() {
                        }
                    }
                }
            }
            i = i + 1;
        }
        let ghost before = db.freelist.pending@;
        if self.meta.freelist != PGID_NO_FREELIST && self.meta.freelist > 1 && self.meta.freelist <= u64::MAX - self.freelist_overflow as u64 {
            db.freelist.free(txid, self.meta.freelist, self.freelist_overflow)?;
            proof {
                let after = db.freelist.pending@;
                assert forall|k: int| 0 <= k < self.old_pages@.len() && #[trigger] self.old_pages@[k].0 > 1
                    && self.old_pages@[k].0 + self.old_pages@[k].1 <= u64::MAX
                    implies crate::freelist::pending_ids(after).contains(self.old_pages@[k].0) by {
                    let q = choose|q: int| 0 <= q < before.len() && (#[trigger] before[q]).1 == self.old_pages@[k].0;
                    assert(after[q] == before[q]);
                }
            }
        }
        let root = self.root;
        let (h, _inline) = self.spill_bucket(&mut db.freelist, root, MAX_TREE_DEPTH)?;
        self.meta.root = h;
        let nf = db.freelist.ids.len() as u64;
        let np = db.freelist.pending.len() as u64;
        if nf > 0x0FFF_FFFF_FFFF || np > 0x0FFF_FFFF_FFFF {
            return Err(BoltError::Unexpected("freelist too large"));
        }
        let total = nf + np + 2;
        let bytes = PAGE_HEADER_SIZE as u64 + 8 * total;
        let pages = bytes / self.page_size as u64 + 1;
        if pages > usize::MAX as u64 {
            return Err(BoltError::Unexpected("freelist too large"));
        }
        let count = pages as usize;
        let fpg = self.allocate(&mut db.freelist, count)?;
        let mut page = Page::new(fpg, 0, 0, 0);
        if count - 1 > u32::MAX as usize {
            return Err(BoltError::Unexpected("freelist pages out of range"));
        }
        page.overflow = (count - 1) as u32;
        let mut buf: Vec<u8> = Vec::new();
        db.freelist.write(&mut page, &mut buf);
        if count > usize::MAX / self.page_size {
            return Err(BoltError::Unexpected("freelist pages out of range"));
        }
        proof {
            assert(count * self.page_size <= usize::MAX) by (nonlinear_arith)
                requires count <= usize::MAX / self.page_size, self.page_size >= 1;
        }
        pad_to(&mut buf, count * self.page_size);
        self.dirty.push((fpg, buf));
        self.meta.freelist = fpg;
        self.write(db)
    }

    /// Commits: writes the data pages, then the meta, and closes the transaction. `db`'s
    /// authoritative meta becomes the transaction's.
    #[verifier::rlimit(100)]
    pub fn commit(&mut self, db: &mut Db) -> (r: Result<(), BoltError>)
        requires
            old(self).wf(),
            old(db).freelist.wf(),
        ensures
            final(db).freelist.wf(),
            final(db).page_size == old(db).page_size,
            old(self).closed ==> r == Err::<(), BoltError>(BoltError::TxClosed),
            !old(self).closed && !old(self).writable ==> r == Err::<(), BoltError>(BoltError::TxNotWritable),
            r is Ok && image_consistent(old(db).data@, old(db).page_size as int, old(db).meta)
                ==> image_consistent(final(db).data@, final(db).page_size as int, final(db).meta),
            r is Err ==> final(db).meta == old(db).meta,
            r is Err && image_consistent(old(db).data@, old(db).page_size as int, old(db).meta)
                ==> image_consistent(final(db).data@, final(db).page_size as int, old(db).meta),
            r is Ok ==> {
                &&& final(db).meta == final(self).meta
                &&& final(db).meta.txid == old(self).meta.txid
                &&& meta_valid(final(db).meta)
                &&& slot_meta(final(db).data@, final(db).page_size as int, meta_slot(final(db).meta.txid) as int) == Some(final(db).meta)
                &&& final(db).meta.checksum == crate::meta::fnv1a64(crate::meta::meta_prefix_bytes(final(db).meta))
                &&& final(self).closed
                &&& !final(db).writer_open
            },
    {
        if self.closed {
            return Err(BoltError::TxClosed);
        }
        if !self.writable {
            return Err(BoltError::TxNotWritable);
        }
        if db.meta.txid == u64::MAX || self.meta.txid != db.meta.txid + 1 || db.page_size != self.page_size {
            return Err(BoltError::Unexpected("transaction does not follow the database's last commit"));
        }
        let c = self.commit_data(db);
        if c.is_err() {
            proof {
                let ps = db.page_size as int;
                if image_consistent(old(db).data@, ps, old(db).meta) {
                    lemma_kept_slots(old(db).data@, db.data@, ps, 0);
                    lemma_kept_slots(old(db).data@, db.data@, ps, 1);
                }
            }
            return c;
        }
        let ghost pre = self.meta;
        let ghost mid = db.data@;
        let w = self.write_meta(db);
        if w.is_err() {
            proof {
                let ps = db.page_size as int;
                if image_consistent(old(db).data@, ps, old(db).meta) {
                    lemma_kept_slots(old(db).data@, mid, ps, 0);
                    lemma_kept_slots(old(db).data@, mid, ps, 1);
                }
            }
            return w;
        }
        proof {
            let ps = db.page_size as int;
            let old_m = old(db).meta;
            if image_consistent(old(db).data@, ps, old_m) {
                let s_old = (old_m.txid % 2) as int;
                assert(1 - meta_slot(self.meta.txid) as int == s_old);
                lemma_kept_slots(old(db).data@, mid, ps, s_old);
                assert(slot_meta(db.data@, ps, s_old) == Some(old_m));
            }
        }
        proof {
            assert(self.meta == Meta { checksum: crate::meta::fnv1a64(crate::meta::meta_prefix_bytes(pre)), ..pre });
            assert(crate::meta::meta_prefix_bytes(self.meta) == crate::meta::meta_prefix_bytes(pre));
        }
        self.finish(db);
        Ok(())
    }

    /// Makes the transaction's meta the database's authoritative one and closes the
    /// transaction: the last step of a commit, once its meta page is written.
    pub fn finish(&mut self, db: &mut Db)
        ensures
            final(db).meta == old(self).meta,
            !final(db).writer_open,
            final(db).data == old(db).data,
            final(db).freelist == old(db).freelist,
            final(db).page_size == old(db).page_size,
            final(db).read_only == old(db).read_only,
            final(self).closed,
            final(self).meta == old(self).meta,
            final(self).buckets == old(self).buckets,
            final(self).root == old(self).root,
            final(self).page_size == old(self).page_size,
            final(self).writable == old(self).writable,
    {
        db.meta = self.meta;
        db.writer_open = false;
        self.closed = true;
    }

    /// Closes the transaction without writing. A writer's released pages are forgotten; a
    /// reader is unregistered.
    pub fn rollback(&mut self, db: &mut Db) -> (r: Result<(), BoltError>)
        requires
            old(db).freelist.wf(),
        ensures
            final(db).freelist.wf(),
            final(db).meta == old(db).meta,
            final(db).data == old(db).data,
            old(self).closed ==> r == Err::<(), BoltError>(BoltError::TxClosed),
            !old(self).closed ==> r is Ok && final(self).closed,
            !old(self).closed && old(self).writable ==> !final(db).writer_open
                && final(db).freelist.pending@ == crate::freelist::entries_outside(old(db).freelist.pending@, old(self).meta.txid, old(self).meta.txid)
                && final(db).freelist.ids == old(db).freelist.ids,
            !old(self).closed && !old(self).writable ==> final(db).freelist.readonly_txids@.to_multiset()
                == old(db).freelist.readonly_txids@.to_multiset().remove(old(self).meta.txid)
                && final(db).freelist.ids == old(db).freelist.ids && final(db).freelist.pending == old(db).freelist.pending,
            old(self).closed ==> *final(db) == *old(db),
    {
        if self.closed {
            return Err(BoltError::TxClosed);
        }
        if self.writable {
            db.freelist.rollback(self.meta.txid);
            db.writer_open = false;
            proof {
                crate::freelist::lemma_outside_keeps(old(db).freelist.pending@, self.meta.txid, self.meta.txid);
                assert forall|c: int| 0 <= c < db.freelist.pending@.len() implies (#[trigger] db.freelist.pending@[c]).1 > 1 by {
                    let j = choose|j: int| 0 <= j < old(db).freelist.pending@.len() && old(db).freelist.pending@[j] == #[trigger] db.freelist.pending@[c];
                }
            }
        } else {
            db.freelist.remove_readonly_txid(self.meta.txid);
        }
        self.closed = true;
        Ok(())
    }
}

} // verus!
