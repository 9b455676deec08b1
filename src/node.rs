//! The in-memory form of a page: a sorted list of inodes that a writing transaction
//! changes, splits and writes back.

use vstd::prelude::*;
use crate::errors::BoltError;
use crate::inode::{lemma_data_len_mono, Inode, InodeView, Inodes, keys_sorted, data_len, body_bytes, body_fits, decoded_inodes, elements_in_bounds, write_inode_to_page, read_inode_from_page, copy_bytes};
use crate::keys::{lex_lt, compare_keys, lemma_lex_trans, lemma_lex_irreflexive};
use crate::page::{Page, PgId, header_bytes, BRANCH_PAGE_FLAG, LEAF_PAGE_FLAG, MIN_KEYS_PER_PAGE, PAGE_HEADER_SIZE, LEAF_PAGE_ELEMENT_SIZE, BRANCH_PAGE_ELEMENT_SIZE};

verus! {

/// Lowest fill percent a split uses, in thousandths.
pub const MIN_FILL_PERCENT: u32 = 100;

/// Highest fill percent a split uses, in thousandths.
pub const MAX_FILL_PERCENT: u32 = 1000;

/// Fill percent of a new bucket, in thousandths.
pub const DEFAULT_FILL_PERCENT: u32 = 500;

/// Serialized size of a page holding `s`: header, one element each, keys and values.
pub open spec fn inodes_size(s: Seq<InodeView>) -> int {
    16 + 16 * s.len() + data_len(s, s.len() as int)
}

/// Size of a page holding the first `i` inodes of `s`.
pub open spec fn prefix_size(s: Seq<InodeView>, i: int) -> int {
    16 + 16 * i + data_len(s, i)
}

/// `fill` clamped to the range a split accepts.
pub open spec fn clamp_fill(fill: u32) -> u32 {
    if fill < MIN_FILL_PERCENT {
        MIN_FILL_PERCENT
    } else if fill > MAX_FILL_PERCENT {
        MAX_FILL_PERCENT
    } else {
        fill
    }
}

/// Where a node of inodes `s` is cut: the smallest `i` in `[2, len - 2]` at which adding
/// inode `i` would pass `threshold`, else `len - 2`.
pub open spec fn is_split_index(s: Seq<InodeView>, threshold: int, r: int) -> bool {
    &&& MIN_KEYS_PER_PAGE <= r <= s.len() - MIN_KEYS_PER_PAGE
    &&& (prefix_size(s, r + 1) > threshold || r == s.len() - MIN_KEYS_PER_PAGE)
    &&& forall|i: int| MIN_KEYS_PER_PAGE <= i < r ==> prefix_size(s, #[trigger] (i + 1)) <= threshold
}

/// The keys of `s` with `new` placed where `old_key` is, or where it would go.
pub open spec fn put_result(s: Seq<InodeView>, old_key: Seq<u8>, new: InodeView, r: Seq<InodeView>) -> bool {
    ||| exists|i: int| 0 <= i < s.len() && #[trigger] s[i].key == old_key && r == s.update(i, new)
    ||| (forall|i: int| 0 <= i < s.len() ==> #[trigger] s[i].key != old_key) && exists|i: int|
        0 <= i <= s.len() && (forall|j: int| 0 <= j < i ==> lex_lt(#[trigger] s[j].key, old_key))
            && (forall|j: int| i <= j < s.len() ==> lex_lt(old_key, #[trigger] s[j].key))
            && r == #[trigger] s.insert(i, new)
}

/// Replacing `old_key` by `new_key` keeps every other key on the same side.
pub open spec fn same_place(s: Seq<InodeView>, old_key: Seq<u8>, new_key: Seq<u8>) -> bool {
    forall|j: int|
        0 <= j < s.len() && #[trigger] s[j].key != old_key ==> (lex_lt(s[j].key, old_key)
            <==> lex_lt(s[j].key, new_key)) && (lex_lt(old_key, s[j].key) <==> lex_lt(
            new_key,
            s[j].key,
        ))
}

/// A node: one page's inodes, in memory, while a writing transaction changes them.
pub struct Node {
    pub is_leaf: bool,
    pub pgid: PgId,
    pub key: Vec<u8>,
    pub inodes: Inodes,
    pub unbalanced: bool,
    pub spilled: bool,
}

impl Node {
    /// A node is well formed when its keys ascend and none is empty.
    pub open spec fn wf(&self) -> bool {
        &&& keys_sorted(self.inodes@)
        &&& forall|i: int| 0 <= i < self.inodes@.len() ==> (#[trigger] self.inodes@[i]).key.len() > 0
    }

    /// An empty node of the given kind.
    pub fn new(is_leaf: bool) -> (r: Node)
        ensures
            r.is_leaf == is_leaf,
            r.inodes@.len() == 0,
            r.pgid == 0,
            !r.unbalanced,
            !r.spilled,
            r.wf(),
    {
        Node { is_leaf, pgid: 0, key: Vec::new(), inodes: Inodes::new(), unbalanced: false, spilled: false }
    }

    pub fn is_leaf(&self) -> (r: bool)
        ensures
            r == self.is_leaf,
    {
        self.is_leaf
    }

    /// The fewest inodes the node keeps after a rebalance: one for a leaf, two for a branch.
    pub fn min_keys(&self) -> (r: usize)
        ensures
            r == if self.is_leaf { 1usize } else { 2usize },
    {
        if self.is_leaf {
            1
        } else {
            2
        }
    }

    /// Size of one element record of this node's kind.
    pub fn page_element_size(&self) -> (r: usize)
        ensures
            r == 16,
    {
        if self.is_leaf {
            LEAF_PAGE_ELEMENT_SIZE
        } else {
            BRANCH_PAGE_ELEMENT_SIZE
        }
    }

    /// The number of bytes the node takes once written to a page.
    pub fn size(&self) -> (r: usize)
        requires
            inodes_size(self.inodes@) <= usize::MAX,
        ensures
            r == inodes_size(self.inodes@),
    {
        let n = self.inodes.inodes.len();
        let mut sz: usize = PAGE_HEADER_SIZE;
        let mut i: usize = 0;
        while i < n
            invariant
                n == self.inodes@.len(),
                i <= n,
                inodes_size(self.inodes@) <= usize::MAX,
                sz == prefix_size(self.inodes@, i as int),
            decreases n - i,
        {
            proof {
                lemma_data_len_mono(self.inodes@, i + 1, n as int);
                assert(self.inodes.inodes@[i as int]@ == self.inodes@[i as int]);
            }
            let item = &self.inodes.inodes[i];
            sz = sz + self.page_element_size() + item.key.len() + item.value.len();
            i = i + 1;
        }
        sz
    }

    /// The node's size once written, when it fits in a `usize`.
    pub fn checked_size(&self) -> (r: Option<usize>)
        ensures
            r matches Some(v) ==> v == inodes_size(self.inodes@),
            r is None ==> inodes_size(self.inodes@) > usize::MAX,
    {
        let n = self.inodes.inodes.len();
        let mut sz: usize = PAGE_HEADER_SIZE;
        let mut i: usize = 0;
        while i < n
            invariant
                n == self.inodes@.len(),
                i <= n,
                sz == prefix_size(self.inodes@, i as int),
            decreases n - i,
        {
            proof {
                assert(self.inodes.inodes@[i as int]@ == self.inodes@[i as int]);
                lemma_data_len_mono(self.inodes@, i + 1, n as int);
            }
            let item = &self.inodes.inodes[i];
            let k = item.key.len();
            let v = item.value.len();
            if k > usize::MAX - 16 || v > usize::MAX - 16 - k || sz > usize::MAX - 16 - k - v {
                return None;
            }
            sz = sz + 16 + k + v;
            i = i + 1;
        }
        Some(sz)
    }

    /// Cuts the node into parts by repeated `split_two`: the parts hold the node's inodes in
    /// order, and when there is more than one part each holds at least two inodes.
    pub fn split(self, page_size: usize, fill: u32) -> (r: Result<Vec<Node>, BoltError>)
        requires
            self.wf(),
            page_size <= 0xFFFF_FFFF,
        ensures
            r matches Ok(parts) ==> {
                &&& parts@.len() > 0
                &&& forall|k: int| 0 <= k < parts@.len() ==> (#[trigger] parts@[k]).wf() && parts@[k].is_leaf == self.is_leaf
                &&& parts@.len() > 1 ==> forall|k: int| 0 <= k < parts@.len() ==> (#[trigger] parts@[k]).inodes@.len() >= MIN_KEYS_PER_PAGE
            },
    {
        let mut parts: Vec<Node> = Vec::new();
        let leaf = self.is_leaf;
        let mut cur = self;
        loop
            invariant
                cur.wf(),
                cur.is_leaf == leaf,
                leaf == self.is_leaf,
                page_size <= 0xFFFF_FFFF,
                forall|k: int| 0 <= k < parts@.len() ==> (#[trigger] parts@[k]).wf() && parts@[k].is_leaf == leaf && parts@[k].inodes@.len() >= MIN_KEYS_PER_PAGE,
                parts@.len() > 0 ==> cur.inodes@.len() >= MIN_KEYS_PER_PAGE,
            decreases cur.inodes@.len(),
        {
            if cur.checked_size().is_none() {
                return Err(BoltError::Unexpected("node too large"));
            }
            match cur.split_two(page_size, fill) {
                None => {
                    parts.push(cur);
                    return Ok(parts);
                },
                Some(next) => {
                    parts.push(cur);
                    cur = next;
                },
            }
        }
    }

    /// The branch node over `children`, written at pages `pgids`: inode `i` points at page
    /// `pgids[i]` under the first key of child `i`. Fails when a child is empty or the keys
    /// do not ascend.
    pub fn branch_of(children: &Vec<Node>, pgids: &Vec<PgId>) -> (r: Result<Node, BoltError>)
        requires
            children@.len() == pgids@.len(),
            forall|i: int| 0 <= i < children@.len() ==> (#[trigger] children@[i]).wf(),
        ensures
            r matches Ok(b) ==> {
                &&& !b.is_leaf
                &&& b.wf()
                &&& b.inodes@.len() == children@.len()
                &&& forall|i: int| 0 <= i < children@.len() ==> {
                    &&& children@[i].inodes@.len() > 0
                    &&& (#[trigger] b.inodes@[i]).key == children@[i].inodes@[0].key
                    &&& b.inodes@[i].pgid == pgids@[i]
                }
            },
            (forall|i: int| 0 <= i < children@.len() ==> (#[trigger] children@[i]).inodes@.len() > 0)
                && keys_sorted(Seq::new(children@.len(), |i: int| InodeView {
                    flags: 0,
                    pgid: pgids@[i],
                    key: children@[i].inodes@[0].key,
                    value: Seq::empty(),
                })) ==> r is Ok,
    {
        let ghost want = Seq::new(children@.len(), |i: int| InodeView {
            flags: 0,
            pgid: pgids@[i],
            key: children@[i].inodes@[0].key,
            value: Seq::empty(),
        });
        let mut out = Inodes::new();
        let mut i: usize = 0;
        while i < children.len()
            invariant
                children@.len() == pgids@.len(),
                i <= children@.len(),
                out@ == want.subrange(0, i as int),
                want == Seq::new(children@.len(), |i: int| InodeView {
                    flags: 0,
                    pgid: pgids@[i],
                    key: children@[i].inodes@[0].key,
                    value: Seq::empty(),
                }),
                forall|j: int| 0 <= j < i ==> (#[trigger] children@[j]).inodes@.len() > 0,
                forall|j: int| 0 <= j < children@.len() ==> (#[trigger] children@[j]).wf(),
            decreases children@.len() - i,
        {
            if children[i].inodes.len() == 0 {
                return Err(BoltError::Unexpected("empty child node"));
            }
            let first = copy_bytes(children[i].inodes.get(0).key.as_slice());
            out.push(Inode { flags: 0, pgid: pgids[i], key: first, value: Vec::new() });
            proof {
                assert(out@ =~= want.subrange(0, i + 1));
            }
            i = i + 1;
        }
        proof {
            assert(out@ =~= want);
        }
        let mut k: usize = 0;
        while k < out.len()
            invariant
                out@ == want,
                k <= out@.len(),
                want == Seq::new(children@.len(), |i: int| InodeView {
                    flags: 0,
                    pgid: pgids@[i],
                    key: children@[i].inodes@[0].key,
                    value: Seq::empty(),
                }),
                children@.len() == pgids@.len(),
                forall|i: int| 0 <= i < children@.len() ==> (#[trigger] children@[i]).wf(),
                forall|j: int| 0 <= j < children@.len() ==> (#[trigger] children@[j]).inodes@.len() > 0,
                forall|a: int, b: int| 0 <= a < b < k ==> lex_lt(#[trigger] out@[a].key, #[trigger] out@[b].key),
                forall|c: int| 0 <= c < k ==> (#[trigger] out@[c]).key.len() > 0,
            decreases out@.len() - k,
        {
            proof {
                assert(out@[k as int].key == children@[k as int].inodes@[0].key);
                assert(children@[k as int].wf());
                assert((children@[k as int].inodes@[0]).key.len() > 0);
            }
            if k > 0 {
                if compare_keys(out.get(k - 1).key.as_slice(), out.get(k).key.as_slice()) != -1 {
                    return Err(BoltError::Unexpected("branch keys out of order"));
                }
                proof {
                    assert forall|a: int, b: int| 0 <= a < b < k + 1 implies lex_lt(#[trigger] out@[a].key, #[trigger] out@[b].key) by {
                        if b == k && a < k - 1 {
                            lemma_lex_trans(out@[a].key, out@[k - 1].key, out@[k as int].key);
                        }
                    }
                }
            }
            k = k + 1;
        }
        Ok(Node { is_leaf: false, pgid: 0, key: Vec::new(), inodes: out, unbalanced: false, spilled: false })
    }

    /// The node's serialized size is below `v`; stops counting as soon as it is not.
    pub fn size_less_than(&self, v: usize) -> (r: bool)
        ensures
            r == (inodes_size(self.inodes@) < v),
    {
        let n = self.inodes.inodes.len();
        if PAGE_HEADER_SIZE >= v {
            proof {
                lemma_data_len_mono(self.inodes@, 0, n as int);
            }
            return false;
        }
        let mut sz: usize = PAGE_HEADER_SIZE;
        let mut i: usize = 0;
        while i < n
            invariant
                n == self.inodes@.len(),
                i <= n,
                sz == prefix_size(self.inodes@, i as int),
                sz < v,
            decreases n - i,
        {
            proof {
                assert(self.inodes.inodes@[i as int]@ == self.inodes@[i as int]);
            }
            let item = &self.inodes.inodes[i];
            let k = item.key.len();
            let vl = item.value.len();
            if k >= v || vl >= v - k || self.page_element_size() >= v - k - vl || sz >= v - k - vl
                - self.page_element_size() {
                proof {
                    lemma_data_len_mono(self.inodes@, i + 1, n as int);
                }
                return false;
            }
            sz = sz + self.page_element_size() + k + vl;
            i = i + 1;
        }
        true
    }

    /// The number of inodes, which for a branch is the number of children.
    pub fn num_children(&self) -> (r: usize)
        ensures
            r == self.inodes@.len(),
    {
        self.inodes.len()
    }

    /// The index of the inode whose key is `key`.
    pub fn child_index(&self, key: &[u8]) -> (r: Option<usize>)
        requires
            self.wf(),
        ensures
            r matches Some(i) ==> i < self.inodes@.len() && self.inodes@[i as int].key == key@,
            r is None ==> forall|i: int| 0 <= i < self.inodes@.len() ==> #[trigger] self.inodes@[i].key != key@,
    {
        match self.inodes.binary_search_by(key) {
            Ok(i) => Some(i),
            Err(i) => {
                proof {
                    assert forall|j: int| 0 <= j < self.inodes@.len() implies #[trigger] self.inodes@[j].key != key@ by {
                        lemma_lex_irreflexive(key@);
                    }
                }
                None
            }
        }
    }

    /// The child page id of inode `index` of a branch node.
    pub fn child_at(&self, index: usize) -> (r: Result<PgId, BoltError>)
        ensures
            r is Ok <==> !self.is_leaf && index < self.inodes@.len(),
            r matches Ok(p) ==> p == self.inodes@[index as int].pgid,
    {
        if self.is_leaf || index >= self.inodes.len() {
            return Err(BoltError::Unexpected("no such child of a branch node"));
        }
        Ok(self.inodes.get(index).pgid)
    }

    /// Puts an inode with `new_key`, `value`, `pgid` and `flags` where the key `old_key`
    /// is, overwriting it, or inserts it in key order when `old_key` is absent.
    pub fn put(&mut self, old_key: &[u8], new_key: &[u8], value: &[u8], pgid: PgId, flags: u32)
        requires
            old(self).wf(),
            old_key@.len() > 0,
            new_key@.len() > 0,
            same_place(old(self).inodes@, old_key@, new_key@),
        ensures
            final(self).wf(),
            put_result(
                old(self).inodes@,
                old_key@,
                InodeView { flags, pgid, key: new_key@, value: value@ },
                final(self).inodes@,
            ),
            final(self).is_leaf == old(self).is_leaf,
            final(self).pgid == old(self).pgid,
            final(self).unbalanced == old(self).unbalanced,
    {
        let ghost s = self.inodes@;
        let inode = Inode { flags, pgid, key: copy_bytes(new_key), value: copy_bytes(value) };
        let ghost nv = inode@;
        match self.inodes.binary_search_by(old_key) {
            Ok(i) => {
                self.inodes.inodes.set(i, inode);
                proof {
                    assert(self.inodes@ =~= s.update(i as int, nv));
                    assert forall|a: int, b: int| 0 <= a < b < self.inodes@.len() implies lex_lt(
                        #[trigger] self.inodes@[a].key,
                        #[trigger] self.inodes@[b].key,
                    ) by {
                        assert(lex_lt(s[a].key, s[b].key));
                        if a == i as int {
                            lemma_lex_irreflexive(s[b].key);
                            assert(s[b].key != old_key@);
                        } else if b == i as int {
                            lemma_lex_irreflexive(s[a].key);
                            assert(s[a].key != old_key@);
                        }
                    }
                }
            },
            Err(i) => {
                self.inodes.insert(i, inode);
                proof {
                    let r = self.inodes@;
                    assert forall|j: int| 0 <= j < s.len() implies #[trigger] s[j].key != old_key@ by {
                        lemma_lex_irreflexive(old_key@);
                    }
                    assert forall|j: int| 0 <= j < i implies lex_lt(#[trigger] s[j].key, new_key@) by {}
                    assert forall|j: int| i <= j < s.len() implies lex_lt(new_key@, #[trigger] s[j].key) by {}
                    assert forall|a: int, b: int| 0 <= a < b < r.len() implies lex_lt(
                        #[trigger] r[a].key,
                        #[trigger] r[b].key,
                    ) by {
                        if b < i {
                        } else if b == i {
                            assert(r[a] == s[a]);
                        } else if a < i {
                            assert(r[b] == s[b - 1]);
                            lemma_lex_trans(s[a].key, new_key@, s[b - 1].key);
                        } else if a == i {
                            assert(r[b] == s[b - 1]);
                        } else {
                            assert(r[a] == s[a - 1]);
                            assert(r[b] == s[b - 1]);
                        }
                    }
                    assert(put_result(s, old_key@, nv, r));
                }
            },
        }
    }

    /// Removes the inode whose key is `key`, if any, and marks the node for rebalancing.
    pub fn del(&mut self, key: &[u8])
        requires
            old(self).wf(),
        ensures
            final(self).wf(),
            final(self).is_leaf == old(self).is_leaf,
            final(self).pgid == old(self).pgid,
            (exists|i: int|
                0 <= i < old(self).inodes@.len() && #[trigger] old(self).inodes@[i].key == key@)
                ==> final(self).unbalanced && exists|i: int|
                0 <= i < old(self).inodes@.len() && #[trigger] old(self).inodes@[i].key == key@
                    && final(self).inodes@ == old(self).inodes@.remove(i),
            (forall|i: int|
                0 <= i < old(self).inodes@.len() ==> #[trigger] old(self).inodes@[i].key != key@)
                ==> final(self).inodes@ == old(self).inodes@ && final(self).unbalanced
                == old(self).unbalanced,
    {
        let ghost s = self.inodes@;
        match self.inodes.binary_search_by(key) {
            Ok(i) => {
                self.inodes.remove(i);
                self.unbalanced = true;
                proof {
                    let r = self.inodes@;
                    assert forall|a: int, b: int| 0 <= a < b < r.len() implies lex_lt(
                        #[trigger] r[a].key,
                        #[trigger] r[b].key,
                    ) by {
                        if b < i {
                        } else if a < i {
                            assert(r[b] == s[b + 1]);
                        } else {
                            assert(r[a] == s[a + 1]);
                            assert(r[b] == s[b + 1]);
                        }
                    }
                    assert forall|c: int| 0 <= c < r.len() implies (#[trigger] r[c]).key.len() > 0 by {
                        if c >= i {
                            assert(r[c] == s[c + 1]);
                        }
                    }
                }
            },
            Err(i) => {
                proof {
                    assert forall|j: int| 0 <= j < s.len() implies #[trigger] s[j].key != key@ by {
                        lemma_lex_irreflexive(key@);
                    }
                }
            },
        }
    }

    /// Where to cut this node so that the left part fills up to `threshold` bytes.
    /// Returns the index and the size of the left part.
    pub fn split_index(&self, threshold: usize) -> (r: (usize, usize))
        requires
            self.inodes@.len() >= 2 * MIN_KEYS_PER_PAGE,
            inodes_size(self.inodes@) <= usize::MAX,
        ensures
            is_split_index(self.inodes@, threshold as int, r.0 as int),
            r.1 == prefix_size(self.inodes@, r.0 as int),
    {
        let n = self.inodes.inodes.len();
        let last = n - MIN_KEYS_PER_PAGE;
        let mut sz: usize = PAGE_HEADER_SIZE;
        let mut i: usize = 0;
        while i < last
            invariant
                n == self.inodes@.len(),
                last == n - MIN_KEYS_PER_PAGE,
                n >= 2 * MIN_KEYS_PER_PAGE,
                i <= last,
                inodes_size(self.inodes@) <= usize::MAX,
                sz == prefix_size(self.inodes@, i as int),
                forall|j: int| MIN_KEYS_PER_PAGE <= j < i ==> prefix_size(self.inodes@, #[trigger] (j + 1)) <= threshold,
            decreases last - i,
        {
            proof {
                lemma_data_len_mono(self.inodes@, i + 1, n as int);
                assert(self.inodes.inodes@[i as int]@ == self.inodes@[i as int]);
            }
            let item = &self.inodes.inodes[i];
            let elsize = self.page_element_size() + item.key.len() + item.value.len();
            if i >= MIN_KEYS_PER_PAGE && sz + elsize > threshold {
                return (i, sz);
            }
            sz = sz + elsize;
            i = i + 1;
        }
        (last, sz)
    }

    /// Cuts off the inodes from the split index on into a new node, when the node holds
    /// at least four inodes and does not fit in `page_size` bytes. `fill` is the fill
    /// percent in thousandths.
    pub fn split_two(&mut self, page_size: usize, fill: u32) -> (r: Option<Node>)
        requires
            old(self).wf(),
            inodes_size(old(self).inodes@) <= usize::MAX,
            page_size <= 0xFFFF_FFFF,
        ensures
            final(self).wf(),
            final(self).is_leaf == old(self).is_leaf,
            final(self).pgid == old(self).pgid,
            (old(self).inodes@.len() < 2 * MIN_KEYS_PER_PAGE || inodes_size(old(self).inodes@)
                < page_size) ==> r is None && final(self).inodes@ == old(self).inodes@,
            !(old(self).inodes@.len() < 2 * MIN_KEYS_PER_PAGE || inodes_size(old(self).inodes@)
                < page_size) ==> r is Some,
            r matches Some(b) ==> {
                &&& b.wf()
                &&& b.is_leaf == old(self).is_leaf
                &&& final(self).inodes@ + b.inodes@ == old(self).inodes@
                &&& is_split_index(
                    old(self).inodes@,
                    (page_size as int * clamp_fill(fill) as int) / 1000,
                    final(self).inodes@.len() as int,
                )
            },
    {
        if self.inodes.len() < 2 * MIN_KEYS_PER_PAGE || self.size_less_than(page_size) {
            return None;
        }
        let f = if fill < MIN_FILL_PERCENT {
            MIN_FILL_PERCENT
        } else if fill > MAX_FILL_PERCENT {
            MAX_FILL_PERCENT
        } else {
            fill
        };
        proof {
            assert(page_size as int * f as int <= 0xFFFF_FFFF * 1000) by (nonlinear_arith)
                requires page_size <= 0xFFFF_FFFF, f <= 1000;
            assert((page_size as int * f as int) / 1000 <= page_size) by (nonlinear_arith)
                requires f <= 1000, page_size >= 0;
        }
        let threshold = (page_size as u64 * f as u64 / 1000) as usize;
        let (index, _sz) = self.split_index(threshold);
        let ghost s = self.inodes@;
        let rest = self.inodes.inodes.split_off(index);
        let next = Node {
            is_leaf: self.is_leaf,
            pgid: 0,
            key: Vec::new(),
            inodes: Inodes { inodes: rest },
            unbalanced: false,
            spilled: false,
        };
        proof {
            let l = self.inodes@;
            let rr = next.inodes@;
            assert(l =~= s.subrange(0, index as int));
            assert(rr =~= s.subrange(index as int, s.len() as int));
            assert(l + rr =~= s);
            assert forall|a: int, b: int| 0 <= a < b < rr.len() implies lex_lt(
                #[trigger] rr[a].key,
                #[trigger] rr[b].key,
            ) by {
                assert(rr[a] == s[a + index]);
                assert(rr[b] == s[b + index]);
            }
            assert forall|c: int| 0 <= c < rr.len() implies (#[trigger] rr[c]).key.len() > 0 by {
                assert(rr[c] == s[c + index]);
            }
            assert forall|a: int, b: int| 0 <= a < b < l.len() implies lex_lt(
                #[trigger] l[a].key,
                #[trigger] l[b].key,
            ) by {
                assert(l[a] == s[a]);
                assert(l[b] == s[b]);
            }
            assert forall|c: int| 0 <= c < l.len() implies (#[trigger] l[c]).key.len() > 0 by {
                assert(l[c] == s[c]);
            }
        }
        Some(next)
    }

    /// Fills the node from a page: `page` is its header and `buf` its bytes. Fails when the
    /// page's elements do not lie inside it.
    pub fn read(&mut self, page: &Page, buf: &[u8]) -> (r: Result<(), BoltError>)
        ensures
            r is Ok <==> elements_in_bounds(page.spec_is_leaf(), buf@, page.count as int),
            r is Ok ==> {
                &&& final(self).pgid == page.id
                &&& final(self).is_leaf == page.spec_is_leaf()
                &&& final(self).inodes@ == decoded_inodes(page.spec_is_leaf(), buf@, page.count as int)
                &&& final(self).inodes@.len() > 0 ==> final(self).key@ == final(self).inodes@[0].key
            },
            r is Err ==> *final(self) == *old(self),
    {
        let inodes = read_inode_from_page(page, buf)?;
        self.pgid = page.id;
        self.is_leaf = page.is_leaf_page();
        self.inodes = inodes;
        if self.inodes.len() > 0 {
            self.key = copy_bytes(self.inodes.get(0).key.as_slice());
        }
        Ok(())
    }

    /// Writes the node into an empty page: sets the page's kind and count, and appends the
    /// header and the body to `buf`.
    pub fn write(&self, page: &mut Page, buf: &mut Vec<u8>)
        requires
            old(page).count == 0,
            old(page).flags == 0,
            self.wf(),
            self.inodes@.len() <= 0xFFFF,
            body_fits(self.inodes@),
            !self.is_leaf ==> forall|i: int|
                0 <= i < self.inodes@.len() ==> (#[trigger] self.inodes@[i]).pgid != old(page).id,
        ensures
            *final(page) == (Page {
                flags: if self.is_leaf { LEAF_PAGE_FLAG } else { BRANCH_PAGE_FLAG },
                count: self.inodes@.len() as u16,
                ..*old(page)
            }),
            final(page).spec_is_leaf() == self.is_leaf,
            final(buf)@ == old(buf)@ + header_bytes(*final(page)) + body_bytes(self.is_leaf, self.inodes@),
    {
        if self.is_leaf {
            page.flags = LEAF_PAGE_FLAG;
        } else {
            page.flags = BRANCH_PAGE_FLAG;
        }
        page.count = self.inodes.len() as u16;
        proof {
            assert(LEAF_PAGE_FLAG & LEAF_PAGE_FLAG != 0) by (bit_vector);
            assert(BRANCH_PAGE_FLAG & LEAF_PAGE_FLAG == 0) by (bit_vector);
        }
        page.write_header(buf);
        let ghost mid = buf@;
        let _size = write_inode_to_page(&self.inodes, page, buf);
        proof {
            assert(buf@ =~= old(buf)@ + header_bytes(*page) + body_bytes(self.is_leaf, self.inodes@));
        }
    }
}

} // verus!
