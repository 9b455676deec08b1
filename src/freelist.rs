//! The freelist: page ids free for reuse, page ids released by transactions that readers
//! may still see, and the freelist page's encoding.

use vstd::prelude::*;
use crate::codec::{field, le_bytes, push_le, read_le, lemma_pow256_facts, lemma_le_bytes_len, lemma_le_round_trip};
use crate::errors::BoltError;
use crate::page::{Page, PgId, header_bytes, FREELIST_PAGE_FLAG, FREELIST_OVERFLOW_COUNT, PAGE_HEADER_SIZE, PGID_SIZE};
use crate::pgids::{strictly_sorted, insert_unique, lemma_push_to_set};

verus! {

/// A transaction id.
pub type TxId = u64;

/// The bytes of a list of page ids, eight each.
pub open spec fn ids_bytes(s: Seq<u64>) -> Seq<u8>
    decreases s.len(),
{
    if s.len() == 0 {
        Seq::empty()
    } else {
        ids_bytes(s.drop_last()) + le_bytes(s.last() as nat, 8)
    }
}

/// The body of a freelist page holding `s`: the ids, preceded by their number when there
/// are `0xFFFF` or more.
pub open spec fn freelist_body(s: Seq<u64>) -> Seq<u8> {
    if s.len() < 0xFFFF {
        ids_bytes(s)
    } else {
        le_bytes(s.len(), 8) + ids_bytes(s)
    }
}

/// The header count of a freelist page holding `n` ids.
pub open spec fn freelist_count(n: nat) -> u16 {
    if n < 0xFFFF {
        n as u16
    } else {
        0xFFFF
    }
}

/// The `count` ids that follow `skip` slots in the body of page `p`.
pub open spec fn decoded_ids(p: Seq<u8>, skip: int, count: int) -> Seq<u64> {
    Seq::new(count as nat, |i: int| field(p, 16 + 8 * (skip + i), 8) as u64)
}

proof fn lemma_ids_bytes(s: Seq<u64>)
    ensures
        ids_bytes(s).len() == 8 * s.len(),
        forall|i: int| 0 <= i < s.len() ==> #[trigger] ids_bytes(s).subrange(8 * i, 8 * i + 8) == le_bytes(s[i] as nat, 8),
    decreases s.len(),
{
    if s.len() > 0 {
        let t = s.drop_last();
        lemma_ids_bytes(t);
        lemma_le_bytes_len(s.last() as nat, 8);
        let b = ids_bytes(s);
        assert forall|i: int| 0 <= i < s.len() implies #[trigger] b.subrange(8 * i, 8 * i + 8) == le_bytes(s[i] as nat, 8) by {
            if i < s.len() - 1 {
                assert(b.subrange(8 * i, 8 * i + 8) =~= ids_bytes(t).subrange(8 * i, 8 * i + 8));
                assert(t[i] == s[i]);
            } else {
                assert(b.subrange(8 * i, 8 * i + 8) =~= le_bytes(s.last() as nat, 8));
            }
        }
    }
}

/// Writing ids to a freelist page and decoding the page gives the same ids, whether or
/// not their number overflows the header count.
pub proof fn lemma_freelist_round_trip(page: Page, s: Seq<u64>, rest: Seq<u8>)
    requires
        page.count == freelist_count(s.len()),
        s.len() < 0x1_0000_0000_0000_0000,
    ensures
        ({
            let p = header_bytes(page) + freelist_body(s) + rest;
            let skip: int = if s.len() < 0xFFFF { 0 } else { 1 };
            &&& s.len() >= 0xFFFF ==> field(p, 16, 8) == s.len()
            &&& p.len() >= 16 + 8 * (skip + s.len())
            &&& decoded_ids(p, skip, s.len() as int) == s
        }),
{
    lemma_pow256_facts();
    lemma_ids_bytes(s);
    lemma_le_bytes_len(page.id as nat, 8);
    lemma_le_bytes_len(page.flags as nat, 2);
    lemma_le_bytes_len(page.count as nat, 2);
    lemma_le_bytes_len(page.overflow as nat, 4);
    lemma_le_bytes_len(s.len(), 8);
    let h = header_bytes(page);
    let p = h + freelist_body(s) + rest;
    let skip: int = if s.len() < 0xFFFF { 0 } else { 1 };
    let ib = ids_bytes(s);
    if s.len() >= 0xFFFF {
        lemma_le_round_trip(s.len(), 8);
        assert(p.subrange(16, 24) =~= le_bytes(s.len(), 8));
    }
    assert forall|i: int| 0 <= i < s.len() implies #[trigger] decoded_ids(p, skip, s.len() as int)[i] == s[i] by {
        let o = 16 + 8 * (skip + i);
        assert(p.subrange(o, o + 8) =~= ib.subrange(8 * i, 8 * i + 8));
        lemma_le_round_trip(s[i] as nat, 8);
    }
    assert(decoded_ids(p, skip, s.len() as int) =~= s);
}

/// Writes `ids` as a freelist page: the page gets the freelist flag and the count (capped
/// at `0xFFFF`), and its header and body are appended to `buf`.
pub fn write_freelist_page(ids: &[u64], page: &mut Page, buf: &mut Vec<u8>)
    ensures
        *final(page) == (Page {
            flags: FREELIST_PAGE_FLAG,
            count: freelist_count(ids@.len()),
            ..*old(page)
        }),
        final(buf)@ == old(buf)@ + header_bytes(*final(page)) + freelist_body(ids@),
{
    let n = ids.len();
    page.flags = FREELIST_PAGE_FLAG;
    if n < 0xFFFF {
        page.count = n as u16;
    } else {
        page.count = FREELIST_OVERFLOW_COUNT;
    }
    page.write_header(buf);
    let ghost start = buf@;
    proof {
        lemma_pow256_facts();
    }
    if n >= 0xFFFF {
        push_le(buf, n as u64, 8);
    }
    let ghost lead = buf@;
    let mut i: usize = 0;
    proof {
        assert(ids@.subrange(0, 0) =~= Seq::<u64>::empty());
        assert(buf@ =~= lead + ids_bytes(ids@.subrange(0, 0)));
    }
    while i < n
        invariant
            n == ids@.len(),
            i <= n,
            buf@ == lead + ids_bytes(ids@.subrange(0, i as int)),
        decreases n - i,
    {
        proof {
            lemma_pow256_facts();
        }
        push_le(buf, ids[i], 8);
        proof {
            let t = ids@.subrange(0, i + 1);
            assert(t.drop_last() =~= ids@.subrange(0, i as int));
            assert(buf@ =~= lead + ids_bytes(t));
        }
        i = i + 1;
    }
    proof {
        assert(ids@.subrange(0, n as int) =~= ids@);
        assert(final(buf)@ =~= old(buf)@ + header_bytes(*final(page)) + freelist_body(ids@));
    }
}

/// A freelist page with header `page` and bytes `buf` can be read: it is a freelist page and
/// holds all the ids its count announces.
pub open spec fn freelist_page_readable(page: Page, buf: Seq<u8>) -> bool {
    &&& page.spec_is_freelist()
    &&& page.count != FREELIST_OVERFLOW_COUNT ==> buf.len() >= 16 + 8 * page.count
    &&& page.count == FREELIST_OVERFLOW_COUNT ==> buf.len() >= 24 && buf.len() >= 16 + 8 * (1 + field(buf, 16, 8))
}

/// Reads the ids of a freelist page: `buf` is the whole page, `page` its header.
pub fn read_freelist_page(page: &Page, buf: &[u8]) -> (r: Result<Vec<u64>, BoltError>)
    ensures
        r matches Ok(v) ==> page.spec_is_freelist() && (page.count != FREELIST_OVERFLOW_COUNT
            ==> v@ == decoded_ids(buf@, 0, page.count as int)) && (page.count
            == FREELIST_OVERFLOW_COUNT ==> v@ == decoded_ids(buf@, 1, field(buf@, 16, 8) as int)),
        r is Ok <==> freelist_page_readable(*page, buf@),
        !page.spec_is_freelist() ==> r is Err,
        page.spec_is_freelist() && page.count != FREELIST_OVERFLOW_COUNT ==> (r is Ok <==> buf@.len()
            >= 16 + 8 * page.count),
        page.spec_is_freelist() && page.count == FREELIST_OVERFLOW_COUNT ==> (r is Ok <==> buf@.len()
            >= 24 && buf@.len() >= 16 + 8 * (1 + field(buf@, 16, 8))),
{
    let len = buf.len();
    let (skip, count) = page.freelist_page_count(buf)?;
    if len < PAGE_HEADER_SIZE {
        return Err(BoltError::Unexpected("freelist page shorter than its header"));
    }
    if count > (len - PAGE_HEADER_SIZE) / PGID_SIZE || skip > (len - PAGE_HEADER_SIZE) / PGID_SIZE - count {
        proof {
            assert(buf@.len() < 16 + 8 * (skip + count)) by (nonlinear_arith)
                requires
                    count > (len - 16) / 8 || skip > (len - 16) / 8 - count,
                    len >= 16,
                    len == buf@.len();
        }
        return Err(BoltError::Unexpected("freelist ids lie outside the page"));
    }
    proof {
        assert(16 + 8 * (skip + count) <= len) by (nonlinear_arith)
            requires
                count <= (len - 16) / 8,
                skip <= (len - 16) / 8 - count,
                len >= 16;
    }
    let mut out: Vec<u64> = Vec::with_capacity(count);
    let mut i: usize = 0;
    while i < count
        invariant
            i <= count,
            16 + 8 * (skip + count) <= len,
            len == buf@.len(),
            out@ == decoded_ids(buf@, skip as int, i as int),
        decreases count - i,
    {
        let off = PAGE_HEADER_SIZE + PGID_SIZE * (skip + i);
        let id = read_le(buf, off, 8);
        out.push(id);
        proof {
            assert(out@ =~= decoded_ids(buf@, skip as int, i + 1));
        }
        i = i + 1;
    }
    Ok(out)
}

/// The page ids in the pending entries whose transaction id lies in `[lo, hi]`.
pub open spec fn ids_in_range(s: Seq<(TxId, PgId)>, lo: u64, hi: u64) -> Set<PgId> {
    Set::new(|p: PgId| exists|i: int| 0 <= i < s.len() && lo <= (#[trigger] s[i]).0 <= hi && s[i].1 == p)
}

/// The pending entries whose transaction id lies outside `[lo, hi]`, in order.
pub open spec fn entries_outside(s: Seq<(TxId, PgId)>, lo: u64, hi: u64) -> Seq<(TxId, PgId)>
    decreases s.len(),
{
    if s.len() == 0 {
        Seq::empty()
    } else {
        let r = entries_outside(s.drop_last(), lo, hi);
        let e = s.last();
        if lo <= e.0 <= hi {
            r
        } else {
            r.push(e)
        }
    }
}

/// Every entry kept by `entries_outside` is an entry of `s`.
pub proof fn lemma_outside_keeps(s: Seq<(TxId, PgId)>, lo: u64, hi: u64)
    ensures
        forall|k: int| 0 <= k < entries_outside(s, lo, hi).len() ==> exists|j: int| 0 <= j < s.len() && s[j] == #[trigger] entries_outside(s, lo, hi)[k],
    decreases s.len(),
{
    if s.len() > 0 {
        let t = s.drop_last();
        lemma_outside_keeps(t, lo, hi);
        let r = entries_outside(t, lo, hi);
        assert forall|k: int| 0 <= k < entries_outside(s, lo, hi).len() implies exists|j: int| 0 <= j < s.len() && s[j] == #[trigger] entries_outside(s, lo, hi)[k] by {
            if k < r.len() {
                assert(entries_outside(s, lo, hi)[k] == r[k]);
                let j = choose|j: int| 0 <= j < t.len() && t[j] == #[trigger] r[k];
                assert(s[j] == t[j]);
            } else {
                assert(entries_outside(s, lo, hi)[k] == s.last());
                assert(s[s.len() - 1] == s.last());
            }
        }
    }
}

/// The page ids of all pending entries.
pub open spec fn pending_ids(s: Seq<(TxId, PgId)>) -> Set<PgId> {
    Set::new(|p: PgId| exists|i: int| 0 <= i < s.len() && (#[trigger] s[i]).1 == p)
}

/// `ids[i..i + n]` are `n` consecutive page ids.
pub open spec fn run_at(ids: Seq<u64>, i: int, n: int) -> bool {
    0 <= i && 1 <= n && i + n <= ids.len() && ids[i + n - 1] - ids[i] == n - 1
}

/// How a freelist picks the pages it allocates.
#[derive(Debug, Clone, Copy, PartialEq, Eq)]
pub enum FreelistType {
    /// The first run of free ids long enough, by page id.
    Array,
    /// A shortest maximal run of free ids long enough, so long runs stay whole.
    HashMap,
}

/// `ids[i..i + len]` is a maximal run of consecutive ids: it cannot be extended on either
/// side.
pub open spec fn is_span(ids: Seq<u64>, i: int, len: int) -> bool {
    &&& run_at(ids, i, len)
    &&& (i == 0 || ids[i - 1] + 1 != ids[i])
    &&& (i + len == ids.len() || ids[i + len - 1] + 1 != ids[i + len])
}

/// Strictly ascending ids grow at least as fast as their positions.
pub proof fn lemma_sorted_gaps(ids: Seq<u64>, a: int, b: int)
    requires
        strictly_sorted(ids),
        0 <= a <= b < ids.len(),
    ensures
        ids[b] - ids[a] >= b - a,
    decreases b - a,
{
    if a < b {
        lemma_sorted_gaps(ids, a, b - 1);
        assert(ids[b - 1] < ids[b]);
    }
}

/// Inside a run, each id is one more than the one before it.
pub proof fn lemma_run_steps(ids: Seq<u64>, i: int, len: int)
    requires
        strictly_sorted(ids),
        run_at(ids, i, len),
    ensures
        forall|k: int| i <= k < i + len - 1 ==> #[trigger] ids[k + 1] == ids[k] + 1,
{
    assert forall|k: int| i <= k < i + len - 1 implies #[trigger] ids[k + 1] == ids[k] + 1 by {
        lemma_sorted_gaps(ids, k + 1, i + len - 1);
        lemma_sorted_gaps(ids, i, k);
        assert(ids[k] < ids[k + 1]);
    }
}

/// A maximal run has one length.
pub proof fn lemma_span_unique(ids: Seq<u64>, i: int, l1: int, l2: int)
    requires
        strictly_sorted(ids),
        is_span(ids, i, l1),
        is_span(ids, i, l2),
    ensures
        l1 == l2,
{
    if l1 < l2 {
        lemma_run_steps(ids, i, l2);
        assert(ids[(i + l1 - 1) + 1] == ids[i + l1 - 1] + 1);
    } else if l2 < l1 {
        lemma_run_steps(ids, i, l1);
        assert(ids[(i + l2 - 1) + 1] == ids[i + l2 - 1] + 1);
    }
}

/// Ids that step up by one from `a` to `b` differ by `b - a`.
pub proof fn lemma_steps_sum(ids: Seq<u64>, a: int, b: int)
    requires
        0 <= a <= b < ids.len(),
        forall|k: int| a <= k < b ==> #[trigger] ids[k + 1] == ids[k] + 1,
    ensures
        ids[b] - ids[a] == b - a,
    decreases b - a,
{
    if a < b {
        lemma_steps_sum(ids, a, b - 1);
        assert(ids[(b - 1) + 1] == ids[b - 1] + 1);
    }
}

/// A run lies inside a maximal run at least as long.
pub proof fn lemma_run_in_span(ids: Seq<u64>, i: int, n: int)
    requires
        strictly_sorted(ids),
        run_at(ids, i, n),
    ensures
        exists|j: int, l: int| #[trigger] is_span(ids, j, l) && l >= n,
    decreases i + (ids.len() - (i + n)),
{
    lemma_run_steps(ids, i, n);
    if i > 0 && ids[i - 1] + 1 == ids[i] {
        lemma_sorted_gaps(ids, i - 1, i + n - 1);
        lemma_run_in_span(ids, i - 1, n + 1);
    } else if i + n < ids.len() && ids[i + n - 1] + 1 == ids[i + n] {
        lemma_sorted_gaps(ids, i, i + n);
        lemma_run_in_span(ids, i, n + 1);
    } else {
        assert(is_span(ids, i, n));
    }
}

/// The freelist: free ids in one ascending vector; released ids as
/// `(releasing transaction, page id)` entries; and the open readers' transaction ids.
pub struct Freelist {
    pub ids: Vec<PgId>,
    pub pending: Vec<(TxId, PgId)>,
    pub readonly_txids: Vec<TxId>,
    pub kind: FreelistType,
}

impl Freelist {
    /// Free ids strictly ascend.
    pub open spec fn wf(&self) -> bool {
        &&& strictly_sorted(self.ids@)
        &&& forall|i: int| 0 <= i < self.ids@.len() ==> #[trigger] self.ids@[i] > 1
        &&& forall|i: int| 0 <= i < self.pending@.len() ==> (#[trigger] self.pending@[i]).1 > 1
    }

    /// The id is free or pending.
    pub open spec fn is_freed(&self, pgid: PgId) -> bool {
        self.free_set().contains(pgid) || pending_ids(self.pending@).contains(pgid)
    }

    /// The ids free for reuse now.
    pub open spec fn free_set(&self) -> Set<PgId> {
        self.ids@.to_set()
    }

    pub fn new() -> (r: Freelist)
        ensures
            r.wf(),
            r.ids@.len() == 0,
            r.pending@.len() == 0,
            r.readonly_txids@.len() == 0,
            r.kind == FreelistType::Array,
    {
        Freelist { ids: Vec::new(), pending: Vec::new(), readonly_txids: Vec::new(), kind: FreelistType::Array }
    }

    /// An empty freelist that allocates in the given way.
    pub fn with_type(kind: FreelistType) -> (r: Freelist)
        ensures
            r.wf(),
            r.ids@.len() == 0,
            r.pending@.len() == 0,
            r.readonly_txids@.len() == 0,
            r.kind == kind,
    {
        Freelist { ids: Vec::new(), pending: Vec::new(), readonly_txids: Vec::new(), kind }
    }

    /// The number of free ids.
    pub fn free_count(&self) -> (r: usize)
        ensures
            r == self.ids@.len(),
    {
        self.ids.len()
    }

    /// The size in bytes of the freelist page `write` would produce: the header, one slot
    /// per free or pending id, and one more for the count when it overflows the header.
    pub fn estimated_write_page_size(&self) -> (r: usize)
        requires
            16 + 8 * (self.ids@.len() + self.pending@.len() + 1) <= usize::MAX,
        ensures
            ({
                let n = self.ids@.len() + self.pending@.len();
                r == 16 + 8 * (n + if n >= 0xFFFF { 1int } else { 0int })
            }),
    {
        let n = self.ids.len() + self.pending.len();
        if n >= 0xFFFF {
            PAGE_HEADER_SIZE + 8 * (n + 1)
        } else {
            PAGE_HEADER_SIZE + 8 * n
        }
    }

    /// The number of pending entries.
    pub fn pending_count(&self) -> (r: usize)
        ensures
            r == self.pending@.len(),
    {
        self.pending.len()
    }

    /// Takes the run `ids[i..i + n]` out of the free ids.
    fn remove_run(&mut self, i: usize, n: usize)
        requires
            old(self).wf(),
            run_at(old(self).ids@, i as int, n as int),
        ensures
            final(self).wf(),
            final(self).pending == old(self).pending,
            final(self).readonly_txids == old(self).readonly_txids,
            final(self).kind == old(self).kind,
            final(self).ids@ == old(self).ids@.subrange(0, i as int) + old(self).ids@.subrange(
                i + n,
                old(self).ids@.len() as int,
            ),
    {
        let ghost s = self.ids@;
        let len = self.ids.len();
        let mut rest: Vec<PgId> = Vec::new();
        let mut k: usize = 0;
        while k < len
            invariant
                self.ids@ == s,
                len == s.len(),
                i + n <= len,
                k <= len,
                rest@ == s.subrange(0, if k < i { k as int } else { i as int }) + s.subrange(
                    (i + n) as int,
                    if k < i + n { (i + n) as int } else { k as int },
                ),
            decreases len - k,
        {
            if k < i || k >= i + n {
                rest.push(self.ids[k]);
            }
            proof {
                let j = (k + 1) as int;
                assert(rest@ =~= s.subrange(0, if j < i { j } else { i as int }) + s.subrange(
                    (i + n) as int,
                    if j < i + n { (i + n) as int } else { j },
                ));
            }
            k = k + 1;
        }
        self.ids = rest;
        proof {
            assert forall|a: int, b: int| 0 <= a < b < self.ids@.len() implies #[trigger] self.ids@[a] < #[trigger] self.ids@[b] by {
                if a < i && b >= i {
                    assert(self.ids@[a] == s[a]);
                    assert(self.ids@[b] == s[b + n]);
                    assert(s[a] < s[b + n]);
                } else if a >= i {
                    assert(self.ids@[a] == s[a + n]);
                    assert(self.ids@[b] == s[b + n]);
                    assert(s[a + n] < s[b + n]);
                } else {
                    assert(self.ids@[a] == s[a]);
                    assert(self.ids@[b] == s[b]);
                    assert(s[a] < s[b]);
                }
            }
            assert forall|c: int| 0 <= c < self.ids@.len() implies #[trigger] self.ids@[c] > 1 by {
                if c < i {
                    assert(self.ids@[c] == s[c]);
                } else {
                    assert(self.ids@[c] == s[c + n]);
                }
            }
        }
    }

    /// Where the first run of `n` consecutive free ids starts, if there is one.
    fn first_run(&self, n: usize) -> (r: Option<usize>)
        requires
            self.wf(),
        ensures
            r matches Some(i) ==> run_at(self.ids@, i as int, n as int)
                && forall|j: int| 0 <= j < i ==> !#[trigger] run_at(self.ids@, j, n as int),
            r is None ==> forall|j: int| !#[trigger] run_at(self.ids@, j, n as int),
    {
        let len = self.ids.len();
        if n == 0 || n > len {
            return None;
        }
        let mut i: usize = 0;
        while i <= len - n
            invariant
                1 <= n <= len,
                len == self.ids@.len(),
                i <= len - n + 1,
                forall|j: int| 0 <= j < i ==> !#[trigger] run_at(self.ids@, j, n as int),
            decreases len - n + 1 - i,
        {
            if self.ids[i + n - 1] >= self.ids[i] && self.ids[i + n - 1] - self.ids[i] == (n - 1) as u64 {
                return Some(i);
            }
            i = i + 1;
        }
        proof {
            assert forall|j: int| !#[trigger] run_at(self.ids@, j, n as int) by {
                if 0 <= j && j + n <= len {
                    assert(j < i);
                }
            }
        }
        None
    }

    /// Where a shortest maximal run of at least `n` free ids starts, the one with the
    /// smallest ids among equals, and its length.
    fn best_span(&self, n: usize) -> (r: Option<(usize, usize)>)
        requires
            self.wf(),
        ensures
            r matches Some((i, l)) ==> {
                &&& is_span(self.ids@, i as int, l as int)
                &&& l >= n >= 1
                &&& forall|j: int, l2: int| #[trigger] is_span(self.ids@, j, l2) && l2 >= n ==> l2 >= l
                    && (l2 == l ==> j >= i)
            },
            r is None ==> n == 0 || forall|j: int, l2: int| #[trigger] is_span(self.ids@, j, l2) ==> l2 < n,
    {
        let len = self.ids.len();
        if n == 0 {
            return None;
        }
        let mut best: Option<(usize, usize)> = None;
        let mut i: usize = 0;
        while i < len
            invariant
                n >= 1,
                len == self.ids@.len(),
                strictly_sorted(self.ids@),
                i <= len,
                i < len ==> (i == 0 || self.ids@[i - 1] + 1 != self.ids@[i as int]),
                best matches Some((bi, bl)) ==> is_span(self.ids@, bi as int, bl as int) && bl >= n && bi < i,
                forall|j: int, l2: int| #[trigger] is_span(self.ids@, j, l2) && l2 >= n && j < i ==> best is Some
                    && l2 >= best->Some_0.1 && (l2 == best->Some_0.1 ==> j >= best->Some_0.0),
            decreases len - i,
        {
            let mut e: usize = i;
            while e + 1 < len && self.ids[e] < u64::MAX && self.ids[e + 1] == self.ids[e] + 1
                invariant
                    i <= e < len,
                    len == self.ids@.len(),
                    forall|k: int| i <= k < e ==> #[trigger] self.ids@[k + 1] == self.ids@[k] + 1,
                decreases len - e,
            {
                e = e + 1;
            }
            let l = e - i + 1;
            proof {
                lemma_steps_sum(self.ids@, i as int, e as int);
                if e + 1 < len {
                    assert(self.ids@[e as int] + 1 != self.ids@[e + 1]) by {
                        if self.ids@[e as int] == u64::MAX {
                            assert(self.ids@[e as int] < self.ids@[e + 1]);
                        }
                    }
                }
                assert(is_span(self.ids@, i as int, l as int));
                assert forall|j: int, l2: int| #[trigger] is_span(self.ids@, j, l2) && i < j <= e implies false by {
                    assert(self.ids@[(j - 1) + 1] == self.ids@[j - 1] + 1);
                }
                assert forall|l2: int| #[trigger] is_span(self.ids@, i as int, l2) implies l2 == l by {
                    lemma_span_unique(self.ids@, i as int, l as int, l2);
                }
            }
            if l >= n {
                match best {
                    Some((_, bl)) => {
                        if l < bl {
                            best = Some((i, l));
                        }
                    },
                    None => {
                        best = Some((i, l));
                    },
                }
            }
            i = e + 1;
        }
        best
    }

    /// Takes `n` consecutive free ids and returns the first, or returns 0 when there is no
    /// such run. An array freelist takes the first run by page id; a hash-map freelist
    /// takes the start of a shortest maximal run that is long enough, the one with the
    /// smallest ids among equals.
    pub fn allocate(&mut self, txid: TxId, n: usize) -> (r: PgId)
        requires
            old(self).wf(),
        ensures
            final(self).wf(),
            final(self).pending == old(self).pending,
            final(self).readonly_txids == old(self).readonly_txids,
            final(self).kind == old(self).kind,
            r == 0 ==> final(self).ids@ == old(self).ids@ && forall|i: int| !#[trigger] run_at(old(self).ids@, i, n as int),
            r != 0 ==> exists|i: int| {
                &&& #[trigger] run_at(old(self).ids@, i, n as int)
                &&& old(self).ids@[i] == r
                &&& final(self).ids@ == old(self).ids@.subrange(0, i) + old(self).ids@.subrange(
                    i + n,
                    old(self).ids@.len() as int,
                )
                &&& old(self).kind == FreelistType::Array ==> forall|j: int| 0 <= j < i ==> !#[trigger] run_at(old(self).ids@, j, n as int)
                &&& old(self).kind == FreelistType::HashMap ==> exists|l: int| #[trigger] is_span(old(self).ids@, i, l) && l >= n
                    && forall|j: int, l2: int| #[trigger] is_span(old(self).ids@, j, l2) && l2 >= n ==> l2 >= l && (l2 == l ==> j >= i)
            },
    {
        match self.kind {
            FreelistType::Array => {
                match self.first_run(n) {
                    Some(i) => {
                        let start = self.ids[i];
                        self.remove_run(i, n);
                        start
                    },
                    None => 0,
                }
            },
            FreelistType::HashMap => {
                match self.best_span(n) {
                    Some((i, l)) => {
                        proof {
                            lemma_run_steps(self.ids@, i as int, l as int);
                            lemma_sorted_gaps(self.ids@, i as int, i + n - 1);
                            lemma_sorted_gaps(self.ids@, i + n - 1, i + l - 1);
                            lemma_sorted_gaps(self.ids@, i as int, i + l - 1);
                            assert(run_at(self.ids@, i as int, n as int));
                        }
                        let start = self.ids[i];
                        self.remove_run(i, n);
                        start
                    },
                    None => {
                        proof {
                            assert forall|j: int| !#[trigger] run_at(self.ids@, j, n as int) by {
                                if run_at(self.ids@, j, n as int) {
                                    lemma_run_in_span(self.ids@, j, n as int);
                                }
                            }
                        }
                        0
                    },
                }
            },
        }
    }

    /// Releases page `pgid` and its `overflow` following pages on behalf of `txid`: they
    /// become pending until no reader can see them. Fails, changing nothing, when one of
    /// them is already free or pending.
    pub fn free(&mut self, txid: TxId, pgid: PgId, overflow: u32) -> (r: Result<(), BoltError>)
        requires
            pgid > 1,
            pgid + overflow <= u64::MAX,
        ensures
            final(self).ids == old(self).ids,
            final(self).readonly_txids == old(self).readonly_txids,
            r is Err <==> exists|k: int| 0 <= k <= overflow && #[trigger] old(self).is_freed((pgid + k) as u64),
            r is Err ==> final(self).pending == old(self).pending,
            r is Ok ==> final(self).pending@ == old(self).pending@ + Seq::new(
                (overflow + 1) as nat,
                |k: int| (txid, (pgid + k) as u64),
            ),
    {
        let mut j: u64 = 0;
        while j <= overflow as u64
            invariant
                j <= overflow + 1,
                pgid + overflow <= u64::MAX,
                forall|k: int| 0 <= k < j ==> !#[trigger] self.is_freed((pgid + k) as u64),
            decreases overflow + 1 - j,
        {
            if self.freed(pgid + j) {
                proof {
                    assert(self.is_freed((pgid + j) as u64));
                }
                return Err(BoltError::Unexpected("page freed twice"));
            }
            j = j + 1;
        }
        let mut k: u64 = 0;
        let ghost base = self.pending@;
        while k <= overflow as u64
            invariant
                k <= overflow + 1,
                pgid + overflow <= u64::MAX,
                self.ids == old(self).ids,
                self.readonly_txids == old(self).readonly_txids,
                base == old(self).pending@,
                self.pending@ == base + Seq::new(k as nat, |j: int| (txid, (pgid + j) as u64)),
            decreases overflow + 1 - k,
        {
            self.pending.push((txid, pgid + k));
            proof {
                assert(self.pending@ =~= base + Seq::new((k + 1) as nat, |j: int| (txid, (pgid + j) as u64)));
            }
            k = k + 1;
        }
        Ok(())
    }

    /// Takes the pending entries whose transaction lies in `[lo, hi]` out, returning
    /// their page ids.
    fn take_range(&mut self, lo: TxId, hi: TxId) -> (r: Vec<PgId>)
        ensures
            final(self).ids == old(self).ids,
            final(self).readonly_txids == old(self).readonly_txids,
            final(self).pending@ == entries_outside(old(self).pending@, lo, hi),
            r@.to_set() == ids_in_range(old(self).pending@, lo, hi),
    {
        let ghost s = self.pending@;
        let mut kept: Vec<(TxId, PgId)> = Vec::new();
        let mut taken: Vec<PgId> = Vec::new();
        let mut i: usize = 0;
        proof {
            assert(s.subrange(0, 0) =~= Seq::<(TxId, PgId)>::empty());
            assert(taken@.to_set() =~= ids_in_range(s.subrange(0, 0), lo, hi));
        }
        while i < self.pending.len()
            invariant
                self.pending@ == s,
                i <= s.len(),
                kept@ == entries_outside(s.subrange(0, i as int), lo, hi),
                taken@.to_set() == ids_in_range(s.subrange(0, i as int), lo, hi),
            decreases s.len() - i,
        {
            let e = self.pending[i];
            let ghost pre = s.subrange(0, i as int);
            let ghost nxt = s.subrange(0, i + 1);
            proof {
                assert(nxt.drop_last() =~= pre);
                assert(nxt.last() == e);
            }
            if lo <= e.0 && e.0 <= hi {
                proof {
                    lemma_push_to_set(taken@, e.1);
                }
                taken.push(e.1);
                proof {
                    assert forall|p: PgId| taken@.to_set().contains(p) <==> ids_in_range(nxt, lo, hi).contains(p) by {
                        if ids_in_range(nxt, lo, hi).contains(p) {
                            let j = choose|j: int| 0 <= j < nxt.len() && lo <= (#[trigger] nxt[j]).0 <= hi && nxt[j].1 == p;
                            if j < i {
                                assert(pre[j] == nxt[j]);
                                assert(ids_in_range(pre, lo, hi).contains(p));
                            }
                        }
                        if ids_in_range(pre, lo, hi).contains(p) {
                            let j = choose|j: int| 0 <= j < pre.len() && lo <= (#[trigger] pre[j]).0 <= hi && pre[j].1 == p;
                            assert(nxt[j] == pre[j]);
                        }
                        if p == e.1 {
                            assert(nxt[i as int] == e);
                        }
                    }
                    assert(taken@.to_set() =~= ids_in_range(nxt, lo, hi));
                }
            } else {
                kept.push(e);
                proof {
                    assert forall|p: PgId| taken@.to_set().contains(p) <==> ids_in_range(nxt, lo, hi).contains(p) by {
                        if ids_in_range(nxt, lo, hi).contains(p) {
                            let j = choose|j: int| 0 <= j < nxt.len() && lo <= (#[trigger] nxt[j]).0 <= hi && nxt[j].1 == p;
                            assert(j < i);
                            assert(pre[j] == nxt[j]);
                            assert(ids_in_range(pre, lo, hi).contains(p));
                        }
                        if ids_in_range(pre, lo, hi).contains(p) {
                            let j = choose|j: int| 0 <= j < pre.len() && lo <= (#[trigger] pre[j]).0 <= hi && pre[j].1 == p;
                            assert(nxt[j] == pre[j]);
                        }
                    }
                    assert(taken@.to_set() =~= ids_in_range(nxt, lo, hi));
                }
            }
            i = i + 1;
        }
        proof {
            assert(s.subrange(0, s.len() as int) =~= s);
        }
        self.pending = kept;
        taken
    }

    /// Makes free the ids released by transactions in `[lo, hi]`.
    pub fn release_range(&mut self, lo: TxId, hi: TxId)
        requires
            old(self).wf(),
        ensures
            final(self).wf(),
            final(self).readonly_txids == old(self).readonly_txids,
            final(self).pending@ == entries_outside(old(self).pending@, lo, hi),
            final(self).free_set() == old(self).free_set() + ids_in_range(old(self).pending@, lo, hi),
    {
        let taken = self.take_range(lo, hi);
        proof {
            lemma_outside_keeps(old(self).pending@, lo, hi);
        }
        let mut i: usize = 0;
        let ghost start = self.ids@.to_set();
        proof {
            assert(taken@.subrange(0, 0).to_set() =~= Set::<u64>::empty());
            assert(self.ids@.to_set() =~= start + taken@.subrange(0, 0).to_set());
        }
        while i < taken.len()
            invariant
                i <= taken@.len(),
                strictly_sorted(self.ids@),
                forall|c: int| 0 <= c < self.ids@.len() ==> #[trigger] self.ids@[c] > 1,
                forall|c: int| 0 <= c < self.pending@.len() ==> (#[trigger] self.pending@[c]).1 > 1,
                taken@.to_set() == ids_in_range(old(self).pending@, lo, hi),
                forall|c: int| 0 <= c < old(self).pending@.len() ==> (#[trigger] old(self).pending@[c]).1 > 1,
                self.ids@.to_set() == start + taken@.subrange(0, i as int).to_set(),
                self.readonly_txids == old(self).readonly_txids,
                self.pending@ == entries_outside(old(self).pending@, lo, hi),
            decreases taken@.len() - i,
        {
            proof {
                assert(taken@.to_set().contains(taken@[i as int]));
                let j = choose|j: int| 0 <= j < old(self).pending@.len() && lo <= (#[trigger] old(self).pending@[j]).0 <= hi && old(self).pending@[j].1 == taken@[i as int];
            }
            let ghost before = self.ids@;
            insert_unique(&mut self.ids, taken[i]);
            proof {
                assert forall|c: int| 0 <= c < self.ids@.len() implies #[trigger] self.ids@[c] > 1 by {
                    if self.ids@[c] != taken@[i as int] {
                        let k = choose|k: int| 0 <= k < before.len() && before[k] == self.ids@[c];
                    }
                }
                assert(taken@.subrange(0, i + 1) =~= taken@.subrange(0, i as int).push(taken@[i as int]));
                lemma_push_to_set(taken@.subrange(0, i as int), taken@[i as int]);
                assert(self.ids@.to_set() =~= start + taken@.subrange(0, i + 1).to_set());
            }
            i = i + 1;
        }
        proof {
            assert(taken@.subrange(0, taken@.len() as int) =~= taken@);
        }
    }

    /// Makes free every id released by transaction `txid` or an earlier one.
    pub fn release(&mut self, txid: TxId)
        requires
            old(self).wf(),
        ensures
            final(self).wf(),
            final(self).readonly_txids == old(self).readonly_txids,
            final(self).pending@ == entries_outside(old(self).pending@, 0, txid),
            final(self).free_set() == old(self).free_set() + ids_in_range(old(self).pending@, 0, txid),
    {
        self.release_range(0, txid);
    }

    /// Forgets the ids that transaction `txid` released: it did not commit.
    pub fn rollback(&mut self, txid: TxId)
        ensures
            final(self).ids == old(self).ids,
            final(self).readonly_txids == old(self).readonly_txids,
            final(self).pending@ == entries_outside(old(self).pending@, txid, txid),
    {
        let _ = self.take_range(txid, txid);
    }

    /// Registers an open reader.
    pub fn add_readonly_txid(&mut self, txid: TxId)
        ensures
            final(self).ids == old(self).ids,
            final(self).pending == old(self).pending,
            final(self).readonly_txids@ == old(self).readonly_txids@.push(txid),
    {
        self.readonly_txids.push(txid);
    }

    /// Unregisters one open reader with id `txid`, if there is one.
    pub fn remove_readonly_txid(&mut self, txid: TxId)
        ensures
            final(self).ids == old(self).ids,
            final(self).pending == old(self).pending,
            final(self).readonly_txids@.to_multiset() == old(self).readonly_txids@.to_multiset().remove(txid),
    {
        let mut i: usize = 0;
        while i < self.readonly_txids.len()
            invariant
                i <= self.readonly_txids@.len(),
                self == old(self),
                forall|j: int| 0 <= j < i ==> self.readonly_txids@[j] != txid,
            decreases self.readonly_txids@.len() - i,
        {
            if self.readonly_txids[i] == txid {
                let ghost s = self.readonly_txids@;
                self.readonly_txids.remove(i);
                proof {
                    vstd::seq_lib::to_multiset_remove(s, i as int);
                }
                return;
            }
            i = i + 1;
        }
        proof {
            vstd::seq_lib::to_multiset_contains(self.readonly_txids@, txid);
            assert(self.readonly_txids@.to_multiset().count(txid) == 0);
            assert(self.readonly_txids@.to_multiset().remove(txid) =~= self.readonly_txids@.to_multiset());
        }
    }

    /// The smallest open reader id, or `u64::MAX` when no reader is open.
    pub fn min_readonly_txid(&self) -> (r: TxId)
        ensures
            forall|i: int| 0 <= i < self.readonly_txids@.len() ==> r <= #[trigger] self.readonly_txids@[i],
            self.readonly_txids@.len() == 0 ==> r == u64::MAX,
            self.readonly_txids@.len() > 0 ==> self.readonly_txids@.contains(r),
    {
        let mut m: u64 = u64::MAX;
        let mut i: usize = 0;
        while i < self.readonly_txids.len()
            invariant
                i <= self.readonly_txids@.len(),
                forall|j: int| 0 <= j < i ==> m <= #[trigger] self.readonly_txids@[j],
                i == 0 ==> m == u64::MAX,
                i > 0 ==> exists|j: int| 0 <= j < i && self.readonly_txids@[j] == m,
            decreases self.readonly_txids@.len() - i,
        {
            if self.readonly_txids[i] < m || i == 0 {
                m = self.readonly_txids[i];
            }
            i = i + 1;
        }
        m
    }

    /// Frees what transactions released before the oldest open reader began.
    pub fn release_pending_pages(&mut self)
        requires
            old(self).wf(),
        ensures
            final(self).wf(),
            ({
                let m = old(self).min_spec();
                &&& m > 0 ==> final(self).free_set() == old(self).free_set() + ids_in_range(old(self).pending@, 0, (m - 1) as u64)
                &&& m > 0 ==> final(self).pending@ == entries_outside(old(self).pending@, 0, (m - 1) as u64)
                &&& m == 0 ==> *final(self) == *old(self)
            }),
    {
        let m = self.min_readonly_txid();
        proof {
            self.lemma_min_spec(m);
        }
        if m > 0 {
            self.release(m - 1);
        }
    }

    /// The smallest open reader id, or `u64::MAX` when none is open.
    pub open spec fn min_spec(&self) -> u64 {
        if self.readonly_txids@.len() == 0 {
            u64::MAX
        } else {
            choose|m: u64| self.readonly_txids@.contains(m) && forall|i: int| 0 <= i < self.readonly_txids@.len() ==> m <= #[trigger] self.readonly_txids@[i]
        }
    }

    proof fn lemma_min_spec(&self, m: u64)
        requires
            forall|i: int| 0 <= i < self.readonly_txids@.len() ==> m <= #[trigger] self.readonly_txids@[i],
            self.readonly_txids@.len() == 0 ==> m == u64::MAX,
            self.readonly_txids@.len() > 0 ==> self.readonly_txids@.contains(m),
        ensures
            self.min_spec() == m,
    {
        if self.readonly_txids@.len() > 0 {
            let c = self.min_spec();
            let j = choose|j: int| 0 <= j < self.readonly_txids@.len() && self.readonly_txids@[j] == c;
            let k = choose|k: int| 0 <= k < self.readonly_txids@.len() && self.readonly_txids@[k] == m;
            assert(c <= self.readonly_txids@[k]);
            assert(m <= self.readonly_txids@[j]);
        }
    }

    /// The id is free or pending.
    pub fn freed(&self, pgid: PgId) -> (r: bool)
        ensures
            r == (self.free_set().contains(pgid) || pending_ids(self.pending@).contains(pgid)),
    {
        let mut i: usize = 0;
        while i < self.ids.len()
            invariant
                i <= self.ids@.len(),
                forall|j: int| 0 <= j < i ==> self.ids@[j] != pgid,
            decreases self.ids@.len() - i,
        {
            if self.ids[i] == pgid {
                proof {
                    assert(self.ids@.contains(pgid));
                }
                return true;
            }
            i = i + 1;
        }
        let mut k: usize = 0;
        while k < self.pending.len()
            invariant
                k <= self.pending@.len(),
                !self.ids@.contains(pgid),
                forall|j: int| 0 <= j < k ==> (#[trigger] self.pending@[j]).1 != pgid,
            decreases self.pending@.len() - k,
        {
            if self.pending[k].1 == pgid {
                proof {
                    assert(pending_ids(self.pending@).contains(pgid));
                }
                return true;
            }
            k = k + 1;
        }
        false
    }

    /// All free and pending ids, ascending, each once: what a freelist page stores.
    pub fn copy_all(&self) -> (r: Vec<PgId>)
        requires
            self.wf(),
        ensures
            strictly_sorted(r@),
            r@.to_set() == self.free_set() + pending_ids(self.pending@),
    {
        let mut out: Vec<PgId> = Vec::new();
        let mut i: usize = 0;
        proof {
            assert(out@.to_set() =~= Set::<u64>::empty());
            assert(self.ids@.subrange(0, 0).to_set() =~= Set::<u64>::empty());
        }
        while i < self.ids.len()
            invariant
                i <= self.ids@.len(),
                strictly_sorted(out@),
                out@.to_set() == self.ids@.subrange(0, i as int).to_set(),
            decreases self.ids@.len() - i,
        {
            insert_unique(&mut out, self.ids[i]);
            proof {
                assert(self.ids@.subrange(0, i + 1) =~= self.ids@.subrange(0, i as int).push(self.ids@[i as int]));
                lemma_push_to_set(self.ids@.subrange(0, i as int), self.ids@[i as int]);
            }
            i = i + 1;
        }
        proof {
            assert(self.ids@.subrange(0, self.ids@.len() as int) =~= self.ids@);
            assert(pending_ids(self.pending@.subrange(0, 0)) =~= Set::<u64>::empty());
            assert(out@.to_set() =~= self.free_set() + pending_ids(self.pending@.subrange(0, 0)));
        }
        let mut k: usize = 0;
        while k < self.pending.len()
            invariant
                k <= self.pending@.len(),
                strictly_sorted(out@),
                out@.to_set() == self.free_set() + pending_ids(self.pending@.subrange(0, k as int)),
            decreases self.pending@.len() - k,
        {
            insert_unique(&mut out, self.pending[k].1);
            proof {
                let pre = self.pending@.subrange(0, k as int);
                let nxt = self.pending@.subrange(0, k + 1);
                assert forall|p: PgId| pending_ids(nxt).contains(p) <==> pending_ids(pre).insert(self.pending@[k as int].1).contains(p) by {
                    if pending_ids(nxt).contains(p) {
                        let j = choose|j: int| 0 <= j < nxt.len() && (#[trigger] nxt[j]).1 == p;
                        if j < k {
                            assert(pre[j] == nxt[j]);
                        }
                    }
                    if pending_ids(pre).contains(p) {
                        let j = choose|j: int| 0 <= j < pre.len() && (#[trigger] pre[j]).1 == p;
                        assert(nxt[j] == pre[j]);
                    }
                    if p == self.pending@[k as int].1 {
                        assert(nxt[k as int] == self.pending@[k as int]);
                    }
                }
                assert(pending_ids(nxt) =~= pending_ids(pre).insert(self.pending@[k as int].1));
                assert(out@.to_set() =~= self.free_set() + pending_ids(nxt));
            }
            k = k + 1;
        }
        proof {
            assert(self.pending@.subrange(0, self.pending@.len() as int) =~= self.pending@);
        }
        out
    }

    /// Writes all free and pending ids as a freelist page.
    pub fn write(&self, page: &mut Page, buf: &mut Vec<u8>)
        requires
            self.wf(),
        ensures
            exists|ids: Seq<u64>| {
                &&& strictly_sorted(ids)
                &&& ids.to_set() == self.free_set() + pending_ids(self.pending@)
                &&& *final(page) == (Page { flags: FREELIST_PAGE_FLAG, count: freelist_count(ids.len()), ..*old(page) })
                &&& final(buf)@ == old(buf)@ + header_bytes(*final(page)) + freelist_body(ids)
            },
    {
        let ids = self.copy_all();
        write_freelist_page(ids.as_slice(), page, buf);
    }

    /// Replaces the free ids by those stored in a freelist page, less any that are
    /// pending.
    pub fn reload(&mut self, page: &Page, buf: &[u8]) -> (r: Result<(), BoltError>)
        requires
            old(self).wf(),
        ensures
            final(self).wf(),
            final(self).pending == old(self).pending,
            final(self).readonly_txids == old(self).readonly_txids,
            r is Err ==> *final(self) == *old(self),
            r is Ok <==> freelist_page_readable(*page, buf@),
            r is Ok ==> exists|stored: Seq<u64>| #![auto] final(self).free_set() == stored.to_set().difference(pending_ids(old(self).pending@)).filter(|p: u64| p > 1)
                && (page.count != FREELIST_OVERFLOW_COUNT ==> stored == decoded_ids(buf@, 0, page.count as int))
                && (page.count == FREELIST_OVERFLOW_COUNT ==> stored == decoded_ids(buf@, 1, field(buf@, 16, 8) as int)),
    {
        let stored = read_freelist_page(page, buf)?;
        let mut out: Vec<PgId> = Vec::new();
        let mut i: usize = 0;
        proof {
            assert(out@.to_set() =~= stored@.subrange(0, 0).to_set().difference(pending_ids(self.pending@)).filter(|p: u64| p > 1));
        }
        while i < stored.len()
            invariant
                i <= stored@.len(),
                strictly_sorted(out@),
                out@.to_set() == stored@.subrange(0, i as int).to_set().difference(pending_ids(self.pending@)).filter(|p: u64| p > 1),
                forall|c: int| 0 <= c < out@.len() ==> #[trigger] out@[c] > 1,
            decreases stored@.len() - i,
        {
            let id = stored[i];
            let mut pend = false;
            let mut k: usize = 0;
            while k < self.pending.len()
                invariant
                    k <= self.pending@.len(),
                    pend <==> exists|j: int| 0 <= j < k && (#[trigger] self.pending@[j]).1 == id,
                decreases self.pending@.len() - k,
            {
                if self.pending[k].1 == id {
                    pend = true;
                }
                k = k + 1;
            }
            proof {
                lemma_push_to_set(stored@.subrange(0, i as int), id);
                assert(stored@.subrange(0, i + 1) =~= stored@.subrange(0, i as int).push(id));
                if pend {
                    assert(pending_ids(self.pending@).contains(id));
                } else {
                    assert(!pending_ids(self.pending@).contains(id)) by {
                        if pending_ids(self.pending@).contains(id) {
                            let j = choose|j: int| 0 <= j < self.pending@.len() && (#[trigger] self.pending@[j]).1 == id;
                        }
                    }
                }
            }
            let ghost before = out@;
            if !pend && id > 1 {
                insert_unique(&mut out, id);
                proof {
                    assert forall|c: int| 0 <= c < out@.len() implies #[trigger] out@[c] > 1 by {
                        if out@[c] != id {
                            let k = choose|k: int| 0 <= k < before.len() && before[k] == out@[c];
                        }
                    }
                }
            }
            proof {
                assert(out@.to_set() =~= stored@.subrange(0, i + 1).to_set().difference(pending_ids(self.pending@)).filter(|p: u64| p > 1));
            }
            i = i + 1;
        }
        proof {
            assert(stored@.subrange(0, stored@.len() as int) =~= stored@);
        }
        self.ids = out;
        Ok(())
    }
}

/// Pages that `allocate` hands out leave the free ids: none of the run taken from position
/// `i` is free afterwards, so a page cannot be both in use and free.
pub proof fn lemma_allocated_pages_leave_freelist(ids: Seq<u64>, i: int, n: int, rest: Seq<u64>)
    requires
        strictly_sorted(ids),
        run_at(ids, i, n),
        rest == ids.subrange(0, i) + ids.subrange(i + n, ids.len() as int),
    ensures
        forall|k: int| 0 <= k < n ==> !rest.contains(#[trigger] ids[i + k]),
{
    assert forall|k: int| 0 <= k < n implies !rest.contains(#[trigger] ids[i + k]) by {
        if rest.contains(ids[i + k]) {
            let j = choose|j: int| 0 <= j < rest.len() && rest[j] == ids[i + k];
            if j < i {
                assert(rest[j] == ids[j]);
                assert(ids[j] < ids[i + k]);
            } else {
                assert(rest[j] == ids[j + n]);
                assert(ids[i + k] < ids[j + n]);
            }
        }
    }
}

} // verus!
