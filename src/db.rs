//! The database: a file image of whole pages, the authoritative meta, and the freelist
//! shared by its transactions.

use vstd::prelude::*;
use crate::errors::BoltError;
use crate::freelist::{Freelist, FreelistType};
use crate::in_bucket::InBucket;

use crate::meta::{Meta, meta_at, meta_valid, MAGIC, VERSION, META_PAGE_SIZE, PGID_NO_FREELIST};
use crate::node::Node;
use crate::page::{Page, PgId, header_of, PAGE_HEADER_SIZE};

verus! {

/// The smallest page size the store accepts.
pub const MIN_PAGE_SIZE: usize = 512;

/// The largest page size the store accepts.
pub const MAX_PAGE_SIZE: usize = 0x1000_0000;

/// Which of the valid meta records of pages 0 and 1 is authoritative: the one with the
/// higher transaction id when both are valid, else the valid one.
pub open spec fn chosen_meta(m0: Option<Meta>, m1: Option<Meta>) -> Option<Meta> {
    match (m0, m1) {
        (Some(a), Some(b)) => Some(if b.txid > a.txid { b } else { a }),
        (Some(a), None) => Some(a),
        (None, Some(b)) => Some(b),
        (None, None) => None,
    }
}

/// The meta record of meta page `slot` in the image `data`, if the page is there and its
/// record is valid.
pub open spec fn slot_meta(data: Seq<u8>, page_size: int, slot: int) -> Option<Meta> {
    let off = slot * page_size + PAGE_HEADER_SIZE;
    if off + META_PAGE_SIZE <= data.len() && meta_valid(meta_at(data, off)) {
        Some(meta_at(data, off))
    } else {
        None
    }
}

/// The image holds both meta pages, the authoritative meta `m` is in slot `txid % 2`, and
/// the other slot holds an older valid meta or none.
pub open spec fn image_consistent(data: Seq<u8>, page_size: int, m: Meta) -> bool {
    &&& data.len() >= 2 * page_size
    &&& slot_meta(data, page_size, (m.txid % 2) as int) == Some(m)
    &&& match slot_meta(data, page_size, 1 - (m.txid % 2) as int) {
        Some(o) => o.txid < m.txid,
        None => true,
    }
}

/// Reopening a consistent image selects its authoritative meta: the last one committed.
pub proof fn lemma_consistent_image_selects(data: Seq<u8>, page_size: int, m: Meta)
    requires
        image_consistent(data, page_size, m),
    ensures
        chosen_meta(slot_meta(data, page_size, 0), slot_meta(data, page_size, 1)) == Some(m),
{
    if m.txid % 2 == 0 {
        assert(slot_meta(data, page_size, 0) == Some(m));
    } else {
        assert(slot_meta(data, page_size, 1) == Some(m));
    }
}

/// Two images agree on their first two pages, where the meta pages live.
pub open spec fn meta_pages_kept(a: Seq<u8>, b: Seq<u8>, page_size: int) -> bool {
    a.len() >= 2 * page_size ==> b.len() >= 2 * page_size && b.subrange(0, 2 * page_size) == a.subrange(0, 2 * page_size)
}

/// Images that agree on their meta pages have the same meta slots.
pub proof fn lemma_kept_slots(a: Seq<u8>, b: Seq<u8>, page_size: int, slot: int)
    requires
        meta_pages_kept(a, b, page_size),
        a.len() >= 2 * page_size,
        MIN_PAGE_SIZE <= page_size,
        0 <= slot < 2,
    ensures
        slot_meta(b, page_size, slot) == slot_meta(a, page_size, slot),
{
    let off = slot * page_size + PAGE_HEADER_SIZE;
    assert(off + META_PAGE_SIZE <= 2 * page_size) by (nonlinear_arith)
        requires slot < 2, slot >= 0, page_size >= 512, off == slot * page_size + 16;
    assert(b.subrange(off, off + 64) =~= a.subrange(off, off + 64)) by {
        assert forall|j: int| 0 <= j < 64 implies #[trigger] b.subrange(off, off + 64)[j] == a.subrange(off, off + 64)[j] by {
            assert(b.subrange(0, 2 * page_size)[off + j] == a.subrange(0, 2 * page_size)[off + j]);
        }
    }
    lemma_meta_at_local(a, b, off);
}

/// The meta record at `off` depends only on the sixty-four bytes there.
pub proof fn lemma_meta_at_local(a: Seq<u8>, b: Seq<u8>, off: int)
    requires
        0 <= off,
        off + 64 <= a.len(),
        off + 64 <= b.len(),
        b.subrange(off, off + 64) == a.subrange(off, off + 64),
    ensures
        crate::meta::meta_at(b, off) == crate::meta::meta_at(a, off),
{
    assert forall|q: int, w: int| 0 <= q && 0 <= w && q + w <= 64 implies #[trigger] b.subrange(off + q, off + q + w) == a.subrange(off + q, off + q + w) by {
        assert(b.subrange(off + q, off + q + w) =~= b.subrange(off, off + 64).subrange(q, q + w));
        assert(a.subrange(off + q, off + q + w) =~= a.subrange(off, off + 64).subrange(q, q + w));
    }
    assert(b.subrange(off + 0, off + 0 + 4) == a.subrange(off + 0, off + 0 + 4));
    assert(b.subrange(off + 4, off + 4 + 4) == a.subrange(off + 4, off + 4 + 4));
    assert(b.subrange(off + 8, off + 8 + 4) == a.subrange(off + 8, off + 8 + 4));
    assert(b.subrange(off + 12, off + 12 + 4) == a.subrange(off + 12, off + 12 + 4));
    assert(b.subrange(off + 16, off + 16 + 8) == a.subrange(off + 16, off + 16 + 8));
    assert(b.subrange(off + 24, off + 24 + 8) == a.subrange(off + 24, off + 24 + 8));
    assert(b.subrange(off + 32, off + 32 + 8) == a.subrange(off + 32, off + 32 + 8));
    assert(b.subrange(off + 40, off + 40 + 8) == a.subrange(off + 40, off + 40 + 8));
    assert(b.subrange(off + 48, off + 48 + 8) == a.subrange(off + 48, off + 48 + 8));
    assert(b.subrange(off + 56, off + 56 + 8) == a.subrange(off + 56, off + 56 + 8));
}

/// Reads the meta record of meta page `slot`, if it is there and valid.
pub fn read_slot_meta(data: &[u8], page_size: usize, slot: usize) -> (r: Option<Meta>)
    requires
        slot < 2,
        page_size <= MAX_PAGE_SIZE,
    ensures
        r == slot_meta(data@, page_size as int, slot as int),
{
    proof {
        assert(slot as u64 * page_size as u64 <= 2 * 0x1000_0000) by (nonlinear_arith)
            requires slot < 2, page_size <= 0x1000_0000;
    }
    let off64: u64 = slot as u64 * page_size as u64 + PAGE_HEADER_SIZE as u64;
    if off64 + META_PAGE_SIZE as u64 > data.len() as u64 {
        return None;
    }
    let off = off64 as usize;
    let m = Meta::read_at(data, off);
    match m.validate() {
        Ok(()) => Some(m),
        Err(_) => None,
    }
}

/// Picks the authoritative meta of an image: the valid record of pages 0 and 1 with the
/// higher transaction id. Fails when neither is valid.
pub fn pick_meta(data: &[u8], page_size: usize) -> (r: Result<Meta, BoltError>)
    requires
        page_size <= MAX_PAGE_SIZE,
    ensures
        match chosen_meta(slot_meta(data@, page_size as int, 0), slot_meta(data@, page_size as int, 1)) {
            Some(m) => r == Ok::<Meta, BoltError>(m),
            None => r == Err::<Meta, BoltError>(BoltError::Invalid),
        },
{
    let m0 = read_slot_meta(data, page_size, 0);
    let m1 = read_slot_meta(data, page_size, 1);
    match (m0, m1) {
        (Some(a), Some(b)) => {
            if b.txid > a.txid {
                Ok(b)
            } else {
                Ok(a)
            }
        },
        (Some(a), None) => Ok(a),
        (None, Some(b)) => Ok(b),
        (None, None) => Err(BoltError::Invalid),
    }
}

/// Bytes a page takes with its overflow pages, by the header at its start in `data`.
pub open spec fn page_span(data: Seq<u8>, page_size: int, pgid: int) -> int {
    (header_of(data.subrange(pgid * page_size, pgid * page_size + 16)).overflow + 1) * page_size
}

/// Page `pgid` and its overflow pages lie inside `data`.
pub open spec fn page_readable(data: Seq<u8>, page_size: int, pgid: int) -> bool {
    &&& pgid * page_size + PAGE_HEADER_SIZE <= data.len()
    &&& pgid * page_size + page_span(data, page_size, pgid) <= data.len()
}

/// A header depends only on the first sixteen bytes.
pub proof fn lemma_header_local(a: Seq<u8>, b: Seq<u8>)
    requires
        a.len() >= 16,
        b.len() >= 16,
        a.subrange(0, 16) == b.subrange(0, 16),
    ensures
        header_of(a) == header_of(b),
{
    assert forall|q: int, w: int| 0 <= q && 0 <= w && q + w <= 16 implies #[trigger] a.subrange(q, q + w) == b.subrange(q, q + w) by {
        assert(a.subrange(q, q + w) =~= a.subrange(0, 16).subrange(q, q + w));
        assert(b.subrange(q, q + w) =~= b.subrange(0, 16).subrange(q, q + w));
    }
    assert(a.subrange(0int, 0int + 8int) == b.subrange(0int, 0int + 8int));
    assert(a.subrange(8int, 8int + 2int) == b.subrange(8int, 8int + 2int));
    assert(a.subrange(10int, 10int + 2int) == b.subrange(10int, 10int + 2int));
    assert(a.subrange(12int, 12int + 4int) == b.subrange(12int, 12int + 4int));
}

/// The bytes of page `pgid` with its overflow pages, and its header.
pub fn read_page(data: &[u8], page_size: usize, pgid: PgId) -> (r: Result<(Page, &[u8]), BoltError>)
    requires
        PAGE_HEADER_SIZE <= page_size <= MAX_PAGE_SIZE,
    ensures
        r matches Ok((p, b)) ==> {
            &&& b@.len() >= PAGE_HEADER_SIZE
            &&& p == header_of(b@)
            &&& b@ == data@.subrange(pgid * page_size, pgid * page_size + (p.overflow + 1) * page_size)
            &&& p == header_of(data@.subrange(pgid * page_size, pgid * page_size + 16))
        },
        r is Ok <==> page_readable(data@, page_size as int, pgid as int),
{
    let len = data.len() as u64;
    let ps = page_size as u64;
    if pgid >= len / ps {
        proof {
            assert(pgid * ps + ps > len) by (nonlinear_arith)
                requires pgid >= len / ps, ps >= 16;
            if pgid * ps + 16 <= len {
                let h = header_of(data@.subrange(pgid * ps, pgid * ps + 16));
                assert((h.overflow + 1) * ps >= ps) by (nonlinear_arith)
                    requires ps >= 16;
            }
        }
        return Err(BoltError::Unexpected("page id beyond the end of the file"));
    }
    proof {
        assert(pgid * ps < len) by (nonlinear_arith)
            requires pgid < len / ps, ps >= 16;
    }
    let off64 = pgid * ps;
    if len - off64 < PAGE_HEADER_SIZE as u64 {
        return Err(BoltError::Unexpected("page header beyond the end of the file"));
    }
    let off = off64 as usize;
    let head = Page::read_header(vstd::slice::slice_subrange(data, off, off + PAGE_HEADER_SIZE));
    proof {
        assert((head.overflow as u64 + 1) * ps <= 0x1_0000_0000 * 0x1000_0000) by (nonlinear_arith)
            requires head.overflow < 0x1_0000_0000, ps <= 0x1000_0000;
        assert((head.overflow as u64 + 1) * ps >= ps) by (nonlinear_arith)
            requires ps >= 16;
    }
    let span = (head.overflow as u64 + 1) * ps;
    if span > len - off64 {
        return Err(BoltError::Unexpected("page overflow beyond the end of the file"));
    }
    let b = vstd::slice::slice_subrange(data, off, off + span as usize);
    let p = Page::read_header(b);
    proof {
        assert(b@.subrange(0, 16) =~= data@.subrange(off as int, off + 16));
        assert(data@.subrange(off as int, off + 16).subrange(0, 16) =~= data@.subrange(off as int, off + 16));
        lemma_header_local(b@, data@.subrange(off as int, off + 16));
    }
    if p.overflow != head.overflow {
        return Err(BoltError::Unexpected("page header changed while reading"));
    }
    Ok((p, b))
}

/// Relies on `page_size::get`: the operating system's memory page size. Nothing is
/// promised of its value.
#[verifier::external_body]
fn os_page_size() -> (r: usize) {
    page_size::get()
}

/// The page size for a new database: `requested` when the store accepts it, else the
/// operating system's page size when the store accepts that, else 4096.
pub fn default_page_size(requested: usize) -> (r: usize)
    ensures
        MIN_PAGE_SIZE <= r <= MAX_PAGE_SIZE,
        MIN_PAGE_SIZE <= requested <= MAX_PAGE_SIZE ==> r == requested,
{
    if MIN_PAGE_SIZE <= requested && requested <= MAX_PAGE_SIZE {
        return requested;
    }
    let os = os_page_size();
    if MIN_PAGE_SIZE <= os && os <= MAX_PAGE_SIZE {
        os
    } else {
        4096
    }
}

/// A database held as the image of its file.
pub struct Db {
    pub page_size: usize,
    pub data: Vec<u8>,
    pub meta: Meta,
    pub freelist: Freelist,
    pub read_only: bool,
    pub writer_open: bool,
}

impl Db {
    /// The image of a new database: meta pages 0 and 1 (transactions 0 and 1), an empty
    /// freelist at page 2 and an empty root leaf at page 3.
    #[verifier::rlimit(80)]
    pub fn init(page_size: usize) -> (r: Db)
        requires
            MIN_PAGE_SIZE <= page_size <= MAX_PAGE_SIZE,
        ensures
            r.page_size == page_size,
            r.data@.len() == 4 * page_size,
            r.meta.txid == 1,
            r.meta.root.root == 3,
            r.meta.freelist == 2,
            r.meta.pgid == 4,
            r.freelist.wf(),
            !r.writer_open,
            !r.read_only,
            image_consistent(r.data@, page_size as int, r.meta),
    {
        let mut data: Vec<u8> = Vec::new();
        let first = write_initial_meta(&mut data, page_size, 0);
        let ghost d0 = data@;
        pad_to(&mut data, page_size);
        let ghost d0p = data@;
        let last = write_initial_meta(&mut data, page_size, 1);
        let ghost d1 = data@;
        pad_to(&mut data, 2 * page_size);
        let ghost d1p = data@;
        proof {
            let p0 = choose|p: Page| d0 == Seq::<u8>::empty() + crate::page::header_bytes(p) + crate::meta::meta_bytes(first);
            let p1 = choose|p: Page| d1 == d0p + crate::page::header_bytes(p) + crate::meta::meta_bytes(last);
            lemma_two_meta_pages(d0, d0p, d1, d1p, first, last, p0, p1, page_size as int);
        }
        let mut fp = Page::new(2, 0, 0, 0);
        let empty: Vec<u64> = Vec::new();
        crate::freelist::write_freelist_page(empty.as_slice(), &mut fp, &mut data);
        let ghost d2 = data@;
        proof {
            crate::meta::lemma_header_len(fp);
            assert(crate::freelist::ids_bytes(empty@) =~= Seq::<u8>::empty());
            assert(d2.subrange(0, d1p.len() as int) =~= d1p);
            lemma_prefix_kept(d1p, d2, 2 * page_size);
        }
        pad_to(&mut data, 3 * page_size);
        let ghost d2p = data@;
        proof {
            lemma_prefix_kept(d2, d2p, 2 * page_size);
        }
        let leaf = Node::new(true);
        let mut lp = Page::new(3, 0, 0, 0);
        proof {
            assert(leaf.inodes@.len() == 0);
            assert(crate::inode::data_len(leaf.inodes@, 0) == 0);
        }
        leaf.write(&mut lp, &mut data);
        let ghost d3 = data@;
        proof {
            crate::meta::lemma_header_len(lp);
            assert(crate::inode::elems_bytes(true, leaf.inodes@, 0) =~= Seq::<u8>::empty());
            assert(crate::inode::data_bytes(leaf.inodes@, 0) =~= Seq::<u8>::empty());
            assert(d3.subrange(0, d2p.len() as int) =~= d2p);
            lemma_prefix_kept(d2p, d3, 2 * page_size);
        }
        pad_to(&mut data, 4 * page_size);
        proof {
            lemma_prefix_kept(d3, data@, 2 * page_size);
            assert(meta_pages_kept(d1p, data@, page_size as int));
            lemma_kept_slots(d1p, data@, page_size as int, 0);
            lemma_kept_slots(d1p, data@, page_size as int, 1);
        }
        Db { page_size, data, meta: last, freelist: Freelist::new(), read_only: false, writer_open: false }
    }

    /// Chooses how the freelist allocates from now on; the stored form is the same.
    pub fn set_freelist_type(&mut self, kind: FreelistType)
        requires
            old(self).freelist.wf(),
        ensures
            final(self).freelist.kind == kind,
            final(self).freelist.wf(),
            final(self).freelist.ids == old(self).freelist.ids,
            final(self).freelist.pending == old(self).freelist.pending,
            final(self).meta == old(self).meta,
            final(self).data == old(self).data,
            final(self).page_size == old(self).page_size,
    {
        self.freelist.kind = kind;
    }

    /// The page size `open` uses: meta page 0's when its record is valid, else the default.
    pub open spec fn open_page_size(data: Seq<u8>, default_page_size: int) -> int {
        match slot_meta(data, default_page_size, 0) {
            Some(m0) => m0.page_size as int,
            None => default_page_size,
        }
    }

    /// The freelist page that `m` names can be read from `data`.
    pub open spec fn freelist_loadable(data: Seq<u8>, page_size: int, m: Meta) -> bool {
        m.freelist == PGID_NO_FREELIST || {
            let off = m.freelist * page_size;
            let b = data.subrange(off, off + page_span(data, page_size, m.freelist as int));
            page_readable(data, page_size, m.freelist as int) && crate::freelist::freelist_page_readable(header_of(b), b)
        }
    }

    /// Opens an image. The page size comes from meta page 0 when it is valid, else
    /// `default_page_size` is assumed; the authoritative meta is then picked from both
    /// meta pages, and the freelist read from the page it names.
    pub fn open(data: Vec<u8>, default_page_size: usize, read_only: bool) -> (r: Result<Db, BoltError>)
        requires
            MIN_PAGE_SIZE <= default_page_size <= MAX_PAGE_SIZE,
        ensures
            r matches Ok(db) ==> {
                &&& db.data@ == data@
                &&& db.freelist.wf()
                &&& !db.writer_open
                &&& db.read_only == read_only
                &&& MIN_PAGE_SIZE <= db.page_size <= MAX_PAGE_SIZE
                &&& chosen_meta(slot_meta(data@, db.page_size as int, 0), slot_meta(data@, db.page_size as int, 1)) == Some(db.meta)
                &&& db.page_size == Db::open_page_size(data@, default_page_size as int)
            },
            !(MIN_PAGE_SIZE <= Db::open_page_size(data@, default_page_size as int) <= MAX_PAGE_SIZE) ==> r is Err,
            ({
                let ps = Db::open_page_size(data@, default_page_size as int);
                MIN_PAGE_SIZE <= ps <= MAX_PAGE_SIZE ==> match chosen_meta(slot_meta(data@, ps, 0), slot_meta(data@, ps, 1)) {
                    None => r is Err && r->Err_0 == BoltError::Invalid,
                    Some(m) => Db::freelist_loadable(data@, ps, m) ==> r is Ok,
                }
            }),
    {
        let mut page_size = default_page_size;
        if let Some(m0) = read_slot_meta(data.as_slice(), default_page_size, 0) {
            let ps = m0.page_size as usize;
            if ps < MIN_PAGE_SIZE || ps > MAX_PAGE_SIZE {
                return Err(BoltError::Invalid);
            }
            page_size = ps;
        }
        let meta = pick_meta(data.as_slice(), page_size)?;
        let mut freelist = Freelist::new();
        if meta.freelist != PGID_NO_FREELIST {
            let (p, b) = read_page(data.as_slice(), page_size, meta.freelist)?;
            freelist.reload(&p, b)?;
        }
        Ok(Db { page_size, data, meta, freelist, read_only, writer_open: false })
    }
}

/// Appends meta page `txid` of a new database: root leaf at page 3, freelist at page 2,
/// high-water mark 4.
fn write_initial_meta(data: &mut Vec<u8>, page_size: usize, txid: u64) -> (r: Meta)
    requires
        MIN_PAGE_SIZE <= page_size <= MAX_PAGE_SIZE,
    ensures
        final(data)@.len() == old(data)@.len() + PAGE_HEADER_SIZE + META_PAGE_SIZE,
        exists|p: Page| final(data)@ == old(data)@ + crate::page::header_bytes(p) + crate::meta::meta_bytes(r),
        r.txid == txid && r.root.root == 3 && r.freelist == 2 && r.pgid == 4,
        meta_valid(r),
{
    let mut m = Meta {
        magic: MAGIC,
        version: VERSION,
        page_size: page_size as u32,
        flags: 0,
        root: InBucket { root: 3, sequence: 0 },
        freelist: 2,
        pgid: 4,
        txid,
        checksum: 0,
    };
    let mut p = Page::new(txid, 0, 0, 0);
    m.write(&mut p, data);
    proof {
        crate::meta::lemma_meta_bytes_len(m);
        crate::meta::lemma_checksum_round_trip(Meta { checksum: 0, ..m });
        assert(crate::meta::meta_prefix_bytes(Meta { checksum: 0, ..m }) == crate::meta::meta_prefix_bytes(m));
    }
    m
}

/// An image that starts with a meta page for `first`, padded to one page, then one for
/// `last`, padded to two pages, holds them in slots 0 and 1.
proof fn lemma_two_meta_pages(d0: Seq<u8>, d0p: Seq<u8>, d1: Seq<u8>, d1p: Seq<u8>, first: Meta, last: Meta, p0: Page, p1: Page, ps: int)
    requires
        MIN_PAGE_SIZE <= ps <= MAX_PAGE_SIZE,
        d0 == Seq::<u8>::empty() + crate::page::header_bytes(p0) + crate::meta::meta_bytes(first),
        d0p.len() == ps,
        d0p.subrange(0, d0.len() as int) == d0,
        d1 == d0p + crate::page::header_bytes(p1) + crate::meta::meta_bytes(last),
        d1p.len() == 2 * ps,
        d1p.subrange(0, d1.len() as int) == d1,
        meta_valid(first),
        meta_valid(last),
    ensures
        slot_meta(d1p, ps, 0) == Some(first),
        slot_meta(d1p, ps, 1) == Some(last),
{
    crate::meta::lemma_header_len(p0);
    crate::meta::lemma_header_len(p1);
    crate::meta::lemma_meta_bytes_len(first);
    crate::meta::lemma_meta_bytes_len(last);
    crate::meta::lemma_meta_round_trip(first, crate::page::header_bytes(p0), Seq::empty());
    assert(d0 =~= crate::page::header_bytes(p0) + crate::meta::meta_bytes(first) + Seq::<u8>::empty());
    crate::meta::lemma_meta_round_trip(last, d0p + crate::page::header_bytes(p1), Seq::empty());
    assert(d1 =~= (d0p + crate::page::header_bytes(p1)) + crate::meta::meta_bytes(last) + Seq::<u8>::empty());
    assert(d1p.subrange(16, 80) =~= d0.subrange(16, 80)) by {
        assert forall|j: int| 0 <= j < 64 implies #[trigger] d1p.subrange(16, 80)[j] == d0.subrange(16, 80)[j] by {
            assert(d1p.subrange(0, d1.len() as int)[16 + j] == d1[16 + j]);
            assert(d0p.subrange(0, d0.len() as int)[16 + j] == d0[16 + j]);
        }
    }
    lemma_meta_at_local(d0, d1p, 16);
    assert(d1p.subrange(ps + 16, ps + 80) =~= d1.subrange(ps + 16, ps + 80)) by {
        assert forall|j: int| 0 <= j < 64 implies #[trigger] d1p.subrange(ps + 16, ps + 80)[j] == d1.subrange(ps + 16, ps + 80)[j] by {
            assert(d1p.subrange(0, d1.len() as int)[ps + 16 + j] == d1[ps + 16 + j]);
        }
    }
    lemma_meta_at_local(d1, d1p, ps + 16);
}

/// Growing an image at its end keeps its first `n` bytes.
pub proof fn lemma_prefix_kept(a: Seq<u8>, b: Seq<u8>, n: int)
    requires
        0 <= n <= a.len(),
        b.len() >= a.len(),
        b.subrange(0, a.len() as int) == a || b == a,
    ensures
        b.subrange(0, n) == a.subrange(0, n),
{
    if b != a {
        assert forall|j: int| 0 <= j < n implies #[trigger] b.subrange(0, n)[j] == a.subrange(0, n)[j] by {
            assert(b.subrange(0, a.len() as int)[j] == a[j]);
        }
        assert(b.subrange(0, n) =~= a.subrange(0, n));
    }
}

/// Appends zero bytes until `data` holds `n` bytes.
pub fn pad_to(data: &mut Vec<u8>, n: usize)
    ensures
        final(data)@.len() == if old(data)@.len() >= n { old(data)@.len() } else { n as nat },
        old(data)@.len() >= n ==> final(data)@ == old(data)@,
        old(data)@.len() < n ==> final(data)@.len() == n && final(data)@.subrange(0, old(data)@.len() as int) == old(data)@,
{
    let ghost start = data@;
    while data.len() < n
        invariant
            data@.len() >= start.len(),
            data@.subrange(0, start.len() as int) == start,
            start.len() >= n ==> data@ == start,
            start.len() < n ==> data@.len() <= n,
        decreases n - data@.len(),
    {
        data.push(0);
        proof {
            assert(data@.subrange(0, start.len() as int) =~= start);
        }
    }
}

} // verus!
