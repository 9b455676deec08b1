//! Inodes: the entries of a node, and how a list of them is laid out in a page body.

use vstd::prelude::*;
use crate::codec::{field, le_bytes, le_val, push_le, read_le, lemma_pow256_facts, lemma_le_bytes_len, lemma_le_round_trip};
use crate::errors::BoltError;
use crate::keys::{compare_keys, lex_lt, lemma_lex_trans};
use crate::page::{Page, PgId, header_bytes};

verus! {

/// A key: a byte string.
pub type Key = Vec<u8>;

/// A value: a byte string.
pub type Value = Vec<u8>;

/// One entry of a node: a leaf entry (`flags`, `key`, `value`) or a branch entry (`key`,
/// child `pgid`).
#[derive(Debug, Clone, Default)]
pub struct Inode {
    pub flags: u32,
    pub pgid: PgId,
    pub key: Key,
    pub value: Value,
}

/// What an inode holds.
pub struct InodeView {
    pub flags: u32,
    pub pgid: PgId,
    pub key: Seq<u8>,
    pub value: Seq<u8>,
}

impl View for Inode {
    type V = InodeView;

    open spec fn view(&self) -> InodeView {
        InodeView { flags: self.flags, pgid: self.pgid, key: self.key@, value: self.value@ }
    }
}

/// Copies a byte slice into a new vector.
pub fn copy_bytes(v: &[u8]) -> (r: Vec<u8>)
    ensures
        r@ == v@,
{
    let mut r: Vec<u8> = Vec::with_capacity(v.len());
    let mut i: usize = 0;
    while i < v.len()
        invariant
            i <= v@.len(),
            r@ == v@.subrange(0, i as int),
        decreases v@.len() - i,
    {
        r.push(v[i]);
        i = i + 1;
        proof {
            assert(r@ =~= v@.subrange(0, i as int));
        }
    }
    proof {
        assert(r@ =~= v@);
    }
    r
}

/// Copies `v[from..to]` into a new vector.
pub fn copy_range(v: &[u8], from: usize, to: usize) -> (r: Vec<u8>)
    requires
        from <= to <= v@.len(),
    ensures
        r@ == v@.subrange(from as int, to as int),
{
    let mut r: Vec<u8> = Vec::with_capacity(to - from);
    let mut i: usize = from;
    while i < to
        invariant
            from <= i <= to <= v@.len(),
            r@ == v@.subrange(from as int, i as int),
        decreases to - i,
    {
        r.push(v[i]);
        i = i + 1;
        proof {
            assert(r@ =~= v@.subrange(from as int, i as int));
        }
    }
    r
}

impl Inode {
    pub fn new(flags: u32, pgid: PgId, key: Key, value: Value) -> (r: Inode)
        ensures
            r@ == (InodeView { flags, pgid, key: key@, value: value@ }),
    {
        Inode { flags, pgid, key, value }
    }

    pub fn flags(&self) -> (r: u32)
        ensures
            r == self.flags,
    {
        self.flags
    }

    pub fn flags_mut(&mut self) -> (r: &mut u32)
        ensures
            *r == old(self).flags,
            final(self)@ == (InodeView { flags: *final(r), ..old(self)@ }),
    {
        &mut self.flags
    }

    pub fn set_flags(&mut self, flags: u32)
        ensures
            final(self)@ == (InodeView { flags, ..old(self)@ }),
    {
        self.flags = flags;
    }

    pub fn key(&self) -> (r: &Key)
        ensures
            r@ == self.key@,
    {
        &self.key
    }

    pub fn set_key(&mut self, key: Key)
        ensures
            final(self)@ == (InodeView { key: key@, ..old(self)@ }),
    {
        self.key = key;
    }

    pub fn value(&self) -> (r: &Value)
        ensures
            r@ == self.value@,
    {
        &self.value
    }

    pub fn set_value(&mut self, value: Value)
        ensures
            final(self)@ == (InodeView { value: value@, ..old(self)@ }),
    {
        self.value = value;
    }

    pub fn pgid(&self) -> (r: PgId)
        ensures
            r == self.pgid,
    {
        self.pgid
    }

    pub fn set_pgid(&mut self, pgid: PgId)
        ensures
            final(self)@ == (InodeView { pgid, ..old(self)@ }),
    {
        self.pgid = pgid;
    }

    /// A copy with the same contents.
    pub fn duplicate(&self) -> (r: Inode)
        ensures
            r@ == self@,
    {
        Inode {
            flags: self.flags,
            pgid: self.pgid,
            key: copy_bytes(self.key.as_slice()),
            value: copy_bytes(self.value.as_slice()),
        }
    }
}

/// The keys of `s` strictly ascend.
pub open spec fn keys_sorted(s: Seq<InodeView>) -> bool {
    forall|i: int, j: int| 0 <= i < j < s.len() ==> lex_lt(#[trigger] s[i].key, #[trigger] s[j].key)
}

/// The inodes of a node, kept in ascending key order by the node's operations.
#[derive(Debug, Default)]
pub struct Inodes {
    pub inodes: Vec<Inode>,
}

impl View for Inodes {
    type V = Seq<InodeView>;

    open spec fn view(&self) -> Seq<InodeView> {
        self.inodes@.map_values(|i: Inode| i@)
    }
}

impl Inodes {
    pub fn new() -> (r: Inodes)
        ensures
            r@.len() == 0,
    {
        Inodes { inodes: Vec::new() }
    }

    pub fn len(&self) -> (r: usize)
        ensures
            r == self@.len(),
    {
        self.inodes.len()
    }

    pub fn get(&self, index: usize) -> (r: &Inode)
        requires
            index < self@.len(),
        ensures
            r@ == self@[index as int],
    {
        &self.inodes[index]
    }

    pub fn is_empty(&self) -> (r: bool)
        ensures
            r == (self@.len() == 0),
    {
        self.inodes.len() == 0
    }

    pub fn get_mut(&mut self, index: usize) -> (r: &mut Inode)
        requires
            index < old(self).inodes@.len(),
        ensures
            *r == old(self).inodes@[index as int],
            final(self).inodes@ == old(self).inodes@.update(index as int, *final(r)),
    {
        &mut self.inodes[index]
    }

    pub fn first(&self) -> (r: Option<&Inode>)
        ensures
            self@.len() == 0 ==> r is None,
            self@.len() > 0 ==> r is Some && r->Some_0@ == self@[0],
    {
        if self.inodes.len() == 0 {
            None
        } else {
            Some(&self.inodes[0])
        }
    }

    pub fn insert(&mut self, index: usize, inode: Inode)
        requires
            index <= old(self)@.len(),
        ensures
            final(self)@ == old(self)@.insert(index as int, inode@),
    {
        self.inodes.insert(index, inode);
        proof {
            assert(final(self)@ =~= old(self)@.insert(index as int, inode@));
        }
    }

    pub fn push(&mut self, inode: Inode)
        ensures
            final(self)@ == old(self)@.push(inode@),
    {
        self.inodes.push(inode);
        proof {
            assert(final(self)@ =~= old(self)@.push(inode@));
        }
    }

    pub fn remove(&mut self, index: usize)
        requires
            index < old(self)@.len(),
        ensures
            final(self)@ == old(self)@.remove(index as int),
    {
        self.inodes.remove(index);
        proof {
            assert(final(self)@ =~= old(self)@.remove(index as int));
        }
    }

    pub fn as_slice(&self) -> (r: &Vec<Inode>)
        ensures
            r@.map_values(|i: Inode| i@) == self@,
    {
        &self.inodes
    }

    /// Looks `key` up: `Ok(i)` where inode `i` has that key, else `Err(i)` with `i` the
    /// place where it would be inserted to keep the order.
    pub fn binary_search_by(&self, key: &[u8]) -> (r: Result<usize, usize>)
        requires
            keys_sorted(self@),
        ensures
            r matches Ok(i) ==> i < self@.len() && self@[i as int].key == key@,
            r matches Err(i) ==> i <= self@.len() && (forall|j: int|
                0 <= j < i ==> lex_lt(#[trigger] self@[j].key, key@)) && (forall|j: int|
                i <= j < self@.len() ==> lex_lt(key@, #[trigger] self@[j].key)),
    {
        let mut lo: usize = 0;
        let mut hi: usize = self.inodes.len();
        while lo < hi
            invariant
                lo <= hi <= self@.len(),
                hi == self.inodes@.len() || hi < self.inodes@.len(),
                keys_sorted(self@),
                forall|j: int| 0 <= j < lo ==> lex_lt(#[trigger] self@[j].key, key@),
                forall|j: int| hi <= j < self@.len() ==> lex_lt(key@, #[trigger] self@[j].key),
            decreases hi - lo,
        {
            let mid = lo + (hi - lo) / 2;
            let c = compare_keys(self.inodes[mid].key.as_slice(), key);
            proof {
                assert(self.inodes@[mid as int].key@ == self@[mid as int].key);
            }
            if c == 0 {
                return Ok(mid);
            } else if c < 0 {
                proof {
                    assert forall|j: int| 0 <= j < mid + 1 implies lex_lt(
                        #[trigger] self@[j].key,
                        key@,
                    ) by {
                        if j < mid {
                            lemma_lex_trans(self@[j].key, self@[mid as int].key, key@);
                        }
                    }
                }
                lo = mid + 1;
            } else {
                proof {
                    assert forall|j: int| mid <= j < self@.len() implies lex_lt(
                        key@,
                        #[trigger] self@[j].key,
                    ) by {
                        if j > mid {
                            lemma_lex_trans(key@, self@[mid as int].key, self@[j].key);
                        }
                    }
                }
                hi = mid;
            }
        }
        Err(lo)
    }
}

/// Total bytes of keys and values of the first `i` inodes.
pub open spec fn data_len(s: Seq<InodeView>, i: int) -> int
    decreases i,
{
    if i <= 0 {
        0
    } else {
        data_len(s, i - 1) + s[i - 1].key.len() + s[i - 1].value.len()
    }
}

/// Offset of inode `i`'s key relative to its element, for `s.len()` elements of 16 bytes.
pub open spec fn elem_pos(s: Seq<InodeView>, i: int) -> int {
    16 * (s.len() - i) + data_len(s, i)
}

/// The sixteen bytes of element `i`.
pub open spec fn elem_bytes(leaf: bool, s: Seq<InodeView>, i: int) -> Seq<u8> {
    if leaf {
        le_bytes(s[i].flags as nat, 4) + le_bytes(elem_pos(s, i) as nat, 4) + le_bytes(
            s[i].key.len(),
            4,
        ) + le_bytes(s[i].value.len(), 4)
    } else {
        le_bytes(elem_pos(s, i) as nat, 4) + le_bytes(s[i].key.len(), 4) + le_bytes(
            s[i].pgid as nat,
            8,
        )
    }
}

/// The elements of the first `i` inodes.
pub open spec fn elems_bytes(leaf: bool, s: Seq<InodeView>, i: int) -> Seq<u8>
    decreases i,
{
    if i <= 0 {
        Seq::empty()
    } else {
        elems_bytes(leaf, s, i - 1) + elem_bytes(leaf, s, i - 1)
    }
}

/// Keys and values of the first `i` inodes, each key followed by its value.
pub open spec fn data_bytes(s: Seq<InodeView>, i: int) -> Seq<u8>
    decreases i,
{
    if i <= 0 {
        Seq::empty()
    } else {
        data_bytes(s, i - 1) + s[i - 1].key + s[i - 1].value
    }
}

/// A page body: all elements, then all keys and values.
pub open spec fn body_bytes(leaf: bool, s: Seq<InodeView>) -> Seq<u8> {
    elems_bytes(leaf, s, s.len() as int) + data_bytes(s, s.len() as int)
}

/// Every offset and size of the body fits in 32 bits.
pub open spec fn body_fits(s: Seq<InodeView>) -> bool {
    16 * s.len() + data_len(s, s.len() as int) < 0x1_0000_0000
}

/// The inode that element `i` of the page `p` (header included) describes.
pub open spec fn decoded_inode(leaf: bool, p: Seq<u8>, i: int) -> InodeView {
    let e = 16 + 16 * i;
    if leaf {
        let pos = field(p, e + 4, 4) as int;
        let k = field(p, e + 8, 4) as int;
        let v = field(p, e + 12, 4) as int;
        InodeView {
            flags: field(p, e, 4) as u32,
            pgid: 0,
            key: p.subrange(e + pos, e + pos + k),
            value: p.subrange(e + pos + k, e + pos + k + v),
        }
    } else {
        let pos = field(p, e, 4) as int;
        let k = field(p, e + 4, 4) as int;
        InodeView {
            flags: 0,
            pgid: field(p, e + 8, 8) as u64,
            key: p.subrange(e + pos, e + pos + k),
            value: Seq::empty(),
        }
    }
}

/// Element `i` of page `p` lies inside the page, and so do its non-empty key and its value.
pub open spec fn element_in_bounds(leaf: bool, p: Seq<u8>, i: int) -> bool {
    let e = 16 + 16 * i;
    &&& e + 16 <= p.len()
    &&& if leaf {
        let pos = field(p, e + 4, 4) as int;
        let k = field(p, e + 8, 4) as int;
        let v = field(p, e + 12, 4) as int;
        k > 0 && e + pos + k + v <= p.len()
    } else {
        let pos = field(p, e, 4) as int;
        let k = field(p, e + 4, 4) as int;
        k > 0 && e + pos + k <= p.len()
    }
}

/// The first `n` elements of page `p` all lie inside it.
pub open spec fn elements_in_bounds(leaf: bool, p: Seq<u8>, n: int) -> bool {
    forall|i: int| 0 <= i < n ==> #[trigger] element_in_bounds(leaf, p, i)
}

/// The inodes that the first `n` elements of page `p` describe.
pub open spec fn decoded_inodes(leaf: bool, p: Seq<u8>, n: int) -> Seq<InodeView> {
    Seq::new(n as nat, |i: int| decoded_inode(leaf, p, i))
}

/// Keys and values of a prefix take no more bytes than those of a longer prefix.
pub proof fn lemma_data_len_mono(s: Seq<InodeView>, i: int, j: int)
    requires
        0 <= i <= j <= s.len(),
    ensures
        data_len(s, i) <= data_len(s, j),
        0 <= data_len(s, i),
    decreases j,
{
    if i < j {
        lemma_data_len_mono(s, i, j - 1);
    } else if i > 0 {
        lemma_data_len_mono(s, i - 1, i - 1);
    }
}

proof fn lemma_elem_bytes_len(leaf: bool, s: Seq<InodeView>, i: int)
    requires
        0 <= i < s.len(),
    ensures
        elem_bytes(leaf, s, i).len() == 16,
{
    lemma_le_bytes_len(s[i].flags as nat, 4);
    lemma_le_bytes_len(elem_pos(s, i) as nat, 4);
    lemma_le_bytes_len(s[i].key.len(), 4);
    lemma_le_bytes_len(s[i].value.len(), 4);
    lemma_le_bytes_len(s[i].pgid as nat, 8);
}

proof fn lemma_elems_bytes(leaf: bool, s: Seq<InodeView>, m: int)
    requires
        0 <= m <= s.len(),
    ensures
        elems_bytes(leaf, s, m).len() == 16 * m,
        forall|i: int|
            0 <= i < m ==> #[trigger] elems_bytes(leaf, s, m).subrange(16 * i, 16 * i + 16)
                == elem_bytes(leaf, s, i),
    decreases m,
{
    if m > 0 {
        lemma_elems_bytes(leaf, s, m - 1);
        lemma_elem_bytes_len(leaf, s, m - 1);
        let prev = elems_bytes(leaf, s, m - 1);
        let all = elems_bytes(leaf, s, m);
        assert forall|i: int| 0 <= i < m implies #[trigger] all.subrange(16 * i, 16 * i + 16)
            == elem_bytes(leaf, s, i) by {
            if i < m - 1 {
                assert(all.subrange(16 * i, 16 * i + 16) =~= prev.subrange(16 * i, 16 * i + 16));
            } else {
                assert(all.subrange(16 * i, 16 * i + 16) =~= elem_bytes(leaf, s, i));
            }
        }
    }
}

proof fn lemma_data_bytes(s: Seq<InodeView>, m: int)
    requires
        0 <= m <= s.len(),
    ensures
        data_bytes(s, m).len() == data_len(s, m),
        forall|i: int|
            0 <= i < m ==> #[trigger] data_bytes(s, m).subrange(
                data_len(s, i),
                data_len(s, i) + s[i].key.len(),
            ) == s[i].key,
        forall|i: int|
            0 <= i < m ==> #[trigger] data_bytes(s, m).subrange(
                data_len(s, i) + s[i].key.len(),
                data_len(s, i + 1),
            ) == s[i].value,
    decreases m,
{
    if m > 0 {
        lemma_data_bytes(s, m - 1);
        let prev = data_bytes(s, m - 1);
        let all = data_bytes(s, m);
        assert forall|i: int| 0 <= i < m implies #[trigger] all.subrange(
            data_len(s, i),
            data_len(s, i) + s[i].key.len(),
        ) == s[i].key by {
            lemma_data_len_mono(s, 0, i);
            assert(data_len(s, i + 1) == data_len(s, i) + s[i].key.len() + s[i].value.len());
            if i < m - 1 {
                lemma_data_len_mono(s, i + 1, m - 1);
                assert(all.subrange(data_len(s, i), data_len(s, i) + s[i].key.len())
                    =~= prev.subrange(data_len(s, i), data_len(s, i) + s[i].key.len()));
            } else {
                assert(all.subrange(data_len(s, i), data_len(s, i) + s[i].key.len()) =~= s[i].key);
            }
        }
        assert forall|i: int| 0 <= i < m implies #[trigger] all.subrange(
            data_len(s, i) + s[i].key.len(),
            data_len(s, i + 1),
        ) == s[i].value by {
            lemma_data_len_mono(s, 0, i);
            assert(data_len(s, i + 1) == data_len(s, i) + s[i].key.len() + s[i].value.len());
            if i < m - 1 {
                lemma_data_len_mono(s, i + 1, m - 1);
                assert(all.subrange(data_len(s, i) + s[i].key.len(), data_len(s, i + 1))
                    =~= prev.subrange(data_len(s, i) + s[i].key.len(), data_len(s, i + 1)));
            } else {
                assert(all.subrange(data_len(s, i) + s[i].key.len(), data_len(s, i + 1))
                    =~= s[i].value);
            }
        }
    }
}

/// Reading the fields of a sixteen-byte record placed at `e` in `p`.
proof fn lemma_record_fields(p: Seq<u8>, e: int, a: Seq<u8>, b: Seq<u8>, c: Seq<u8>, d: Seq<u8>)
    requires
        0 <= e,
        e + a.len() + b.len() + c.len() + d.len() <= p.len(),
        p.subrange(e, e + a.len() + b.len() + c.len() + d.len()) == a + b + c + d,
    ensures
        field(p, e, a.len() as int) == le_val(a),
        field(p, e + a.len(), b.len() as int) == le_val(b),
        field(p, e + a.len() + b.len(), c.len() as int) == le_val(c),
        field(p, e + a.len() + b.len() + c.len(), d.len() as int) == le_val(d),
{
    let r = a + b + c + d;
    let w = p.subrange(e, e + r.len());
    assert(p.subrange(e, e + a.len()) =~= w.subrange(0, a.len() as int));
    assert(w.subrange(0, a.len() as int) =~= a);
    let x = a.len() as int;
    let y = x + b.len();
    let z = y + c.len();
    assert(r.subrange(x, y) =~= b);
    assert(r.subrange(y, z) =~= c);
    assert(r.subrange(z, r.len() as int) =~= d);
    assert(p.subrange(e + x, e + y) =~= w.subrange(x, y));
    assert(p.subrange(e + y, e + z) =~= w.subrange(y, z));
    assert(p.subrange(e + z, e + r.len()) =~= w.subrange(z, r.len() as int));
}

/// Writing a list of inodes into a page body and reading the page back gives the same
/// inodes: same keys, values and flags in a leaf page, same keys and children in a branch
/// page.
pub proof fn lemma_inodes_round_trip(page: Page, s: Seq<InodeView>, rest: Seq<u8>)
    requires
        page.count == s.len(),
        body_fits(s),
        forall|i: int| 0 <= i < s.len() ==> (#[trigger] s[i]).key.len() > 0,
    ensures
        ({
            let leaf = page.spec_is_leaf();
            let p = header_bytes(page) + body_bytes(leaf, s) + rest;
            &&& elements_in_bounds(leaf, p, s.len() as int)
            &&& forall|i: int|
                0 <= i < s.len() ==> {
                    let d = #[trigger] decoded_inode(leaf, p, i);
                    &&& d.key == s[i].key
                    &&& leaf ==> d.flags == s[i].flags && d.value == s[i].value
                    &&& !leaf ==> d.pgid == s[i].pgid
                }
        }),
{
    let leaf = page.spec_is_leaf();
    let n = s.len() as int;
    let h = header_bytes(page);
    let el = elems_bytes(leaf, s, n);
    let da = data_bytes(s, n);
    let p = h + body_bytes(leaf, s) + rest;
    lemma_pow256_facts();
    lemma_le_bytes_len(page.id as nat, 8);
    lemma_le_bytes_len(page.flags as nat, 2);
    lemma_le_bytes_len(page.count as nat, 2);
    lemma_le_bytes_len(page.overflow as nat, 4);
    assert(h.len() == 16);
    lemma_elems_bytes(leaf, s, n);
    lemma_data_bytes(s, n);
    assert(p =~= h + el + da + rest);
    assert forall|i: int|
        #![trigger decoded_inode(leaf, p, i)]
        #![trigger element_in_bounds(leaf, p, i)]
        0 <= i < n implies {
        let d = decoded_inode(leaf, p, i);
        &&& element_in_bounds(leaf, p, i)
        &&& d.key == s[i].key
        &&& leaf ==> d.flags == s[i].flags && d.value == s[i].value
        &&& !leaf ==> d.pgid == s[i].pgid
    } by {
        let e = 16 + 16 * i;
        lemma_data_len_mono(s, i + 1, n);
        lemma_data_len_mono(s, 0, i);
        assert(p.subrange(e, e + 16) =~= el.subrange(16 * i, 16 * i + 16));
        assert(el.subrange(16 * i, 16 * i + 16) == elem_bytes(leaf, s, i));
        let pos = elem_pos(s, i);
        let kl = s[i].key.len();
        let vl = s[i].value.len();
        assert(0 <= pos < 0x1_0000_0000);
        lemma_le_round_trip(pos as nat, 4);
        lemma_le_round_trip(kl, 4);
        lemma_le_bytes_len(pos as nat, 4);
        lemma_le_bytes_len(kl, 4);
        let ds = 16 + 16 * n + data_len(s, i);
        assert(e + pos == ds);
        assert(p.subrange(ds, ds + kl) =~= da.subrange(data_len(s, i), data_len(s, i) + kl));
        if leaf {
            lemma_le_round_trip(s[i].flags as nat, 4);
            lemma_le_round_trip(vl, 4);
            lemma_le_bytes_len(s[i].flags as nat, 4);
            lemma_le_bytes_len(vl, 4);
            lemma_record_fields(
                p,
                e,
                le_bytes(s[i].flags as nat, 4),
                le_bytes(pos as nat, 4),
                le_bytes(kl, 4),
                le_bytes(vl, 4),
            );
            assert(p.subrange(ds + kl, ds + kl + vl) =~= da.subrange(
                data_len(s, i) + kl,
                data_len(s, i + 1),
            ));
        } else {
            lemma_le_round_trip(s[i].pgid as nat, 8);
            lemma_le_bytes_len(s[i].pgid as nat, 8);
            lemma_record_fields(
                p,
                e,
                le_bytes(pos as nat, 4),
                le_bytes(kl, 4),
                le_bytes(s[i].pgid as nat, 8),
                Seq::empty(),
            );
            assert(le_bytes(pos as nat, 4) + le_bytes(kl, 4) + le_bytes(s[i].pgid as nat, 8)
                + Seq::<u8>::empty() =~= elem_bytes(leaf, s, i));
        }
    }
}

/// Appends the bytes of `v`.
pub fn push_bytes(buf: &mut Vec<u8>, v: &[u8])
    ensures
        final(buf)@ == old(buf)@ + v@,
{
    let mut i: usize = 0;
    while i < v.len()
        invariant
            i <= v@.len(),
            buf@ == old(buf)@ + v@.subrange(0, i as int),
        decreases v@.len() - i,
    {
        buf.push(v[i]);
        i = i + 1;
        proof {
            assert(buf@ =~= old(buf)@ + v@.subrange(0, i as int));
        }
    }
    proof {
        assert(v@.subrange(0, v@.len() as int) =~= v@);
    }
}

/// Appends the body of a page holding `inodes`: the element records, then every key followed
/// by its value. Each element's offset is relative to the element itself. Returns the body's
/// size.
pub fn write_inode_to_page(inodes: &Inodes, page: &Page, buf: &mut Vec<u8>) -> (r: u32)
    requires
        body_fits(inodes@),
        forall|i: int| 0 <= i < inodes@.len() ==> (#[trigger] inodes@[i]).key.len() > 0,
        !page.spec_is_leaf() ==> forall|i: int|
            0 <= i < inodes@.len() ==> (#[trigger] inodes@[i]).pgid != page.id,
    ensures
        final(buf)@ == old(buf)@ + body_bytes(page.spec_is_leaf(), inodes@),
        r == 16 * inodes@.len() + data_len(inodes@, inodes@.len() as int),
{
    let leaf = page.is_leaf_page();
    let ghost s = inodes@;
    let n = inodes.inodes.len();
    let mut off: u64 = 0;
    let mut i: usize = 0;
    proof {
        lemma_pow256_facts();
    }
    while i < n
        invariant
            n == s.len(),
            s == inodes@,
            leaf == page.spec_is_leaf(),
            body_fits(s),
            i <= n,
            off == data_len(s, i as int),
            buf@ == old(buf)@ + elems_bytes(leaf, s, i as int),
        decreases n - i,
    {
        proof {
            lemma_pow256_facts();
            lemma_data_len_mono(s, i + 1, n as int);
            lemma_data_len_mono(s, 0, i as int);
            assert(inodes.inodes@[i as int]@ == s[i as int]);
        }
        let item = &inodes.inodes[i];
        let kl = item.key.len() as u64;
        let vl = item.value.len() as u64;
        let pos: u64 = 16 * ((n - i) as u64) + off;
        let ghost prev = buf@;
        if leaf {
            push_le(buf, item.flags as u64, 4);
            push_le(buf, pos, 4);
            push_le(buf, kl, 4);
            push_le(buf, vl, 4);
        } else {
            push_le(buf, pos, 4);
            push_le(buf, kl, 4);
            push_le(buf, item.pgid, 8);
        }
        proof {
            assert(pos == elem_pos(s, i as int));
            assert(buf@ =~= prev + elem_bytes(leaf, s, i as int));
            assert(elems_bytes(leaf, s, i + 1) == elems_bytes(leaf, s, i as int) + elem_bytes(leaf, s, i as int));
            assert(buf@ =~= old(buf)@ + elems_bytes(leaf, s, i + 1));
        }
        off = off + kl + vl;
        i = i + 1;
    }
    let ghost after_elems = buf@;
    let mut j: usize = 0;
    proof {
        assert(data_bytes(s, 0) =~= Seq::<u8>::empty());
        assert(buf@ =~= after_elems + data_bytes(s, 0));
    }
    while j < n
        invariant
            n == s.len(),
            s == inodes@,
            j <= n,
            buf@ == after_elems + data_bytes(s, j as int),
        decreases n - j,
    {
        proof {
            assert(inodes.inodes@[j as int]@ == s[j as int]);
        }
        let item = &inodes.inodes[j];
        push_bytes(buf, item.key.as_slice());
        push_bytes(buf, item.value.as_slice());
        proof {
            assert(buf@ =~= after_elems + data_bytes(s, j + 1));
        }
        j = j + 1;
    }
    proof {
        assert(buf@ =~= old(buf)@ + body_bytes(leaf, s));
    }
    (16 * (n as u64) + off) as u32
}

/// Reads the inodes of a page: `buf` is the whole page, `page` its header. Fails when an
/// element, key or value lies outside the page or a key is empty.
pub fn read_inode_from_page(page: &Page, buf: &[u8]) -> (r: Result<Inodes, BoltError>)
    ensures
        r is Ok <==> elements_in_bounds(page.spec_is_leaf(), buf@, page.count as int),
        r matches Ok(v) ==> v@ == decoded_inodes(page.spec_is_leaf(), buf@, page.count as int),
{
    let leaf = page.is_leaf_page();
    let n = page.count as usize;
    let len = buf.len() as u64;
    let mut out = Inodes::new();
    let mut i: usize = 0;
    proof {
        lemma_pow256_facts();
    }
    while i < n
        invariant
            n == page.count,
            leaf == page.spec_is_leaf(),
            len == buf@.len(),
            buf@.len() <= usize::MAX,
            i <= n,
            elements_in_bounds(leaf, buf@, i as int),
            out@ == decoded_inodes(leaf, buf@, i as int),
        decreases n - i,
    {
        proof {
            lemma_pow256_facts();
        }
        let e: u64 = 16 + 16 * (i as u64);
        if e + 16 > len {
            proof {
                assert(!element_in_bounds(leaf, buf@, i as int));
            }
            return Err(BoltError::Unexpected("page element lies outside the page"));
        }
        let eu = e as usize;
        let inode = if leaf {
            let flags = read_le(buf, eu, 4);
            let pos = read_le(buf, eu + 4, 4);
            let k = read_le(buf, eu + 8, 4);
            let v = read_le(buf, eu + 12, 4);
            proof {
                crate::page::lemma_le_val_fits(buf@, eu + 4, 4);
                crate::page::lemma_le_val_fits(buf@, eu + 8, 4);
                crate::page::lemma_le_val_fits(buf@, eu + 12, 4);
                crate::page::lemma_le_val_fits(buf@, eu as int, 4);
            }
            if k == 0 || e + pos + k + v > len {
                proof {
                    assert(!element_in_bounds(leaf, buf@, i as int));
                }
                return Err(BoltError::Unexpected("leaf key or value lies outside the page"));
            }
            let ks = (e + pos) as usize;
            let vs = (e + pos + k) as usize;
            let ve = (e + pos + k + v) as usize;
            Inode {
                flags: flags as u32,
                pgid: 0,
                key: copy_range(buf, ks, vs),
                value: copy_range(buf, vs, ve),
            }
        } else {
            let pos = read_le(buf, eu, 4);
            let k = read_le(buf, eu + 4, 4);
            let pgid = read_le(buf, eu + 8, 8);
            proof {
                crate::page::lemma_le_val_fits(buf@, eu as int, 4);
                crate::page::lemma_le_val_fits(buf@, eu + 4, 4);
            }
            if k == 0 || e + pos + k > len {
                proof {
                    assert(!element_in_bounds(leaf, buf@, i as int));
                }
                return Err(BoltError::Unexpected("branch key lies outside the page"));
            }
            let ks = (e + pos) as usize;
            let ke = (e + pos + k) as usize;
            Inode { flags: 0, pgid, key: copy_range(buf, ks, ke), value: Vec::new() }
        };
        proof {
            assert(inode@ == decoded_inode(leaf, buf@, i as int));
            assert(element_in_bounds(leaf, buf@, i as int));
        }
        out.push(inode);
        proof {
            assert(out@ =~= decoded_inodes(leaf, buf@, i + 1));
        }
        i = i + 1;
    }
    Ok(out)
}

/// The keys of a page written from inodes in ascending order ascend strictly: reading any
/// two elements of the page, the earlier one's key sorts first.
pub proof fn lemma_page_keys_ascend(page: Page, s: Seq<InodeView>, rest: Seq<u8>)
    requires
        page.count == s.len(),
        body_fits(s),
        keys_sorted(s),
        forall|i: int| 0 <= i < s.len() ==> (#[trigger] s[i]).key.len() > 0,
    ensures
        ({
            let leaf = page.spec_is_leaf();
            let p = header_bytes(page) + body_bytes(leaf, s) + rest;
            forall|i: int, j: int|
                0 <= i < j < s.len() ==> lex_lt(
                    #[trigger] decoded_inode(leaf, p, i).key,
                    #[trigger] decoded_inode(leaf, p, j).key,
                )
        }),
{
    lemma_inodes_round_trip(page, s, rest);
    let leaf = page.spec_is_leaf();
    let p = header_bytes(page) + body_bytes(leaf, s) + rest;
    assert forall|i: int, j: int| 0 <= i < j < s.len() implies lex_lt(
        #[trigger] decoded_inode(leaf, p, i).key,
        #[trigger] decoded_inode(leaf, p, j).key,
    ) by {
        assert(decoded_inode(leaf, p, i).key == s[i].key);
        assert(decoded_inode(leaf, p, j).key == s[j].key);
    }
}

} // verus!
