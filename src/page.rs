//! The fixed-size page: its header, its element records, and lists of page ids.

use vstd::prelude::*;
use crate::codec::{field, le_bytes, push_le, read_le, pow256, lemma_pow256_facts, lemma_le_bytes_len, lemma_le_round_trip, lemma_field_of_concat};
use crate::errors::BoltError;
use crate::fmt::{digits, append_digits};
use vstd::string::StringExecFns;

verus! {

/// A page id: the page's index in the file.
pub type PgId = u64;

/// Bytes of the page header: id, flags, count, overflow.
pub const PAGE_HEADER_SIZE: usize = 16;

/// Bytes of one branch element: offset, key size, child page id.
pub const BRANCH_PAGE_ELEMENT_SIZE: usize = 16;

/// Bytes of one leaf element: flags, offset, key size, value size.
pub const LEAF_PAGE_ELEMENT_SIZE: usize = 16;

/// Bytes of one page id in a freelist body.
pub const PGID_SIZE: usize = 8;

/// The fewest inodes a node keeps after a split.
pub const MIN_KEYS_PER_PAGE: usize = 2;

/// Header flag of a branch page.
pub const BRANCH_PAGE_FLAG: u16 = 0x01;

/// Header flag of a leaf page.
pub const LEAF_PAGE_FLAG: u16 = 0x02;

/// Header flag of a meta page.
pub const META_PAGE_FLAG: u16 = 0x04;

/// Header flag of a freelist page.
pub const FREELIST_PAGE_FLAG: u16 = 0x10;

/// Element flag of a leaf entry whose value is a sub-bucket.
pub const BUCKET_LEAF_FLAG: u32 = 0x01;

/// A count of `0xFFFF` in a freelist header means the real count is in the body.
pub const FREELIST_OVERFLOW_COUNT: u16 = 0xFFFF;

/// The header of a page: `id:u64, flags:u16, count:u16, overflow:u32`.
#[derive(Debug, Clone, Copy, PartialEq, Eq)]
pub struct Page {
    pub id: PgId,
    pub flags: u16,
    pub count: u16,
    pub overflow: u32,
}

/// The sixteen bytes of a page header.
pub open spec fn header_bytes(p: Page) -> Seq<u8> {
    le_bytes(p.id as nat, 8) + le_bytes(p.flags as nat, 2) + le_bytes(p.count as nat, 2)
        + le_bytes(p.overflow as nat, 4)
}

/// The header that the first sixteen bytes of `s` hold.
pub open spec fn header_of(s: Seq<u8>) -> Page {
    Page {
        id: field(s, 0, 8) as u64,
        flags: field(s, 8, 2) as u16,
        count: field(s, 10, 2) as u16,
        overflow: field(s, 12, 4) as u32,
    }
}

impl Default for Page {
    fn default() -> (r: Page)
        ensures
            r == (Page { id: 0, flags: BRANCH_PAGE_FLAG, count: 0, overflow: 0 }),
    {
        Page { id: 0, flags: BRANCH_PAGE_FLAG, count: 0, overflow: 0 }
    }
}

impl Page {
    pub fn new(id: PgId, flags: u16, count: u16, overflow: u32) -> (r: Page)
        ensures
            r == (Page { id, flags, count, overflow }),
    {
        Page { id, flags, count, overflow }
    }

    pub open spec fn spec_is_branch(&self) -> bool {
        self.flags == BRANCH_PAGE_FLAG
    }

    pub open spec fn spec_is_leaf(&self) -> bool {
        self.flags & LEAF_PAGE_FLAG != 0
    }

    pub open spec fn spec_is_meta(&self) -> bool {
        self.flags & META_PAGE_FLAG != 0
    }

    pub open spec fn spec_is_freelist(&self) -> bool {
        self.flags & FREELIST_PAGE_FLAG != 0
    }

    /// A branch page has exactly the branch flag.
    pub fn is_branch_page(&self) -> (r: bool)
        ensures
            r == self.spec_is_branch(),
    {
        self.flags == BRANCH_PAGE_FLAG
    }

    pub fn is_leaf_page(&self) -> (r: bool)
        ensures
            r == self.spec_is_leaf(),
    {
        self.flags & LEAF_PAGE_FLAG != 0
    }

    pub fn is_meta_page(&self) -> (r: bool)
        ensures
            r == self.spec_is_meta(),
    {
        self.flags & META_PAGE_FLAG != 0
    }

    pub fn is_freelist_page(&self) -> (r: bool)
        ensures
            r == self.spec_is_freelist(),
    {
        self.flags & FREELIST_PAGE_FLAG != 0
    }

    pub fn id(&self) -> (r: PgId)
        ensures
            r == self.id,
    {
        self.id
    }

    pub fn set_id(&mut self, target: PgId)
        ensures
            *final(self) == (Page { id: target, ..*old(self) }),
    {
        self.id = target;
    }

    pub fn flags(&self) -> (r: u16)
        ensures
            r == self.flags,
    {
        self.flags
    }

    pub fn set_flags(&mut self, flags: u16)
        ensures
            *final(self) == (Page { flags, ..*old(self) }),
    {
        self.flags = flags;
    }

    pub fn count(&self) -> (r: u16)
        ensures
            r == self.count,
    {
        self.count
    }

    pub fn set_count(&mut self, count: u16)
        ensures
            *final(self) == (Page { count, ..*old(self) }),
    {
        self.count = count;
    }

    pub fn overflow(&self) -> (r: u32)
        ensures
            r == self.overflow,
    {
        self.overflow
    }

    pub fn set_overflow(&mut self, overflow: u32)
        ensures
            *final(self) == (Page { overflow, ..*old(self) }),
    {
        self.overflow = overflow;
    }

    /// The name of the page's kind.
    pub open spec fn type_text(&self) -> Seq<char> {
        if self.spec_is_branch() {
            "branch"@
        } else if self.spec_is_leaf() {
            "leaf"@
        } else if self.spec_is_meta() {
            "meta"@
        } else if self.spec_is_freelist() {
            "freelist"@
        } else {
            "unknown<"@ + digits(self.flags as nat, 16) + ">"@
        }
    }

    /// The name of the page's kind: `branch`, `leaf`, `meta`, `freelist`, or
    /// `unknown<flags in hex>`.
    pub fn typ(&self) -> (r: String)
        ensures
            r@ == self.type_text(),
    {
        proof {
            reveal_strlit("branch");
            reveal_strlit("leaf");
            reveal_strlit("meta");
            reveal_strlit("freelist");
            reveal_strlit("unknown<");
            reveal_strlit(">");
        }
        if self.is_branch_page() {
            String::from_str("branch")
        } else if self.is_leaf_page() {
            String::from_str("leaf")
        } else if self.is_meta_page() {
            String::from_str("meta")
        } else if self.is_freelist_page() {
            String::from_str("freelist")
        } else {
            let mut s = String::from_str("unknown<");
            append_digits(&mut s, self.flags as u64, 16);
            s.append(">");
            s
        }
    }

    /// `ID: <id>, Type: <kind>, count: <count>, overflow: <overflow>`.
    pub fn to_string(&self) -> (r: String)
        ensures
            r@ == "ID: "@ + digits(self.id as nat, 10) + ", Type: "@ + self.type_text() + ", count: "@
                + digits(self.count as nat, 10) + ", overflow: "@ + digits(self.overflow as nat, 10),
    {
        let mut s = String::from_str("ID: ");
        append_digits(&mut s, self.id, 10);
        s.append(", Type: ");
        let t = self.typ();
        s.append(t.as_str());
        s.append(", count: ");
        append_digits(&mut s, self.count as u64, 10);
        s.append(", overflow: ");
        append_digits(&mut s, self.overflow as u64, 10);
        s
    }

    /// The bytes the page uses: the header, then for a branch or leaf page up to the end of
    /// the last element's data, for a meta page the meta record, for a freelist page its
    /// ids. `buf` is the whole page. Fails on an unknown kind or elements outside `buf`.
    pub fn byte_size(&self, buf: &[u8]) -> (r: Result<usize, BoltError>)
        ensures
            self.flags == BRANCH_PAGE_FLAG && self.count > 0 && r is Ok ==> {
                let e = 16 + 16 * (self.count - 1);
                r->Ok_0 == e + field(buf@, e, 4) + field(buf@, e + 4, 4)
            },
            self.flags == LEAF_PAGE_FLAG && self.count > 0 && r is Ok ==> {
                let e = 16 + 16 * (self.count - 1);
                r->Ok_0 == e + field(buf@, e + 4, 4) + field(buf@, e + 8, 4) + field(buf@, e + 12, 4)
            },
            (self.flags == BRANCH_PAGE_FLAG || self.flags == LEAF_PAGE_FLAG) && self.count == 0 ==> r == Ok::<usize, BoltError>(PAGE_HEADER_SIZE),
            (self.flags == BRANCH_PAGE_FLAG || self.flags == LEAF_PAGE_FLAG) && self.count > 0 && 16 + 16 * self.count > buf@.len() ==> r is Err,
            self.flags == META_PAGE_FLAG ==> r == Ok::<usize, BoltError>((PAGE_HEADER_SIZE + 64) as usize),
            self.flags == FREELIST_PAGE_FLAG ==> r == Ok::<usize, BoltError>((PAGE_HEADER_SIZE + 8 * self.count) as usize),
            self.flags != BRANCH_PAGE_FLAG && self.flags != LEAF_PAGE_FLAG && self.flags != META_PAGE_FLAG
                && self.flags != FREELIST_PAGE_FLAG ==> r is Err,
    {
        let n = self.count as usize;
        if self.flags == BRANCH_PAGE_FLAG || self.flags == LEAF_PAGE_FLAG {
            if n == 0 {
                return Ok(PAGE_HEADER_SIZE);
            }
            let e = PAGE_HEADER_SIZE + 16 * (n - 1);
            if e + 16 > buf.len() {
                return Err(BoltError::Unexpected("page elements lie outside the page"));
            }
            proof {
                lemma_pow256_facts();
            }
            let total: u64 = if self.flags == BRANCH_PAGE_FLAG {
                let pos = read_le(buf, e, 4);
                let k = read_le(buf, e + 4, 4);
                proof {
                    lemma_le_val_fits(buf@, e as int, 4);
                    lemma_le_val_fits(buf@, e + 4, 4);
                }
                e as u64 + pos + k
            } else {
                let pos = read_le(buf, e + 4, 4);
                let k = read_le(buf, e + 8, 4);
                let v = read_le(buf, e + 12, 4);
                proof {
                    lemma_le_val_fits(buf@, e + 4, 4);
                    lemma_le_val_fits(buf@, e + 8, 4);
                    lemma_le_val_fits(buf@, e + 12, 4);
                }
                e as u64 + pos + k + v
            };
            if total > usize::MAX as u64 {
                return Err(BoltError::Unexpected("page size overflows"));
            }
            Ok(total as usize)
        } else if self.flags == META_PAGE_FLAG {
            Ok(PAGE_HEADER_SIZE + 64)
        } else if self.flags == FREELIST_PAGE_FLAG {
            Ok(PAGE_HEADER_SIZE + 8 * n)
        } else {
            Err(BoltError::Unexpected("unknown page flags"))
        }
    }

    /// Element `index` of a leaf page whose bytes are `buf`.
    pub fn leaf_page_element(&self, buf: &[u8], index: usize) -> (r: Result<LeafPageElement, BoltError>)
        ensures
            r is Ok <==> index < self.count && 16 + 16 * (index + 1) <= buf@.len(),
            r matches Ok(e) ==> e == (LeafPageElement {
                flags: field(buf@, 16 + 16 * index, 4) as u32,
                pos: field(buf@, 16 + 16 * index + 4, 4) as u32,
                ksize: field(buf@, 16 + 16 * index + 8, 4) as u32,
                vsize: field(buf@, 16 + 16 * index + 12, 4) as u32,
            }),
    {
        if index >= self.count as usize || index >= (buf.len() / 16) || buf.len() / 16 - index < 2 {
            proof {
                assert(!(index < self.count && 16 + 16 * (index + 1) <= buf@.len())) by (nonlinear_arith)
                    requires index >= self.count || index >= buf@.len() / 16 || buf@.len() / 16 - index < 2;
            }
            return Err(BoltError::Unexpected("no such leaf element"));
        }
        proof {
            assert(16 + 16 * (index + 1) <= buf@.len()) by (nonlinear_arith)
                requires buf@.len() / 16 - index >= 2, index < buf@.len() / 16;
            lemma_pow256_facts();
        }
        let e = 16 + 16 * index;
        proof {
            lemma_le_val_fits(buf@, e as int, 4);
            lemma_le_val_fits(buf@, e + 4, 4);
            lemma_le_val_fits(buf@, e + 8, 4);
            lemma_le_val_fits(buf@, e + 12, 4);
        }
        Ok(LeafPageElement {
            flags: read_le(buf, e, 4) as u32,
            pos: read_le(buf, e + 4, 4) as u32,
            ksize: read_le(buf, e + 8, 4) as u32,
            vsize: read_le(buf, e + 12, 4) as u32,
        })
    }

    /// Element `index` of a branch page whose bytes are `buf`.
    pub fn branch_page_element(&self, buf: &[u8], index: usize) -> (r: Result<BranchPageElement, BoltError>)
        ensures
            r is Ok <==> index < self.count && 16 + 16 * (index + 1) <= buf@.len(),
            r matches Ok(e) ==> e == (BranchPageElement {
                pos: field(buf@, 16 + 16 * index, 4) as u32,
                ksize: field(buf@, 16 + 16 * index + 4, 4) as u32,
                pgid: field(buf@, 16 + 16 * index + 8, 8) as u64,
            }),
    {
        if index >= self.count as usize || index >= (buf.len() / 16) || buf.len() / 16 - index < 2 {
            proof {
                assert(!(index < self.count && 16 + 16 * (index + 1) <= buf@.len())) by (nonlinear_arith)
                    requires index >= self.count || index >= buf@.len() / 16 || buf@.len() / 16 - index < 2;
            }
            return Err(BoltError::Unexpected("no such branch element"));
        }
        proof {
            assert(16 + 16 * (index + 1) <= buf@.len()) by (nonlinear_arith)
                requires buf@.len() / 16 - index >= 2, index < buf@.len() / 16;
            lemma_pow256_facts();
        }
        let e = 16 + 16 * index;
        proof {
            lemma_le_val_fits(buf@, e as int, 4);
            lemma_le_val_fits(buf@, e + 4, 4);
        }
        Ok(BranchPageElement {
            pos: read_le(buf, e, 4) as u32,
            ksize: read_le(buf, e + 4, 4) as u32,
            pgid: read_le(buf, e + 8, 8),
        })
    }

    /// Size of one element record of this page's kind.
    pub fn page_element_size(&self) -> (r: usize)
        ensures
            r == if self.spec_is_leaf() { LEAF_PAGE_ELEMENT_SIZE } else { BRANCH_PAGE_ELEMENT_SIZE },
    {
        if self.is_leaf_page() {
            LEAF_PAGE_ELEMENT_SIZE
        } else {
            BRANCH_PAGE_ELEMENT_SIZE
        }
    }

    /// Checks that the page is the one expected at `id` and has a known kind.
    pub fn fast_check(&self, id: PgId) -> (r: Result<(), BoltError>)
        ensures
            r is Ok <==> self.id == id && (self.spec_is_meta() || self.spec_is_branch()
                || self.spec_is_leaf() || self.spec_is_freelist()),
    {
        if self.id != id {
            return Err(BoltError::Unexpected("page id does not match its place in the file"));
        }
        if self.is_meta_page() || self.is_branch_page() || self.is_leaf_page()
            || self.is_freelist_page() {
            Ok(())
        } else {
            Err(BoltError::Unexpected("page has an unexpected type"))
        }
    }

    /// Appends the sixteen header bytes.
    pub fn write_header(&self, buf: &mut Vec<u8>)
        ensures
            final(buf)@ == old(buf)@ + header_bytes(*self),
    {
        proof {
            lemma_pow256_facts();
        }
        push_le(buf, self.id, 8);
        push_le(buf, self.flags as u64, 2);
        push_le(buf, self.count as u64, 2);
        push_le(buf, self.overflow as u64, 4);
        proof {
            assert(final(buf)@ =~= old(buf)@ + header_bytes(*self));
        }
    }

    /// Reads the header at the start of `buf`.
    pub fn read_header(buf: &[u8]) -> (r: Page)
        requires
            buf@.len() >= PAGE_HEADER_SIZE,
        ensures
            r == header_of(buf@),
    {
        proof {
            lemma_pow256_facts();
            lemma_le_val_fits(buf@, 8, 2);
            lemma_le_val_fits(buf@, 10, 2);
            lemma_le_val_fits(buf@, 12, 4);
        }
        let id = read_le(buf, 0, 8);
        let flags = read_le(buf, 8, 2);
        let count = read_le(buf, 10, 2);
        let overflow = read_le(buf, 12, 4);
        Page { id, flags: flags as u16, count: count as u16, overflow: overflow as u32 }
    }

    /// The freelist body's shape: `(0, count)` for a plain body, `(1, n)` when the count
    /// overflowed and the first id slot of `buf` (the whole page) holds the real count `n`.
    pub fn freelist_page_count(&self, buf: &[u8]) -> (r: Result<(usize, usize), BoltError>)
        ensures
            !self.spec_is_freelist() ==> r is Err,
            self.spec_is_freelist() && self.count != FREELIST_OVERFLOW_COUNT ==> r == Ok::<
                (usize, usize),
                BoltError,
            >((0usize, self.count as usize)),
            self.spec_is_freelist() && self.count == FREELIST_OVERFLOW_COUNT ==> (r is Ok
                <==> buf@.len() >= 24 && field(buf@, 16, 8) <= usize::MAX) && (r is Ok ==> r->Ok_0 == (
                1usize,
                field(buf@, 16, 8) as usize,
            )),
    {
        if !self.is_freelist_page() {
            return Err(BoltError::Unexpected("not a freelist page"));
        }
        if self.count == FREELIST_OVERFLOW_COUNT {
            if buf.len() < PAGE_HEADER_SIZE + PGID_SIZE {
                return Err(BoltError::Unexpected("freelist page too short for its count"));
            }
            let n = read_le(buf, PAGE_HEADER_SIZE, PGID_SIZE);
            if n > usize::MAX as u64 {
                return Err(BoltError::Unexpected("leading element count overflows usize"));
            }
            return Ok((1, n as usize));
        }
        Ok((0, self.count as usize))
    }
}

/// One element of a branch page: where its key starts (relative to the element), the key's
/// size, and the child page.
#[derive(Debug, Clone, Copy, PartialEq, Eq, Default)]
pub struct BranchPageElement {
    pub pos: u32,
    pub ksize: u32,
    pub pgid: PgId,
}

impl BranchPageElement {
    pub fn pos(&self) -> (r: u32)
        ensures
            r == self.pos,
    {
        self.pos
    }

    pub fn set_pos(&mut self, pos: u32)
        ensures
            *final(self) == (BranchPageElement { pos, ..*old(self) }),
    {
        self.pos = pos;
    }

    pub fn ksize(&self) -> (r: u32)
        ensures
            r == self.ksize,
    {
        self.ksize
    }

    pub fn set_ksize(&mut self, size: u32)
        ensures
            *final(self) == (BranchPageElement { ksize: size, ..*old(self) }),
    {
        self.ksize = size;
    }

    pub fn pgid(&self) -> (r: PgId)
        ensures
            r == self.pgid,
    {
        self.pgid
    }

    pub fn set_pgid(&mut self, v: PgId)
        ensures
            *final(self) == (BranchPageElement { pgid: v, ..*old(self) }),
    {
        self.pgid = v;
    }

    /// Appends the element's sixteen bytes.
    pub fn write(&self, buf: &mut Vec<u8>)
        ensures
            final(buf)@ == old(buf)@ + le_bytes(self.pos as nat, 4) + le_bytes(self.ksize as nat, 4)
                + le_bytes(self.pgid as nat, 8),
    {
        proof {
            lemma_pow256_facts();
        }
        push_le(buf, self.pos as u64, 4);
        push_le(buf, self.ksize as u64, 4);
        push_le(buf, self.pgid, 8);
        proof {
            assert(final(buf)@ =~= old(buf)@ + le_bytes(self.pos as nat, 4) + le_bytes(self.ksize as nat, 4)
                + le_bytes(self.pgid as nat, 8));
        }
    }
}

/// One element of a leaf page: its flags, where its key starts (relative to the element),
/// and the sizes of key and value, which follow each other.
#[derive(Debug, Clone, Copy, PartialEq, Eq, Default)]
pub struct LeafPageElement {
    pub flags: u32,
    pub pos: u32,
    pub ksize: u32,
    pub vsize: u32,
}

impl LeafPageElement {
    pub fn new(flags: u32, pos: u32, ksize: u32, vsize: u32) -> (r: LeafPageElement)
        ensures
            r == (LeafPageElement { flags, pos, ksize, vsize }),
    {
        LeafPageElement { flags, pos, ksize, vsize }
    }

    pub fn set_ksize(&mut self, len: u32)
        ensures
            *final(self) == (LeafPageElement { ksize: len, ..*old(self) }),
    {
        self.ksize = len;
    }

    pub fn set_vsize(&mut self, len: u32)
        ensures
            *final(self) == (LeafPageElement { vsize: len, ..*old(self) }),
    {
        self.vsize = len;
    }

    pub fn flags(&self) -> (r: u32)
        ensures
            r == self.flags,
    {
        self.flags
    }

    pub fn set_flags(&mut self, flags: u32)
        ensures
            *final(self) == (LeafPageElement { flags, ..*old(self) }),
    {
        self.flags = flags;
    }

    pub fn pos(&self) -> (r: u32)
        ensures
            r == self.pos,
    {
        self.pos
    }

    pub fn set_pos(&mut self, pos: u32)
        ensures
            *final(self) == (LeafPageElement { pos, ..*old(self) }),
    {
        self.pos = pos;
    }

    /// Appends the element's sixteen bytes.
    pub fn write(&self, buf: &mut Vec<u8>)
        ensures
            final(buf)@ == old(buf)@ + le_bytes(self.flags as nat, 4) + le_bytes(self.pos as nat, 4)
                + le_bytes(self.ksize as nat, 4) + le_bytes(self.vsize as nat, 4),
    {
        proof {
            lemma_pow256_facts();
        }
        push_le(buf, self.flags as u64, 4);
        push_le(buf, self.pos as u64, 4);
        push_le(buf, self.ksize as u64, 4);
        push_le(buf, self.vsize as u64, 4);
        proof {
            assert(final(buf)@ =~= old(buf)@ + le_bytes(self.flags as nat, 4) + le_bytes(self.pos as nat, 4)
                + le_bytes(self.ksize as nat, 4) + le_bytes(self.vsize as nat, 4));
        }
    }

    /// The entry's value is a sub-bucket.
    pub fn is_bucket_entry(&self) -> (r: bool)
        ensures
            r == (self.flags & BUCKET_LEAF_FLAG != 0),
    {
        self.flags & BUCKET_LEAF_FLAG != 0
    }
}

/// A field of `n` bytes is below `256^n`.
pub proof fn lemma_le_val_fits(s: Seq<u8>, off: int, n: int)
    requires
        0 <= off,
        0 <= n,
        off + n <= s.len(),
    ensures
        field(s, off, n) < pow256(n as nat),
{
    crate::codec::lemma_le_val_bound(s.subrange(off, off + n));
}

/// The header read back from its own bytes is the header written.
pub proof fn lemma_header_round_trip(p: Page, rest: Seq<u8>)
    ensures
        header_of(header_bytes(p) + rest) == p,
{
    lemma_pow256_facts();
    let a = le_bytes(p.id as nat, 8);
    let b = le_bytes(p.flags as nat, 2);
    let c = le_bytes(p.count as nat, 2);
    let d = le_bytes(p.overflow as nat, 4);
    lemma_le_bytes_len(p.id as nat, 8);
    lemma_le_bytes_len(p.flags as nat, 2);
    lemma_le_bytes_len(p.count as nat, 2);
    lemma_le_bytes_len(p.overflow as nat, 4);
    lemma_le_round_trip(p.id as nat, 8);
    lemma_le_round_trip(p.flags as nat, 2);
    lemma_le_round_trip(p.count as nat, 2);
    lemma_le_round_trip(p.overflow as nat, 4);
    let s = header_bytes(p) + rest;
    lemma_field_of_concat(Seq::empty(), a, b + c + d + rest);
    assert(s =~= Seq::<u8>::empty() + a + (b + c + d + rest));
    lemma_field_of_concat(a, b, c + d + rest);
    assert(s =~= a + b + (c + d + rest));
    lemma_field_of_concat(a + b, c, d + rest);
    assert(s =~= (a + b) + c + (d + rest));
    lemma_field_of_concat(a + b + c, d, rest);
    assert(s =~= (a + b + c) + d + rest);
}

/// What a page holds, described for inspection.
#[derive(Debug, Default, Clone, Copy, PartialEq, Eq)]
pub struct PageInfo {
    pub id: u64,
    pub typ: u16,
    pub count: usize,
    pub overflow_count: usize,
}

impl PageInfo {
    pub fn new() -> (r: PageInfo)
        ensures
            r == (PageInfo { id: 0, typ: 0, count: 0, overflow_count: 0 }),
    {
        PageInfo { id: 0, typ: 0, count: 0, overflow_count: 0 }
    }

    pub fn id(&self) -> (r: u64)
        ensures
            r == self.id,
    {
        self.id
    }

    pub fn typ(&self) -> (r: u16)
        ensures
            r == self.typ,
    {
        self.typ
    }

    pub fn count(&self) -> (r: usize)
        ensures
            r == self.count,
    {
        self.count
    }

    pub fn overflow_count(&self) -> (r: usize)
        ensures
            r == self.overflow_count,
    {
        self.overflow_count
    }

    pub fn set_id(&mut self, id: u64)
        ensures
            *final(self) == (PageInfo { id, ..*old(self) }),
    {
        self.id = id;
    }

    pub fn set_typ(&mut self, typ: u16)
        ensures
            *final(self) == (PageInfo { typ, ..*old(self) }),
    {
        self.typ = typ;
    }

    pub fn set_count(&mut self, count: usize)
        ensures
            *final(self) == (PageInfo { count, ..*old(self) }),
    {
        self.count = count;
    }

    pub fn set_overflow_count(&mut self, overflow_count: usize)
        ensures
            *final(self) == (PageInfo { overflow_count, ..*old(self) }),
    {
        self.overflow_count = overflow_count;
    }

    pub fn id_mut(&mut self) -> (r: &mut u64)
        ensures
            *r == old(self).id,
            *final(self) == (PageInfo { id: *final(r), ..*old(self) }),
    {
        &mut self.id
    }

    pub fn typ_mut(&mut self) -> (r: &mut u16)
        ensures
            *r == old(self).typ,
            *final(self) == (PageInfo { typ: *final(r), ..*old(self) }),
    {
        &mut self.typ
    }

    pub fn count_mut(&mut self) -> (r: &mut usize)
        ensures
            *r == old(self).count,
            *final(self) == (PageInfo { count: *final(r), ..*old(self) }),
    {
        &mut self.count
    }

    pub fn overflow_count_mut(&mut self) -> (r: &mut usize)
        ensures
            *r == old(self).overflow_count,
            *final(self) == (PageInfo { overflow_count: *final(r), ..*old(self) }),
    {
        &mut self.overflow_count
    }
}

/// The bytes of a page, owned.
#[derive(Debug, Clone, PartialEq, Eq)]
pub struct OwnedPage {
    pub page: Vec<u8>,
}

impl OwnedPage {
    /// `size` zero bytes.
    pub fn new(size: usize) -> (r: OwnedPage)
        ensures
            r.page@ == Seq::new(size as nat, |i: int| 0u8),
    {
        let mut page: Vec<u8> = Vec::new();
        let mut i: usize = 0;
        while i < size
            invariant
                i <= size,
                page@ == Seq::new(i as nat, |j: int| 0u8),
            decreases size - i,
        {
            page.push(0);
            i = i + 1;
            proof {
                assert(page@ =~= Seq::new(i as nat, |j: int| 0u8));
            }
        }
        OwnedPage { page }
    }

    pub fn from_vec(buf: Vec<u8>) -> (r: OwnedPage)
        ensures
            r.page@ == buf@,
    {
        OwnedPage { page: buf }
    }

    /// Sets aside room for `size` more bytes.
    pub fn reserve(&mut self, size: usize)
        ensures
            final(self).page@ == old(self).page@,
    {
        self.page.reserve(size);
    }

    pub fn buf(&self) -> (r: &[u8])
        ensures
            r@ == self.page@,
    {
        self.page.as_slice()
    }

    pub fn buf_mut(&mut self) -> (r: &mut Vec<u8>)
        ensures
            *r == old(self).page,
            final(self).page == *final(r),
    {
        &mut self.page
    }

    pub fn size(&self) -> (r: usize)
        ensures
            r == self.page@.len(),
    {
        self.page.len()
    }

    /// The page's header.
    pub fn header(&self) -> (r: Result<Page, BoltError>)
        ensures
            r is Ok <==> self.page@.len() >= PAGE_HEADER_SIZE,
            r matches Ok(p) ==> p == header_of(self.page@),
    {
        if self.page.len() < PAGE_HEADER_SIZE {
            return Err(BoltError::Unexpected("page shorter than its header"));
        }
        Ok(Page::read_header(self.page.as_slice()))
    }
}

} // verus!
