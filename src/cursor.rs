//! Cursors: positions in a bucket's entries, moved in key order.

use vstd::prelude::*;
use crate::bucket::{Bucket, is_bucket_flag, has_key};
use crate::errors::BoltError;
use crate::inode::{InodeView, copy_bytes};
use crate::keys::{lex_lt, lex_le};
use crate::page::BUCKET_LEAF_FLAG;

verus! {

/// What a cursor hands out for an entry: its key, and its value unless it is a sub-bucket.
pub type Entry = (Vec<u8>, Option<Vec<u8>>);

/// The entry at `i` of `s` as a cursor hands it out.
pub open spec fn entry_at(s: Seq<InodeView>, i: int) -> (Seq<u8>, Option<Seq<u8>>) {
    (s[i].key, if is_bucket_flag(s[i].flags) { None } else { Some(s[i].value) })
}

/// The view of a handed-out entry.
pub open spec fn entry_view(e: Entry) -> (Seq<u8>, Option<Seq<u8>>) {
    (e.0@, match e.1 {
        Some(v) => Some(v@),
        None => None,
    })
}

/// The cursor's answer after moving to `index`: the entry there, or nothing past the end.
pub open spec fn answer(b: Bucket, index: int, r: Option<Entry>) -> bool {
    if 0 <= index < b.entries().len() {
        r is Some && entry_view(r->Some_0) == entry_at(b.entries(), index)
    } else {
        r is None
    }
}

/// A position in a bucket's entries.
pub struct Cursor {
    pub index: usize,
}

/// Moving a cursor over a bucket's entries in key order.
pub trait CursorApi {
    spec fn position(&self) -> int;

    /// Moves to the first entry and returns it.
    fn first(&mut self, b: &Bucket) -> (r: Option<Entry>)
        requires
            b.wf(),
        ensures
            final(self).position() == 0,
            answer(*b, 0, r);

    /// Moves to the last entry and returns it.
    fn last(&mut self, b: &Bucket) -> (r: Option<Entry>)
        requires
            b.wf(),
        ensures
            b.entries().len() > 0 ==> final(self).position() == b.entries().len() - 1,
            answer(*b, b.entries().len() - 1, r);

    /// Moves to the next entry and returns it; at the end, stays and returns nothing.
    fn next(&mut self, b: &Bucket) -> (r: Option<Entry>)
        requires
            b.wf(),
        ensures
            old(self).position() + 1 < b.entries().len() ==> final(self).position() == old(self).position() + 1
                && answer(*b, old(self).position() + 1, r),
            old(self).position() + 1 >= b.entries().len() ==> r is None && final(self).position() == old(self).position();

    /// Moves to the previous entry and returns it; at the start, stays and returns nothing.
    fn prev(&mut self, b: &Bucket) -> (r: Option<Entry>)
        requires
            b.wf(),
        ensures
            0 < old(self).position() <= b.entries().len() ==> final(self).position() == old(self).position() - 1
                && answer(*b, old(self).position() - 1, r),
            !(0 < old(self).position() <= b.entries().len()) ==> r is None && final(self).position() == old(self).position();

    /// Moves to the first entry whose key is `key` or sorts after it, and returns it.
    fn seek(&mut self, b: &Bucket, key: &[u8]) -> (r: Option<Entry>)
        requires
            b.wf(),
        ensures
            0 <= final(self).position() <= b.entries().len(),
            forall|j: int| 0 <= j < final(self).position() ==> lex_lt(#[trigger] b.entries()[j].key, key@),
            final(self).position() < b.entries().len() ==> lex_le(key@, b.entries()[final(self).position()].key),
            answer(*b, final(self).position(), r);

    /// Deletes the entry under the cursor. Fails on a read-only transaction or when the
    /// entry is a sub-bucket.
    fn delete(&mut self, b: &mut Bucket, writable: bool) -> (r: Result<(), BoltError>)
        requires
            old(b).wf(),
        ensures
            final(b).wf(),
            final(b).header == old(b).header,
            !writable ==> r == Err::<(), BoltError>(BoltError::TxNotWritable) && final(b).entries() == old(b).entries(),
            writable && 0 <= old(self).position() < old(b).entries().len() ==> (is_bucket_flag(old(b).entries()[old(self).position()].flags)
                <==> r == Err::<(), BoltError>(BoltError::IncompatibleValue)),
            writable && 0 <= old(self).position() < old(b).entries().len() && !is_bucket_flag(old(b).entries()[old(self).position()].flags)
                ==> r is Ok && final(b).entries() == old(b).entries().remove(old(self).position()),
            writable && !(0 <= old(self).position() < old(b).entries().len()) ==> r is Ok && final(b).entries() == old(b).entries();
}

impl Cursor {
    pub fn new() -> (r: Cursor)
        ensures
            r.index == 0,
    {
        Cursor { index: 0 }
    }

    fn entry(b: &Bucket, i: usize) -> (r: Option<Entry>)
        requires
            b.wf(),
        ensures
            answer(*b, i as int, r),
    {
        if i >= b.root.inodes.len() {
            return None;
        }
        let item = b.root.inodes.get(i);
        let key = copy_bytes(item.key.as_slice());
        if item.flags & BUCKET_LEAF_FLAG != 0 {
            Some((key, None))
        } else {
            Some((key, Some(copy_bytes(item.value.as_slice()))))
        }
    }
}

impl CursorApi for Cursor {
    open spec fn position(&self) -> int {
        self.index as int
    }

    fn first(&mut self, b: &Bucket) -> (r: Option<Entry>) {
        self.index = 0;
        Cursor::entry(b, 0)
    }

    fn last(&mut self, b: &Bucket) -> (r: Option<Entry>) {
        let n = b.root.inodes.len();
        if n == 0 {
            return None;
        }
        self.index = n - 1;
        Cursor::entry(b, n - 1)
    }

    fn next(&mut self, b: &Bucket) -> (r: Option<Entry>) {
        let n = b.root.inodes.len();
        if self.index >= n || n - self.index <= 1 {
            return None;
        }
        self.index = self.index + 1;
        Cursor::entry(b, self.index)
    }

    fn prev(&mut self, b: &Bucket) -> (r: Option<Entry>) {
        let n = b.root.inodes.len();
        if self.index == 0 || self.index > n {
            return None;
        }
        self.index = self.index - 1;
        Cursor::entry(b, self.index)
    }

    fn seek(&mut self, b: &Bucket, key: &[u8]) -> (r: Option<Entry>) {
        let i = match b.root.inodes.binary_search_by(key) {
            Ok(i) => i,
            Err(i) => i,
        };
        self.index = i;
        Cursor::entry(b, i)
    }

    fn delete(&mut self, b: &mut Bucket, writable: bool) -> (r: Result<(), BoltError>) {
        if !writable {
            return Err(BoltError::TxNotWritable);
        }
        let n = b.root.inodes.len();
        if self.index >= n {
            return Ok(());
        }
        let ghost s = b.entries();
        let i = self.index;
        if b.root.inodes.get(i).flags & BUCKET_LEAF_FLAG != 0 {
            return Err(BoltError::IncompatibleValue);
        }
        let key = copy_bytes(b.root.inodes.get(i).key.as_slice());
        proof {
            b.lemma_unique_key(i as int);
            assert(has_key(s, key@));
        }
        let r = b.delete(writable, key.as_slice());
        proof {
            let j = choose|j: int| 0 <= j < s.len() && #[trigger] s[j].key == key@ && b.entries() == s.remove(j);
            assert(j == i);
        }
        r
    }
}

} // verus!
