//! Lists of page ids, and the sorted forms the freelist keeps them in.

use vstd::prelude::*;
use crate::page::PgId;

verus! {

broadcast use vstd::seq_lib::group_to_multiset_ensures;

/// The ids ascend, repeats allowed.
pub open spec fn sorted(s: Seq<u64>) -> bool {
    forall|i: int, j: int| 0 <= i < j < s.len() ==> #[trigger] s[i] <= #[trigger] s[j]
}

/// The ids strictly ascend.
pub open spec fn strictly_sorted(s: Seq<u64>) -> bool {
    forall|i: int, j: int| 0 <= i < j < s.len() ==> #[trigger] s[i] < #[trigger] s[j]
}

/// Inserts `x` into the ascending `v`, after any equal ids.
pub fn insert_sorted(v: &mut Vec<u64>, x: u64)
    requires
        sorted(old(v)@),
    ensures
        sorted(final(v)@),
        final(v)@.to_multiset() == old(v)@.to_multiset().insert(x),
        final(v)@.len() == old(v)@.len() + 1,
{
    let mut i: usize = 0;
    while i < v.len() && v[i] <= x
        invariant
            i <= v@.len(),
            v@ == old(v)@,
            forall|j: int| 0 <= j < i ==> #[trigger] v@[j] <= x,
        decreases v@.len() - i,
    {
        i = i + 1;
    }
    let ghost s = v@;
    v.insert(i, x);
    proof {
        assert(v@ == s.insert(i as int, x));
        vstd::seq_lib::to_multiset_insert(s, i as int, x);
        assert forall|a: int, b: int| 0 <= a < b < v@.len() implies #[trigger] v@[a] <= #[trigger] v@[b] by {
            if b < i {
            } else if b == i {
            } else if a < i {
                assert(v@[b] == s[b - 1]);
                assert(s[i as int] > x);
            } else if a == i {
                assert(s[i as int] > x);
                assert(v@[b] == s[b - 1]);
            } else {
                assert(v@[a] == s[a - 1]);
                assert(v@[b] == s[b - 1]);
            }
        }
    }
}

/// Inserts `x` into the strictly ascending `v` unless it is already there.
pub fn insert_unique(v: &mut Vec<u64>, x: u64)
    requires
        strictly_sorted(old(v)@),
    ensures
        strictly_sorted(final(v)@),
        final(v)@.to_set() == old(v)@.to_set().insert(x),
        old(v)@.contains(x) ==> final(v)@ == old(v)@,
        forall|c: int| 0 <= c < final(v)@.len() ==> #[trigger] final(v)@[c] == x || old(v)@.contains(final(v)@[c]),
{
    let mut i: usize = 0;
    while i < v.len() && v[i] < x
        invariant
            i <= v@.len(),
            v@ == old(v)@,
            forall|j: int| 0 <= j < i ==> #[trigger] v@[j] < x,
        decreases v@.len() - i,
    {
        i = i + 1;
    }
    if i < v.len() && v[i] == x {
        proof {
            assert(v@.to_set() =~= v@.to_set().insert(x));
        }
        return;
    }
    let ghost s = v@;
    proof {
        assert(!s.contains(x)) by {
            if s.contains(x) {
                let k = choose|k: int| 0 <= k < s.len() && s[k] == x;
                if k >= i {
                    assert(s[i as int] >= x);
                    if k > i {
                        assert(s[i as int] < s[k]);
                    }
                }
            }
        }
    }
    v.insert(i, x);
    proof {
        assert(v@ == s.insert(i as int, x));
        assert forall|a: int, b: int| 0 <= a < b < v@.len() implies #[trigger] v@[a] < #[trigger] v@[b] by {
            if b < i {
            } else if b == i {
            } else if a < i {
                assert(v@[b] == s[b - 1]);
                assert(s[i as int] > x);
            } else if a == i {
                assert(s[i as int] > x);
                assert(v@[b] == s[b - 1]);
            } else {
                assert(v@[a] == s[a - 1]);
                assert(v@[b] == s[b - 1]);
            }
        }
        assert forall|y: u64| v@.to_set().contains(y) <==> s.to_set().insert(x).contains(y) by {
            if v@.contains(y) {
                let k = choose|k: int| 0 <= k < v@.len() && v@[k] == y;
                if k < i {
                    assert(s[k] == y);
                } else if k > i {
                    assert(s[k - 1] == y);
                }
            }
            if s.contains(y) {
                let k = choose|k: int| 0 <= k < s.len() && s[k] == y;
                if k < i {
                    assert(v@[k] == y);
                } else {
                    assert(v@[k + 1] == y);
                }
            }
            if y == x {
                assert(v@[i as int] == x);
            }
        }
        assert(v@.to_set() =~= s.to_set().insert(x));
        assert forall|c: int| 0 <= c < v@.len() implies #[trigger] v@[c] == x || s.contains(v@[c]) by {
            if c < i {
                assert(v@[c] == s[c]);
            } else if c > i {
                assert(v@[c] == s[c - 1]);
            }
        }
    }
}

/// Appending `x` adds `x` to the set of ids.
pub proof fn lemma_push_to_set(s: Seq<u64>, x: u64)
    ensures
        s.push(x).to_set() == s.to_set().insert(x),
{
    let t = s.push(x);
    assert forall|y: u64| t.to_set().contains(y) <==> s.to_set().insert(x).contains(y) by {
        if t.contains(y) {
            let k = choose|k: int| 0 <= k < t.len() && t[k] == y;
            if k < s.len() {
                assert(s[k] == y);
            }
        }
        if s.contains(y) {
            let k = choose|k: int| 0 <= k < s.len() && s[k] == y;
            assert(t[k] == y);
        }
        if y == x {
            assert(t[s.len() as int] == x);
        }
    }
    assert(t.to_set() =~= s.to_set().insert(x));
}

/// A list of page ids.
#[derive(Debug, Clone, Default, PartialEq, Eq)]
pub struct PgIds {
    pub pgids: Vec<PgId>,
}

impl View for PgIds {
    type V = Seq<PgId>;

    open spec fn view(&self) -> Seq<PgId> {
        self.pgids@
    }
}

impl From<Vec<PgId>> for PgIds {
    fn from(v: Vec<PgId>) -> (r: PgIds)
        ensures
            r@ == v@,
    {
        PgIds { pgids: v }
    }
}

impl vstd::std_specs::convert::FromSpecImpl<Vec<PgId>> for PgIds {
    open spec fn obeys_from_spec() -> bool {
        true
    }

    open spec fn from_spec(v: Vec<PgId>) -> PgIds {
        PgIds { pgids: v }
    }
}

impl PgIds {
    pub fn new() -> (r: PgIds)
        ensures
            r@.len() == 0,
    {
        PgIds { pgids: Vec::new() }
    }

    pub fn len(&self) -> (r: usize)
        ensures
            r == self@.len(),
    {
        self.pgids.len()
    }

    pub fn is_empty(&self) -> (r: bool)
        ensures
            r == (self@.len() == 0),
    {
        self.pgids.len() == 0
    }

    pub fn push(&mut self, pgid: PgId)
        ensures
            final(self)@ == old(self)@.push(pgid),
    {
        self.pgids.push(pgid);
    }

    pub fn to_vec(self) -> (r: Vec<PgId>)
        ensures
            r@ == self@,
    {
        self.pgids
    }

    pub fn as_slice(&self) -> (r: &Vec<PgId>)
        ensures
            r@ == self@,
    {
        &self.pgids
    }

    pub fn as_ref_vec(&self) -> (r: &Vec<PgId>)
        ensures
            r@ == self@,
    {
        &self.pgids
    }

    /// Sorts the ids in ascending order, keeping repeats.
    pub fn sort(&mut self)
        ensures
            sorted(final(self)@),
            final(self)@.to_multiset() == old(self)@.to_multiset(),
    {
        let mut out: Vec<PgId> = Vec::new();
        let mut i: usize = 0;
        while i < self.pgids.len()
            invariant
                i <= self@.len(),
                self@ == old(self)@,
                sorted(out@),
                out@.to_multiset() == self@.subrange(0, i as int).to_multiset(),
            decreases self@.len() - i,
        {
            insert_sorted(&mut out, self.pgids[i]);
            proof {
                assert(self@.subrange(0, i + 1) =~= self@.subrange(0, i as int).push(self@[i as int]));
            }
            i = i + 1;
        }
        proof {
            assert(self@.subrange(0, self@.len() as int) =~= self@);
        }
        self.pgids = out;
    }

    /// Removes the ids at `[start, end)` and returns them.
    pub fn drain(&mut self, start: usize, end: usize) -> (r: Vec<PgId>)
        requires
            start <= end <= old(self)@.len(),
        ensures
            r@ == old(self)@.subrange(start as int, end as int),
            final(self)@ == old(self)@.subrange(0, start as int) + old(self)@.subrange(
                end as int,
                old(self)@.len() as int,
            ),
    {
        let mut taken: Vec<PgId> = Vec::new();
        let mut kept: Vec<PgId> = Vec::new();
        let mut i: usize = 0;
        while i < self.pgids.len()
            invariant
                i <= self@.len(),
                self@ == old(self)@,
                start <= end <= self@.len(),
                taken@ == self@.subrange(start as int, if i < start { start as int } else if i < end { i as int } else { end as int }),
                kept@ == self@.subrange(0, if i < start { i as int } else { start as int })
                    + self@.subrange(end as int, if i < end { end as int } else { i as int }),
            decreases self@.len() - i,
        {
            let x = self.pgids[i];
            if i >= start && i < end {
                taken.push(x);
            } else {
                kept.push(x);
            }
            proof {
                let j = (i + 1) as int;
                assert(taken@ =~= self@.subrange(start as int, if j < start { start as int } else if j < end { j } else { end as int }));
                assert(kept@ =~= self@.subrange(0, if j < start { j } else { start as int })
                    + self@.subrange(end as int, if j < end { end as int } else { j }));
            }
            i = i + 1;
        }
        self.pgids = kept;
        taken
    }

    /// Merges `other` in: the ids become the ascending ids of both lists, each once.
    pub fn extend_from_slice(&mut self, other: PgIds)
        ensures
            strictly_sorted(final(self)@),
            final(self)@.to_set() == old(self)@.to_set() + other@.to_set(),
    {
        let mut out: Vec<PgId> = Vec::new();
        let mut i: usize = 0;
        proof {
            assert(out@.to_set() =~= Set::<u64>::empty());
            assert(self@.subrange(0, 0).to_set() =~= Set::<u64>::empty());
        }
        while i < self.pgids.len()
            invariant
                i <= self@.len(),
                self@ == old(self)@,
                strictly_sorted(out@),
                out@.to_set() == self@.subrange(0, i as int).to_set(),
            decreases self@.len() - i,
        {
            insert_unique(&mut out, self.pgids[i]);
            proof {
                assert(self@.subrange(0, i + 1) =~= self@.subrange(0, i as int).push(self@[i as int]));
                lemma_push_to_set(self@.subrange(0, i as int), self@[i as int]);
            }
            i = i + 1;
        }
        let mut j: usize = 0;
        proof {
            assert(self@.subrange(0, self@.len() as int) =~= self@);
            assert(other@.subrange(0, 0).to_set() =~= Set::<u64>::empty());
            assert(out@.to_set() =~= old(self)@.to_set() + other@.subrange(0, 0).to_set());
        }
        while j < other.pgids.len()
            invariant
                j <= other@.len(),
                self@ == old(self)@,
                strictly_sorted(out@),
                out@.to_set() == old(self)@.to_set() + other@.subrange(0, j as int).to_set(),
            decreases other@.len() - j,
        {
            insert_unique(&mut out, other.pgids[j]);
            proof {
                assert(other@.subrange(0, j + 1) =~= other@.subrange(0, j as int).push(other@[j as int]));
                lemma_push_to_set(other@.subrange(0, j as int), other@[j as int]);
                assert(out@.to_set() =~= old(self)@.to_set() + other@.subrange(0, j + 1).to_set());
            }
            j = j + 1;
        }
        proof {
            assert(other@.subrange(0, other@.len() as int) =~= other@);
        }
        self.pgids = out;
    }
}

} // verus!
