//! Byte-string keys and their lexicographic order.

use vstd::prelude::*;

verus! {

/// `a` sorts strictly before `b` in lexicographic byte order.
pub open spec fn lex_lt(a: Seq<u8>, b: Seq<u8>) -> bool
    decreases a.len(),
{
    if a.len() == 0 {
        b.len() > 0
    } else if b.len() == 0 {
        false
    } else if a[0] != b[0] {
        a[0] < b[0]
    } else {
        lex_lt(a.drop_first(), b.drop_first())
    }
}

/// `a` sorts before or equal to `b`.
pub open spec fn lex_le(a: Seq<u8>, b: Seq<u8>) -> bool {
    a == b || lex_lt(a, b)
}

pub proof fn lemma_lex_irreflexive(a: Seq<u8>)
    ensures
        !lex_lt(a, a),
    decreases a.len(),
{
    if a.len() > 0 {
        lemma_lex_irreflexive(a.drop_first());
    }
}

pub proof fn lemma_lex_trans(a: Seq<u8>, b: Seq<u8>, c: Seq<u8>)
    requires
        lex_lt(a, b),
        lex_lt(b, c),
    ensures
        lex_lt(a, c),
    decreases a.len(),
{
    if a.len() > 0 && b.len() > 0 && c.len() > 0 && a[0] == b[0] && b[0] == c[0] {
        lemma_lex_trans(a.drop_first(), b.drop_first(), c.drop_first());
    }
}

/// With equal prefixes of length `i`, the order is decided by what follows.
proof fn lemma_lex_skip(a: Seq<u8>, b: Seq<u8>, i: int)
    requires
        0 <= i <= a.len(),
        i <= b.len(),
        a.subrange(0, i) == b.subrange(0, i),
    ensures
        lex_lt(a, b) == lex_lt(a.subrange(i, a.len() as int), b.subrange(i, b.len() as int)),
    decreases i,
{
    if i > 0 {
        assert(a[0] == a.subrange(0, i)[0]);
        assert(b[0] == b.subrange(0, i)[0]);
        assert(a.drop_first().subrange(0, i - 1) =~= a.subrange(0, i).drop_first());
        assert(b.drop_first().subrange(0, i - 1) =~= b.subrange(0, i).drop_first());
        lemma_lex_skip(a.drop_first(), b.drop_first(), i - 1);
        assert(a.drop_first().subrange(i - 1, a.len() - 1) =~= a.subrange(i, a.len() as int));
        assert(b.drop_first().subrange(i - 1, b.len() - 1) =~= b.subrange(i, b.len() as int));
    } else {
        assert(a.subrange(0, a.len() as int) =~= a);
        assert(b.subrange(0, b.len() as int) =~= b);
    }
}

/// Three-way comparison: `-1` when `a` sorts first, `0` when equal, `1` when `b` sorts first.
pub fn compare_keys(a: &[u8], b: &[u8]) -> (r: i8)
    ensures
        r == -1 <==> lex_lt(a@, b@),
        r == 0 <==> a@ == b@,
        r == 1 <==> lex_lt(b@, a@),
        r == -1 || r == 0 || r == 1,
{
    let n: usize = if a.len() < b.len() {
        a.len()
    } else {
        b.len()
    };
    let mut i: usize = 0;
    while i < n
        invariant
            i <= n,
            n <= a@.len(),
            n <= b@.len(),
            n == a@.len() || n == b@.len(),
            a@.subrange(0, i as int) == b@.subrange(0, i as int),
        decreases n - i,
    {
        if a[i] != b[i] {
            proof {
                lemma_lex_skip(a@, b@, i as int);
                lemma_lex_skip(b@, a@, i as int);
                let ta = a@.subrange(i as int, a@.len() as int);
                let tb = b@.subrange(i as int, b@.len() as int);
                assert(ta[0] == a@[i as int]);
                assert(tb[0] == b@[i as int]);
                assert(a@[i as int] != b@[i as int]);
            }
            if a[i] < b[i] {
                return -1;
            } else {
                return 1;
            }
        }
        proof {
            assert(a@.subrange(0, i + 1) =~= a@.subrange(0, i as int).push(a@[i as int]));
            assert(b@.subrange(0, i + 1) =~= b@.subrange(0, i as int).push(b@[i as int]));
        }
        i = i + 1;
    }
    proof {
        lemma_lex_skip(a@, b@, n as int);
        lemma_lex_skip(b@, a@, n as int);
        let ta = a@.subrange(n as int, a@.len() as int);
        let tb = b@.subrange(n as int, b@.len() as int);
        assert(ta.len() == 0 || tb.len() == 0);
        if a@.len() == b@.len() {
            assert(a@ =~= a@.subrange(0, n as int));
            assert(b@ =~= b@.subrange(0, n as int));
        }
    }
    if a.len() < b.len() {
        -1
    } else if a.len() == b.len() {
        0
    } else {
        1
    }
}

} // verus!
