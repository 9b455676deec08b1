//! Little-endian fixed-width integers inside byte sequences.

use vstd::prelude::*;

verus! {

/// `256` raised to `n`.
pub open spec fn pow256(n: nat) -> nat
    decreases n,
{
    if n == 0 {
        1
    } else {
        256 * pow256((n - 1) as nat)
    }
}

/// The number that the bytes `s` denote, least significant byte first.
pub open spec fn le_val(s: Seq<u8>) -> nat
    decreases s.len(),
{
    if s.len() == 0 {
        0
    } else {
        s[0] as nat + 256 * le_val(s.drop_first())
    }
}

/// The `n` least significant bytes of `v`, least significant first.
pub open spec fn le_bytes(v: nat, n: nat) -> Seq<u8>
    decreases n,
{
    if n == 0 {
        Seq::empty()
    } else {
        seq![(v % 256) as u8] + le_bytes(v / 256, (n - 1) as nat)
    }
}

/// The value of the `n`-byte little-endian field at offset `off` of `s`.
pub open spec fn field(s: Seq<u8>, off: int, n: int) -> nat {
    le_val(s.subrange(off, off + n))
}

pub proof fn lemma_pow256_facts()
    ensures
        pow256(0) == 1,
        pow256(1) == 0x100,
        pow256(2) == 0x1_0000,
        pow256(4) == 0x1_0000_0000,
        pow256(8) == 0x1_0000_0000_0000_0000,
{
    reveal_with_fuel(pow256, 9);
}

pub proof fn lemma_pow256_mono(a: nat, b: nat)
    requires
        a <= b,
    ensures
        pow256(a) <= pow256(b),
    decreases b,
{
    if a < b {
        lemma_pow256_mono(a, (b - 1) as nat);
    }
}

pub proof fn lemma_le_bytes_len(v: nat, n: nat)
    ensures
        le_bytes(v, n).len() == n,
    decreases n,
{
    if n > 0 {
        lemma_le_bytes_len(v / 256, (n - 1) as nat);
    }
}

pub proof fn lemma_le_val_bound(s: Seq<u8>)
    ensures
        le_val(s) < pow256(s.len()),
    decreases s.len(),
{
    if s.len() > 0 {
        lemma_le_val_bound(s.drop_first());
        let r = le_val(s.drop_first());
        let p = pow256((s.len() - 1) as nat);
        assert(s[0] as nat + 256 * r < 256 * p) by (nonlinear_arith)
            requires
                r < p,
                s[0] < 256,
        ;
    }
}

/// Decoding the bytes of a value that fits in `n` bytes gives the value back.
pub proof fn lemma_le_round_trip(v: nat, n: nat)
    requires
        v < pow256(n),
    ensures
        le_val(le_bytes(v, n)) == v,
    decreases n,
{
    lemma_le_bytes_len(v, n);
    if n > 0 {
        let p = pow256((n - 1) as nat);
        assert(v / 256 < p) by (nonlinear_arith)
            requires
                v < 256 * p,
        ;
        lemma_le_round_trip(v / 256, (n - 1) as nat);
        let b = le_bytes(v, n);
        assert(b.drop_first() =~= le_bytes(v / 256, (n - 1) as nat));
        assert(v % 256 + 256 * (v / 256) == v) by (nonlinear_arith);
    } else {
        assert(v == 0);
    }
}

/// The field of width `b.len()` that starts where `a` ends in `a + b + c` is `le_val(b)`.
pub proof fn lemma_field_of_concat(a: Seq<u8>, b: Seq<u8>, c: Seq<u8>)
    ensures
        field(a + b + c, a.len() as int, b.len() as int) == le_val(b),
{
    assert((a + b + c).subrange(a.len() as int, (a.len() + b.len()) as int) =~= b);
}

/// Appends the `n` low bytes of `v`, least significant first.
pub fn push_le(buf: &mut Vec<u8>, v: u64, n: usize)
    requires
        n <= 8,
        v < pow256(n as nat),
    ensures
        final(buf)@ == old(buf)@ + le_bytes(v as nat, n as nat),
{
    let mut x: u64 = v;
    let mut i: usize = 0;
    while i < n
        invariant
            i <= n,
            old(buf)@ + le_bytes(v as nat, n as nat) == buf@ + le_bytes(x as nat, (n - i) as nat),
        decreases n - i,
    {
        let ghost prev = buf@;
        buf.push((x % 256) as u8);
        assert(le_bytes(x as nat, (n - i) as nat) == seq![(x % 256) as u8] + le_bytes(
            (x / 256) as nat,
            (n - i - 1) as nat,
        ));
        assert(buf@ + le_bytes((x / 256) as nat, (n - i - 1) as nat) =~= prev + le_bytes(
            x as nat,
            (n - i) as nat,
        ));
        x = x / 256;
        i = i + 1;
    }
    assert(le_bytes(x as nat, 0) =~= Seq::<u8>::empty());
    assert(buf@ + Seq::<u8>::empty() =~= buf@);
}

/// Reads the `n`-byte little-endian field at `off`.
pub fn read_le(s: &[u8], off: usize, n: usize) -> (r: u64)
    requires
        n <= 8,
        off + n <= s@.len(),
    ensures
        r as nat == field(s@, off as int, n as int),
{
    let mut acc: u64 = 0;
    let mut i: usize = n;
    proof {
        assert(s@.subrange(off + n, off + n) =~= Seq::<u8>::empty());
    }
    while i > 0
        invariant
            i <= n <= 8,
            off + n <= s.len(),
            acc as nat == le_val(s@.subrange(off + i, off + n)),
        decreases i,
    {
        let ghost tail = s@.subrange(off + i, off + n);
        let ghost whole = s@.subrange(off + i - 1, off + n);
        proof {
            assert(whole.drop_first() =~= tail);
            lemma_le_val_bound(tail);
            lemma_pow256_mono((n - i) as nat, (8 - 1) as nat);
            lemma_pow256_facts();
            reveal_with_fuel(pow256, 9);
            assert(acc * 256 + s@[off + i - 1] < 0x1_0000_0000_0000_0000) by (nonlinear_arith)
                requires
                    acc < 0x100_0000_0000_0000,
                    s@[off + i - 1] < 256,
            ;
        }
        acc = acc * 256 + s[off + (i - 1)] as u64;
        i = i - 1;
    }
    acc
}

} // verus!
