//! Little-endian integers in byte sequences.

use vstd::prelude::*;

verus! {

/// 256 to the power of `n`.
pub open spec fn pow256(n: nat) -> int
    decreases n,
{
    if n == 0 {
        1
    } else {
        256 * pow256((n - 1) as nat)
    }
}

/// The lowest `n` bytes of `v`, lowest first.
pub open spec fn le(v: int, n: nat) -> Seq<u8>
    decreases n,
{
    if n == 0 {
        seq![]
    } else {
        seq![(v % 256) as u8] + le(v / 256, (n - 1) as nat)
    }
}

/// The number that the bytes `s` write, lowest first.
pub open spec fn value(s: Seq<u8>) -> int
    decreases s.len(),
{
    if s.len() == 0 {
        0
    } else {
        s[0] + 256 * value(s.skip(1))
    }
}

pub proof fn lemma_le_len(v: int, n: nat)
    ensures
        le(v, n).len() == n,
    decreases n,
{
    if n > 0 {
        lemma_le_len(v / 256, (n - 1) as nat);
    }
}

/// Reading what was written gives the number back.
pub proof fn lemma_value_le(v: int, n: nat)
    requires
        0 <= v < pow256(n),
    ensures
        value(le(v, n)) == v,
        le(v, n).len() == n,
    decreases n,
{
    lemma_le_len(v, n);
    if n > 0 {
        let m = (n - 1) as nat;
        assert(v / 256 < pow256(m)) by (nonlinear_arith)
            requires
                v < 256 * pow256(m),
        ;
        lemma_value_le(v / 256, m);
        assert(le(v, n).skip(1) =~= le(v / 256, m));
    }
}

/// A number of `n` bytes is less than 256 to the power of `n`.
pub proof fn lemma_value_bound(s: Seq<u8>)
    ensures
        0 <= value(s) < pow256(s.len()),
    decreases s.len(),
{
    if s.len() > 0 {
        lemma_value_bound(s.skip(1));
    }
}

pub proof fn lemma_pow256()
    ensures
        pow256(2) == 0x1_0000,
        pow256(4) == 0x1_0000_0000,
        pow256(8) == 0x1_0000_0000_0000_0000,
{
    reveal_with_fuel(pow256, 9);
}

proof fn lemma_pow256_mono(a: nat, b: nat)
    requires
        a <= b,
    ensures
        0 < pow256(a) <= pow256(b),
    decreases b,
{
    if a < b {
        lemma_pow256_mono(a, (b - 1) as nat);
    } else if a > 0 {
        lemma_pow256_mono((a - 1) as nat, (a - 1) as nat);
    }
}

/// Appends the lowest `n` bytes of `v`, lowest first.
pub fn put_le(buf: &mut Vec<u8>, v: u64, n: usize)
    ensures
        final(buf)@ == old(buf)@ + le(v as int, n as nat),
{
    let mut rest: u64 = v;
    let mut k: usize = 0;
    assert(buf@ + le(v as int, n as nat) =~= old(buf)@ + le(v as int, n as nat));
    while k < n
        invariant
            k <= n,
            buf@ + le(rest as int, (n - k) as nat) == old(buf)@ + le(v as int, n as nat),
        decreases n - k,
    {
        let b: u8 = (rest % 256) as u8;
        let ghost before = buf@;
        buf.push(b);
        proof {
            let tail = le(rest as int / 256, (n - k - 1) as nat);
            assert(before + (seq![b] + tail) =~= buf@ + tail);
        }
        rest = rest / 256;
        k = k + 1;
    }
    assert(buf@ + le(rest as int, 0) =~= buf@);
}

/// Reads the `n` bytes at `from`.
pub fn get_le(s: &[u8], from: usize, n: usize) -> (v: u64)
    requires
        n <= 8,
        from + n <= s@.len(),
    ensures
        v == value(s@.subrange(from as int, from + n)),
        v < pow256(n as nat),
{
    let total: usize = s.len();
    let mut v: u64 = 0;
    let mut k: usize = n;
    assert(s@.subrange(from + n, from + n) =~= Seq::<u8>::empty());
    while k > 0
        invariant
            k <= n <= 8,
            from + n <= s@.len() == total,
            v == value(s@.subrange(from + k, from + n)),
            v < pow256((n - k) as nat),
        decreases k,
    {
        k = k - 1;
        let b: u8 = s[from + k];
        proof {
            let part = s@.subrange(from + k, from + n);
            assert(part.skip(1) =~= s@.subrange(from + k + 1, from + n));
            lemma_pow256_mono((n - k) as nat, 8);
            lemma_pow256();
            lemma_value_bound(part);
        }
        v = v * 256 + b as u64;
    }
    v
}

} // verus!
