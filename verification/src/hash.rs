//! The FNV-1a hash, and hexadecimal text.

use vstd::prelude::*;

verus! {

/// The hash of no bytes.
pub const FNV_OFFSET: u64 = 0xcbf2_9ce4_8422_2325;

const FNV_PRIME: u64 = 0x100_0000_01b3;

/// The hash of the bytes hashed to `h` followed by `bytes`.
pub open spec fn fnv(h: u64, bytes: Seq<u8>) -> u64
    decreases bytes.len(),
{
    if bytes.len() == 0 {
        h
    } else {
        let before = fnv(h, bytes.drop_last());
        (((before ^ (bytes.last() as u64)) * 0x100_0000_01b3) % 0x1_0000_0000_0000_0000) as u64
    }
}

/// The hash of the bytes hashed to `hash` followed by `bytes`.
pub fn fnv1a64(hash: u64, bytes: &[u8]) -> (r: u64)
    ensures
        r == fnv(hash, bytes@),
{
    let mut h: u64 = hash;
    let mut i: usize = 0;
    while i < bytes.len()
        invariant
            i <= bytes@.len(),
            h == fnv(hash, bytes@.take(i as int)),
        decreases bytes@.len() - i,
    {
        proof {
            assert(bytes@.take(i + 1).drop_last() =~= bytes@.take(i as int));
        }
        h = (h ^ (bytes[i] as u64)).wrapping_mul(FNV_PRIME);
        i = i + 1;
    }
    assert(bytes@.take(i as int) =~= bytes@);
    h
}

/// Hashing two pieces one after the other hashes their concatenation.
pub proof fn law_fnv_pieces(h: u64, a: Seq<u8>, b: Seq<u8>)
    ensures
        fnv(fnv(h, a), b) == fnv(h, a + b),
    decreases b.len(),
{
    if b.len() == 0 {
        assert(a + b =~= a);
    } else {
        law_fnv_pieces(h, a, b.drop_last());
        assert((a + b).drop_last() =~= a + b.drop_last());
    }
}

/// The hexadecimal digit with this value.
pub open spec fn hex_digit(d: int) -> char {
    if d < 10 {
        (0x30 + d) as u8 as char
    } else {
        (0x57 + d) as u8 as char
    }
}

/// Two hexadecimal digits for each byte.
pub open spec fn hex(bytes: Seq<u8>) -> Seq<char>
    decreases bytes.len(),
{
    if bytes.len() == 0 {
        seq![]
    } else {
        hex(bytes.drop_last()) + seq![
            hex_digit(bytes.last() as int / 16),
            hex_digit(bytes.last() as int % 16),
        ]
    }
}

/// The last `n` hexadecimal digits of `v`, zeros in front.
pub open spec fn hex_padded(v: int, n: nat) -> Seq<char>
    decreases n,
{
    if n == 0 {
        seq![]
    } else {
        hex_padded(v / 16, (n - 1) as nat).push(hex_digit(v % 16))
    }
}

fn hex_char(d: u8) -> (c: char)
    requires
        d < 16,
    ensures
        c == hex_digit(d as int),
{
    if d < 10 {
        (0x30 + d) as char
    } else {
        (0x57 + d) as char
    }
}

/// Two hexadecimal digits for each byte.
pub fn hex_encode(bytes: &[u8]) -> (r: String)
    ensures
        r@ == hex(bytes@),
{
    let mut out: String = String::new();
    let mut i: usize = 0;
    while i < bytes.len()
        invariant
            i <= bytes@.len(),
            out@ == hex(bytes@.take(i as int)),
        decreases bytes@.len() - i,
    {
        let b: u8 = bytes[i];
        let ghost before = out@;
        out.push(hex_char(b / 16));
        out.push(hex_char(b % 16));
        proof {
            assert(bytes@.take(i + 1).drop_last() =~= bytes@.take(i as int));
            assert(out@ =~= before + seq![hex_digit(b as int / 16), hex_digit(b as int % 16)]);
        }
        i = i + 1;
    }
    assert(bytes@.take(i as int) =~= bytes@);
    out
}

/// Appends the last `n` hexadecimal digits of `v`.
pub fn push_hex(out: &mut String, v: u64, n: usize)
    ensures
        final(out)@ == old(out)@ + hex_padded(v as int, n as nat),
    decreases n,
{
    if n > 0 {
        push_hex(out, v / 16, n - 1);
        out.push(hex_char((v % 16) as u8));
        assert(out@ =~= old(out)@ + hex_padded(v as int, n as nat));
    } else {
        assert(out@ =~= old(out)@ + hex_padded(v as int, 0));
    }
}

/// The text is twice as long as the bytes.
pub proof fn law_hex_len(bytes: Seq<u8>)
    ensures
        hex(bytes).len() == 2 * bytes.len(),
    decreases bytes.len(),
{
    if bytes.len() > 0 {
        law_hex_len(bytes.drop_last());
    }
}

proof fn lemma_hex_digit(a: int, b: int)
    requires
        0 <= a < 16,
        0 <= b < 16,
        hex_digit(a) == hex_digit(b),
    ensures
        a == b,
{
    let x: u8 = if a < 10 {
        (0x30 + a) as u8
    } else {
        (0x57 + a) as u8
    };
    let y: u8 = if b < 10 {
        (0x30 + b) as u8
    } else {
        (0x57 + b) as u8
    };
    assert(x as char == y as char);
    assert((x as char) as u32 == x as u32);
    assert((y as char) as u32 == y as u32);
}

/// Different bytes have different texts.
pub proof fn law_hex_injective(a: Seq<u8>, b: Seq<u8>)
    requires
        hex(a) == hex(b),
    ensures
        a == b,
    decreases a.len(),
{
    law_hex_len(a);
    law_hex_len(b);
    if a.len() == 0 {
        assert(a =~= b);
    } else {
        let x = hex(a.drop_last());
        let y = hex(b.drop_last());
        law_hex_len(a.drop_last());
        law_hex_len(b.drop_last());
        let n = x.len() as int;
        assert(hex(a).take(n) =~= x);
        assert(hex(b).take(n) =~= y);
        law_hex_injective(a.drop_last(), b.drop_last());
        let p = seq![hex_digit(a.last() as int / 16), hex_digit(a.last() as int % 16)];
        let q = seq![hex_digit(b.last() as int / 16), hex_digit(b.last() as int % 16)];
        assert(hex(a) == x + p && hex(b) == y + q);
        assert((x + p)[n] == p[0] && (x + p)[n + 1] == p[1]);
        assert((y + q)[n] == q[0] && (y + q)[n + 1] == q[1]);
        lemma_hex_digit(a.last() as int / 16, b.last() as int / 16);
        lemma_hex_digit(a.last() as int % 16, b.last() as int % 16);
        assert(a.last() == b.last());
        assert(a =~= a.drop_last().push(a.last()));
        assert(b =~= b.drop_last().push(b.last()));
    }
}

/// What a hexadecimal digit is worth, in small letters.
pub open spec fn nibble(c: char) -> int {
    if 0x30 <= c as u32 <= 0x39 {
        c as u32 - 0x30
    } else if 0x61 <= c as u32 <= 0x66 {
        c as u32 - 0x57
    } else {
        -1
    }
}

proof fn lemma_nibble(d: int)
    requires
        0 <= d < 16,
    ensures
        nibble(hex_digit(d)) == d,
{
    let x: u8 = if d < 10 {
        (0x30 + d) as u8
    } else {
        (0x57 + d) as u8
    };
    assert((x as char) as u32 == x as u32);
}

/// Each byte can be read from its two digits, the higher half first.
pub proof fn law_hex_is_read(bytes: Seq<u8>, i: int)
    requires
        0 <= i < bytes.len(),
    ensures
        hex(bytes).len() == 2 * bytes.len(),
        0 <= nibble(hex(bytes)[2 * i]) && 0 <= nibble(hex(bytes)[2 * i + 1]),
        nibble(hex(bytes)[2 * i]) * 16 + nibble(hex(bytes)[2 * i + 1]) == bytes[i],
    decreases bytes.len(),
{
    law_hex_len(bytes);
    let front = bytes.drop_last();
    law_hex_len(front);
    if i < bytes.len() - 1 {
        law_hex_is_read(front, i);
        assert(hex(bytes)[2 * i] == hex(front)[2 * i]);
        assert(hex(bytes)[2 * i + 1] == hex(front)[2 * i + 1]);
    } else {
        lemma_nibble(bytes[i] as int / 16);
        lemma_nibble(bytes[i] as int % 16);
    }
}

/// What hexadecimal digits are worth, the highest first.
pub open spec fn hex_worth(s: Seq<char>) -> int
    decreases s.len(),
{
    if s.len() == 0 {
        0
    } else {
        hex_worth(s.drop_last()) * 16 + nibble(s.last())
    }
}

proof fn lemma_hex_padded(v: int, n: nat)
    requires
        0 <= v,
    ensures
        hex_padded(v, n).len() == n,
        v < sixteen_to(n) ==> hex_worth(hex_padded(v, n)) == v,
    decreases n,
{
    if n > 0 {
        let m = (n - 1) as nat;
        lemma_hex_padded(v / 16, m);
        lemma_nibble(v % 16);
        assert(hex_padded(v, n).drop_last() =~= hex_padded(v / 16, m));
        assert(v < 16 * sixteen_to(m) ==> v / 16 < sixteen_to(m));
    }
}

spec fn sixteen_to(n: nat) -> int
    decreases n,
{
    if n == 0 {
        1
    } else {
        16 * sixteen_to((n - 1) as nat)
    }
}

/// A number of 64 bits has sixteen digits that are worth it.
pub proof fn law_number_in_hex(v: u64)
    ensures
        hex_padded(v as int, 16).len() == 16,
        hex_worth(hex_padded(v as int, 16)) == v,
{
    reveal_with_fuel(sixteen_to, 17);
    lemma_hex_padded(v as int, 16);
}

/// The hash begins with what was hashed before; each byte is mixed in, and the
/// result multiplied by the prime, in 64 bits.
pub proof fn law_fnv_step(h: u64, bytes: Seq<u8>, b: u8)
    ensures
        fnv(h, seq![]) == h,
        fnv(h, bytes.push(b)) == ((fnv(h, bytes) ^ (b as u64)) * 0x100_0000_01b3)
            % 0x1_0000_0000_0000_0000,
        FNV_OFFSET == 0xcbf2_9ce4_8422_2325,
{
    assert(bytes.push(b).drop_last() =~= bytes);
}

} // verus!
