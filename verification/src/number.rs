//! Decimal numbers in text.

use vstd::prelude::*;

verus! {

/// Whether `b` is an ASCII digit.
pub open spec fn is_digit(b: u8) -> bool {
    0x30 <= b <= 0x39
}

/// Whether `s` is made of digits, at least one.
pub open spec fn all_digits(s: Seq<u8>) -> bool {
    s.len() > 0 && forall|i: int| 0 <= i < s.len() ==> is_digit(#[trigger] s[i])
}

/// The number that the digits `s` write.
pub open spec fn digits_value(s: Seq<u8>) -> int
    decreases s.len(),
{
    if s.len() == 0 {
        0
    } else {
        digits_value(s.drop_last()) * 10 + (s.last() - 0x30)
    }
}

/// The number that `s` writes: digits, behind at most one sign.
pub open spec fn signed_value(s: Seq<u8>) -> Option<int> {
    if s.len() > 0 && (s[0] == 0x2b || s[0] == 0x2d) {
        if all_digits(s.skip(1)) {
            Some(
                if s[0] == 0x2d {
                    -digits_value(s.skip(1))
                } else {
                    digits_value(s.skip(1))
                },
            )
        } else {
            None
        }
    } else if all_digits(s) {
        Some(digits_value(s))
    } else {
        None
    }
}

/// The 32-bit signed integer that `s` writes.
pub open spec fn int32(s: Seq<u8>) -> Option<i32> {
    match signed_value(s) {
        Some(v) => if i32::MIN <= v <= i32::MAX {
            Some(v as i32)
        } else {
            None
        },
        None => None,
    }
}

/// Reads digits up to a limit: the number that `s[from..]` writes, or the
/// limit where it is larger; none where that is not a number.
fn read_digits(s: &[u8], from: usize, limit: u64) -> (r: Option<u64>)
    requires
        from <= s@.len(),
        limit <= 0xffff_ffff_ffff,
    ensures
        match r {
            Some(v) => all_digits(s@.skip(from as int)) && (if digits_value(s@.skip(from as int))
                < limit {
                v == digits_value(s@.skip(from as int))
            } else {
                v == limit
            }),
            None => !all_digits(s@.skip(from as int)),
        },
{
    let ghost t = s@.skip(from as int);
    if from >= s.len() {
        return None;
    }
    let mut v: u64 = 0;
    let mut i: usize = from;
    assert(t.take(0) =~= Seq::<u8>::empty());
    while i < s.len()
        invariant
            from <= i <= s@.len(),
            t == s@.skip(from as int),
            limit <= 0xffff_ffff_ffff,
            forall|j: int| 0 <= j < i - from ==> is_digit(#[trigger] t[j]),
            0 <= digits_value(t.take(i - from)),
            if digits_value(t.take(i - from)) < limit {
                v == digits_value(t.take(i - from))
            } else {
                v == limit
            },
        decreases s@.len() - i,
    {
        let b: u8 = s[i];
        assert(t[i - from] == b);
        if b < 0x30 || b > 0x39 {
            return None;
        }
        proof {
            assert(t.take(i - from + 1).drop_last() =~= t.take(i - from));
        }
        let next: u64 = v * 10 + (b - 0x30) as u64;
        v = if next < limit {
            next
        } else {
            limit
        };
        i = i + 1;
    }
    assert(t.take(t.len() as int) =~= t);
    Some(v)
}

/// The 32-bit signed integer that `s` writes: digits, behind at most one sign.
pub fn parse_i32(s: &[u8]) -> (r: Option<i32>)
    ensures
        r == int32(s@),
{
    let limit: u64 = 0x8000_0001;
    if s.len() > 0 && (s[0] == 0x2b || s[0] == 0x2d) {
        let v: u64 = match read_digits(s, 1, limit) {
            Some(v) => v,
            None => {
                return None;
            },
        };
        if s[0] == 0x2d {
            if v <= 0x8000_0000 {
                Some((0 - v as i64) as i32)
            } else {
                None
            }
        } else if v <= 0x7fff_ffff {
            Some(v as i32)
        } else {
            None
        }
    } else {
        assert(s@.skip(0) =~= s@);
        match read_digits(s, 0, limit) {
            Some(v) => if v <= 0x7fff_ffff {
                Some(v as i32)
            } else {
                None
            },
            None => None,
        }
    }
}

/// The decimal digit with this value.
pub open spec fn digit(d: int) -> char {
    if d == 0 {
        '0'
    } else if d == 1 {
        '1'
    } else if d == 2 {
        '2'
    } else if d == 3 {
        '3'
    } else if d == 4 {
        '4'
    } else if d == 5 {
        '5'
    } else if d == 6 {
        '6'
    } else if d == 7 {
        '7'
    } else if d == 8 {
        '8'
    } else {
        '9'
    }
}

/// The decimal digits of `n`, without leading zeros.
pub open spec fn decimal(n: nat) -> Seq<char>
    decreases n,
{
    if n < 10 {
        seq![digit(n as int)]
    } else {
        decimal(n / 10).push(digit((n % 10) as int))
    }
}

/// Appends the decimal digits of `n`.
pub fn push_decimal(out: &mut String, n: u64)
    ensures
        final(out)@ == old(out)@ + decimal(n as nat),
    decreases n,
{
    let d: u8 = (n % 10) as u8;
    let c: char = (0x30 + d) as char;
    assert(c == digit(d as int));
    if n >= 10 {
        push_decimal(out, n / 10);
        out.push(c);
        assert(out@ =~= old(out)@ + decimal((n / 10) as nat).push(c));
    } else {
        out.push(c);
        assert(out@ =~= old(out)@ + seq![c]);
    }
}

/// The 64-bit unsigned integer that `s` writes: digits, behind at most a plus
/// sign.
pub open spec fn uint64(s: Seq<u8>) -> Option<u64> {
    let digits = if s.len() > 0 && s[0] == 0x2b {
        s.skip(1)
    } else {
        s
    };
    if all_digits(digits) && digits_value(digits) <= u64::MAX {
        Some(digits_value(digits) as u64)
    } else {
        None
    }
}

/// The 64-bit unsigned integer that `s` writes.
pub fn parse_u64(s: &[u8]) -> (r: Option<u64>)
    ensures
        r == uint64(s@),
{
    let from: usize = if s.len() > 0 && s[0] == 0x2b {
        1
    } else {
        0
    };
    let ghost t = s@.skip(from as int);
    assert(s@.skip(0) =~= s@);
    if from >= s.len() {
        return None;
    }
    let mut v: u128 = 0;
    let mut i: usize = from;
    assert(t.take(0) =~= Seq::<u8>::empty());
    while i < s.len()
        invariant
            from <= i <= s@.len(),
            t == s@.skip(from as int),
            uint64(s@) == (if all_digits(t) && digits_value(t) <= u64::MAX {
                Some(digits_value(t) as u64)
            } else {
                None
            }),
            forall|j: int| 0 <= j < i - from ==> is_digit(#[trigger] t[j]),
            0 <= digits_value(t.take(i - from)),
            if digits_value(t.take(i - from)) <= u64::MAX {
                v == digits_value(t.take(i - from))
            } else {
                v == 0x1_0000_0000_0000_0000
            },
        decreases s@.len() - i,
    {
        let b: u8 = s[i];
        assert(t[i - from] == b);
        if b < 0x30 || b > 0x39 {
            return None;
        }
        proof {
            assert(t.take(i - from + 1).drop_last() =~= t.take(i - from));
        }
        let next: u128 = v * 10 + (b - 0x30) as u128;
        v = if next <= 0xffff_ffff_ffff_ffff {
            next
        } else {
            0x1_0000_0000_0000_0000
        };
        i = i + 1;
    }
    assert(t.take(t.len() as int) =~= t);
    if v <= 0xffff_ffff_ffff_ffff {
        Some(v as u64)
    } else {
        None
    }
}

/// The decimal digits of a number.
pub open spec fn digits_of(n: nat) -> Seq<u8>
    decreases n,
{
    if n < 10 {
        seq![(0x30 + n) as u8]
    } else {
        digits_of(n / 10).push((0x30 + n % 10) as u8)
    }
}

/// Digits that are written are worth the number.
pub proof fn lemma_digits_of(n: nat)
    ensures
        all_digits(digits_of(n)),
        digits_value(digits_of(n)) == n,
    decreases n,
{
    let s = digits_of(n);
    if n < 10 {
        assert(s.drop_last() =~= Seq::<u8>::empty());
        assert(digits_value(s.drop_last()) == 0);
        assert(s.last() == 0x30 + n);
    } else {
        lemma_digits_of(n / 10);
        assert(s.drop_last() =~= digits_of(n / 10));
        assert(s.last() == 0x30 + n % 10);
        assert forall|i: int| 0 <= i < s.len() implies is_digit(#[trigger] s[i]) by {
            if i < s.len() - 1 {
                assert(s[i] == digits_of(n / 10)[i]);
            }
        }
    }
}

proof fn lemma_digit_char(d: int)
    requires
        0 <= d <= 9,
    ensures
        digit(d) as u32 == 0x30 + d,
{
}

/// A number is written in digits, highest first, and read from them as itself,
/// with a plus sign in front or without; one that is too large, or anything that
/// is not digits, is none.
pub proof fn law_numbers_are_read(n: nat, s: Seq<u8>, k: int)
    ensures
        n <= u64::MAX ==> uint64(digits_of(n)) == Some(n as u64),
        n <= u64::MAX ==> uint64(seq![0x2bu8] + digits_of(n)) == Some(n as u64),
        n > u64::MAX ==> uint64(digits_of(n)) is None,
        s.len() == 0 ==> uint64(s) is None,
        0 <= k < s.len() && !(0x30 <= s[k] <= 0x39) && !(k == 0 && s[0] == 0x2b) ==> uint64(
            s,
        ) is None,
        s.len() == 1 && s[0] == 0x2b ==> uint64(s) is None,
        decimal(n).len() == digits_of(n).len(),
        forall|i: int| 0 <= i < decimal(n).len() ==> #[trigger] decimal(n)[i] as u32 == digits_of(n)[i],
    decreases n,
{
    lemma_digits_of(n);
    let d = digits_of(n);
    assert(is_digit(d[0]));
    assert((seq![0x2bu8] + d).skip(1) =~= d);
    if 0 <= k < s.len() && !(0x30 <= s[k] <= 0x39) && !(k == 0 && s[0] == 0x2b) {
        if s[0] == 0x2b {
            assert(s.skip(1)[k - 1] == s[k]);
            assert(!is_digit(s.skip(1)[k - 1]));
        } else {
            assert(!is_digit(s[k]));
        }
    }
    if n < 10 {
        lemma_digit_char(n as int);
    } else {
        law_numbers_are_read(n / 10, s, k);
        lemma_digit_char((n % 10) as int);
        assert forall|i: int| 0 <= i < decimal(n).len() implies #[trigger] decimal(n)[i] as u32
            == digits_of(n)[i] by {
            if i < decimal(n).len() - 1 {
                assert(decimal(n)[i] == decimal(n / 10)[i]);
                assert(digits_of(n)[i] == digits_of(n / 10)[i]);
            }
        }
    }
}

} // verus!
