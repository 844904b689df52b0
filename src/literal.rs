use vstd::prelude::*;
use crate::report::Error;

verus! {

/// The escape table: the byte that `\c` stands for, if `c` is an escape.
pub open spec fn escape_spec(c: u8) -> Option<u8> {
    if c == 0x40 {
        Some(0u8)  // '@'
    } else if 0x41 <= c <= 0x5a {
        Some((c - 0x40) as u8)  // 'A'..='Z' -> 1..=26
    } else if c == 0x61 {
        Some(7u8)  // 'a'
    } else if c == 0x62 {
        Some(8u8)  // 'b'
    } else if c == 0x74 {
        Some(9u8)  // 't'
    } else if c == 0x6e {
        Some(10u8)  // 'n'
    } else if c == 0x76 {
        Some(11u8)  // 'v'
    } else if c == 0x66 {
        Some(12u8)  // 'f'
    } else if c == 0x72 {
        Some(13u8)  // 'r'
    } else if c == 0x65 {
        Some(27u8)  // 'e'
    } else if c == 0x2f {
        Some(28u8)  // '/'
    } else if c == 0x5e {
        Some(30u8)  // '^'
    } else if c == 0x5f {
        Some(31u8)  // '_'
    } else if c == 0x3f {
        Some(32u8)  // '?'
    } else if c == 0x5c || c == 0x27 || c == 0x22 {
        Some(c)  // '\\', '\'', '"' stand for themselves
    } else {
        None
    }
}

/// Decodes the character that follows a backslash.
pub fn escape_map(c: u8) -> (r: Result<u8, Error>)
    ensures
        match escape_spec(c) {
            Some(b) => r == Ok::<u8, Error>(b),
            None => r == Err::<u8, Error>(Error::InvalidEscape),
        },
{
    if c == 0x40 {
        Ok(0)
    } else if 0x41 <= c && c <= 0x5a {
        Ok(c - 0x40)
    } else if c == 0x61 {
        Ok(7)
    } else if c == 0x62 {
        Ok(8)
    } else if c == 0x74 {
        Ok(9)
    } else if c == 0x6e {
        Ok(10)
    } else if c == 0x76 {
        Ok(11)
    } else if c == 0x66 {
        Ok(12)
    } else if c == 0x72 {
        Ok(13)
    } else if c == 0x65 {
        Ok(27)
    } else if c == 0x2f {
        Ok(28)
    } else if c == 0x5e {
        Ok(30)
    } else if c == 0x5f {
        Ok(31)
    } else if c == 0x3f {
        Ok(32)
    } else if c == 0x5c || c == 0x27 || c == 0x22 {
        Ok(c)
    } else {
        Err(Error::InvalidEscape)
    }
}

pub open spec fn is_digit(c: u8) -> bool {
    0x30 <= c <= 0x39
}

pub open spec fn all_digits(s: Seq<u8>) -> bool {
    forall|k: int| 0 <= k < s.len() ==> is_digit(#[trigger] s[k])
}

/// The number that a string of decimal digits denotes.
pub open spec fn digits_value(s: Seq<u8>) -> nat
    decreases s.len(),
{
    if s.len() == 0 {
        0
    } else {
        digits_value(s.drop_last()) * 10 + (s.last() - 0x30) as nat
    }
}

/// What an unsigned literal evaluates to: its value, when it is a non-empty
/// run of digits whose value fits in 64 bits.
pub open spec fn unsigned_spec(s: Seq<u8>) -> Option<u64> {
    if s.len() > 0 && all_digits(s) && digits_value(s) <= u64::MAX {
        Some(digits_value(s) as u64)
    } else {
        None
    }
}

/// The 64-bit two's-complement pattern of the integer `v`, for
/// `-2^63 <= v < 2^64`.
pub open spec fn twos_complement(v: int) -> u64 {
    if v >= 0 {
        v as u64
    } else {
        (0x1_0000_0000_0000_0000 + v) as u64
    }
}

/// What a sign-prefixed literal evaluates to: the two's-complement pattern of
/// the signed value, when it lies in the range of a signed 64-bit integer.
pub open spec fn signed_spec(negative: bool, s: Seq<u8>) -> Option<u64> {
    if s.len() > 0 && all_digits(s) {
        let v: int = if negative { -digits_value(s) } else { digits_value(s) as int };
        if i64::MIN <= v <= i64::MAX {
            Some(twos_complement(v))
        } else {
            None
        }
    } else {
        None
    }
}

proof fn lemma_digits_value_prefix(s: Seq<u8>, j: int, k: int)
    requires
        0 <= j <= k <= s.len(),
        all_digits(s),
    ensures
        digits_value(s.subrange(0, j)) <= digits_value(s.subrange(0, k)),
    decreases k - j,
{
    if j < k {
        lemma_digits_value_prefix(s, j, k - 1);
        assert(s.subrange(0, k).drop_last() =~= s.subrange(0, k - 1));
    }
}

/// Evaluates the unsigned literal `src[start..end]`.
pub fn parse_unsigned(src: &[u8], start: usize, end: usize) -> (r: Result<u64, Error>)
    requires
        start <= end <= src@.len(),
    ensures
        match unsigned_spec(src@.subrange(start as int, end as int)) {
            Some(v) => r == Ok::<u64, Error>(v),
            None => r == Err::<u64, Error>(Error::NumericParseFailure),
        },
{
    let ghost s = src@.subrange(start as int, end as int);
    if start == end {
        return Err(Error::NumericParseFailure);
    }
    let mut i: usize = start;
    while i < end
        invariant
            start <= i <= end <= src@.len(),
            s == src@.subrange(start as int, end as int),
            forall|k: int| start <= k < i ==> is_digit(#[trigger] src@[k]),
        decreases end - i,
    {
        if !(0x30 <= src[i] && src[i] <= 0x39) {
            assert(!is_digit(s[i - start]));
            return Err(Error::NumericParseFailure);
        }
        i = i + 1;
    }
    assert(all_digits(s));
    let mut acc: u64 = 0;
    let mut i: usize = start;
    while i < end
        invariant
            start <= i <= end <= src@.len(),
            s == src@.subrange(start as int, end as int),
            all_digits(s),
            acc == digits_value(s.subrange(0, i - start)),
        decreases end - i,
    {
        assert(is_digit(s[i - start]));
        let d = (src[i] - 0x30) as u64;
        assert(s.subrange(0, i + 1 - start).drop_last() =~= s.subrange(0, i - start));
        if acc > (u64::MAX - d) / 10 {
            proof {
                assert(digits_value(s.subrange(0, i + 1 - start)) > u64::MAX) by (nonlinear_arith)
                    requires
                        acc > (u64::MAX - d) / 10,
                        digits_value(s.subrange(0, i + 1 - start)) == acc * 10 + d,
                        d <= 9,
                ;
                lemma_digits_value_prefix(s, i + 1 - start, s.len() as int);
                assert(s.subrange(0, s.len() as int) =~= s);
            }
            return Err(Error::NumericParseFailure);
        }
        proof {
            assert(acc * 10 + d <= u64::MAX) by (nonlinear_arith)
                requires
                    acc <= (u64::MAX - d) / 10,
                    d <= 9,
            ;
        }
        acc = acc * 10 + d;
        i = i + 1;
    }
    assert(s.subrange(0, s.len() as int) =~= s);
    Ok(acc)
}

/// Evaluates the literal `src[start..end]` preceded by a sign: the result is
/// the two's-complement bit pattern of the signed value.
pub fn parse_signed(negative: bool, src: &[u8], start: usize, end: usize) -> (r: Result<u64, Error>)
    requires
        start <= end <= src@.len(),
    ensures
        match signed_spec(negative, src@.subrange(start as int, end as int)) {
            Some(v) => r == Ok::<u64, Error>(v),
            None => r == Err::<u64, Error>(Error::NumericParseFailure),
        },
{
    let ghost s = src@.subrange(start as int, end as int);
    match parse_unsigned(src, start, end) {
        Err(e) => {
            assert(signed_spec(negative, s).is_none());
            Err(e)
        },
        Ok(m) => {
            if negative {
                if m > 0x8000_0000_0000_0000 {
                    Err(Error::NumericParseFailure)
                } else if m == 0 {
                    Ok(0)
                } else {
                    Ok(u64::MAX - (m - 1))
                }
            } else {
                if m > 0x7fff_ffff_ffff_ffff {
                    Err(Error::NumericParseFailure)
                } else {
                    Ok(m)
                }
            }
        },
    }
}

/// What a character literal's text evaluates to.
pub open spec fn char_spec(s: Seq<u8>) -> Result<u64, Error> {
    if s.len() == 0 {
        Err(Error::EmptyCharLiteral)
    } else if s[0] == 0x5c {
        if s.len() == 1 {
            Err(Error::DanglingEscape)
        } else {
            match escape_spec(s[1]) {
                Some(b) => Ok(b as u64),
                None => Err(Error::InvalidEscape),
            }
        }
    } else {
        Ok(s[0] as u64)
    }
}

/// Evaluates the character literal whose text is `src[start..end]`.
pub fn parse_char(src: &[u8], start: usize, end: usize) -> (r: Result<u64, Error>)
    requires
        start <= end <= src@.len(),
    ensures
        r == char_spec(src@.subrange(start as int, end as int)),
{
    if start == end {
        Err(Error::EmptyCharLiteral)
    } else if src[start] == 0x5c {
        if end - start == 1 {
            Err(Error::DanglingEscape)
        } else {
            match escape_map(src[start + 1]) {
                Ok(b) => Ok(b as u64),
                Err(e) => Err(e),
            }
        }
    } else {
        Ok(src[start] as u64)
    }
}

/// The bytes that a string literal's contents decode to: a byte stands for
/// itself, and a backslash and the byte after it stand for one escape.
pub open spec fn decode_spec(s: Seq<u8>) -> Result<Seq<u8>, Error>
    decreases s.len(),
{
    if s.len() == 0 {
        Ok(Seq::<u8>::empty())
    } else if s[0] == 0x5c {
        if s.len() == 1 {
            Err(Error::DanglingEscape)
        } else {
            match escape_spec(s[1]) {
                None => Err(Error::InvalidEscape),
                Some(b) => match decode_spec(s.subrange(2, s.len() as int)) {
                    Ok(rest) => Ok(seq![b] + rest),
                    Err(e) => Err(e),
                },
            }
        }
    } else {
        match decode_spec(s.subrange(1, s.len() as int)) {
            Ok(rest) => Ok(seq![s[0]] + rest),
            Err(e) => Err(e),
        }
    }
}

/// `decode_spec` of some text, once `done` has been decoded before it.
pub open spec fn decoded_after(done: Seq<u8>, rest: Result<Seq<u8>, Error>) -> Result<Seq<u8>, Error> {
    match rest {
        Ok(r) => Ok(done + r),
        Err(e) => Err(e),
    }
}

/// Decodes the contents `src[start..end]` of a string literal.
pub fn parse_string(src: &[u8], start: usize, end: usize) -> (r: Result<Vec<u8>, Error>)
    requires
        start <= end <= src@.len(),
    ensures
        match decode_spec(src@.subrange(start as int, end as int)) {
            Ok(b) => r is Ok && r->Ok_0@ == b,
            Err(e) => r == Err::<Vec<u8>, Error>(e),
        },
{
    let mut buf: Vec<u8> = Vec::new();
    let mut i: usize = start;
    assert(buf@ + Seq::<u8>::empty() =~= buf@);
    while i < end
        invariant
            start <= i <= end <= src@.len(),
            decode_spec(src@.subrange(start as int, end as int)) == decoded_after(
                buf@,
                decode_spec(src@.subrange(i as int, end as int)),
            ),
        decreases end - i,
    {
        let ghost s = src@.subrange(i as int, end as int);
        if src[i] == 0x5c {
            if end - i == 1 {
                return Err(Error::DanglingEscape);
            }
            match escape_map(src[i + 1]) {
                Ok(b) => {
                    assert(s.subrange(2, s.len() as int) =~= src@.subrange(i + 2, end as int));
                    assert forall|x: Seq<u8>| buf@.push(b) + x == buf@ + (seq![b] + x) by {
                        assert(buf@.push(b) + x =~= buf@ + (seq![b] + x));
                    }
                    buf.push(b);
                    i = i + 2;
                },
                Err(e) => {
                    return Err(e);
                },
            }
        } else {
            let b = src[i];
            assert(s.subrange(1, s.len() as int) =~= src@.subrange(i + 1, end as int));
            assert forall|x: Seq<u8>| buf@.push(b) + x == buf@ + (seq![b] + x) by {
                assert(buf@.push(b) + x =~= buf@ + (seq![b] + x));
            }
            buf.push(b);
            i = i + 1;
        }
    }
    assert(buf@ + Seq::<u8>::empty() =~= buf@);
    Ok(buf)
}

/// The eight bytes of `v`, least significant first.
pub open spec fn le_bytes(v: u64) -> Seq<u8> {
    seq![
        v as u8,
        (v >> 8u64) as u8,
        (v >> 16u64) as u8,
        (v >> 24u64) as u8,
        (v >> 32u64) as u8,
        (v >> 40u64) as u8,
        (v >> 48u64) as u8,
        (v >> 56u64) as u8,
    ]
}

/// Appends the eight bytes of `v`, least significant first.
pub fn push_le_bytes(buf: &mut Vec<u8>, v: u64)
    ensures
        final(buf)@ == old(buf)@ + le_bytes(v),
{
    buf.push(v as u8);
    buf.push((v >> 8u64) as u8);
    buf.push((v >> 16u64) as u8);
    buf.push((v >> 24u64) as u8);
    buf.push((v >> 32u64) as u8);
    buf.push((v >> 40u64) as u8);
    buf.push((v >> 48u64) as u8);
    buf.push((v >> 56u64) as u8);
    assert(buf@ =~= old(buf)@ + le_bytes(v));
}

} // verus!
