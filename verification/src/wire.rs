//! Fixed-width integers on the wire, and the variable-width size prefix.
use vstd::prelude::*;

verus! {

/// Why bytes could not be turned back into a message.
#[derive(Clone, Copy, Debug, PartialEq, Eq, Structural)]
pub enum CodecError {
    /// The bytes end before the message does.
    Truncated,
    /// A size prefix is not in its shortest form.
    NonCanonical,
    /// Bytes are left over behind the message.
    TrailingBytes,
    /// The message is longer than the transport accepts.
    TooLarge,
}

/// The two bytes of `n`, most significant first.
pub open spec fn be16(n: u16) -> Seq<u8> {
    seq![(n / 0x100) as u8, (n % 0x100) as u8]
}

/// The four bytes of `n`, most significant first.
pub open spec fn be32(n: u32) -> Seq<u8> {
    seq![
        (n / 0x100_0000) as u8,
        (n / 0x1_0000 % 0x100) as u8,
        (n / 0x100 % 0x100) as u8,
        (n % 0x100) as u8,
    ]
}

/// The eight bytes of `n`, most significant first.
pub open spec fn be64(n: u64) -> Seq<u8> {
    be32((n / 0x1_0000_0000) as u32) + be32((n % 0x1_0000_0000) as u32)
}

/// The four bytes of `n`, least significant first.
pub open spec fn le32(n: u32) -> Seq<u8> {
    seq![
        (n % 0x100) as u8,
        (n / 0x100 % 0x100) as u8,
        (n / 0x1_0000 % 0x100) as u8,
        (n / 0x100_0000) as u8,
    ]
}

/// The eight bytes of `n`, least significant first.
pub open spec fn le64(n: u64) -> Seq<u8> {
    le32((n % 0x1_0000_0000) as u32) + le32((n / 0x1_0000_0000) as u32)
}

/// The number whose big-endian bytes are the first two of `b`.
pub open spec fn be16_value(b: Seq<u8>) -> u16
    recommends
        b.len() >= 2,
{
    (b[0] * 0x100 + b[1]) as u16
}

/// The number whose big-endian bytes are the first four of `b`.
pub open spec fn be32_value(b: Seq<u8>) -> u32
    recommends
        b.len() >= 4,
{
    (b[0] * 0x100_0000 + b[1] * 0x1_0000 + b[2] * 0x100 + b[3]) as u32
}

/// The number whose big-endian bytes are the first eight of `b`.
pub open spec fn be64_value(b: Seq<u8>) -> u64
    recommends
        b.len() >= 8,
{
    (be32_value(b.subrange(0, 4)) * 0x1_0000_0000 + be32_value(b.subrange(4, 8))) as u64
}

/// The number whose little-endian bytes are the first four of `b`.
pub open spec fn le32_value(b: Seq<u8>) -> u32
    recommends
        b.len() >= 4,
{
    (b[0] + b[1] * 0x100 + b[2] * 0x1_0000 + b[3] * 0x100_0000) as u32
}

/// The number whose little-endian bytes are the first eight of `b`.
pub open spec fn le64_value(b: Seq<u8>) -> u64
    recommends
        b.len() >= 8,
{
    (le32_value(b.subrange(0, 4)) + le32_value(b.subrange(4, 8)) * 0x1_0000_0000) as u64
}

/// Reading back the big-endian bytes of a 16-bit number gives the number.
pub proof fn lemma_be16_round_trip(n: u16)
    ensures
        be16(n).len() == 2,
        be16_value(be16(n)) == n,
{
}

/// Reading back the big-endian bytes of a 32-bit number gives the number.
pub proof fn lemma_be32_round_trip(n: u32)
    ensures
        be32(n).len() == 4,
        be32_value(be32(n)) == n,
{
}

/// Reading back the big-endian bytes of a 64-bit number gives the number.
pub proof fn lemma_be64_round_trip(n: u64)
    ensures
        be64(n).len() == 8,
        be64_value(be64(n)) == n,
{
    let hi = (n / 0x1_0000_0000) as u32;
    let lo = (n % 0x1_0000_0000) as u32;
    lemma_be32_round_trip(hi);
    lemma_be32_round_trip(lo);
    assert(be64(n).subrange(0, 4) =~= be32(hi));
    assert(be64(n).subrange(4, 8) =~= be32(lo));
}

/// Reading back the little-endian bytes of a 32-bit number gives the number.
pub proof fn lemma_le32_round_trip(n: u32)
    ensures
        le32(n).len() == 4,
        le32_value(le32(n)) == n,
{
}

/// Reading back the little-endian bytes of a 64-bit number gives the number.
pub proof fn lemma_le64_round_trip(n: u64)
    ensures
        le64(n).len() == 8,
        le64_value(le64(n)) == n,
{
    let lo = (n % 0x1_0000_0000) as u32;
    let hi = (n / 0x1_0000_0000) as u32;
    lemma_le32_round_trip(lo);
    lemma_le32_round_trip(hi);
    assert(le64(n).subrange(0, 4) =~= le32(lo));
    assert(le64(n).subrange(4, 8) =~= le32(hi));
}

/// Two bytes are the big-endian bytes of the number they hold.
pub proof fn lemma_be16_of_value(b: Seq<u8>)
    requires
        b.len() == 2,
    ensures
        be16(be16_value(b)) == b,
{
    assert(be16(be16_value(b)) =~= b);
}

/// Four bytes are the big-endian bytes of the number they hold.
pub proof fn lemma_be32_of_value(b: Seq<u8>)
    requires
        b.len() == 4,
    ensures
        be32(be32_value(b)) == b,
{
    let b0 = b[0] as int;
    let b1 = b[1] as int;
    let b2 = b[2] as int;
    let b3 = b[3] as int;
    let n = be32_value(b) as int;
    assert(n == b0 * 0x100_0000 + b1 * 0x1_0000 + b2 * 0x100 + b3);
    assert(n / 0x100_0000 == b0 && n / 0x1_0000 % 0x100 == b1 && n / 0x100 % 0x100 == b2 && n
        % 0x100 == b3) by (nonlinear_arith)
        requires
            n == b0 * 0x100_0000 + b1 * 0x1_0000 + b2 * 0x100 + b3,
            0 <= b0 < 0x100,
            0 <= b1 < 0x100,
            0 <= b2 < 0x100,
            0 <= b3 < 0x100,
    ;
    assert(be32(be32_value(b)) =~= b);
}

/// Eight bytes are the big-endian bytes of the number they hold.
pub proof fn lemma_be64_of_value(b: Seq<u8>)
    requires
        b.len() == 8,
    ensures
        be64(be64_value(b)) == b,
{
    let hi = b.subrange(0, 4);
    let lo = b.subrange(4, 8);
    lemma_be32_of_value(hi);
    lemma_be32_of_value(lo);
    let n = be64_value(b) as int;
    let high = be32_value(hi) as int;
    let low = be32_value(lo) as int;
    assert(n == high * 0x1_0000_0000 + low);
    assert(n / 0x1_0000_0000 == high && n % 0x1_0000_0000 == low) by (nonlinear_arith)
        requires
            n == high * 0x1_0000_0000 + low,
            0 <= low < 0x1_0000_0000,
            0 <= high,
    ;
    assert(be64(be64_value(b)) =~= hi + lo);
    assert(hi + lo =~= b);
}

/// Four bytes are the little-endian bytes of the number they hold.
pub proof fn lemma_le32_of_value(b: Seq<u8>)
    requires
        b.len() == 4,
    ensures
        le32(le32_value(b)) == b,
{
    let b0 = b[0] as int;
    let b1 = b[1] as int;
    let b2 = b[2] as int;
    let b3 = b[3] as int;
    let n = le32_value(b) as int;
    assert(n == b0 + b1 * 0x100 + b2 * 0x1_0000 + b3 * 0x100_0000);
    assert(n % 0x100 == b0 && n / 0x100 % 0x100 == b1 && n / 0x1_0000 % 0x100 == b2 && n
        / 0x100_0000 == b3) by (nonlinear_arith)
        requires
            n == b0 + b1 * 0x100 + b2 * 0x1_0000 + b3 * 0x100_0000,
            0 <= b0 < 0x100,
            0 <= b1 < 0x100,
            0 <= b2 < 0x100,
            0 <= b3 < 0x100,
    ;
    assert(le32(le32_value(b)) =~= b);
}

/// Eight bytes are the little-endian bytes of the number they hold.
pub proof fn lemma_le64_of_value(b: Seq<u8>)
    requires
        b.len() == 8,
    ensures
        le64(le64_value(b)) == b,
{
    let lo = b.subrange(0, 4);
    let hi = b.subrange(4, 8);
    lemma_le32_of_value(lo);
    lemma_le32_of_value(hi);
    let n = le64_value(b) as int;
    let low = le32_value(lo) as int;
    let high = le32_value(hi) as int;
    assert(n == low + high * 0x1_0000_0000);
    assert(n / 0x1_0000_0000 == high && n % 0x1_0000_0000 == low) by (nonlinear_arith)
        requires
            n == low + high * 0x1_0000_0000,
            0 <= low < 0x1_0000_0000,
            0 <= high,
    ;
    assert(le64(le64_value(b)) =~= lo + hi);
    assert(lo + hi =~= b);
}

/// The size prefix of `n`: one byte below 0xFD, else a marker byte and the
/// number in two, four or eight bytes, most significant first, in the shortest
/// form that holds it.
pub open spec fn size_prefix(n: u64) -> Seq<u8> {
    if n < 0xFD {
        seq![n as u8]
    } else if n < 0x1_0000 {
        seq![0xFDu8] + be16(n as u16)
    } else if n < 0x1_0000_0000 {
        seq![0xFEu8] + be32(n as u32)
    } else {
        seq![0xFFu8] + be64(n)
    }
}

/// The number of bytes that a size prefix takes, told by its first byte.
pub open spec fn size_prefix_width(first: u8) -> int {
    if first < 0xFD {
        1
    } else if first == 0xFD {
        3
    } else if first == 0xFE {
        5
    } else {
        9
    }
}

/// The number at the start of `b` and the bytes that it takes, or why there is
/// none: `b` ends too early, or the number is not in its shortest form.
pub open spec fn size_prefix_parse(b: Seq<u8>) -> Result<(u64, int), CodecError> {
    if b.len() == 0 || b.len() < size_prefix_width(b[0]) {
        Err(CodecError::Truncated)
    } else if b[0] < 0xFD {
        Ok((b[0] as u64, 1))
    } else if b[0] == 0xFD {
        let n = be16_value(b.subrange(1, 3));
        if n < 0xFD {
            Err(CodecError::NonCanonical)
        } else {
            Ok((n as u64, 3))
        }
    } else if b[0] == 0xFE {
        let n = be32_value(b.subrange(1, 5));
        if n < 0x1_0000 {
            Err(CodecError::NonCanonical)
        } else {
            Ok((n as u64, 5))
        }
    } else {
        let n = be64_value(b.subrange(1, 9));
        if n < 0x1_0000_0000 {
            Err(CodecError::NonCanonical)
        } else {
            Ok((n, 9))
        }
    }
}

/// A size prefix followed by anything reads back as the number it was made of.
pub proof fn lemma_size_prefix_round_trip(n: u64, rest: Seq<u8>)
    ensures
        size_prefix(n).len() == size_prefix_width(size_prefix(n)[0]),
        size_prefix_parse(size_prefix(n) + rest) == Ok::<(u64, int), CodecError>(
            (n, size_prefix(n).len() as int),
        ),
{
    let b = size_prefix(n) + rest;
    if n < 0xFD {
    } else if n < 0x1_0000 {
        lemma_be16_round_trip(n as u16);
        assert(b.subrange(1, 3) =~= be16(n as u16));
    } else if n < 0x1_0000_0000 {
        lemma_be32_round_trip(n as u32);
        assert(b.subrange(1, 5) =~= be32(n as u32));
    } else {
        lemma_be64_round_trip(n);
        assert(b.subrange(1, 9) =~= be64(n));
    }
}

/// A size prefix cut short reads as truncated.
pub proof fn lemma_size_prefix_truncated(n: u64, keep: int)
    requires
        0 <= keep < size_prefix(n).len(),
    ensures
        size_prefix_parse(size_prefix(n).take(keep)) == Err::<(u64, int), CodecError>(
            CodecError::Truncated,
        ),
{
    lemma_size_prefix_round_trip(n, Seq::empty());
}

/// Bytes that read as a size prefix are the size prefix of the number read:
/// a number has one size prefix and no other.
pub proof fn lemma_size_prefix_is_canonical(b: Seq<u8>)
    ensures
        match size_prefix_parse(b) {
            Ok((n, used)) => 1 <= used <= b.len() && b.subrange(0, used) == size_prefix(n),
            Err(_) => true,
        },
{
    match size_prefix_parse(b) {
        Ok((n, used)) => {
            if b[0] < 0xFD {
                assert(b.subrange(0, 1) =~= size_prefix(n));
            } else if b[0] == 0xFD {
                lemma_be16_of_value(b.subrange(1, 3));
                assert(b.subrange(0, 3) =~= seq![0xFDu8] + b.subrange(1, 3));
            } else if b[0] == 0xFE {
                lemma_be32_of_value(b.subrange(1, 5));
                assert(b.subrange(0, 5) =~= seq![0xFEu8] + b.subrange(1, 5));
            } else {
                lemma_be64_of_value(b.subrange(1, 9));
                assert(b.subrange(0, 9) =~= seq![0xFFu8] + b.subrange(1, 9));
            }
        },
        Err(_) => {},
    }
}

/// Appends the two bytes of `n`, most significant first.
pub fn put_be16(out: &mut Vec<u8>, n: u16)
    ensures
        final(out)@ == old(out)@ + be16(n),
{
    out.push((n / 0x100) as u8);
    out.push((n % 0x100) as u8);
    assert(out@ =~= old(out)@ + be16(n));
}

/// Appends the four bytes of `n`, most significant first.
pub fn put_be32(out: &mut Vec<u8>, n: u32)
    ensures
        final(out)@ == old(out)@ + be32(n),
{
    out.push((n / 0x100_0000) as u8);
    out.push((n / 0x1_0000 % 0x100) as u8);
    out.push((n / 0x100 % 0x100) as u8);
    out.push((n % 0x100) as u8);
    assert(out@ =~= old(out)@ + be32(n));
}

/// Appends the eight bytes of `n`, most significant first.
pub fn put_be64(out: &mut Vec<u8>, n: u64)
    ensures
        final(out)@ == old(out)@ + be64(n),
{
    put_be32(out, (n / 0x1_0000_0000) as u32);
    put_be32(out, (n % 0x1_0000_0000) as u32);
    assert(out@ =~= old(out)@ + be64(n));
}

/// Appends the size prefix of `n`.
pub fn put_size_prefix(out: &mut Vec<u8>, n: u64)
    ensures
        final(out)@ == old(out)@ + size_prefix(n),
{
    if n < 0xFD {
        out.push(n as u8);
    } else if n < 0x1_0000 {
        out.push(0xFD);
        put_be16(out, n as u16);
    } else if n < 0x1_0000_0000 {
        out.push(0xFE);
        put_be32(out, n as u32);
    } else {
        out.push(0xFF);
        put_be64(out, n);
    }
    assert(out@ =~= old(out)@ + size_prefix(n));
}

/// The big-endian number in the two bytes of `buf` from `at` on.
fn get_be16(buf: &[u8], at: usize) -> (n: u16)
    requires
        at + 2 <= buf.len(),
    ensures
        n == be16_value(buf@.subrange(at as int, at + 2)),
{
    let hi: u16 = buf[at] as u16;
    let lo: u16 = buf[at + 1] as u16;
    hi * 0x100 + lo
}

/// The big-endian number in the four bytes of `buf` from `at` on.
fn get_be32(buf: &[u8], at: usize) -> (n: u32)
    requires
        at + 4 <= buf.len(),
    ensures
        n == be32_value(buf@.subrange(at as int, at + 4)),
{
    let b0: u32 = buf[at] as u32;
    let b1: u32 = buf[at + 1] as u32;
    let b2: u32 = buf[at + 2] as u32;
    let b3: u32 = buf[at + 3] as u32;
    b0 * 0x100_0000 + b1 * 0x1_0000 + b2 * 0x100 + b3
}

/// The big-endian number in the eight bytes of `buf` from `at` on.
fn get_be64(buf: &[u8], at: usize) -> (n: u64)
    requires
        at + 8 <= buf.len(),
    ensures
        n == be64_value(buf@.subrange(at as int, at + 8)),
{
    let hi: u64 = get_be32(buf, at) as u64;
    let lo: u64 = get_be32(buf, at + 4) as u64;
    proof {
        let whole = buf@.subrange(at as int, at + 8);
        assert(whole.subrange(0, 4) =~= buf@.subrange(at as int, at + 4));
        assert(whole.subrange(4, 8) =~= buf@.subrange(at + 4, at + 8));
    }
    hi * 0x1_0000_0000 + lo
}

/// Reads the size prefix at the start of `buf`: the number and how many bytes
/// it took.
pub fn get_size_prefix(buf: &[u8]) -> (r: Result<(u64, usize), CodecError>)
    ensures
        match size_prefix_parse(buf@) {
            Ok((n, used)) => r == Ok::<(u64, usize), CodecError>((n, used as usize)) && 1 <= used
                <= buf.len(),
            Err(e) => r == Err::<(u64, usize), CodecError>(e),
        },
{
    if buf.len() == 0 {
        return Err(CodecError::Truncated);
    }
    let first: u8 = buf[0];
    if first < 0xFD {
        Ok((first as u64, 1))
    } else if first == 0xFD {
        if buf.len() < 3 {
            return Err(CodecError::Truncated);
        }
        let n: u16 = get_be16(buf, 1);
        if n < 0xFD {
            Err(CodecError::NonCanonical)
        } else {
            Ok((n as u64, 3))
        }
    } else if first == 0xFE {
        if buf.len() < 5 {
            return Err(CodecError::Truncated);
        }
        let n: u32 = get_be32(buf, 1);
        if n < 0x1_0000 {
            Err(CodecError::NonCanonical)
        } else {
            Ok((n as u64, 5))
        }
    } else {
        if buf.len() < 9 {
            return Err(CodecError::Truncated);
        }
        let n: u64 = get_be64(buf, 1);
        if n < 0x1_0000_0000 {
            Err(CodecError::NonCanonical)
        } else {
            Ok((n, 9))
        }
    }
}

/// Appends the four bytes of `n`, least significant first.
pub fn put_le32(out: &mut Vec<u8>, n: u32)
    ensures
        final(out)@ == old(out)@ + le32(n),
{
    out.push((n % 0x100) as u8);
    out.push((n / 0x100 % 0x100) as u8);
    out.push((n / 0x1_0000 % 0x100) as u8);
    out.push((n / 0x100_0000) as u8);
    assert(out@ =~= old(out)@ + le32(n));
}

/// Appends the eight bytes of `n`, least significant first.
pub fn put_le64(out: &mut Vec<u8>, n: u64)
    ensures
        final(out)@ == old(out)@ + le64(n),
{
    put_le32(out, (n % 0x1_0000_0000) as u32);
    put_le32(out, (n / 0x1_0000_0000) as u32);
    assert(out@ =~= old(out)@ + le64(n));
}

/// The little-endian number in the four bytes of `buf` from `at` on.
fn get_le32(buf: &[u8], at: usize) -> (n: u32)
    requires
        at + 4 <= buf.len(),
    ensures
        n == le32_value(buf@.subrange(at as int, at + 4)),
{
    let b0: u32 = buf[at] as u32;
    let b1: u32 = buf[at + 1] as u32;
    let b2: u32 = buf[at + 2] as u32;
    let b3: u32 = buf[at + 3] as u32;
    b0 + b1 * 0x100 + b2 * 0x1_0000 + b3 * 0x100_0000
}

/// The little-endian number in the eight bytes of `buf` from `at` on.
pub(crate) fn get_le64(buf: &[u8], at: usize) -> (n: u64)
    requires
        at + 8 <= buf.len(),
    ensures
        n == le64_value(buf@.subrange(at as int, at + 8)),
{
    let lo: u64 = get_le32(buf, at) as u64;
    let hi: u64 = get_le32(buf, at + 4) as u64;
    proof {
        let whole = buf@.subrange(at as int, at + 8);
        assert(whole.subrange(0, 4) =~= buf@.subrange(at as int, at + 4));
        assert(whole.subrange(4, 8) =~= buf@.subrange(at + 4, at + 8));
    }
    lo + hi * 0x1_0000_0000
}

} // verus!
