//! Fixed-width integers and UTF-16 text as bytes.
use vstd::prelude::*;

verus! {

// ---------------------------------------------------------------------------
// Big-endian and little-endian numbers
// ---------------------------------------------------------------------------

/// The number that `bytes` write, most significant byte first.
pub open spec fn be_value(bytes: Seq<u8>) -> nat
    decreases bytes.len(),
{
    if bytes.len() == 0 {
        0
    } else {
        be_value(bytes.drop_last()) * 256 + bytes.last() as nat
    }
}

/// The number that `bytes` write, least significant byte first.
pub open spec fn le_value(bytes: Seq<u8>) -> nat
    decreases bytes.len(),
{
    if bytes.len() == 0 {
        0
    } else {
        le_value(bytes.skip(1)) * 256 + bytes[0] as nat
    }
}

/// `n` as two bytes, most significant first.
pub open spec fn be16(n: u16) -> Seq<u8> {
    seq![(n / 0x100) as u8, (n % 0x100) as u8]
}

/// `n` as four bytes, most significant first.
pub open spec fn be32(n: u32) -> Seq<u8> {
    seq![
        (n / 0x100_0000) as u8,
        (n / 0x1_0000 % 0x100) as u8,
        (n / 0x100 % 0x100) as u8,
        (n % 0x100) as u8,
    ]
}

/// `n` as four bytes, least significant first.
pub open spec fn le32(n: u32) -> Seq<u8> {
    seq![
        (n % 0x100) as u8,
        (n / 0x100 % 0x100) as u8,
        (n / 0x1_0000 % 0x100) as u8,
        (n / 0x100_0000) as u8,
    ]
}

/// `n` as eight bytes, least significant first.
pub open spec fn le64(n: u64) -> Seq<u8> {
    le32((n % 0x1_0000_0000) as u32) + le32((n / 0x1_0000_0000) as u32)
}

/// The two's complement of `n`.
pub open spec fn complement32(n: i32) -> u32 {
    if n < 0 {
        (n + 0x1_0000_0000) as u32
    } else {
        n as u32
    }
}

/// `n` bytes that are all zero.
pub open spec fn zeros(n: nat) -> Seq<u8> {
    Seq::new(n, |i: int| 0u8)
}

/// `buffer` with `bytes` in place of what stood from `at` on.
pub open spec fn overwritten(buffer: Seq<u8>, at: int, bytes: Seq<u8>) -> Seq<u8> {
    Seq::new(
        buffer.len(),
        |i: int|
            if at <= i < at + bytes.len() {
                bytes[i - at]
            } else {
                buffer[i]
            },
    )
}

/// Four big-endian bytes give back the number they write.
pub proof fn law_be32_reads_back(n: u32)
    ensures
        be_value(be32(n)) == n,
        be32(n).len() == 4,
{
    let b = be32(n);
    assert(b.drop_last().drop_last().drop_last() =~= seq![b[0]]);
    assert(b.drop_last().drop_last() =~= seq![b[0], b[1]]);
    assert(b.drop_last() =~= seq![b[0], b[1], b[2]]);
    reveal_with_fuel(be_value, 5);
    assert(n == (n / 0x100_0000) * 0x100_0000 + (n / 0x1_0000 % 0x100) * 0x1_0000 + (n / 0x100
        % 0x100) * 0x100 + n % 0x100) by (nonlinear_arith);
}

/// Two big-endian bytes give back the number they write.
pub proof fn law_be16_reads_back(n: u16)
    ensures
        be_value(be16(n)) == n,
        be16(n).len() == 2,
{
    let b = be16(n);
    assert(b.drop_last() =~= seq![b[0]]);
    reveal_with_fuel(be_value, 3);
}

/// Four little-endian bytes give back the number they write.
pub proof fn law_le32_reads_back(n: u32)
    ensures
        le_value(le32(n)) == n,
        le32(n).len() == 4,
{
    let b = le32(n);
    assert(b.skip(1).skip(1).skip(1) =~= seq![b[3]]);
    assert(b.skip(1).skip(1) =~= seq![b[2], b[3]]);
    assert(b.skip(1) =~= seq![b[1], b[2], b[3]]);
    reveal_with_fuel(le_value, 5);
    assert(n == (n / 0x100_0000) * 0x100_0000 + (n / 0x1_0000 % 0x100) * 0x1_0000 + (n / 0x100
        % 0x100) * 0x100 + n % 0x100) by (nonlinear_arith);
}

/// The bytes of a number stand for its powers of 256, the highest first or the
/// lowest first.
pub proof fn law_bytes_are_digits_in_base_256(n: u32, m: u16)
    ensures
        n == be32(n)[0] * 0x100_0000 + be32(n)[1] * 0x1_0000 + be32(n)[2] * 0x100 + be32(n)[3],
        n == le32(n)[3] * 0x100_0000 + le32(n)[2] * 0x1_0000 + le32(n)[1] * 0x100 + le32(n)[0],
        m == be16(m)[0] * 0x100 + be16(m)[1],
{
    assert(n == (n / 0x100_0000) * 0x100_0000 + (n / 0x1_0000 % 0x100) * 0x1_0000 + (n / 0x100
        % 0x100) * 0x100 + n % 0x100) by (nonlinear_arith);
}

/// The two's complement of a number that is not negative is that number; that
/// of a negative one is larger by two to the power of 32.
pub proof fn law_complement_wraps_negatives(n: i32)
    ensures
        0 <= n ==> complement32(n) == n,
        n < 0 ==> complement32(n) == n + 0x1_0000_0000,
{
}

/// Four bytes before others count as they are.
proof fn lemma_le_value_concat(low: Seq<u8>, high: Seq<u8>)
    requires
        low.len() == 4,
    ensures
        le_value(low + high) == le_value(low) + le_value(high) * 0x1_0000_0000,
{
    let all = low + high;
    assert(all.skip(1).skip(1).skip(1).skip(1) =~= high);
    assert(low.skip(1).skip(1).skip(1).skip(1) =~= Seq::empty());
    assert(all.skip(1)[0] == low[1] && low.skip(1)[0] == low[1]);
    assert(all.skip(1).skip(1)[0] == low[2] && low.skip(1).skip(1)[0] == low[2]);
    assert(all.skip(1).skip(1).skip(1)[0] == low[3] && low.skip(1).skip(1).skip(1)[0] == low[3]);
    reveal_with_fuel(le_value, 5);
}

/// Eight little-endian bytes give back the number they write.
pub proof fn law_le64_reads_back(n: u64)
    ensures
        le_value(le64(n)) == n,
        le64(n).len() == 8,
{
    let low = (n % 0x1_0000_0000) as u32;
    let high = (n / 0x1_0000_0000) as u32;
    law_le32_reads_back(low);
    law_le32_reads_back(high);
    lemma_le_value_concat(le32(low), le32(high));
}

/// Appends `n`, most significant byte first.
pub fn push_be16(buffer: &mut Vec<u8>, n: u16)
    ensures
        final(buffer)@ == old(buffer)@ + be16(n),
{
    buffer.push((n / 0x100) as u8);
    buffer.push((n % 0x100) as u8);
    assert(buffer@ =~= old(buffer)@ + be16(n));
}

/// Appends `n`, most significant byte first.
pub fn push_be32(buffer: &mut Vec<u8>, n: u32)
    ensures
        final(buffer)@ == old(buffer)@ + be32(n),
{
    buffer.push((n / 0x100_0000) as u8);
    buffer.push((n / 0x1_0000 % 0x100) as u8);
    buffer.push((n / 0x100 % 0x100) as u8);
    buffer.push((n % 0x100) as u8);
    assert(buffer@ =~= old(buffer)@ + be32(n));
}

/// The two's complement of `n`.
pub fn complement(n: i32) -> (r: u32)
    ensures
        r == complement32(n),
{
    if n < 0 {
        (n as i64 + 0x1_0000_0000) as u32
    } else {
        n as u32
    }
}

/// Appends `n` bytes that are zero.
pub fn push_zeros(buffer: &mut Vec<u8>, n: usize)
    ensures
        final(buffer)@ == old(buffer)@ + zeros(n as nat),
{
    let mut i: usize = 0;
    assert(buffer@ =~= old(buffer)@ + zeros(0));
    while i < n
        invariant
            i <= n,
            buffer@ == old(buffer)@ + zeros(i as nat),
        decreases n - i,
    {
        buffer.push(0u8);
        i += 1;
        assert(buffer@ =~= old(buffer)@ + zeros(i as nat));
    }
}

/// Appends `bytes`.
pub fn push_all(buffer: &mut Vec<u8>, bytes: &[u8])
    ensures
        final(buffer)@ == old(buffer)@ + bytes@,
{
    let mut i: usize = 0;
    assert(buffer@ =~= old(buffer)@ + bytes@.take(0));
    while i < bytes.len()
        invariant
            i <= bytes@.len(),
            buffer@ == old(buffer)@ + bytes@.take(i as int),
        decreases bytes@.len() - i,
    {
        buffer.push(bytes[i]);
        i += 1;
        assert(buffer@ =~= old(buffer)@ + bytes@.take(i as int));
    }
    assert(bytes@.take(i as int) =~= bytes@);
}

/// A copy of `bytes`.
pub fn copy_of(bytes: &[u8]) -> (r: Vec<u8>)
    ensures
        r@ == bytes@,
{
    let mut r: Vec<u8> = Vec::new();
    push_all(&mut r, bytes);
    assert(r@ =~= bytes@);
    r
}

/// Writes `bytes` over what stands in `buffer` from `at` on.
pub fn overwrite(buffer: &mut Vec<u8>, at: usize, bytes: &[u8])
    requires
        at + bytes@.len() <= old(buffer)@.len(),
    ensures
        final(buffer)@ == overwritten(old(buffer)@, at as int, bytes@),
{
    let size: usize = buffer.len();
    let mut i: usize = 0;
    while i < bytes.len()
        invariant
            i <= bytes@.len(),
            buffer@.len() == size == old(buffer)@.len(),
            at + bytes@.len() <= size,
            buffer@ == overwritten(old(buffer)@, at as int, bytes@.take(i as int)),
        decreases bytes@.len() - i,
    {
        buffer.set(at + i, bytes[i]);
        i += 1;
        assert(buffer@ =~= overwritten(old(buffer)@, at as int, bytes@.take(i as int)));
    }
    assert(bytes@.take(i as int) =~= bytes@);
}

// ---------------------------------------------------------------------------
// UTF-16
// ---------------------------------------------------------------------------

/// One character in UTF-16, most significant byte first: characters outside
/// the basic plane take a surrogate pair.
pub open spec fn utf16be_char(c: char) -> Seq<u8> {
    let n = c as u32;
    if n < 0x1_0000 {
        be16(n as u16)
    } else {
        be16((0xd800 + (n - 0x1_0000) / 0x400) as u16) + be16(
            (0xdc00 + (n - 0x1_0000) % 0x400) as u16,
        )
    }
}

/// `text` in UTF-16, most significant byte first.
pub open spec fn utf16be(text: Seq<char>) -> Seq<u8>
    decreases text.len(),
{
    if text.len() == 0 {
        Seq::empty()
    } else {
        utf16be_char(text[0]) + utf16be(text.skip(1))
    }
}

/// `text` in UTF-16, least significant byte first.
pub open spec fn utf16le(text: Seq<char>) -> Seq<u8> {
    let swapped = utf16be(text);
    Seq::new(
        swapped.len(),
        |i: int|
            swapped[if i % 2 == 0 {
                i + 1
            } else {
                i - 1
            }],
    )
}

/// The text that `bytes` hold in UTF-16, most significant byte first, if they
/// are well formed.
pub open spec fn utf16be_text(bytes: Seq<u8>) -> Option<Seq<char>>
    decreases bytes.len(),
{
    if bytes.len() == 0 {
        Some(Seq::empty())
    } else if bytes.len() < 2 {
        None
    } else {
        let unit = be_value(bytes.take(2));
        if unit < 0xd800 || 0xe000 <= unit {
            match utf16be_text(bytes.skip(2)) {
                Some(rest) => Some(seq![unit as char] + rest),
                None => None,
            }
        } else if bytes.len() < 4 {
            None
        } else {
            let low = be_value(bytes.subrange(2, 4));
            if unit < 0xdc00 && 0xdc00 <= low < 0xe000 {
                match utf16be_text(bytes.skip(4)) {
                    Some(rest) => Some(
                        seq![(0x1_0000 + (unit - 0xd800) * 0x400 + (low - 0xdc00)) as char] + rest,
                    ),
                    None => None,
                }
            } else {
                None
            }
        }
    }
}

/// One encoded character comes back, whatever follows it.
proof fn lemma_utf16be_char(c: char, rest: Seq<u8>)
    ensures
        utf16be_text(utf16be_char(c) + rest) == (match utf16be_text(rest) {
            Some(text) => Some(seq![c] + text),
            None => None,
        }),
        utf16be_char(c).len() % 2 == 0,
{
    let bytes = utf16be_char(c) + rest;
    let n = c as u32;
    if n < 0x1_0000 {
        law_be16_reads_back(n as u16);
        assert(bytes.take(2) =~= be16(n as u16));
        assert(bytes.skip(2) =~= rest);
    } else {
        let high = (0xd800 + (n - 0x1_0000) / 0x400) as u16;
        let low = (0xdc00 + (n - 0x1_0000) % 0x400) as u16;
        law_be16_reads_back(high);
        law_be16_reads_back(low);
        assert(bytes.take(2) =~= be16(high));
        assert(bytes.subrange(2, 4) =~= be16(low));
        assert(bytes.skip(4) =~= rest);
    }
}

/// Reading back what was written in UTF-16 gives the same text.
pub proof fn law_utf16be_reads_back(text: Seq<char>)
    ensures
        utf16be_text(utf16be(text)) == Some(text),
        utf16be(text).len() % 2 == 0,
    decreases text.len(),
{
    if text.len() > 0 {
        law_utf16be_reads_back(text.skip(1));
        lemma_utf16be_char(text[0], utf16be(text.skip(1)));
        assert(text =~= seq![text[0]] + text.skip(1));
    } else {
        assert(text =~= Seq::empty());
    }
}

/// Encodes `text` in UTF-16, most significant byte first.
pub fn encode_utf16be(text: &str) -> (bytes: Vec<u8>)
    ensures
        bytes@ == utf16be(text@),
{
    let chars = crate::text::chars_of(text);
    let mut bytes: Vec<u8> = Vec::new();
    let mut i: usize = 0;
    assert(chars@.skip(0) =~= chars@);
    assert(bytes@ + utf16be(chars@.skip(0)) =~= utf16be(text@));
    while i < chars.len()
        invariant
            i <= chars@.len(),
            bytes@ + utf16be(chars@.skip(i as int)) == utf16be(text@),
        decreases chars@.len() - i,
    {
        let ghost before = bytes@;
        let ghost left = chars@.skip(i as int);
        let n: u32 = chars[i] as u32;
        if n < 0x1_0000 {
            push_be16(&mut bytes, n as u16);
        } else {
            push_be16(&mut bytes, (0xd800 + (n - 0x1_0000) / 0x400) as u16);
            push_be16(&mut bytes, (0xdc00 + (n - 0x1_0000) % 0x400) as u16);
        }
        assert(bytes@ =~= before + utf16be_char(left[0]));
        assert(left.skip(1) =~= chars@.skip(i + 1));
        i += 1;
        assert(bytes@ + utf16be(chars@.skip(i as int)) =~= before + utf16be(left));
    }
    assert(chars@.skip(i as int) =~= Seq::<char>::empty());
    assert(bytes@ =~= utf16be(text@));
    bytes
}

/// A character of the basic plane is two bytes, the higher first, and what
/// follows it comes behind them; another character is two such pairs, which
/// give the upper and the lower ten bits of what it exceeds the plane by.
pub proof fn law_utf16_is_by_characters(c: char, rest: Seq<char>)
    ensures
        ({
            let n = c as u32;
            let bytes = utf16be(seq![c] + rest);
            if n < 0x1_0000 {
                &&& bytes.len() == 2 + utf16be(rest).len()
                &&& bytes[0] * 0x100 + bytes[1] == n
                &&& bytes.skip(2) == utf16be(rest)
            } else {
                &&& bytes.len() == 4 + utf16be(rest).len()
                &&& 0xd800 <= bytes[0] * 0x100 + bytes[1] < 0xdc00
                &&& 0xdc00 <= bytes[2] * 0x100 + bytes[3] < 0xe000
                &&& (bytes[0] * 0x100 + bytes[1] - 0xd800) * 0x400 + (bytes[2] * 0x100 + bytes[3]
                    - 0xdc00) + 0x1_0000 == n
                &&& bytes.skip(4) == utf16be(rest)
            }
        }),
        utf16be(Seq::empty()).len() == 0,
{
    let text = seq![c] + rest;
    let bytes = utf16be(text);
    assert(text[0] == c);
    assert(text.skip(1) =~= rest);
    assert(bytes == utf16be_char(c) + utf16be(rest));
    if (c as u32) < 0x1_0000 {
        assert(bytes.skip(2) =~= utf16be(rest));
    } else {
        assert(bytes.skip(4) =~= utf16be(rest));
    }
}

/// Zeros are as many as were asked for, and all zero.
pub proof fn law_zeros_are_zero(n: nat, i: int)
    requires
        0 <= i < n,
    ensures
        zeros(n).len() == n,
        zeros(n)[i] == 0,
{
}

} // verus!
