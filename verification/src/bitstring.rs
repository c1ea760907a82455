//! Bit-string literals: what their digits stand for, bit by bit, and how the
//! bits are packed into bytes.

use vstd::prelude::*;
use crate::errors::ParameterError;

verus! {

/// Value of `c` read as a digit in `base`: `0`-`9` stand for 0 to 9 and the
/// letters, in either case, for 10 to 35. `None` where `c` is no digit or its
/// value does not lie under `base`.
pub open spec fn digit_value(c: char, base: u32) -> Option<u32> {
    let v: int = if '0' <= c <= '9' {
        c as u32 - '0' as u32
    } else if 'a' <= c <= 'z' {
        c as u32 - 'a' as u32 + 10
    } else if 'A' <= c <= 'Z' {
        c as u32 - 'A' as u32 + 10
    } else {
        36
    };
    if v < base {
        Some(v as u32)
    } else {
        None
    }
}

/// Every character of `s` is a digit in `base`.
pub open spec fn all_digits(s: Seq<char>, base: u32) -> bool {
    forall|i: int| 0 <= i < s.len() ==> (#[trigger] digit_value(s[i], base)) is Some
}

/// Splits a bit-string literal into its digits and whether a completion
/// marker `_` closes it. `None` where `s` is not a run of digits in `base`
/// with at most one marker, at the very end.
pub open spec fn slice_syntax(s: Seq<char>, base: u32) -> Option<(Seq<char>, bool)> {
    if all_digits(s, base) {
        Some((s, false))
    } else if s.len() > 0 && s.last() == '_' && all_digits(s.drop_last(), base) {
        Some((s.drop_last(), true))
    } else {
        None
    }
}

/// Bit `j` of the nibble `d`, counted from the most significant (`j == 0`)
/// to the least (`j == 3`).
pub open spec fn nibble_bit(d: u32, j: int) -> bool {
    if j == 0 {
        (d / 8) % 2 == 1
    } else if j == 1 {
        (d / 4) % 2 == 1
    } else if j == 2 {
        (d / 2) % 2 == 1
    } else {
        d % 2 == 1
    }
}

/// The bits that a run of digits stands for when it starts `offset` bits into
/// its first byte: `offset` zero bits, then four bits for each digit, most
/// significant first.
pub open spec fn digit_bits(digits: Seq<char>, offset: int, base: u32) -> Seq<bool> {
    Seq::new(
        (offset + 4 * digits.len()) as nat,
        |p: int|
            p >= offset && nibble_bit(
                digit_value(digits[(p - offset) / 4], base).unwrap(),
                (p - offset) % 4,
            ),
    )
}

/// Byte `k` of a bit string packed most significant bit first; bits past the
/// end count as zero.
pub open spec fn packed_byte(bits: Seq<bool>, k: int) -> int {
    (if 8 * k < bits.len() && bits[8 * k] { 128int } else { 0 })
    + (if 8 * k + 1 < bits.len() && bits[8 * k + 1] { 64int } else { 0 })
    + (if 8 * k + 2 < bits.len() && bits[8 * k + 2] { 32int } else { 0 })
    + (if 8 * k + 3 < bits.len() && bits[8 * k + 3] { 16int } else { 0 })
    + (if 8 * k + 4 < bits.len() && bits[8 * k + 4] { 8int } else { 0 })
    + (if 8 * k + 5 < bits.len() && bits[8 * k + 5] { 4int } else { 0 })
    + (if 8 * k + 6 < bits.len() && bits[8 * k + 6] { 2int } else { 0 })
    + (if 8 * k + 7 < bits.len() && bits[8 * k + 7] { 1int } else { 0 })
}

/// A bit string packed into bytes, most significant bit first, the last byte
/// filled up with zero bits.
pub open spec fn pack_bits(bits: Seq<bool>) -> Seq<u8> {
    Seq::new(((bits.len() + 7) / 8) as nat, |k: int| packed_byte(bits, k) as u8)
}

/// The bits of a bit-string literal: those of its digits and, where no marker
/// closes the literal and the digits do not end on a byte boundary, one
/// terminator bit set behind them.
pub open spec fn slice_bits(digits: Seq<char>, offset: int, base: u32, marked: bool) -> Seq<bool> {
    let bits = digit_bits(digits, offset, base);
    if !marked && bits.len() % 8 != 0 {
        bits.push(true)
    } else {
        bits
    }
}

/// The bytes of a bit-string literal: its bits packed, but for a trailing
/// zero byte that a marked literal leaves out when it holds only padding and
/// is not the only byte.
pub open spec fn slice_bytes(digits: Seq<char>, offset: int, base: u32, marked: bool) -> Seq<u8> {
    let bits = slice_bits(digits, offset, base, marked);
    let bytes = pack_bits(bits);
    if marked && bits.len() % 8 != 0 && bytes.len() > 1 && bytes.last() == 0 {
        bytes.drop_last()
    } else {
        bytes
    }
}

/// What `parse_slice_base` returns for the characters `s`.
pub open spec fn slice_base_result(s: Seq<char>, offset: int, base: u32) -> Result<
    Seq<u8>,
    ParameterError,
> {
    match slice_syntax(s, base) {
        Some((digits, marked)) => Ok(slice_bytes(digits, offset, base, marked)),
        None => Err(ParameterError::UnexpectedType),
    }
}

/// Bit `i` of `bytes`, counted from the most significant bit of the first
/// byte.
pub open spec fn raw_bit(bytes: Seq<u8>, i: int) -> bool {
    (bytes[i / 8] >> ((7 - i % 8) as usize)) & 1 == 1
}

/// The first `n` bits of `bytes`, each byte read from its most significant
/// bit down.
pub open spec fn raw_bits(bytes: Seq<u8>, n: int) -> Seq<bool> {
    Seq::new(n as nat, |i: int| raw_bit(bytes, i))
}

/// All the bits of `bytes`.
pub open spec fn all_bits(bytes: Seq<u8>) -> Seq<bool> {
    raw_bits(bytes, 8 * (bytes.len() as int))
}

/// The bytes that a text of hexadecimal digits stands for when each pair of
/// digits is read as one byte, the high digit first.
pub open spec fn hex_pairs(s: Seq<char>) -> Seq<u8> {
    Seq::new(
        s.len() / 2,
        |i: int| (16 * digit_value(s[2 * i], 16).unwrap() + digit_value(s[2 * i + 1], 16).unwrap()) as u8,
    )
}

/// A nibble moved up or down by a few bits, as arithmetic: moved up by more
/// than four bits and cut to a byte, only its low bits stay.
pub(crate) proof fn lemma_shift_nibble(x: u32, n: u32)
    by (bit_vector)
    requires
        x < 16,
        n <= 8,
    ensures
        n == 0 ==> (x << n) == x && (x >> n) == x,
        n == 1 ==> (x << n) == 2 * x && (x >> n) == x / 2,
        n == 2 ==> (x << n) == 4 * x && (x >> n) == x / 4,
        n == 3 ==> (x << n) == 8 * x && (x >> n) == x / 8,
        n == 4 ==> (x << n) == 16 * x,
        n == 5 ==> ((x << n) as u8) as u32 == 32 * (x % 8),
        n == 6 ==> ((x << n) as u8) as u32 == 64 * (x % 4),
        n == 7 ==> ((x << n) as u8) as u32 == 128 * (x % 2),
        n == 8 ==> ((x << n) as u8) as u32 == 0,
{
}

/// Bits joined to a byte whose low bits are free add to it.
pub(crate) proof fn lemma_join(acc: u8, v: u8, m: u8)
    by (bit_vector)
    requires
        m == 1 || m == 2 || m == 4 || m == 8 || m == 16 || m == 32 || m == 64 || m == 128,
        acc % m == 0,
        v < m,
    ensures
        acc | v == acc + v,
        acc + v < 256,
{
}

/// Bits joined to an empty byte are the bits.
pub(crate) proof fn lemma_join_zero(v: u8)
    by (bit_vector)
    ensures
        0u8 | v == v,
{
}

/// The terminator bit at each place of a byte, as a number.
pub(crate) proof fn lemma_terminator(n: u8)
    by (bit_vector)
    requires
        n < 7,
    ensures
        n == 0 ==> (1u8 << n) == 1,
        n == 1 ==> (1u8 << n) == 2,
        n == 2 ==> (1u8 << n) == 4,
        n == 3 ==> (1u8 << n) == 8,
        n == 4 ==> (1u8 << n) == 16,
        n == 5 ==> (1u8 << n) == 32,
        n == 6 ==> (1u8 << n) == 64,
{
}

/// The test of one bit of a byte, as arithmetic.
proof fn lemma_bit_test(v: u8, n: u8)
    by (bit_vector)
    requires
        n < 8,
    ensures
        n == 0 ==> ((v >> n) & 1 == 1) == (v % 2 == 1),
        n == 1 ==> ((v >> n) & 1 == 1) == ((v / 2) % 2 == 1),
        n == 2 ==> ((v >> n) & 1 == 1) == ((v / 4) % 2 == 1),
        n == 3 ==> ((v >> n) & 1 == 1) == ((v / 8) % 2 == 1),
        n == 4 ==> ((v >> n) & 1 == 1) == ((v / 16) % 2 == 1),
        n == 5 ==> ((v >> n) & 1 == 1) == ((v / 32) % 2 == 1),
        n == 6 ==> ((v >> n) & 1 == 1) == ((v / 64) % 2 == 1),
        n == 7 ==> ((v >> n) & 1 == 1) == ((v / 128) % 2 == 1),
{
}

/// The value of a nibble is the sum of its four bits.
proof fn lemma_nibble_bits(x: u32)
    requires
        x < 16,
    ensures
        x == (if nibble_bit(x, 0) { 8int } else { 0 }) + (if nibble_bit(x, 1) { 4int } else { 0 }) + (
        if nibble_bit(x, 2) { 2int } else { 0 }) + (if nibble_bit(x, 3) { 1int } else { 0 }),
        x / 2 == (if nibble_bit(x, 0) { 4int } else { 0 }) + (if nibble_bit(x, 1) { 2int } else { 0 })
            + (if nibble_bit(x, 2) { 1int } else { 0 }),
        x / 4 == (if nibble_bit(x, 0) { 2int } else { 0 }) + (if nibble_bit(x, 1) { 1int } else { 0 }),
        x / 8 == (if nibble_bit(x, 0) { 1int } else { 0 }),
        x % 2 == (if nibble_bit(x, 3) { 1int } else { 0 }),
        x % 4 == (if nibble_bit(x, 2) { 2int } else { 0 }) + (if nibble_bit(x, 3) { 1int } else { 0 }),
        x % 8 == (if nibble_bit(x, 1) { 4int } else { 0 }) + (if nibble_bit(x, 2) { 2int } else { 0 })
            + (if nibble_bit(x, 3) { 1int } else { 0 }),
{
}

/// How the bits of `digits` with one more digit relate to those without it.
pub(crate) proof fn lemma_push_digit_bits(digits: Seq<char>, ch: char, offset: int, base: u32)
    requires
        0 <= offset < 8,
        digit_value(ch, base) is Some,
    ensures
        ({
            let s = digit_bits(digits, offset, base);
            let t = digit_bits(digits.push(ch), offset, base);
            let x = digit_value(ch, base).unwrap();
            &&& s.len() == offset + 4 * digits.len()
            &&& t.len() == s.len() + 4
            &&& forall|p: int| 0 <= p < s.len() ==> t[p] == s[p]
            &&& t[s.len() as int] == nibble_bit(x, 0)
            &&& t[s.len() as int + 1] == nibble_bit(x, 1)
            &&& t[s.len() as int + 2] == nibble_bit(x, 2)
            &&& t[s.len() as int + 3] == nibble_bit(x, 3)
        }),
{
    let s = digit_bits(digits, offset, base);
    let t = digit_bits(digits.push(ch), offset, base);
    let x = digit_value(ch, base).unwrap();
    let n = digits.len() as int;
    assert forall|p: int| 0 <= p < s.len() implies t[p] == s[p] by {
        if p >= offset {
            assert(digits.push(ch)[(p - offset) / 4] == digits[(p - offset) / 4]);
        }
    }
    assert forall|j: int| 0 <= j < 4 implies t[offset + 4 * n + j] == nibble_bit(x, j) by {
        assert((4 * n + j) / 4 == n);
        assert((4 * n + j) % 4 == j);
        assert(digits.push(ch)[n] == ch);
    }
    assert(t[offset + 4 * n + 0] == nibble_bit(x, 0));
    assert(t[offset + 4 * n + 1] == nibble_bit(x, 1));
    assert(t[offset + 4 * n + 2] == nibble_bit(x, 2));
    assert(t[offset + 4 * n + 3] == nibble_bit(x, 3));
}

/// Four more bits behind a bit string: the full bytes stay, the byte in
/// progress takes the high bits of the nibble and the next byte its low bits.
pub(crate) proof fn lemma_extend_bytes(s: Seq<bool>, t: Seq<bool>, k: int, b: int, x: u32)
    requires
        0 <= k,
        0 <= b < 8,
        s.len() == 8 * k + b,
        t.len() == s.len() + 4,
        x < 16,
        forall|p: int| 0 <= p < s.len() ==> t[p] == s[p],
        t[8 * k + b] == nibble_bit(x, 0),
        t[8 * k + b + 1] == nibble_bit(x, 1),
        t[8 * k + b + 2] == nibble_bit(x, 2),
        t[8 * k + b + 3] == nibble_bit(x, 3),
    ensures
        forall|j: int| 0 <= j < k ==> #[trigger] packed_byte(t, j) == packed_byte(s, j),
        b == 0 ==> packed_byte(s, k) == 0 && packed_byte(t, k) == 16 * x,
        b == 1 ==> packed_byte(s, k) % 128 == 0 && packed_byte(t, k) == packed_byte(s, k) + 8 * x,
        b == 2 ==> packed_byte(s, k) % 64 == 0 && packed_byte(t, k) == packed_byte(s, k) + 4 * x,
        b == 3 ==> packed_byte(s, k) % 32 == 0 && packed_byte(t, k) == packed_byte(s, k) + 2 * x,
        b == 4 ==> packed_byte(s, k) % 16 == 0 && packed_byte(t, k) == packed_byte(s, k) + x
            && packed_byte(t, k + 1) == 0,
        b == 5 ==> packed_byte(s, k) % 8 == 0 && packed_byte(t, k) == packed_byte(s, k) + x / 2
            && packed_byte(t, k + 1) == 128 * (x % 2),
        b == 6 ==> packed_byte(s, k) % 4 == 0 && packed_byte(t, k) == packed_byte(s, k) + x / 4
            && packed_byte(t, k + 1) == 64 * (x % 4),
        b == 7 ==> packed_byte(s, k) % 2 == 0 && packed_byte(t, k) == packed_byte(s, k) + x / 8
            && packed_byte(t, k + 1) == 32 * (x % 8),
        0 <= packed_byte(s, k) < 256,
{
    lemma_nibble_bits(x);
}

/// A byte packed from the bits of two nibbles is sixteen times the first
/// nibble and the second.
proof fn lemma_byte_of_nibbles(bits: Seq<bool>, k: int, high: u32, low: u32)
    requires
        0 <= k,
        8 * k + 8 <= bits.len(),
        high < 16,
        low < 16,
        bits[8 * k] == nibble_bit(high, 0),
        bits[8 * k + 1] == nibble_bit(high, 1),
        bits[8 * k + 2] == nibble_bit(high, 2),
        bits[8 * k + 3] == nibble_bit(high, 3),
        bits[8 * k + 4] == nibble_bit(low, 0),
        bits[8 * k + 5] == nibble_bit(low, 1),
        bits[8 * k + 6] == nibble_bit(low, 2),
        bits[8 * k + 7] == nibble_bit(low, 3),
    ensures
        packed_byte(bits, k) == 16 * high + low,
{
    lemma_nibble_bits(high);
    lemma_nibble_bits(low);
}

/// Bit `j` of digit `i` among the bits of a run of digits without offset.
proof fn lemma_digit_bit(s: Seq<char>, base: u32, i: int, j: int)
    requires
        0 <= i < s.len(),
        0 <= j < 4,
    ensures
        digit_bits(s, 0, base)[4 * i + j] == nibble_bit(digit_value(s[i], base).unwrap(), j),
{
    assert((4 * i + j) / 4 == i);
    assert((4 * i + j) % 4 == j);
}

/// A byte packed from bits gives each of its bits back when it is read bit
/// by bit.
proof fn lemma_packed_bit(bits: Seq<bool>, k: int, j: int)
    requires
        0 <= k,
        0 <= j < 8,
        8 * k + j < bits.len(),
    ensures
        0 <= packed_byte(bits, k) < 256,
        (((packed_byte(bits, k) as u8) >> ((7 - j) as usize)) & 1 == 1) == bits[8 * k + j],
{
    let v = packed_byte(bits, k) as u8;
    lemma_bit_test(v, (7 - j) as u8);
}

/// A bit-string literal of an even number of hexadecimal digits, without
/// marker and without offset, stands for the bytes that its pairs of digits
/// spell, and for no more.
pub proof fn lemma_whole_bytes(s: Seq<char>)
    requires
        all_digits(s, 16),
        s.len() % 2 == 0,
    ensures
        slice_base_result(s, 0, 16) == Ok::<Seq<u8>, ParameterError>(hex_pairs(s)),
{
    let bits = digit_bits(s, 0, 16);
    assert(bits.len() == 4 * s.len());
    assert(slice_bits(s, 0, 16, false) == bits);
    let bytes = pack_bits(bits);
    assert(bytes.len() == s.len() / 2);
    assert forall|k: int| 0 <= k < bytes.len() implies bytes[k] == hex_pairs(s)[k] by {
        let high = digit_value(s[2 * k], 16).unwrap();
        let low = digit_value(s[2 * k + 1], 16).unwrap();
        lemma_digit_bit(s, 16, 2 * k, 0);
        lemma_digit_bit(s, 16, 2 * k, 1);
        lemma_digit_bit(s, 16, 2 * k, 2);
        lemma_digit_bit(s, 16, 2 * k, 3);
        lemma_digit_bit(s, 16, 2 * k + 1, 0);
        lemma_digit_bit(s, 16, 2 * k + 1, 1);
        lemma_digit_bit(s, 16, 2 * k + 1, 2);
        lemma_digit_bit(s, 16, 2 * k + 1, 3);
        lemma_byte_of_nibbles(bits, k, high, low);
    }
    assert(bytes =~= hex_pairs(s));
    assert(slice_syntax(s, 16) == Some((s, false)));
}

/// Bits that are packed into bytes and read back from the bytes are the
/// same bits: what a bit-string literal packs, a cell takes bit for bit.
pub proof fn lemma_packed_bits_read_back(bits: Seq<bool>)
    ensures
        raw_bits(pack_bits(bits), bits.len() as int) == bits,
{
    let bytes = pack_bits(bits);
    assert forall|p: int| 0 <= p < bits.len() implies raw_bit(bytes, p) == bits[p] by {
        lemma_packed_bit(bits, p / 8, p % 8);
    }
    assert(raw_bits(bytes, bits.len() as int) =~= bits);
}

} // verus!
