//! Parsers for the textual operands of instructions.

use vstd::prelude::*;
use vstd::slice::{slice_subrange, slice_to_vec};
use vstd::string::StringSliceAdditionalSpecFns;
use crate::bitstring::{
    digit_bits, digit_value, lemma_extend_bytes, lemma_join, lemma_join_zero, lemma_push_digit_bits,
    lemma_shift_nibble, lemma_terminator, pack_bits, packed_byte, slice_base_result, slice_bytes,
    slice_syntax, all_digits,
};
use crate::errors::ParameterError;
use crate::numeral::{integer_value, is_integer, typed_integer};

verus! {

/// `char::to_digit` of std: the value of `c` as a digit in `base`, which std
/// documents as `0-9`, `a-z`, `A-Z` with values 0 to 35, and `None` for any
/// other character or a value not under the base. std panics on a base
/// outside 2 to 36.
#[verifier::external_body]
fn to_digit(c: char, base: u32) -> (r: Option<u32>)
    requires
        2 <= base <= 36,
    ensures
        r == digit_value(c, base),
{
    c.to_digit(base)
}

/// Relates what the parser holds after the digits `digits` to their bits: the
/// bytes that are full, the byte in progress and the count of its bits.
#[verifier::opaque]
spec fn packing(digits: Seq<char>, offset: int, base: u32, data: Seq<u8>, acc: u8, bits: usize) -> bool {
    let s = digit_bits(digits, offset, base);
    &&& bits == s.len() % 8
    &&& data.len() == s.len() / 8
    &&& forall|j: int| 0 <= j < data.len() ==> data[j] == #[trigger] packed_byte(s, j)
    &&& acc == packed_byte(s, data.len() as int)
}

/// A digit that fits into the byte in progress.
proof fn lemma_step_high(
    digits: Seq<char>,
    ch: char,
    offset: int,
    base: u32,
    data: Seq<u8>,
    acc: u8,
    bits: usize,
)
    requires
        0 <= offset < 8,
        2 <= base <= 16,
        digit_value(ch, base) is Some,
        packing(digits, offset, base, data, acc, bits),
        bits < 4,
    ensures
        packing(
            digits.push(ch),
            offset,
            base,
            data,
            acc | ((digit_value(ch, base).unwrap() << (4 - bits) as usize) as u8),
            (bits + 4) as usize,
        ),
{
    reveal(packing);
    let x = digit_value(ch, base).unwrap();
    let s = digit_bits(digits, offset, base);
    let t = digit_bits(digits.push(ch), offset, base);
    lemma_push_digit_bits(digits, ch, offset, base);
    lemma_extend_bytes(s, t, data.len() as int, bits as int, x);
    lemma_shift_nibble(x, (4 - bits) as u32);
    let v = (x << (4 - bits) as usize) as u8;
    if bits == 0 {
        lemma_join_zero(v);
    } else if bits == 1 {
        lemma_join(acc, v, 128);
    } else if bits == 2 {
        lemma_join(acc, v, 64);
    } else {
        lemma_join(acc, v, 32);
    }
}

/// A digit that fills the byte in progress and begins the next.
proof fn lemma_step_low(
    digits: Seq<char>,
    ch: char,
    offset: int,
    base: u32,
    data: Seq<u8>,
    acc: u8,
    bits: usize,
)
    requires
        0 <= offset < 8,
        2 <= base <= 16,
        digit_value(ch, base) is Some,
        packing(digits, offset, base, data, acc, bits),
        4 <= bits < 8,
    ensures
        packing(
            digits.push(ch),
            offset,
            base,
            data.push(acc | (digit_value(ch, base).unwrap() as u8 >> (bits - 4) as usize)),
            (digit_value(ch, base).unwrap() << (12 - bits) as usize) as u8,
            (bits - 4) as usize,
        ),
{
    reveal(packing);
    let x = digit_value(ch, base).unwrap();
    let s = digit_bits(digits, offset, base);
    let t = digit_bits(digits.push(ch), offset, base);
    lemma_push_digit_bits(digits, ch, offset, base);
    lemma_extend_bytes(s, t, data.len() as int, bits as int, x);
    lemma_shift_nibble(x, (bits - 4) as u32);
    lemma_shift_nibble(x, (12 - bits) as u32);
    let v = x as u8 >> (bits - 4) as usize;
    if bits == 4 {
        lemma_join(acc, v, 16);
    } else if bits == 5 {
        lemma_join(acc, v, 8);
    } else if bits == 6 {
        lemma_join(acc, v, 4);
    } else {
        lemma_join(acc, v, 2);
    }
    let byte = acc | v;
    let data2 = data.push(byte);
    assert forall|j: int| 0 <= j < data2.len() implies data2[j] == #[trigger] packed_byte(t, j) by {
        if j < data.len() {
            assert(data2[j] == data[j]);
        }
    }
}

/// The bytes of a literal whose bits end on a byte boundary.
proof fn lemma_finish_aligned(
    digits: Seq<char>,
    offset: int,
    base: u32,
    marked: bool,
    data: Seq<u8>,
    acc: u8,
)
    requires
        packing(digits, offset, base, data, acc, 0),
    ensures
        data == slice_bytes(digits, offset, base, marked),
{
    reveal(packing);
    assert(data =~= slice_bytes(digits, offset, base, marked));
}

/// The bytes of a marked literal whose bits end inside a byte.
proof fn lemma_finish_marked(
    digits: Seq<char>,
    offset: int,
    base: u32,
    data: Seq<u8>,
    acc: u8,
    bits: usize,
)
    requires
        packing(digits, offset, base, data, acc, bits),
        0 < bits < 8,
    ensures
        slice_bytes(digits, offset, base, true) == if acc != 0 || data.len() == 0 {
            data.push(acc)
        } else {
            data
        },
{
    reveal(packing);
    let s = digit_bits(digits, offset, base);
    assert(pack_bits(s) =~= data.push(acc));
    assert(data.push(acc).drop_last() =~= data);
}

/// The bytes of an unmarked literal whose bits end inside a byte.
proof fn lemma_finish_unmarked(
    digits: Seq<char>,
    offset: int,
    base: u32,
    data: Seq<u8>,
    acc: u8,
    bits: usize,
)
    requires
        packing(digits, offset, base, data, acc, bits),
        0 < bits < 8,
    ensures
        (acc | (1u8 << (7 - bits) as usize)) != 0,
        slice_bytes(digits, offset, base, false) == data.push(acc | (1u8 << (7 - bits) as usize)),
{
    reveal(packing);
    let s = digit_bits(digits, offset, base);
    let t = s.push(true);
    let k = data.len() as int;
    lemma_terminator((7 - bits) as u8);
    let v = 1u8 << (7 - bits) as usize;
    if bits == 1 {
        lemma_join(acc, v, 128);
    } else if bits == 2 {
        lemma_join(acc, v, 64);
    } else if bits == 3 {
        lemma_join(acc, v, 32);
    } else if bits == 4 {
        lemma_join(acc, v, 16);
    } else if bits == 5 {
        lemma_join(acc, v, 8);
    } else if bits == 6 {
        lemma_join(acc, v, 4);
    } else {
        lemma_join(acc, v, 2);
    }
    assert forall|j: int| 0 <= j < k implies #[trigger] packed_byte(t, j) == packed_byte(s, j) by {}
    assert(pack_bits(t) =~= data.push(acc | v));
}

/// Parses a bit-string literal: digits in `base`, at most 16, each standing
/// for four bits, with an optional completion marker `_` at the end. The
/// bits are packed most significant first, starting `bits` bits into the
/// first byte. Where no marker closes the literal and the bits do not end on
/// a byte boundary, a terminator bit is set behind them. With a marker, a
/// last byte that holds only zero padding is left out unless it is the only
/// one.
///
/// Any other character, and any character behind the marker, is an
/// `UnexpectedType` error.
pub fn parse_slice_base(input: &str, bits: usize, base: u32) -> (result: Result<
    Vec<u8>,
    ParameterError,
>)
    requires
        bits < 8,
        2 <= base <= 16,
    ensures
        result matches Ok(data) ==> slice_base_result(input@, bits as int, base) == Ok::<
            Seq<u8>,
            ParameterError,
        >(data@),
        result matches Err(e) ==> slice_base_result(input@, bits as int, base) == Err::<
            Seq<u8>,
            ParameterError,
        >(e),
{
    let ghost offset = bits as int;
    let mut bits = bits;
    let mut acc: u8 = 0;
    let mut data: Vec<u8> = Vec::new();
    let mut completion_tag = false;
    proof {
        reveal(packing);
        assert(input@.take(0) =~= Seq::<char>::empty());
    }
    let chars = input.chars();
    for ch in it: chars
        invariant
            it.seq() == input@,
            2 <= base <= 16,
            0 <= offset < 8,
            bits < 8,
            completion_tag ==> it.index() >= 1 && input@[it.index() - 1] == '_' && all_digits(
                input@.take(it.index() - 1),
                base,
            ),
            !completion_tag ==> all_digits(input@.take(it.index()), base),
            packing(
                input@.take(if completion_tag { it.index() - 1 } else { it.index() }),
                offset,
                base,
                data@,
                acc,
                bits,
            ),
    {
        let ghost k = it.index();
        let ghost digits = input@.take(k);
        if completion_tag {
            proof {
                assert(digit_value(input@[k - 1], base) is None);
                assert(input@.drop_last()[k - 1] == input@[k - 1]);
            }
            return Err(ParameterError::UnexpectedType);
        }
        match to_digit(ch, base) {
            Some(x) => {
                proof {
                    assert(input@.take(k + 1) =~= digits.push(ch));
                    assert forall|i: int| 0 <= i < k + 1 implies (#[trigger] digit_value(
                        input@.take(k + 1)[i],
                        base,
                    )) is Some by {
                        if i < k {
                            assert(digits[i] == input@.take(k + 1)[i]);
                        }
                    }
                }
                if bits < 4 {
                    proof {
                        lemma_step_high(digits, ch, offset, base, data@, acc, bits);
                    }
                    acc |= (x << (4 - bits)) as u8;
                    bits += 4;
                } else {
                    proof {
                        lemma_step_low(digits, ch, offset, base, data@, acc, bits);
                    }
                    data.push(acc | (x as u8 >> (bits - 4)));
                    acc = (x << (12 - bits)) as u8;
                    bits -= 4;
                }
            },
            None => {
                if ch == '_' {
                    completion_tag = true
                } else {
                    proof {
                        assert(digit_value(input@[k], base) is None);
                        if k < input@.len() - 1 {
                            assert(input@.drop_last()[k] == input@[k]);
                        }
                    }
                    return Err(ParameterError::UnexpectedType);
                }
            },
        }
    }
    let ghost n = input@.len() as int;
    let ghost digits = if completion_tag { input@.drop_last() } else { input@ };
    proof {
        assert(input@.take(n) =~= input@);
        assert(input@.take(n - 1) =~= input@.drop_last());
        if completion_tag {
            assert(digit_value(input@[n - 1], base) is None);
        }
        assert(slice_syntax(input@, base) == Some((digits, completion_tag)));
    }
    if bits != 0 {
        if !completion_tag {
            proof {
                lemma_finish_unmarked(digits, offset, base, data@, acc, bits);
            }
            acc |= 1 << (7 - bits);
        } else {
            proof {
                lemma_finish_marked(digits, offset, base, data@, acc, bits);
            }
        }
        if acc != 0 || data.is_empty() {
            data.push(acc);
        }
    } else {
        proof {
            lemma_finish_aligned(digits, offset, base, completion_tag, data@, acc);
        }
    }
    Ok(data)
}

/// The integer types that operands are read as.
#[derive(Clone, Copy, Debug, PartialEq, Eq, Structural)]
pub enum NumberType {
    U8,
    U16,
    I8,
    I16,
    I32,
}

impl NumberType {
    /// Whether the type has negative values, and so takes a `-` sign.
    pub open spec fn signed(self) -> bool {
        self is I8 || self is I16 || self is I32
    }

    /// The least value of the type.
    pub open spec fn min(self) -> int {
        match self {
            NumberType::U8 => 0,
            NumberType::U16 => 0,
            NumberType::I8 => -0x80,
            NumberType::I16 => -0x8000,
            NumberType::I32 => -0x8000_0000,
        }
    }

    /// The greatest value of the type.
    pub open spec fn max(self) -> int {
        match self {
            NumberType::U8 => 0xff,
            NumberType::U16 => 0xffff,
            NumberType::I8 => 0x7f,
            NumberType::I16 => 0x7fff,
            NumberType::I32 => 0x7fff_ffff,
        }
    }
}

/// `<u8 as num::Num>::from_str_radix` with radix 10, which hands the text to
/// `u8::from_str_radix` of std: an optional `+` and decimal digits give their
/// value where it fits in a `u8`; anything else is an error, here `None`.
#[verifier::external_body]
fn parse_u8(s: &str) -> (r: Option<u8>)
    ensures
        r matches Some(v) ==> typed_integer(s@, false, 0, 0xff) == Some(v as int),
        r is None ==> typed_integer(s@, false, 0, 0xff) is None,
{
    <u8 as num::Num>::from_str_radix(s, 10).ok()
}

/// `<u16 as num::Num>::from_str_radix` with radix 10, which hands the text to
/// `u16::from_str_radix` of std: an optional `+` and decimal digits give
/// their value where it fits in a `u16`; anything else is an error, here
/// `None`.
#[verifier::external_body]
fn parse_u16(s: &str) -> (r: Option<u16>)
    ensures
        r matches Some(v) ==> typed_integer(s@, false, 0, 0xffff) == Some(v as int),
        r is None ==> typed_integer(s@, false, 0, 0xffff) is None,
{
    <u16 as num::Num>::from_str_radix(s, 10).ok()
}

/// `<i8 as num::Num>::from_str_radix` with radix 10, which hands the text to
/// `i8::from_str_radix` of std: an optional `+` or `-` and decimal digits
/// give their value where it fits in an `i8`; anything else is an error,
/// here `None`.
#[verifier::external_body]
fn parse_i8(s: &str) -> (r: Option<i8>)
    ensures
        r matches Some(v) ==> typed_integer(s@, true, -0x80, 0x7f) == Some(v as int),
        r is None ==> typed_integer(s@, true, -0x80, 0x7f) is None,
{
    <i8 as num::Num>::from_str_radix(s, 10).ok()
}

/// `<i16 as num::Num>::from_str_radix` with radix 10, which hands the text to
/// `i16::from_str_radix` of std: an optional `+` or `-` and decimal digits
/// give their value where it fits in an `i16`; anything else is an error,
/// here `None`.
#[verifier::external_body]
fn parse_i16(s: &str) -> (r: Option<i16>)
    ensures
        r matches Some(v) ==> typed_integer(s@, true, -0x8000, 0x7fff) == Some(v as int),
        r is None ==> typed_integer(s@, true, -0x8000, 0x7fff) is None,
{
    <i16 as num::Num>::from_str_radix(s, 10).ok()
}

/// `<i32 as num::Num>::from_str_radix` with radix 10, which hands the text to
/// `i32::from_str_radix` of std: an optional `+` or `-` and decimal digits
/// give their value where it fits in an `i32`; anything else is an error,
/// here `None`.
#[verifier::external_body]
fn parse_i32(s: &str) -> (r: Option<i32>)
    ensures
        r matches Some(v) ==> typed_integer(s@, true, -0x8000_0000, 0x7fff_ffff) == Some(v as int),
        r is None ==> typed_integer(s@, true, -0x8000_0000, 0x7fff_ffff) is None,
{
    <i32 as num::Num>::from_str_radix(s, 10).ok()
}

/// `isize::from_str_radix` of std with radix 10: an optional `+` or `-` and
/// decimal digits give their value where it fits in an `isize`; anything else
/// is an error, here `None`.
#[verifier::external_body]
fn parse_isize(s: &str) -> (r: Option<isize>)
    ensures
        r matches Some(v) ==> typed_integer(s@, true, isize::MIN as int, isize::MAX as int) == Some(
            v as int,
        ),
        r is None ==> typed_integer(s@, true, isize::MIN as int, isize::MAX as int) is None,
{
    isize::from_str_radix(s, 10).ok()
}

/// One end of a range of integers.
#[derive(Clone, Copy, Debug, PartialEq, Eq, Structural)]
pub enum Bound {
    /// The range reaches the value and holds it.
    Included(i32),
    /// The range reaches the value and leaves it out.
    Excluded(i32),
    /// The range has no end on this side.
    Unbounded,
}

impl Bound {
    /// Whether a range that starts with `self` reaches down to `v`.
    pub open spec fn starts_by(self, v: int) -> bool {
        match self {
            Bound::Included(min) => min <= v,
            Bound::Excluded(min) => min < v,
            Bound::Unbounded => true,
        }
    }

    /// Whether a range that ends with `self` reaches up to `v`.
    pub open spec fn ends_by(self, v: int) -> bool {
        match self {
            Bound::Included(max) => v <= max,
            Bound::Excluded(max) => v < max,
            Bound::Unbounded => true,
        }
    }
}

/// What `parse_range` returns for the characters `s`: the integer that `s`
/// denotes where it lies in the type `ty` and in the range from `start` to
/// `end`; `OutOfRange` for any other integer, however large; and
/// `UnexpectedType` for text that is no integer. A `-` before zero denotes
/// zero, on a type without negative values too.
pub open spec fn range_result(s: Seq<char>, ty: NumberType, start: Bound, end: Bound) -> Result<
    int,
    ParameterError,
> {
    match integer_value(s, true) {
        Some(v) => if ty.min() <= v <= ty.max() && start.starts_by(v) && end.ends_by(v) {
            Ok(v)
        } else {
            Err(ParameterError::OutOfRange)
        },
        None => Err(ParameterError::UnexpectedType),
    }
}

/// Reads integer text as a `u8` widened to `i32`. `None` where the integer
/// is no `u8`.
fn read_u8(par: &str) -> (value: Option<i32>)
    requires
        integer_value(par@, true) is Some,
    ensures
        value matches Some(v) ==> integer_value(par@, true) == Some(v as int) && 0 <= v <= 0xff,
        value is None ==> !(0 <= integer_value(par@, true).unwrap() <= 0xff),
{
    match parse_u8(par) {
        Some(v) => Some(v as i32),
        None => {
            // A type without negative values takes no `-`: the digits are
            // read alone, and stand for zero or for a negative integer.
            if par.get_char(0) == '-' {
                match parse_u8(par.substring_char(1, par.unicode_len())) {
                    Some(magnitude) => if magnitude == 0 {
                        Some(0)
                    } else {
                        None
                    },
                    None => None,
                }
            } else {
                None
            }
        },
    }
}

/// Reads integer text as a `u16` widened to `i32`. `None` where the integer
/// is no `u16`.
fn read_u16(par: &str) -> (value: Option<i32>)
    requires
        integer_value(par@, true) is Some,
    ensures
        value matches Some(v) ==> integer_value(par@, true) == Some(v as int) && 0 <= v <= 0xffff,
        value is None ==> !(0 <= integer_value(par@, true).unwrap() <= 0xffff),
{
    match parse_u16(par) {
        Some(v) => Some(v as i32),
        None => {
            // A type without negative values takes no `-`: the digits are
            // read alone, and stand for zero or for a negative integer.
            if par.get_char(0) == '-' {
                match parse_u16(par.substring_char(1, par.unicode_len())) {
                    Some(magnitude) => if magnitude == 0 {
                        Some(0)
                    } else {
                        None
                    },
                    None => None,
                }
            } else {
                None
            }
        },
    }
}

/// Parses a base-10 integer of type `ty` that must lie in the range from
/// `start` to `end`.
///
/// Text that is no integer is an `UnexpectedType` error. An integer outside
/// the range is `OutOfRange`, one too large for the type as well.
pub fn parse_range(par: &str, ty: NumberType, start: Bound, end: Bound) -> (result: Result<
    i32,
    ParameterError,
>)
    ensures
        result matches Ok(v) ==> range_result(par@, ty, start, end) == Ok::<int, ParameterError>(
            v as int,
        ),
        result matches Err(e) ==> range_result(par@, ty, start, end) == Err::<int, ParameterError>(
            e,
        ),
{
    if !is_integer(par) {
        return Err(ParameterError::UnexpectedType);
    }
    let parsed: Option<i32> = match ty {
        NumberType::U8 => read_u8(par),
        NumberType::U16 => read_u16(par),
        NumberType::I8 => match parse_i8(par) {
            Some(v) => Some(v as i32),
            None => None,
        },
        NumberType::I16 => match parse_i16(par) {
            Some(v) => Some(v as i32),
            None => None,
        },
        NumberType::I32 => parse_i32(par),
    };
    match parsed {
        Some(value) => {
            match start {
                Bound::Included(min) => {
                    if value < min {
                        return Err(ParameterError::OutOfRange);
                    }
                },
                Bound::Excluded(min_excluded) => {
                    if value <= min_excluded {
                        return Err(ParameterError::OutOfRange);
                    }
                },
                Bound::Unbounded => {},
            }
            match end {
                Bound::Included(max) => {
                    if value > max {
                        return Err(ParameterError::OutOfRange);
                    }
                },
                Bound::Excluded(max_excluded) => {
                    if value >= max_excluded {
                        return Err(ParameterError::OutOfRange);
                    }
                },
                Bound::Unbounded => {},
            }
            Ok(value)
        },
        // An integer that the type cannot hold lies outside every range of it.
        None => Err(ParameterError::OutOfRange),
    }
}

/// Reads `s` as a base-10 integer that must lie between `lo` and `hi`, both
/// included: the integer, or `UnexpectedType` where `s` is no integer, or
/// `OutOfRange` where the integer lies outside, however far.
pub open spec fn number_in(s: Seq<char>, lo: int, hi: int) -> Result<int, ParameterError> {
    match integer_value(s, true) {
        Some(v) => if lo <= v <= hi {
            Ok(v)
        } else {
            Err(ParameterError::OutOfRange)
        },
        None => Err(ParameterError::UnexpectedType),
    }
}

/// Parses a 2-bit unsigned integer value.
pub fn parse_const_u2(par: &str) -> (result: Result<u8, ParameterError>)
    ensures
        result == match number_in(par@, 0, 3) {
            Ok(v) => Ok::<u8, ParameterError>(v as u8),
            Err(e) => Err(e),
        },
{
    match parse_range(par, NumberType::U8, Bound::Included(0), Bound::Excluded(4)) {
        Ok(e) => Ok(e as u8),
        Err(e) => Err(e),
    }
}

/// Parses a 4-bit integer in `[-1, 14]`, with `-1` returned as `15`.
pub fn parse_const_i4(par: &str) -> (result: Result<u8, ParameterError>)
    ensures
        result == match number_in(par@, -1, 14) {
            Ok(v) => Ok::<u8, ParameterError>(
                if v == -1 {
                    15u8
                } else {
                    v as u8
                },
            ),
            Err(e) => Err(e),
        },
{
    match parse_range(par, NumberType::I8, Bound::Included(-1), Bound::Included(14)) {
        Ok(e) => {
            assert((e & 0x0F) == (if e == -1 { 15i32 } else { e })) by (bit_vector)
                requires
                    -1 <= e <= 14,
            ;
            Ok((e & 0x0F) as u8)
        },
        Err(e) => Err(e),
    }
}

/// Parses a 4-bit unsigned integer value.
pub fn parse_const_u4(par: &str) -> (result: Result<u8, ParameterError>)
    ensures
        result == match number_in(par@, 0, 15) {
            Ok(v) => Ok::<u8, ParameterError>(v as u8),
            Err(e) => Err(e),
        },
{
    match parse_range(par, NumberType::U8, Bound::Included(0), Bound::Included(15)) {
        Ok(e) => Ok(e as u8),
        Err(e) => Err(e),
    }
}

/// Parses an integer in `[1, 16]` and subtracts one (result is in `[0, 15]`).
pub fn parse_const_u4_plus_one(par: &str) -> (result: Result<u8, ParameterError>)
    ensures
        result == match number_in(par@, 1, 16) {
            Ok(v) => Ok::<u8, ParameterError>((v - 1) as u8),
            Err(e) => Err(e),
        },
{
    match parse_range(par, NumberType::U8, Bound::Included(1), Bound::Included(16)) {
        Ok(e) => Ok((e - 1) as u8),
        Err(e) => Err(e),
    }
}

/// Parses an integer in `[2, 17]` and subtracts two (result is in `[0, 15]`).
pub fn parse_const_u4_plus_two(par: &str) -> (result: Result<u8, ParameterError>)
    ensures
        result == match number_in(par@, 2, 17) {
            Ok(v) => Ok::<u8, ParameterError>((v - 2) as u8),
            Err(e) => Err(e),
        },
{
    match parse_range(par, NumberType::U8, Bound::Included(2), Bound::Included(17)) {
        Ok(e) => Ok((e - 2) as u8),
        Err(e) => Err(e),
    }
}

/// Parses a 4-bit unsigned integer value in `[0, 14]`.
pub fn parse_const_u4_14(par: &str) -> (result: Result<u8, ParameterError>)
    ensures
        result == match number_in(par@, 0, 14) {
            Ok(v) => Ok::<u8, ParameterError>(v as u8),
            Err(e) => Err(e),
        },
{
    match parse_range(par, NumberType::I8, Bound::Included(0), Bound::Included(14)) {
        Ok(e) => Ok(e as u8),
        Err(e) => Err(e),
    }
}

/// Parses a 4-bit unsigned integer value in `[1, 14]`.
pub fn parse_const_u4_1_14(par: &str) -> (result: Result<u8, ParameterError>)
    ensures
        result == match number_in(par@, 1, 14) {
            Ok(v) => Ok::<u8, ParameterError>(v as u8),
            Err(e) => Err(e),
        },
{
    match parse_range(par, NumberType::I8, Bound::Included(1), Bound::Included(14)) {
        Ok(e) => Ok(e as u8),
        Err(e) => Err(e),
    }
}

/// Parses a 4-bit unsigned integer value in `[1, 16]`.
pub fn parse_const_u4_nonzero(par: &str) -> (result: Result<u8, ParameterError>)
    ensures
        result == match number_in(par@, 1, 16) {
            Ok(v) => Ok::<u8, ParameterError>(v as u8),
            Err(e) => Err(e),
        },
{
    match parse_range(par, NumberType::U8, Bound::Included(1), Bound::Included(16)) {
        Ok(e) => Ok(e as u8),
        Err(e) => Err(e),
    }
}

/// Parses a 5-bit unsigned integer value.
pub fn parse_const_u5(par: &str) -> (result: Result<u8, ParameterError>)
    ensures
        result == match number_in(par@, 0, 31) {
            Ok(v) => Ok::<u8, ParameterError>(v as u8),
            Err(e) => Err(e),
        },
{
    match parse_range(par, NumberType::U8, Bound::Included(0), Bound::Excluded(32)) {
        Ok(e) => Ok(e as u8),
        Err(e) => Err(e),
    }
}

/// Parses a 10-bit unsigned integer value.
pub fn parse_const_u10(par: &str) -> (result: Result<u16, ParameterError>)
    ensures
        result == match number_in(par@, 0, 1023) {
            Ok(v) => Ok::<u16, ParameterError>(v as u16),
            Err(e) => Err(e),
        },
{
    match parse_range(par, NumberType::U16, Bound::Included(0), Bound::Excluded(1024)) {
        Ok(e) => Ok(e as u16),
        Err(e) => Err(e),
    }
}

/// Parses an 11-bit unsigned integer value.
pub fn parse_const_u11(par: &str) -> (result: Result<u16, ParameterError>)
    ensures
        result == match number_in(par@, 0, 2047) {
            Ok(v) => Ok::<u16, ParameterError>(v as u16),
            Err(e) => Err(e),
        },
{
    match parse_range(par, NumberType::U16, Bound::Included(0), Bound::Excluded(2048)) {
        Ok(e) => Ok(e as u16),
        Err(e) => Err(e),
    }
}

/// Parses a 14-bit unsigned integer value.
pub fn parse_const_u14(par: &str) -> (result: Result<u16, ParameterError>)
    ensures
        result == match number_in(par@, 0, 16383) {
            Ok(v) => Ok::<u16, ParameterError>(v as u16),
            Err(e) => Err(e),
        },
{
    match parse_range(par, NumberType::U16, Bound::Included(0), Bound::Excluded(16384)) {
        Ok(e) => Ok(e as u16),
        Err(e) => Err(e),
    }
}

/// Parses an integer in `[-15, 240[` and folds it into a byte: a negative
/// value `v` is returned as `256 + v`.
pub fn parse_const_u8_setcp(par: &str) -> (result: Result<u8, ParameterError>)
    ensures
        result == match number_in(par@, -15, 239) {
            Ok(v) => Ok::<u8, ParameterError>(
                if v < 0 {
                    (256 + v) as u8
                } else {
                    v as u8
                },
            ),
            Err(e) => Err(e),
        },
{
    match parse_range(par, NumberType::I32, Bound::Included(-15), Bound::Excluded(240)) {
        Ok(z) => {
            assert((z as u8) as i32 == (if z < 0 { (256 + z) as i32 } else { z })) by (bit_vector)
                requires
                    -15 <= z < 240,
            ;
            Ok(z as u8)
        },
        Err(e) => Err(e),
    }
}

/// Parses an integer in `[-128, 127]` and folds it into a byte: a negative
/// value `v` is returned as `256 + v`.
pub fn parse_const_i8(par: &str) -> (result: Result<u8, ParameterError>)
    ensures
        result == match number_in(par@, -128, 127) {
            Ok(v) => Ok::<u8, ParameterError>(
                if v < 0 {
                    (256 + v) as u8
                } else {
                    v as u8
                },
            ),
            Err(e) => Err(e),
        },
{
    match parse_range(par, NumberType::I16, Bound::Included(-128), Bound::Included(127)) {
        Ok(e) => {
            assert((e as u8) as i32 == (if e < 0 { (256 + e) as i32 } else { e })) by (bit_vector)
                requires
                    -128 <= e <= 127,
            ;
            Ok(e as u8)
        },
        Err(e) => Err(e),
    }
}

/// Parses an integer in `[1, 256]` and subtracts one (result is in `[0, 255]`).
pub fn parse_const_u8_plus_one(par: &str) -> (result: Result<u8, ParameterError>)
    ensures
        result == match number_in(par@, 1, 256) {
            Ok(v) => Ok::<u8, ParameterError>((v - 1) as u8),
            Err(e) => Err(e),
        },
{
    match parse_range(par, NumberType::U16, Bound::Included(1), Bound::Included(256)) {
        Ok(e) => Ok((e - 1) as u8),
        Err(e) => Err(e),
    }
}

/// Parses an integer in `[0, 240[`.
pub fn parse_const_u8_240(par: &str) -> (result: Result<u8, ParameterError>)
    ensures
        result == match number_in(par@, 0, 239) {
            Ok(v) => Ok::<u8, ParameterError>(v as u8),
            Err(e) => Err(e),
        },
{
    match parse_range(par, NumberType::U8, Bound::Included(0), Bound::Excluded(240)) {
        Ok(e) => Ok(e as u8),
        Err(e) => Err(e),
    }
}

/// Parses a multiple of 32 in `[32, 256]` and returns how many times it
/// holds 32, less one (result is in `[0, 7]`). Another integer in that range
/// is `OutOfRange`.
pub fn parse_plduz_parameter(par: &str) -> (result: Result<u8, ParameterError>)
    ensures
        result == match number_in(par@, 32, 256) {
            Ok(v) => if v % 32 == 0 {
                Ok::<u8, ParameterError>((v / 32 - 1) as u8)
            } else {
                Err(ParameterError::OutOfRange)
            },
            Err(e) => Err(e),
        },
{
    match parse_range(par, NumberType::U16, Bound::Included(32), Bound::Included(256)) {
        Ok(c) => {
            if c % 32 == 0 {
                Ok(((c / 32) - 1) as u8)
            } else {
                Err(ParameterError::OutOfRange)
            }
        },
        Err(e) => Err(e),
    }
}

/// The ASCII upper case of `c`: `a` to `z` become `A` to `Z`, every other
/// character stays.
pub open spec fn ascii_uppercase(c: char) -> char {
    if 'a' <= c <= 'z' {
        ((c as u32) - 32) as char
    } else {
        c
    }
}

/// `char::to_ascii_uppercase` of std, which maps the ASCII letters `a` to
/// `z` to `A` to `Z` and leaves every other character unchanged.
#[verifier::external_body]
fn to_ascii_uppercase(c: char) -> (r: char)
    ensures
        r == ascii_uppercase(c),
{
    c.to_ascii_uppercase()
}

/// What `parse_register` returns for the characters `s`.
pub open spec fn register_result(s: Seq<char>, symbol: char, start: int, end: int) -> Result<
    int,
    ParameterError,
> {
    if s.len() <= 1 || ascii_uppercase(s[0]) != symbol {
        Err(ParameterError::UnexpectedType)
    } else {
        match integer_value(s.skip(1), true) {
            Some(v) => if start <= v < end {
                Ok(v)
            } else {
                Err(ParameterError::OutOfRange)
            },
            None => Err(ParameterError::UnexpectedType),
        }
    }
}

/// Parses a register: the letter `symbol`, in either case, and then a
/// base-10 integer in `range`.
///
/// Fails with `UnexpectedType` where `input` has no more than one character,
/// does not start with `symbol` or its lower case, or where its tail is no
/// integer; with `OutOfRange` where the integer lies outside `range`,
/// however far.
pub fn parse_register(input: &str, symbol: char, range: core::ops::Range<isize>) -> (result:
    Result<isize, ParameterError>)
    ensures
        result matches Ok(v) ==> register_result(input@, symbol, range.start as int, range.end as int)
            == Ok::<int, ParameterError>(v as int),
        result matches Err(e) ==> register_result(
            input@,
            symbol,
            range.start as int,
            range.end as int,
        ) == Err::<int, ParameterError>(e),
{
    let len = input.unicode_len();
    if len <= 1 {
        Err(ParameterError::UnexpectedType)
    } else if to_ascii_uppercase(input.get_char(0)) != symbol {
        Err(ParameterError::UnexpectedType)
    } else {
        let number = input.substring_char(1, len);
        if !is_integer(number) {
            return Err(ParameterError::UnexpectedType);
        }
        match parse_isize(number) {
            Some(number) => {
                if (number < range.start) || (number >= range.end) {
                    Err(ParameterError::OutOfRange)
                } else {
                    Ok(number)
                }
            },
            // An integer that is no `isize` lies outside every range.
            None => Err(ParameterError::OutOfRange),
        }
    }
}

/// Parses a control (`C`) register as a `u8` in `[0, 16[`.
pub fn parse_control_register(par: &str) -> (result: Result<u8, ParameterError>)
    ensures
        result == match register_result(par@, 'C', 0, 16) {
            Ok(v) => Ok::<u8, ParameterError>(v as u8),
            Err(e) => Err(e),
        },
{
    match parse_register(par, 'C', 0..16) {
        Ok(n) => Ok(n as u8),
        Err(e) => Err(e),
    }
}

/// Parses a stack (`S`) register as a `u8` in `[0, 16[`.
pub fn parse_stack_register_u4(par: &str) -> (result: Result<u8, ParameterError>)
    ensures
        result == match register_result(par@, 'S', 0, 16) {
            Ok(v) => Ok::<u8, ParameterError>(v as u8),
            Err(e) => Err(e),
        },
{
    match parse_register(par, 'S', 0..16) {
        Ok(n) => Ok(n as u8),
        Err(e) => Err(e),
    }
}

/// Parses a stack (`S`) register in `[-1, 15[` and adds one (result is in
/// `[0, 15]`).
pub fn parse_stack_register_u4_minus_one(par: &str) -> (result: Result<u8, ParameterError>)
    ensures
        result == match register_result(par@, 'S', -1, 15) {
            Ok(v) => Ok::<u8, ParameterError>((v + 1) as u8),
            Err(e) => Err(e),
        },
{
    match parse_register(par, 'S', -1..15) {
        Ok(n) => Ok((n + 1) as u8),
        Err(e) => Err(e),
    }
}

/// Parses a stack (`S`) register in `[-2, 14[` and adds two (result is in
/// `[0, 15]`).
pub fn parse_stack_register_u4_minus_two(par: &str) -> (result: Result<u8, ParameterError>)
    ensures
        result == match register_result(par@, 'S', -2, 14) {
            Ok(v) => Ok::<u8, ParameterError>((v + 2) as u8),
            Err(e) => Err(e),
        },
{
    match parse_register(par, 'S', -2..14) {
        Ok(n) => Ok((n + 2) as u8),
        Err(e) => Err(e),
    }
}

/// What `parse_slice` returns for the characters `s`.
pub open spec fn slice_result(s: Seq<char>, offset: int) -> Result<Seq<u8>, ParameterError> {
    if s.len() <= 1 || ascii_uppercase(s[0]) != 'X' {
        Err(ParameterError::UnexpectedType)
    } else {
        slice_base_result(s.skip(1), offset, 16)
    }
}

/// Parses a hexadecimal bit-string literal: the letter `x`, in either case,
/// and then the literal, which `parse_slice_base` reads in base 16.
///
/// Fails with `UnexpectedType` where `input` has no more than one character,
/// does not start with `x` or `X`, or where what follows is no literal.
pub fn parse_slice(input: &str, bits: usize) -> (result: Result<Vec<u8>, ParameterError>)
    requires
        bits < 8,
    ensures
        result matches Ok(data) ==> slice_result(input@, bits as int) == Ok::<
            Seq<u8>,
            ParameterError,
        >(data@),
        result matches Err(e) ==> slice_result(input@, bits as int) == Err::<Seq<u8>, ParameterError>(
            e,
        ),
{
    let len = input.unicode_len();
    if len <= 1 {
        Err(ParameterError::UnexpectedType)
    } else if to_ascii_uppercase(input.get_char(0)) != 'X' {
        Err(ParameterError::UnexpectedType)
    } else {
        parse_slice_base(input.substring_char(1, len), bits, 16)
    }
}

/// Value of the byte `b` read as the ASCII code of a hexadecimal digit, in
/// either case; `None` for any other byte.
pub open spec fn hex_digit(b: u8) -> Option<u8> {
    if 0x30 <= b <= 0x39 {
        Some((b - 0x30) as u8)
    } else if 0x41 <= b <= 0x46 {
        Some((b - 0x41 + 10) as u8)
    } else if 0x61 <= b <= 0x66 {
        Some((b - 0x61 + 10) as u8)
    } else {
        None
    }
}

/// The bytes that a text of hexadecimal digits stands for, two digits to a
/// byte, the high one first. `None` where the count of bytes in the text is
/// odd or one of them is no hexadecimal digit.
pub open spec fn hex_decoded(text: Seq<u8>) -> Option<Seq<u8>> {
    if text.len() % 2 == 0 && forall|i: int| 0 <= i < text.len() ==> (#[trigger] hex_digit(text[i]))
        is Some {
        Some(
            Seq::new(
                text.len() / 2,
                |i: int|
                    (16 * hex_digit(text[2 * i]).unwrap() + hex_digit(text[2 * i + 1]).unwrap()) as u8,
            ),
        )
    } else {
        None
    }
}

/// `hex::decode`: turns a text of hexadecimal digits, upper or lower case,
/// into the bytes they stand for. It fails, here with `None`, on a text of
/// odd length and on any byte that is no hexadecimal digit.
#[verifier::external_body]
fn hex_decode(text: &[u8]) -> (r: Option<Vec<u8>>)
    ensures
        r matches Some(v) ==> hex_decoded(text@) == Some(v@),
        r is None ==> hex_decoded(text@) is None,
{
    hex::decode(text).ok()
}

/// The bytes that `parse_string` returns for a text with the UTF-8 bytes
/// `text`: behind a leading `x` or `X`, hexadecimal digits stand for their
/// bytes; any other text stands for itself.
pub open spec fn string_bytes(text: Seq<u8>) -> Seq<u8> {
    if text.len() > 0 && (text[0] == 0x58 || text[0] == 0x78) {
        match hex_decoded(text.skip(1)) {
            Some(bytes) => bytes,
            None => text,
        }
    } else {
        text
    }
}

/// Reads a string operand: `x` or `X` followed by hexadecimal digits gives
/// the bytes that the digits stand for; anything else gives the UTF-8 bytes
/// of the text itself.
pub fn parse_string(arg: &str) -> (result: Vec<u8>)
    ensures
        result@ == string_bytes(arg.spec_bytes()),
{
    let text = arg.as_bytes();
    if text.len() > 0 && (text[0] == 0x58 || text[0] == 0x78) {
        let digits = slice_subrange(text, 1, text.len());
        assert(digits@ == text@.skip(1));
        match hex_decode(digits) {
            Some(bytes) => {
                return bytes;
            },
            None => {},
        }
    }
    slice_to_vec(text)
}

} // verus!
