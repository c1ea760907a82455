//! Hashes of cells.

use vstd::prelude::*;

verus! {

/// The representation hash of a cell: 256 bits, as two halves.
#[derive(Clone, Copy, Debug, PartialEq, Eq, Structural)]
pub struct UInt256 {
    /// The first sixteen bytes of the hash, read as a big-endian number.
    pub hi: u128,
    /// The last sixteen bytes of the hash, read as a big-endian number.
    pub lo: u128,
}

/// The character of the hexadecimal digit `d`, in lower case.
pub open spec fn hex_char(d: u128) -> char {
    if d == 0 {
        '0'
    } else if d == 1 {
        '1'
    } else if d == 2 {
        '2'
    } else if d == 3 {
        '3'
    } else if d == 4 {
        '4'
    } else if d == 5 {
        '5'
    } else if d == 6 {
        '6'
    } else if d == 7 {
        '7'
    } else if d == 8 {
        '8'
    } else if d == 9 {
        '9'
    } else if d == 10 {
        'a'
    } else if d == 11 {
        'b'
    } else if d == 12 {
        'c'
    } else if d == 13 {
        'd'
    } else if d == 14 {
        'e'
    } else {
        'f'
    }
}

/// The 32 hexadecimal digits of `x`, the most significant first.
pub open spec fn hex_text(x: u128) -> Seq<char> {
    Seq::new(32, |i: int| hex_char((x >> ((4 * (31 - i)) as usize)) & 0xf))
}

/// The value of the lower-case hexadecimal digit `c`; `None` for any other
/// character.
pub open spec fn hex_nibble(c: char) -> Option<u128> {
    if '0' <= c <= '9' {
        Some((c as u32 - '0' as u32) as u128)
    } else if 'a' <= c <= 'f' {
        Some((c as u32 - 'a' as u32 + 10) as u128)
    } else {
        None
    }
}

/// The text of one hexadecimal digit.
fn hex_str(d: u128) -> (s: &'static str)
    requires
        d < 16,
    ensures
        s@ == seq![hex_char(d)],
{
    proof {
        reveal_strlit("0");
        reveal_strlit("1");
        reveal_strlit("2");
        reveal_strlit("3");
        reveal_strlit("4");
        reveal_strlit("5");
        reveal_strlit("6");
        reveal_strlit("7");
        reveal_strlit("8");
        reveal_strlit("9");
        reveal_strlit("a");
        reveal_strlit("b");
        reveal_strlit("c");
        reveal_strlit("d");
        reveal_strlit("e");
        reveal_strlit("f");
    }
    let s = if d == 0 {
        "0"
    } else if d == 1 {
        "1"
    } else if d == 2 {
        "2"
    } else if d == 3 {
        "3"
    } else if d == 4 {
        "4"
    } else if d == 5 {
        "5"
    } else if d == 6 {
        "6"
    } else if d == 7 {
        "7"
    } else if d == 8 {
        "8"
    } else if d == 9 {
        "9"
    } else if d == 10 {
        "a"
    } else if d == 11 {
        "b"
    } else if d == 12 {
        "c"
    } else if d == 13 {
        "d"
    } else if d == 14 {
        "e"
    } else {
        "f"
    };
    assert(s@ =~= seq![hex_char(d)]);
    s
}

/// Writes the 32 hexadecimal digits of `x` behind `s`.
fn append_hex(s: &mut String, x: u128)
    ensures
        final(s)@ == old(s)@ + hex_text(x),
{
    let ghost before = s@;
    for i in 0..32usize
        invariant
            s@ == before + hex_text(x).take(i as int),
    {
        let shifted = x >> (4 * (31 - i));
        let d = shifted & 0xf;
        assert(shifted & 0xf < 16) by (bit_vector);
        s.append(hex_str(d));
        assert(s@ =~= before + hex_text(x).take(i + 1));
    }
    assert(hex_text(x).take(32) =~= hex_text(x));
}

/// A nibble pushed behind a number is its last nibble.
proof fn lemma_pushed_nibble(acc: u128, d: u128)
    by (bit_vector)
    requires
        d < 16,
    ensures
        (((acc << 4) | d) >> 0) & 0xf == d,
{
}

/// A nibble pushed behind a number moves each nibble of the number up by
/// one place.
proof fn lemma_moved_nibble(acc: u128, d: u128, t: u128, s: u128)
    by (bit_vector)
    requires
        d < 16,
        acc >> 124 == 0,
        s == t + 4,
        s <= 124,
    ensures
        (((acc << 4) | d) >> s) & 0xf == (acc >> t) & 0xf,
{
}

/// A number of `i` nibbles has `i + 1` nibbles when one is pushed behind it.
proof fn lemma_nibble_count(acc: u128, d: u128, s: u128)
    by (bit_vector)
    requires
        d < 16,
        s <= 124,
        acc >> s == 0,
    ensures
        acc >> 124 == 0,
        s < 124 ==> ((acc << 4) | d) >> (s + 4) == 0,
{
}

/// Two numbers with the same 32 nibbles are the same number.
proof fn lemma_same_nibbles(x: u128, y: u128)
    by (bit_vector)
    requires
        (x >> 0) & 0xf == (y >> 0) & 0xf,
        (x >> 4) & 0xf == (y >> 4) & 0xf,
        (x >> 8) & 0xf == (y >> 8) & 0xf,
        (x >> 12) & 0xf == (y >> 12) & 0xf,
        (x >> 16) & 0xf == (y >> 16) & 0xf,
        (x >> 20) & 0xf == (y >> 20) & 0xf,
        (x >> 24) & 0xf == (y >> 24) & 0xf,
        (x >> 28) & 0xf == (y >> 28) & 0xf,
        (x >> 32) & 0xf == (y >> 32) & 0xf,
        (x >> 36) & 0xf == (y >> 36) & 0xf,
        (x >> 40) & 0xf == (y >> 40) & 0xf,
        (x >> 44) & 0xf == (y >> 44) & 0xf,
        (x >> 48) & 0xf == (y >> 48) & 0xf,
        (x >> 52) & 0xf == (y >> 52) & 0xf,
        (x >> 56) & 0xf == (y >> 56) & 0xf,
        (x >> 60) & 0xf == (y >> 60) & 0xf,
        (x >> 64) & 0xf == (y >> 64) & 0xf,
        (x >> 68) & 0xf == (y >> 68) & 0xf,
        (x >> 72) & 0xf == (y >> 72) & 0xf,
        (x >> 76) & 0xf == (y >> 76) & 0xf,
        (x >> 80) & 0xf == (y >> 80) & 0xf,
        (x >> 84) & 0xf == (y >> 84) & 0xf,
        (x >> 88) & 0xf == (y >> 88) & 0xf,
        (x >> 92) & 0xf == (y >> 92) & 0xf,
        (x >> 96) & 0xf == (y >> 96) & 0xf,
        (x >> 100) & 0xf == (y >> 100) & 0xf,
        (x >> 104) & 0xf == (y >> 104) & 0xf,
        (x >> 108) & 0xf == (y >> 108) & 0xf,
        (x >> 112) & 0xf == (y >> 112) & 0xf,
        (x >> 116) & 0xf == (y >> 116) & 0xf,
        (x >> 120) & 0xf == (y >> 120) & 0xf,
        (x >> 124) & 0xf == (y >> 124) & 0xf,
    ensures
        x == y,
{
}

/// A nibble is under sixteen.
proof fn lemma_nibble_range(x: u128)
    by (bit_vector)
    ensures
        x & 0xf < 16,
{
}

/// The nibble at place `i` of the text of `x`.
proof fn lemma_hex_text_nibble(x: u128, i: int)
    requires
        0 <= i < 32,
    ensures
        hex_nibble(hex_text(x)[i]) == Some((x >> ((4 * (31 - i)) as usize)) & 0xf),
{
    lemma_nibble_range(x >> ((4 * (31 - i)) as usize));
}

/// Numbers with the same hexadecimal text are the same number.
pub proof fn lemma_hex_text_injective(x: u128, y: u128)
    requires
        hex_text(x) == hex_text(y),
    ensures
        x == y,
{
    lemma_hex_text_nibble(x, 0);
    lemma_hex_text_nibble(y, 0);
    lemma_hex_text_nibble(x, 1);
    lemma_hex_text_nibble(y, 1);
    lemma_hex_text_nibble(x, 2);
    lemma_hex_text_nibble(y, 2);
    lemma_hex_text_nibble(x, 3);
    lemma_hex_text_nibble(y, 3);
    lemma_hex_text_nibble(x, 4);
    lemma_hex_text_nibble(y, 4);
    lemma_hex_text_nibble(x, 5);
    lemma_hex_text_nibble(y, 5);
    lemma_hex_text_nibble(x, 6);
    lemma_hex_text_nibble(y, 6);
    lemma_hex_text_nibble(x, 7);
    lemma_hex_text_nibble(y, 7);
    lemma_hex_text_nibble(x, 8);
    lemma_hex_text_nibble(y, 8);
    lemma_hex_text_nibble(x, 9);
    lemma_hex_text_nibble(y, 9);
    lemma_hex_text_nibble(x, 10);
    lemma_hex_text_nibble(y, 10);
    lemma_hex_text_nibble(x, 11);
    lemma_hex_text_nibble(y, 11);
    lemma_hex_text_nibble(x, 12);
    lemma_hex_text_nibble(y, 12);
    lemma_hex_text_nibble(x, 13);
    lemma_hex_text_nibble(y, 13);
    lemma_hex_text_nibble(x, 14);
    lemma_hex_text_nibble(y, 14);
    lemma_hex_text_nibble(x, 15);
    lemma_hex_text_nibble(y, 15);
    lemma_hex_text_nibble(x, 16);
    lemma_hex_text_nibble(y, 16);
    lemma_hex_text_nibble(x, 17);
    lemma_hex_text_nibble(y, 17);
    lemma_hex_text_nibble(x, 18);
    lemma_hex_text_nibble(y, 18);
    lemma_hex_text_nibble(x, 19);
    lemma_hex_text_nibble(y, 19);
    lemma_hex_text_nibble(x, 20);
    lemma_hex_text_nibble(y, 20);
    lemma_hex_text_nibble(x, 21);
    lemma_hex_text_nibble(y, 21);
    lemma_hex_text_nibble(x, 22);
    lemma_hex_text_nibble(y, 22);
    lemma_hex_text_nibble(x, 23);
    lemma_hex_text_nibble(y, 23);
    lemma_hex_text_nibble(x, 24);
    lemma_hex_text_nibble(y, 24);
    lemma_hex_text_nibble(x, 25);
    lemma_hex_text_nibble(y, 25);
    lemma_hex_text_nibble(x, 26);
    lemma_hex_text_nibble(y, 26);
    lemma_hex_text_nibble(x, 27);
    lemma_hex_text_nibble(y, 27);
    lemma_hex_text_nibble(x, 28);
    lemma_hex_text_nibble(y, 28);
    lemma_hex_text_nibble(x, 29);
    lemma_hex_text_nibble(y, 29);
    lemma_hex_text_nibble(x, 30);
    lemma_hex_text_nibble(y, 30);
    lemma_hex_text_nibble(x, 31);
    lemma_hex_text_nibble(y, 31);
    lemma_same_nibbles(x, y);
}

/// Whether `a` comes before `b`, or is `b`, in the order of the keys.
pub open spec fn key_le(a: (u128, u128), b: (u128, u128)) -> bool {
    a.0 < b.0 || (a.0 == b.0 && a.1 <= b.1)
}

/// Whether the text `a` comes before the text `b` in the order of texts,
/// which is the order of `String` keys in an ordered map: the first
/// character in which the texts differ decides, and a text comes behind its
/// own beginnings.
pub open spec fn text_lt(a: Seq<char>, b: Seq<char>) -> bool
    decreases a.len(),
{
    if b.len() == 0 {
        false
    } else if a.len() == 0 {
        true
    } else if a[0] != b[0] {
        a[0] < b[0]
    } else {
        text_lt(a.drop_first(), b.drop_first())
    }
}

/// A number with its first `i` nibbles moved out at the top.
spec fn tail(x: u128, i: int) -> u128 {
    if 0 <= i < 32 {
        x << ((4 * i) as usize)
    } else {
        0
    }
}

/// Two numbers are in the order of their top nibbles and, where these are
/// the same, of what is below them.
proof fn lemma_top_nibble_order(x: u128, y: u128)
    by (bit_vector)
    ensures
        x < y <==> (x >> 124) < (y >> 124) || ((x >> 124) == (y >> 124) && (x << 4) < (y << 4)),
{
}

/// The top nibble of a number moved up, and the number moved up by one
/// nibble more.
proof fn lemma_tail_step(x: u128, t: u128, u: u128)
    by (bit_vector)
    requires
        t + u == 124,
    ensures
        (x << t) >> 124 == (x >> u) & 0xf,
        t < 124 ==> (x << t) << 4 == x << (t + 4),
        t == 124 ==> (x << t) << 4 == 0,
        t == 0 ==> x << t == x,
{
}

/// The characters of the hexadecimal digits are in the order of the digits.
proof fn lemma_hex_char_order(a: u128, b: u128)
    requires
        a < 16,
        b < 16,
    ensures
        (hex_char(a) < hex_char(b)) == (a < b),
        (hex_char(a) == hex_char(b)) == (a == b),
{
    assert(hex_char(a) as u32 == if a < 10 { 48 + a } else { 87 + a });
    assert(hex_char(b) as u32 == if b < 10 { 48 + b } else { 87 + b });
}

/// From each place on, the texts of two numbers are in the order of what
/// the numbers hold from that place on.
proof fn lemma_hex_text_order_from(x: u128, y: u128, i: int)
    requires
        0 <= i <= 32,
    ensures
        text_lt(hex_text(x).skip(i), hex_text(y).skip(i)) <==> tail(x, i) < tail(y, i),
    decreases 32 - i,
{
    let a = hex_text(x).skip(i);
    let b = hex_text(y).skip(i);
    if i < 32 {
        let nx = (x >> ((4 * (31 - i)) as usize)) & 0xf;
        let ny = (y >> ((4 * (31 - i)) as usize)) & 0xf;
        lemma_nibble_range(x >> ((4 * (31 - i)) as usize));
        lemma_nibble_range(y >> ((4 * (31 - i)) as usize));
        lemma_hex_char_order(nx, ny);
        lemma_tail_step(x, (4 * i) as u128, (4 * (31 - i)) as u128);
        lemma_tail_step(y, (4 * i) as u128, (4 * (31 - i)) as u128);
        lemma_top_nibble_order(tail(x, i), tail(y, i));
        lemma_hex_text_order_from(x, y, i + 1);
        assert(a[0] == hex_char(nx));
        assert(b[0] == hex_char(ny));
        assert(a.drop_first() =~= hex_text(x).skip(i + 1));
        assert(b.drop_first() =~= hex_text(y).skip(i + 1));
        assert(tail(x, i) << 4 == tail(x, i + 1));
        assert(tail(y, i) << 4 == tail(y, i + 1));
    }
}

/// The texts of two numbers are in the order of the numbers.
pub proof fn lemma_hex_text_order(x: u128, y: u128)
    ensures
        text_lt(hex_text(x), hex_text(y)) <==> x < y,
{
    lemma_hex_text_order_from(x, y, 0);
    lemma_tail_step(x, 0, 124);
    lemma_tail_step(y, 0, 124);
    assert(hex_text(x).skip(0) =~= hex_text(x));
    assert(hex_text(y).skip(0) =~= hex_text(y));
}

/// Texts that begin with beginnings of one length are in the order of the
/// beginnings and, where these are the same, of what follows.
proof fn lemma_text_lt_concat(p: Seq<char>, s: Seq<char>, q: Seq<char>, t: Seq<char>)
    requires
        p.len() == q.len(),
    ensures
        text_lt(p + s, q + t) <==> if p == q {
            text_lt(s, t)
        } else {
            text_lt(p, q)
        },
    decreases p.len(),
{
    if p.len() == 0 {
        assert(p =~= q);
        assert(p + s =~= s);
        assert(q + t =~= t);
    } else {
        assert((p + s)[0] == p[0]);
        assert((q + t)[0] == q[0]);
        assert((p + s).drop_first() =~= p.drop_first() + s);
        assert((q + t).drop_first() =~= q.drop_first() + t);
        lemma_text_lt_concat(p.drop_first(), s, q.drop_first(), t);
        if p[0] == q[0] {
            if p.drop_first() == q.drop_first() {
                assert forall|i: int| 0 <= i < p.len() implies p[i] == q[i] by {
                    if i > 0 {
                        assert(p[i] == p.drop_first()[i - 1]);
                        assert(q[i] == q.drop_first()[i - 1]);
                    }
                }
                assert(p =~= q);
            } else {
                assert(p != q) by {
                    if p == q {
                        assert(p.drop_first() == q.drop_first());
                    }
                }
            }
        }
    }
}

/// Reads the 32 lower-case hexadecimal digits of `text` from `from` on as a
/// number.
fn read_half(text: &str, from: usize) -> (half: Option<u128>)
    requires
        from <= 32,
        from + 32 <= text@.len(),
    ensures
        half matches Some(x) ==> hex_text(x) == text@.subrange(from as int, from + 32),
        half is None ==> exists|j: int| from <= j < from + 32 && hex_nibble(text@[j]) is None,
{
    let mut acc: u128 = 0;
    let mut i: usize = 0;
    assert(acc >> 0 == 0) by (bit_vector)
        requires
            acc == 0,
    ;
    while i < 32
        invariant
            i <= 32,
            from <= 32,
            from + 32 <= text@.len(),
            i < 32 ==> acc >> ((4 * i) as usize) == 0,
            forall|j: int|
                0 <= j < i ==> hex_nibble(#[trigger] text@[from + j]) == Some(
                    (acc >> ((4 * (i - 1 - j)) as usize)) & 0xf,
                ),
        decreases 32 - i,
    {
        let c = text.get_char(from + i);
        let d: u128 = if c >= '0' && c <= '9' {
            (c as u32 - '0' as u32) as u128
        } else if c >= 'a' && c <= 'f' {
            (c as u32 - 'a' as u32 + 10) as u128
        } else {
            return None;
        };
        let ghost before = acc;
        proof {
            lemma_nibble_count(acc, d, (4 * i) as u128);
            assert forall|j: int| 0 <= j <= i implies hex_nibble(#[trigger] text@[from + j])
                == Some((((before << 4) | d) >> ((4 * (i - j)) as usize)) & 0xf) by {
                if j == i {
                    lemma_pushed_nibble(before, d);
                } else {
                    lemma_moved_nibble(
                        before,
                        d,
                        (4 * (i - 1 - j)) as u128,
                        (4 * (i - j)) as u128,
                    );
                }
            }
        }
        acc = (acc << 4) | d;
        i += 1;
    }
    proof {
        assert forall|j: int| 0 <= j < 32 implies hex_text(acc)[j] == text@[from + j] by {
            let nibble = (acc >> ((4 * (31 - j)) as usize)) & 0xf;
            assert(hex_nibble(text@[from + j]) == Some(nibble));
        }
        assert(hex_text(acc) =~= text@.subrange(from as int, from + 32));
    }
    Some(acc)
}

impl UInt256 {
    /// The key under which the hash is filed. Keys are in the order of the
    /// hashes read as big-endian numbers, which is the order of their
    /// hexadecimal texts (`lemma_hex_order`).
    pub open spec fn key(self) -> (u128, u128) {
        (self.hi, self.lo)
    }

    /// The text of the hash: 64 hexadecimal digits in lower case.
    pub open spec fn hex(self) -> Seq<char> {
        hex_text(self.hi) + hex_text(self.lo)
    }

    /// Writes the hash as 64 hexadecimal digits in lower case.
    pub fn to_hex_string(&self) -> (s: String)
        ensures
            s@ == self.hex(),
    {
        let mut s = String::new();
        append_hex(&mut s, self.hi);
        append_hex(&mut s, self.lo);
        s
    }

    /// Hashes with the same text are the same hash: no two hashes are filed
    /// under one text.
    pub proof fn lemma_hex_injective(self, other: UInt256)
        requires
            self.hex() == other.hex(),
        ensures
            self == other,
    {
        assert(hex_text(self.hi) =~= self.hex().subrange(0, 32));
        assert(hex_text(other.hi) =~= other.hex().subrange(0, 32));
        assert(hex_text(self.lo) =~= self.hex().subrange(32, 64));
        assert(hex_text(other.lo) =~= other.hex().subrange(32, 64));
        lemma_hex_text_injective(self.hi, other.hi);
        lemma_hex_text_injective(self.lo, other.lo);
    }

    /// Hashes are in the order of their keys as their texts are in the order
    /// of texts: an index that is ordered by the keys is ordered by the
    /// hexadecimal texts of the hashes.
    pub proof fn lemma_hex_order(self, other: UInt256)
        ensures
            key_le(self.key(), other.key()) <==> self.hex() == other.hex() || text_lt(
                self.hex(),
                other.hex(),
            ),
    {
        lemma_hex_text_order(self.hi, other.hi);
        lemma_hex_text_order(self.lo, other.lo);
        lemma_text_lt_concat(
            hex_text(self.hi),
            hex_text(self.lo),
            hex_text(other.hi),
            hex_text(other.lo),
        );
        if hex_text(self.hi) == hex_text(other.hi) {
            lemma_hex_text_injective(self.hi, other.hi);
        }
        if hex_text(self.lo) == hex_text(other.lo) {
            lemma_hex_text_injective(self.lo, other.lo);
        }
        if self.hex() == other.hex() {
            self.lemma_hex_injective(other);
        }
    }

    /// Reads a hash from its text of 64 hexadecimal digits in lower case.
    /// `None` for any other text.
    pub fn from_hex_string(text: &str) -> (hash: Option<UInt256>)
        ensures
            hash matches Some(h) ==> h.hex() == text@,
            hash is None ==> forall|h: UInt256| h.hex() != text@,
    {
        if text.unicode_len() != 64 {
            return None;
        }
        match read_half(text, 0) {
            Some(hi) => match read_half(text, 32) {
                Some(lo) => {
                    let hash = UInt256 { hi, lo };
                    assert(hash.hex() =~= text@);
                    Some(hash)
                },
                None => {
                    proof {
                        let j = choose|j: int| 32 <= j < 64 && hex_nibble(text@[j]) is None;
                        assert forall|h: UInt256| h.hex() != text@ by {
                            lemma_hex_text_nibble(h.lo, j - 32);
                            assert(h.hex()[j] == hex_text(h.lo)[j - 32]);
                        }
                    }
                    None
                },
            },
            None => {
                proof {
                    let j = choose|j: int| 0 <= j < 32 && hex_nibble(text@[j]) is None;
                    assert forall|h: UInt256| h.hex() != text@ by {
                        lemma_hex_text_nibble(h.hi, j);
                        assert(h.hex()[j] == hex_text(h.hi)[j]);
                    }
                }
                None
            },
        }
    }
}

} // verus!
