//! Integers in base 10: the numbers that numerals denote, and the numeral of
//! a number.

use vstd::prelude::*;

verus! {

/// A sign-less decimal numeral: at least one character, each of `0` to `9`.
pub open spec fn is_decimal(s: Seq<char>) -> bool {
    s.len() > 0 && forall|i: int| 0 <= i < s.len() ==> '0' <= #[trigger] s[i] <= '9'
}

/// The number that a sign-less decimal numeral denotes.
pub open spec fn decimal_value(s: Seq<char>) -> nat
    decreases s.len(),
{
    if s.len() == 0 {
        0
    } else {
        (10 * decimal_value(s.drop_last()) + (s.last() as u32 - '0' as u32)) as nat
    }
}

/// The integer that `s` denotes in base 10: an optional sign, `+` or, where
/// `signed`, `-`, and then a decimal numeral. `None` for any other text.
pub open spec fn integer_value(s: Seq<char>, signed: bool) -> Option<int> {
    if s.len() > 0 && s[0] == '+' {
        if is_decimal(s.skip(1)) {
            Some(decimal_value(s.skip(1)) as int)
        } else {
            None
        }
    } else if signed && s.len() > 0 && s[0] == '-' {
        if is_decimal(s.skip(1)) {
            Some(-(decimal_value(s.skip(1)) as int))
        } else {
            None
        }
    } else if is_decimal(s) {
        Some(decimal_value(s) as int)
    } else {
        None
    }
}

/// Whether `text` is an integer in base 10: an optional sign, `+` or `-`,
/// and then at least one decimal digit.
pub fn is_integer(text: &str) -> (well_formed: bool)
    ensures
        well_formed == integer_value(text@, true) is Some,
{
    let mut first = true;
    let mut sign = false;
    let mut any_digit = false;
    let chars = text.chars();
    for ch in it: chars
        invariant
            it.seq() == text@,
            first == (it.index() == 0),
            sign ==> it.index() >= 1 && (text@[0] == '+' || text@[0] == '-'),
            !sign && !first ==> '0' <= text@[0] <= '9',
            any_digit == (it.index() > (if sign { 1int } else { 0 })),
            forall|i: int|
                (if sign { 1int } else { 0 }) <= i < it.index() ==> '0' <= #[trigger] text@[i] <= '9',
    {
        let ghost k = it.index();
        if first && (ch == '+' || ch == '-') {
            sign = true;
        } else if ch >= '0' && ch <= '9' {
            any_digit = true;
        } else {
            proof {
                if sign {
                    assert(text@.skip(1)[k - 1] == text@[k]);
                }
            }
            return false;
        }
        first = false;
    }
    proof {
        if sign {
            assert forall|i: int| 0 <= i < text@.skip(1).len() implies '0' <= #[trigger] text@.skip(
                1,
            )[i] <= '9' by {
                assert(text@.skip(1)[i] == text@[i + 1]);
            }
        }
    }
    any_digit
}

/// What reading `s` as a base-10 integer of an integer type gives, the type
/// being told by whether it is `signed` and by its least and greatest value:
/// the integer that `s` denotes where it lies in the type, else `None`.
pub open spec fn typed_integer(s: Seq<char>, signed: bool, min: int, max: int) -> Option<int> {
    match integer_value(s, signed) {
        Some(v) => if min <= v <= max {
            Some(v)
        } else {
            None
        },
        None => None,
    }
}

/// The character of the decimal digit `d`.
pub open spec fn digit_char(d: nat) -> char {
    if d == 0 {
        '0'
    } else if d == 1 {
        '1'
    } else if d == 2 {
        '2'
    } else if d == 3 {
        '3'
    } else if d == 4 {
        '4'
    } else if d == 5 {
        '5'
    } else if d == 6 {
        '6'
    } else if d == 7 {
        '7'
    } else if d == 8 {
        '8'
    } else {
        '9'
    }
}

/// The numeral of `n` in base 10, without sign or leading zeros.
pub open spec fn decimal_text(n: nat) -> Seq<char>
    decreases n,
{
    if n < 10 {
        seq![digit_char(n)]
    } else {
        decimal_text(n / 10).push(digit_char(n % 10))
    }
}

/// The text of one decimal digit.
fn digit_str(d: usize) -> (s: &'static str)
    requires
        d < 10,
    ensures
        s@ == seq![digit_char(d as nat)],
{
    proof {
        reveal_strlit("0");
        reveal_strlit("1");
        reveal_strlit("2");
        reveal_strlit("3");
        reveal_strlit("4");
        reveal_strlit("5");
        reveal_strlit("6");
        reveal_strlit("7");
        reveal_strlit("8");
        reveal_strlit("9");
    }
    let s = if d == 0 {
        "0"
    } else if d == 1 {
        "1"
    } else if d == 2 {
        "2"
    } else if d == 3 {
        "3"
    } else if d == 4 {
        "4"
    } else if d == 5 {
        "5"
    } else if d == 6 {
        "6"
    } else if d == 7 {
        "7"
    } else if d == 8 {
        "8"
    } else {
        "9"
    };
    assert(s@ =~= seq![digit_char(d as nat)]);
    s
}

/// Writes `n` in base 10.
pub fn decimal(n: usize) -> (s: String)
    ensures
        s@ == decimal_text(n as nat),
    decreases n,
{
    if n < 10 {
        String::from_str(digit_str(n))
    } else {
        let mut s = decimal(n / 10);
        s.append(digit_str(n % 10));
        assert(s@ =~= decimal_text((n / 10) as nat).push(digit_char((n % 10) as nat)));
        s
    }
}

/// The numeral that is written for a number is read as that number.
pub proof fn lemma_decimal_read_back(n: nat)
    ensures
        is_decimal(decimal_text(n)),
        decimal_value(decimal_text(n)) == n,
        integer_value(decimal_text(n), true) == Some(n as int),
        integer_value(decimal_text(n), false) == Some(n as int),
    decreases n,
{
    if n >= 10 {
        lemma_decimal_read_back(n / 10);
        let head = decimal_text(n / 10);
        let text = decimal_text(n);
        assert(text.drop_last() =~= head);
        assert(text.last() == digit_char(n % 10));
        assert forall|i: int| 0 <= i < text.len() implies '0' <= #[trigger] text[i] <= '9' by {
            if i < head.len() {
                assert(text[i] == head[i]);
            }
        }
    } else {
        let text = decimal_text(n);
        assert(text.drop_last() =~= Seq::<char>::empty());
        assert(decimal_value(text.drop_last()) == 0);
    }
}

} // verus!
