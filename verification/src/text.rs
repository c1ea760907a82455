//! Indented blocks of text.

use vstd::prelude::*;

verus! {

/// Where the line of `s` that begins at `from` ends: the place of the first
/// line feed at or behind `from`, or the length of `s` where there is none.
pub open spec fn line_end(s: Seq<char>, from: int) -> int
    decreases s.len() - from,
{
    if from < 0 || from >= s.len() || s[from] == '\n' {
        from
    } else {
        line_end(s, from + 1)
    }
}

/// The lines of `s` from `from` on, each behind two spaces and closed by a
/// line feed, up to the first empty line or the end of `s`.
pub open spec fn indented_from(s: Seq<char>, from: int) -> Seq<char>
    decreases s.len() - from,
{
    let end = line_end(s, from);
    if from < 0 || end <= from || end > s.len() {
        Seq::empty()
    } else {
        "  "@ + s.subrange(from, end) + "\n"@ + (if end < s.len() {
            indented_from(s, end + 1)
        } else {
            Seq::empty()
        })
    }
}

/// The text `s` with each of its lines behind two spaces and closed by a line
/// feed. It ends before the first empty line.
pub open spec fn indented(s: Seq<char>) -> Seq<char> {
    indented_from(s, 0)
}

/// Puts two spaces before each line of `text` and a line feed behind it, and
/// stops at the first empty line.
pub fn indent(text: &str) -> (result: String)
    ensures
        result@ == indented(text@),
{
    let n = text.unicode_len();
    let mut indented = String::new();
    let mut start: usize = 0;
    let mut done = false;
    while !done
        invariant
            n == text@.len(),
            start <= n + 1,
            done ==> indented@ == indented_from(text@, 0),
            !done ==> start <= n && indented_from(text@, 0) == indented@ + indented_from(
                text@,
                start as int,
            ),
        decreases n + 1 - start + (if done { 0int } else { 1 }),
    {
        let mut end = start;
        while end < n && text.get_char(end) != '\n'
            invariant
                n == text@.len(),
                start <= end <= n,
                line_end(text@, start as int) == line_end(text@, end as int),
            decreases n - end,
        {
            end += 1;
        }
        assert(line_end(text@, start as int) == end);
        if end == start {
            assert(indented_from(text@, start as int) =~= Seq::<char>::empty());
            assert(indented@ + Seq::<char>::empty() =~= indented@);
            done = true;
        } else {
            let ghost before = indented@;
            indented.append("  ");
            indented.append(text.substring_char(start, end));
            indented.append("\n");
            proof {
                let rest = if end < n {
                    indented_from(text@, end + 1)
                } else {
                    Seq::empty()
                };
                assert(indented_from(text@, start as int) == "  "@ + text@.subrange(
                    start as int,
                    end as int,
                ) + "\n"@ + rest);
                assert(before + ("  "@ + text@.subrange(start as int, end as int) + "\n"@ + rest)
                    =~= indented@ + rest);
            }
            if end == n {
                assert(indented@ + Seq::<char>::empty() =~= indented@);
                done = true;
            } else {
                start = end + 1;
            }
        }
    }
    indented
}

} // verus!
