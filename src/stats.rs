//! Character and line counts of a text.
use vstd::prelude::*;
use vstd::string::*;
use crate::text::{chars_of, decimal, decimal_of};

verus! {

/// The number of characters of `s` other than `'\n'`.
pub open spec fn char_count(s: Seq<char>) -> nat
    decreases s.len(),
{
    if s.len() == 0 {
        0
    } else {
        char_count(s.drop_last()) + if s.last() == '\n' { 0nat } else { 1nat }
    }
}

/// The number of `'\n'` in `s`.
pub open spec fn newline_count(s: Seq<char>) -> nat
    decreases s.len(),
{
    if s.len() == 0 {
        0
    } else {
        newline_count(s.drop_last()) + if s.last() == '\n' { 1nat } else { 0nat }
    }
}

/// The number of lines of `s`: each `'\n'` ends one, and text after the last
/// one is a line of its own.
pub open spec fn line_count(s: Seq<char>) -> nat {
    newline_count(s) + if s.len() > 0 && s.last() != '\n' { 1nat } else { 0nat }
}

proof fn lemma_counts_bounded(s: Seq<char>)
    ensures
        char_count(s) + newline_count(s) == s.len(),
    decreases s.len(),
{
    if s.len() > 0 {
        lemma_counts_bounded(s.drop_last());
    }
}

/// The number of characters other than `'\n'`, and the number of lines.
pub fn text_stats(content: &str) -> (r: (usize, usize))
    ensures
        r.0 == char_count(content@),
        r.1 == line_count(content@),
{
    let cs = chars_of(content);
    let mut chars: usize = 0;
    let mut newlines: usize = 0;
    let mut i: usize = 0;
    while i < cs.len()
        invariant
            cs@ == content@,
            i <= cs@.len(),
            chars == char_count(content@.take(i as int)),
            newlines == newline_count(content@.take(i as int)),
        decreases cs@.len() - i,
    {
        assert(content@.take(i + 1).drop_last() =~= content@.take(i as int));
        proof {
            lemma_counts_bounded(content@.take(i + 1));
        }
        if cs[i] == '\n' {
            newlines = newlines + 1;
        } else {
            chars = chars + 1;
        }
        i = i + 1;
    }
    assert(content@.take(cs@.len() as int) =~= content@);
    proof {
        lemma_counts_bounded(content@);
    }
    let n = cs.len();
    let lines = if n > 0 && cs[n - 1] != '\n' { newlines + 1 } else { newlines };
    (chars, lines)
}

/// The report written for a text: `Characters: <c>\nLines: <l>\n`.
pub open spec fn report_of(s: Seq<char>) -> Seq<char> {
    "Characters: "@ + decimal_of(char_count(s)) + "\nLines: "@ + decimal_of(line_count(s))
        + "\n"@
}

/// The statistics report of `content`.
pub fn stats_report(content: &str) -> (r: String)
    ensures
        r@ == report_of(content@),
{
    let (chars, lines) = text_stats(content);
    let mut r = String::from_str("Characters: ");
    r.append(decimal(chars as u64).as_str());
    r.append("\nLines: ");
    r.append(decimal(lines as u64).as_str());
    r.append("\n");
    r
}

} // verus!
