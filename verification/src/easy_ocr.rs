//! Parsing of the external OCR tool's line-based output: each line's quoted
//! text field is captured, and the captures are joined by newlines.

use crate::strings::{chars_to_string, spec_join, str_views, string_to_chars};
use vstd::prelude::*;

verus! {

/// What the capture pattern extracts from one output line, a function of the
/// line alone.
pub uninterp spec fn easy_ocr_capture(line: Seq<char>) -> Option<Seq<char>>;

/// Relies on regex::Regex::captures with the fixed text-field pattern: the
/// quoted text between the leading `, ` and the trailing quoted comma of one
/// output line; the result depends on the line alone.
#[verifier::external_body]
fn capture_easy_ocr_line(line: &str) -> (r: Option<String>)
    ensures
        (r is Some) == (easy_ocr_capture(line@) is Some),
        r matches Some(s) ==> easy_ocr_capture(line@) matches Some(t) && s@ == t,
{
    let re = regex::Regex::new(r#", (\\"|')+(.*)('\\"|')+,"#).ok()?;
    let caps = re.captures(line)?;
    Some(caps.get(2)?.as_str().to_string())
}

/// The index of the first newline, or the length when there is none.
pub open spec fn first_newline(s: Seq<char>) -> int
    decreases s.len(),
{
    if s.len() == 0 {
        0
    } else if s[0] == '\n' {
        0
    } else {
        1 + first_newline(s.drop_first())
    }
}

proof fn lemma_first_newline_bounds(s: Seq<char>)
    ensures
        0 <= first_newline(s) <= s.len(),
        first_newline(s) < s.len() ==> s[first_newline(s)] == '\n',
        forall|j: int| 0 <= j < first_newline(s) ==> s[j] != '\n',
    decreases s.len(),
{
    if s.len() > 0 && s[0] != '\n' {
        lemma_first_newline_bounds(s.drop_first());
        assert forall|j: int| 0 <= j < first_newline(s) implies s[j] != '\n' by {
            if j > 0 {
                assert(s.drop_first()[j - 1] != '\n');
            }
        }
    }
}

proof fn lemma_first_newline_at(s: Seq<char>, k: int)
    requires
        0 <= k <= s.len(),
        forall|j: int| 0 <= j < k ==> s[j] != '\n',
        k < s.len() ==> s[k] == '\n',
    ensures
        first_newline(s) == k,
    decreases s.len(),
{
    if s.len() > 0 && s[0] != '\n' {
        lemma_first_newline_at(s.drop_first(), k - 1);
    }
}

/// A line with a trailing carriage return stripped.
pub open spec fn strip_cr(t: Seq<char>) -> Seq<char> {
    if t.len() > 0 && t.last() == '\r' {
        t.drop_last()
    } else {
        t
    }
}

/// The lines of a text: split at newlines, each line's trailing carriage
/// return stripped, with no trailing empty line after a final newline.
pub open spec fn line_split(s: Seq<char>) -> Seq<Seq<char>>
    decreases s.len(),
    via line_split_decreases
{
    if s.len() == 0 {
        Seq::empty()
    } else {
        let i = first_newline(s);
        let head = strip_cr(s.subrange(0, i));
        if i == s.len() {
            seq![head]
        } else {
            seq![head] + line_split(s.subrange(i + 1, s.len() as int))
        }
    }
}

#[via_fn]
proof fn line_split_decreases(s: Seq<char>) {
    lemma_first_newline_bounds(s);
}

/// The captures of the lines, in order, lines without a capture dropped.
pub open spec fn spec_captures(lines: Seq<Seq<char>>) -> Seq<Seq<char>>
    decreases lines.len(),
{
    if lines.len() == 0 {
        Seq::empty()
    } else {
        let rest = spec_captures(lines.drop_last());
        match easy_ocr_capture(lines.last()) {
            Some(t) => rest.push(t),
            None => rest,
        }
    }
}

/// The text fields captured from each output line, joined by newlines; lines
/// the pattern does not match contribute nothing.
pub fn parse_easy_ocr_output(output: &str) -> (r: String)
    ensures
        r@ == spec_join(spec_captures(line_split(output@)), "\n"@),
{
    let chars = string_to_chars(output);
    let n: usize = chars.len();

    // Split into lines.
    let mut lines: Vec<String> = Vec::new();
    let mut pos: usize = 0;
    proof {
        assert(chars@.subrange(0, n as int) =~= chars@);
    }
    while pos < n
        invariant
            n == chars@.len(),
            chars@ == output@,
            pos <= n,
            line_split(output@) == str_views(lines@) + line_split(
                chars@.subrange(pos as int, n as int),
            ),
        decreases n - pos,
    {
        let ghost rest = chars@.subrange(pos as int, n as int);
        let mut i: usize = pos;
        while i < n && chars[i] != '\n'
            invariant
                n == chars@.len(),
                pos <= i <= n,
                forall|j: int| pos <= j < i ==> chars@[j] != '\n',
            decreases n - i,
        {
            i += 1;
        }
        proof {
            lemma_first_newline_at(rest, i - pos);
        }
        let mut end: usize = i;
        if end > pos && chars[end - 1] == '\r' {
            end = end - 1;
        }
        let line = chars_to_string(&chars, pos, end);
        proof {
            assert(rest.subrange(0, i - pos) =~= chars@.subrange(pos as int, i as int));
            assert(strip_cr(chars@.subrange(pos as int, i as int)) =~= chars@.subrange(
                pos as int,
                end as int,
            )) by {
                let t = chars@.subrange(pos as int, i as int);
                if t.len() > 0 && t.last() == '\r' {
                    assert(t.drop_last() =~= chars@.subrange(pos as int, i as int - 1));
                } else {
                }
            }
        }
        let ghost pre = lines@;
        lines.push(line);
        proof {
            assert(str_views(lines@) =~= str_views(pre).push(line@));
            if i < n {
                assert(rest.subrange(i - pos + 1, rest.len() as int) =~= chars@.subrange(
                    i as int + 1,
                    n as int,
                ));
                assert(line_split(rest) =~= seq![line@] + line_split(
                    chars@.subrange(i as int + 1, n as int),
                ));
                assert(str_views(pre) + (seq![line@] + line_split(
                    chars@.subrange(i as int + 1, n as int),
                )) =~= str_views(lines@) + line_split(chars@.subrange(i as int + 1, n as int)));
            } else {
                assert(line_split(rest) =~= seq![line@]);
                assert(chars@.subrange(n as int, n as int) =~= Seq::<char>::empty());
                assert(str_views(pre) + seq![line@] =~= str_views(lines@) + line_split(
                    chars@.subrange(n as int, n as int),
                ));
            }
        }
        if i < n {
            pos = i + 1;
        } else {
            pos = n;
        }
    }
    proof {
        assert(chars@.subrange(n as int, n as int) =~= Seq::<char>::empty());
        assert(str_views(lines@) + Seq::<Seq<char>>::empty() =~= str_views(lines@));
        assert(line_split(output@) == str_views(lines@));
    }

    // Capture each line's text field.
    let ghost lv = str_views(lines@);
    let m: usize = lines.len();
    let mut caps: Vec<String> = Vec::new();
    let mut k: usize = 0;
    while k < m
        invariant
            m == lines@.len(),
            k <= m,
            lv == str_views(lines@),
            lv.len() == m,
            forall|t: int| 0 <= t < m ==> lv[t] == (#[trigger] lines@[t])@,
            str_views(caps@) == spec_captures(lv.take(k as int)),
        decreases m - k,
    {
        proof {
            assert(lv.take(k as int + 1).drop_last() =~= lv.take(k as int));
            assert(lv.take(k as int + 1).last() == lv[k as int]);
        }
        match capture_easy_ocr_line(lines[k].as_str()) {
            Some(text) => {
                let ghost pre = caps@;
                caps.push(text);
                proof {
                    assert(str_views(caps@) =~= str_views(pre).push(caps@.last()@));
                }
            },
            None => {},
        }
        k += 1;
    }
    proof {
        assert(lv.take(m as int) =~= lv);
    }

    crate::strings::join_strings(&caps, "\n")
}

} // verus!
