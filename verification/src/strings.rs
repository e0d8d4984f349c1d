//! Small character and string helpers shared by the text-processing modules.

use vstd::prelude::*;
use vstd::string::StrSliceExecFns;

verus! {

/// Whether std's Unicode `White_Space` property holds of the character.
pub uninterp spec fn is_whitespace_char(c: char) -> bool;

/// Relies on std char::is_whitespace: true exactly for characters with the
/// Unicode `White_Space` property, a function of the character alone.
#[verifier::external_body]
pub fn char_is_whitespace(c: char) -> (r: bool)
    ensures
        r == is_whitespace_char(c),
{
    c.is_whitespace()
}

/// Relies on std String::push: appends the given character to the end.
#[verifier::external_body]
pub fn push_char(s: &mut String, c: char) -> (r: ())
    ensures
        final(s)@ == old(s)@.push(c),
{
    s.push(c)
}

/// The characters of a string collected into a vector.
pub fn string_to_chars(s: &str) -> (r: Vec<char>)
    ensures
        r@ == s@,
{
    let n: usize = s.unicode_len();
    let mut out: Vec<char> = Vec::new();
    let mut i: usize = 0;
    while i < n
        invariant
            n == s@.len(),
            i <= n,
            out@ == s@.take(i as int),
        decreases n - i,
    {
        out.push(s.get_char(i));
        proof {
            assert(out@ =~= s@.take(i as int + 1));
        }
        i += 1;
    }
    proof {
        assert(s@.take(n as int) =~= s@);
    }
    out
}

/// The characters `line[start..end]` collected into a string.
pub fn chars_to_string(line: &Vec<char>, start: usize, end: usize) -> (r: String)
    requires
        start <= end <= line@.len(),
    ensures
        r@ == line@.subrange(start as int, end as int),
{
    let mut out: String = String::new();
    let mut i: usize = start;
    while i < end
        invariant
            start <= i <= end <= line@.len(),
            out@ == line@.subrange(start as int, i as int),
        decreases end - i,
    {
        push_char(&mut out, line[i]);
        proof {
            assert(out@ =~= line@.subrange(start as int, i as int + 1));
        }
        i += 1;
    }
    out
}

/// The input with every Unicode whitespace character removed.
pub fn remove_whitespace(s: &str) -> (r: String)
    ensures
        r@ == s@.filter(|c: char| !is_whitespace_char(c)),
{
    let chars = string_to_chars(s);
    let n: usize = chars.len();
    let mut out: String = String::new();
    let mut i: usize = 0;
    while i < n
        invariant
            n == chars@.len(),
            chars@ == s@,
            i <= n,
            out@ == s@.take(i as int).filter(|c: char| !is_whitespace_char(c)),
        decreases n - i,
    {
        let c = chars[i];
        proof {
            reveal_with_fuel(Seq::filter, 2);
            assert(s@.take(i as int + 1).drop_last() =~= s@.take(i as int));
            assert(s@.take(i as int + 1).last() == s@[i as int]);
        }
        if !char_is_whitespace(c) {
            push_char(&mut out, c);
        }
        i += 1;
    }
    proof {
        assert(s@.take(n as int) =~= s@);
    }
    out
}

/// The input with the character at the given index replaced; out-of-range
/// indices leave the input unchanged.
pub fn replace_nth_char_safe(s: &str, idx: usize, newchar: char) -> (r: String)
    ensures
        r@ == s@.map(
            |i: int, c: char|
                if i == idx {
                    newchar
                } else {
                    c
                },
        ),
{
    let ghost repl = s@.map(
        |i: int, c: char|
            if i == idx {
                newchar
            } else {
                c
            },
    );
    let chars = string_to_chars(s);
    let n: usize = chars.len();
    let mut out: String = String::new();
    let mut i: usize = 0;
    while i < n
        invariant
            n == chars@.len(),
            chars@ == s@,
            i <= n,
            repl == s@.map(
                |k: int, c: char|
                    if k == idx {
                        newchar
                    } else {
                        c
                    },
            ),
            out@ == repl.take(i as int),
        decreases n - i,
    {
        let c = if i == idx {
            newchar
        } else {
            chars[i]
        };
        push_char(&mut out, c);
        proof {
            assert(out@ =~= repl.take(i as int + 1));
        }
        i += 1;
    }
    proof {
        assert(repl.take(n as int) =~= repl);
    }
    out
}

/// The decimal digits of `n`, most significant first.
pub open spec fn spec_decimal(n: nat) -> Seq<char>
    decreases n,
{
    let digit = seq![spec_digit_char((n % 10) as nat)];
    if n < 10 {
        digit
    } else {
        spec_decimal((n / 10) as nat) + digit
    }
}

/// The character for one decimal digit.
pub open spec fn spec_digit_char(d: nat) -> char {
    if d == 0 {
        '0'
    } else if d == 1 {
        '1'
    } else if d == 2 {
        '2'
    } else if d == 3 {
        '3'
    } else if d == 4 {
        '4'
    } else if d == 5 {
        '5'
    } else if d == 6 {
        '6'
    } else if d == 7 {
        '7'
    } else if d == 8 {
        '8'
    } else {
        '9'
    }
}

fn digit_char(d: u64) -> (r: char)
    requires
        d < 10,
    ensures
        r == spec_digit_char(d as nat),
{
    if d == 0 {
        '0'
    } else if d == 1 {
        '1'
    } else if d == 2 {
        '2'
    } else if d == 3 {
        '3'
    } else if d == 4 {
        '4'
    } else if d == 5 {
        '5'
    } else if d == 6 {
        '6'
    } else if d == 7 {
        '7'
    } else if d == 8 {
        '8'
    } else {
        '9'
    }
}

/// The decimal rendering of an unsigned number.
pub fn u64_to_string(n: u64) -> (r: String)
    ensures
        r@ == spec_decimal(n as nat),
    decreases n,
{
    if n < 10 {
        let mut out: String = String::new();
        push_char(&mut out, digit_char(n));
        proof {
            assert(out@ =~= spec_decimal(n as nat));
        }
        out
    } else {
        let mut out = u64_to_string(n / 10);
        push_char(&mut out, digit_char(n % 10));
        proof {
            assert(out@ =~= spec_decimal(n as nat));
        }
        out
    }
}

/// `a` with `b` appended.
pub fn concat_str(a: String, b: &str) -> (r: String)
    ensures
        r@ == a@ + b@,
{
    let mut out = a;
    vstd::string::StringExecFns::append(&mut out, b);
    out
}

/// What std's Debug formatting renders a string as: the text quoted, with
/// escapes.
pub uninterp spec fn debug_quoted(s: Seq<char>) -> Seq<char>;

/// Relies on std's Debug formatting of str: the quoted, escaped rendering of
/// the text, a function of the characters alone.
#[verifier::external_body]
pub fn debug_quote(s: &str) -> (r: String)
    ensures
        r@ == debug_quoted(s@),
{
    format!("{s:?}")
}

/// Whether two string slices hold the same characters.
pub fn str_eq(a: &str, b: &str) -> (r: bool)
    ensures
        r == (a@ == b@),
{
    let n: usize = a.unicode_len();
    if n != b.unicode_len() {
        return false;
    }
    let mut i: usize = 0;
    while i < n
        invariant
            n == a@.len() == b@.len(),
            i <= n,
            forall|k: int| 0 <= k < i ==> a@[k] == b@[k],
        decreases n - i,
    {
        if a.get_char(i) != b.get_char(i) {
            return false;
        }
        i += 1;
    }
    proof {
        assert(a@ =~= b@);
    }
    true
}

/// The views of a list of strings.
pub open spec fn str_views(s: Seq<String>) -> Seq<Seq<char>> {
    s.map_values(|x: String| x@)
}

/// The parts joined by the separator.
pub open spec fn spec_join(parts: Seq<Seq<char>>, sep: Seq<char>) -> Seq<char>
    decreases parts.len(),
{
    if parts.len() == 0 {
        Seq::empty()
    } else if parts.len() == 1 {
        parts.last()
    } else {
        spec_join(parts.drop_last(), sep) + sep + parts.last()
    }
}

/// The strings joined by the separator.
pub fn join_strings(parts: &Vec<String>, sep: &str) -> (r: String)
    ensures
        r@ == spec_join(str_views(parts@), sep@),
{
    let ghost pv = str_views(parts@);
    let n: usize = parts.len();
    let mut out: String = String::new();
    let mut i: usize = 0;
    while i < n
        invariant
            n == parts@.len(),
            i <= n,
            pv == str_views(parts@),
            pv.len() == n,
            forall|k: int| 0 <= k < n ==> pv[k] == (#[trigger] parts@[k])@,
            out@ == spec_join(pv.take(i as int), sep@),
        decreases n - i,
    {
        proof {
            assert(pv.take(i as int + 1).drop_last() =~= pv.take(i as int));
            assert(pv.take(i as int + 1).last() == pv[i as int]);
        }
        if i > 0 {
            out = concat_str(out, sep);
        }
        out = concat_str(out, parts[i].as_str());
        i += 1;
    }
    proof {
        assert(pv.take(n as int) =~= pv);
    }
    out
}

} // verus!
