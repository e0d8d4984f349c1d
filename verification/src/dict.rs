//! Dictionary-backed longest-match segmentation of a recognized text line,
//! with a fixed-size windowing scheme for long lines.
//!
//! The dictionary index holds lexicon entries as plain values. A position's
//! candidate set starts as every entry one of whose written or reading forms
//! begins with the current character; the candidate substring then grows one
//! character at a time, narrowing the set to the entries with a written form
//! that still has the substring as a prefix; the last length with a non-empty
//! set wins, and only entries whose written form equals the whole substring
//! are kept.

use crate::strings::chars_to_string;
use vstd::prelude::*;

verus! {

/// Character length of one segmentation window.
pub const WINDOW_SIZE: usize = 50;

/// Assumed largest dictionary-word length in characters.
pub const LARGEST_WORD_SIZE: usize = 15;

/// Step between the starts of consecutive windows.
pub const STEP_SIZE: usize = WINDOW_SIZE - LARGEST_WORD_SIZE;

/// One gloss of a lexicon sense: a target language and a translated text.
#[derive(Clone, Debug)]
pub struct DictGloss {
    pub language: String,
    pub text: String,
}

/// One sense of a lexicon entry.
#[derive(Clone, Debug)]
pub struct DictSense {
    pub parts_of_speech: Vec<String>,
    pub glosses: Vec<DictGloss>,
    pub topics: Vec<String>,
}

/// One reading form of a lexicon entry, with its annotations.
#[derive(Clone, Debug)]
pub struct DictReading {
    pub text: String,
    pub infos: Vec<String>,
}

/// A lexicon record: written forms, reading forms and senses.
#[derive(Clone, Debug)]
pub struct DictEntry {
    pub kanji_forms: Vec<String>,
    pub readings: Vec<DictReading>,
    pub senses: Vec<DictSense>,
}

/// The immutable dictionary index the segmenter works against.
pub struct DictIndex {
    pub entries: Vec<DictEntry>,
}

/// A contiguous substring of a line together with the indices (into the
/// dictionary's entry list) of the entries whose written form equals it; the
/// index list may be empty.
#[derive(Clone, Debug)]
pub struct WordSpan {
    pub text: String,
    pub entries: Vec<usize>,
}

/// `p` is a prefix of `form`.
pub open spec fn starts_with(form: Seq<char>, p: Seq<char>) -> bool {
    p.len() <= form.len() && form.subrange(0, p.len() as int) == p
}

/// Some written form of the entry has `p` as a prefix.
pub open spec fn entry_has_written_prefix(e: DictEntry, p: Seq<char>) -> bool {
    exists|f: int| 0 <= f < e.kanji_forms@.len() && starts_with(#[trigger] e.kanji_forms@[f]@, p)
}

/// Some written form of the entry equals `p` exactly.
pub open spec fn entry_has_full_match(e: DictEntry, p: Seq<char>) -> bool {
    exists|f: int| 0 <= f < e.kanji_forms@.len() && #[trigger] e.kanji_forms@[f]@ == p
}

/// Some written or reading form of the entry begins with the character `c`:
/// the entry belongs to the index bucket of `c`.
pub open spec fn entry_in_bucket(e: DictEntry, c: char) -> bool {
    (exists|f: int|
        0 <= f < e.kanji_forms@.len() && #[trigger] e.kanji_forms@[f]@.len() > 0
            && e.kanji_forms@[f]@[0] == c) || (exists|f: int|
        0 <= f < e.readings@.len() && #[trigger] e.readings@[f].text@.len() > 0
            && e.readings@[f].text@[0] == c)
}

/// The entry at index `i` is still a candidate for the substring of length
/// `l` at `start`: it sits in the leading character's bucket, and from the
/// second character on some written form carries the substring as a prefix.
pub open spec fn is_candidate(dict: DictIndex, line: Seq<char>, start: int, l: int, i: int) -> bool {
    &&& 0 <= i < dict.entries@.len()
    &&& entry_in_bucket(dict.entries@[i], line[start])
    &&& (l >= 2 ==> entry_has_written_prefix(dict.entries@[i], line.subrange(start, start + l)))
}

/// Some candidate remains at length `l`.
pub open spec fn some_candidate(dict: DictIndex, line: Seq<char>, start: int, l: int) -> bool {
    exists|i: int| is_candidate(dict, line, start, l, i)
}

/// The candidate substring grown from length `l`: growth stops at the line's
/// end or at the first length with no candidates left.
pub open spec fn grow_len(dict: DictIndex, line: Seq<char>, start: int, l: int) -> int
    decreases line.len() - start - l,
{
    if start + l >= line.len() {
        l
    } else if !some_candidate(dict, line, start, l + 1) {
        l
    } else {
        grow_len(dict, line, start, l + 1)
    }
}

/// The length of the span emitted at `start`: one character when nothing in
/// the index matches the leading character, else the grown candidate length.
pub open spec fn chosen_len(dict: DictIndex, line: Seq<char>, start: int) -> int {
    if !some_candidate(dict, line, start, 1) {
        1
    } else {
        grow_len(dict, line, start, 1)
    }
}

/// The entry at index `i` is reported for the span at `start`: it is a
/// candidate at the chosen length and its written form equals the span text.
pub open spec fn is_reported(dict: DictIndex, line: Seq<char>, start: int, i: int) -> bool {
    let l = chosen_len(dict, line, start);
    is_candidate(dict, line, start, l, i) && entry_has_full_match(
        dict.entries@[i],
        line.subrange(start, start + l),
    )
}

/// The span `span` is exactly what the segmenter emits at `start`.
pub open spec fn span_valid(dict: DictIndex, line: Seq<char>, start: int, span: WordSpan) -> bool {
    let l = chosen_len(dict, line, start);
    &&& start + l <= line.len()
    &&& span.text@ == line.subrange(start, start + l)
    &&& (forall|j1: int, j2: int|
        0 <= j1 < j2 < span.entries@.len() ==> span.entries@[j1] < span.entries@[j2])
    &&& (forall|j: int|
        0 <= j < span.entries@.len() ==> is_reported(dict, line, start, #[trigger] span.entries@[j] as int))
    &&& (forall|i: int| is_reported(dict, line, start, i) ==> span.entries@.contains(i as usize))
}

/// The spans tile the line from `start` on, each valid at its own position.
pub open spec fn spans_tile(dict: DictIndex, line: Seq<char>, start: int, spans: Seq<WordSpan>) -> bool
    decreases spans.len(),
{
    if spans.len() == 0 {
        true
    } else {
        &&& start < line.len()
        &&& span_valid(dict, line, start, spans[0])
        &&& spans_tile(dict, line, start + chosen_len(dict, line, start), spans.drop_first())
    }
}

/// The concatenation of the spans' texts.
pub open spec fn concat_text(spans: Seq<WordSpan>) -> Seq<char>
    decreases spans.len(),
{
    if spans.len() == 0 {
        Seq::empty()
    } else {
        spans[0].text@ + concat_text(spans.drop_first())
    }
}

proof fn lemma_concat_text_push(spans: Seq<WordSpan>, s: WordSpan)
    ensures
        concat_text(spans.push(s)) == concat_text(spans) + s.text@,
    decreases spans.len(),
{
    if spans.len() == 0 {
        assert(spans.push(s)[0] == s);
        assert(spans.push(s).drop_first() =~= Seq::<WordSpan>::empty());
        assert(concat_text(spans.push(s)) == s.text@ + concat_text(Seq::<WordSpan>::empty()));
        assert(s.text@ + Seq::<char>::empty() =~= s.text@);
        assert(concat_text(spans) + s.text@ =~= s.text@);
    } else {
        assert(spans.push(s).drop_first() =~= spans.drop_first().push(s));
        assert(spans.push(s)[0] == spans[0]);
        lemma_concat_text_push(spans.drop_first(), s);
        assert(spans[0].text@ + (concat_text(spans.drop_first()) + s.text@) =~= (spans[0].text@
            + concat_text(spans.drop_first())) + s.text@);
    }
}

/// The grown length stays within the line and never shrinks.
proof fn lemma_grow_len_bounds(dict: DictIndex, line: Seq<char>, start: int, l: int)
    requires
        1 <= l,
        start + l <= line.len(),
    ensures
        l <= grow_len(dict, line, start, l),
        start + grow_len(dict, line, start, l) <= line.len(),
    decreases line.len() - start - l,
{
    if start + l >= line.len() {
    } else if !some_candidate(dict, line, start, l + 1) {
    } else {
        lemma_grow_len_bounds(dict, line, start, l + 1);
    }
}

/// The chosen span length is at least one character and stays within the
/// line.
pub proof fn lemma_chosen_len_bounds(dict: DictIndex, line: Seq<char>, start: int)
    requires
        0 <= start < line.len(),
    ensures
        1 <= chosen_len(dict, line, start),
        start + chosen_len(dict, line, start) <= line.len(),
{
    if some_candidate(dict, line, start, 1) {
        lemma_grow_len_bounds(dict, line, start, 1);
    }
}

proof fn lemma_spans_tile_push(
    dict: DictIndex,
    line: Seq<char>,
    start: int,
    spans: Seq<WordSpan>,
    end: int,
    s: WordSpan,
)
    requires
        0 <= start,
        spans_tile(dict, line, start, spans),
        start + concat_text(spans).len() == end,
        start <= end,
        end < line.len(),
        span_valid(dict, line, end, s),
    ensures
        spans_tile(dict, line, start, spans.push(s)),
    decreases spans.len(),
{
    if spans.len() == 0 {
        assert(start == end);
        assert(spans.push(s)[0] == s);
        assert(spans.push(s).drop_first() =~= Seq::<WordSpan>::empty());
        assert(spans_tile(
            dict,
            line,
            end + chosen_len(dict, line, end),
            Seq::<WordSpan>::empty(),
        ));
    } else {
        let l0 = chosen_len(dict, line, start);
        lemma_chosen_len_bounds(dict, line, start);
        assert(spans[0].text@.len() == l0);
        assert(concat_text(spans) == spans[0].text@ + concat_text(spans.drop_first()));
        lemma_spans_tile_push(dict, line, start + l0, spans.drop_first(), end, s);
        assert(spans.push(s).drop_first() =~= spans.drop_first().push(s));
        assert(spans.push(s)[0] == spans[0]);
    }
}

/// Whether some written or reading form of the entry begins with `c`.
fn entry_in_bucket_exec(e: &DictEntry, c: char) -> (r: bool)
    ensures
        r == entry_in_bucket(*e, c),
{
    let nk: usize = e.kanji_forms.len();
    let mut f: usize = 0;
    while f < nk
        invariant
            nk == e.kanji_forms@.len(),
            f <= nk,
            forall|k: int|
                0 <= k < f ==> !(#[trigger] e.kanji_forms@[k]@.len() > 0 && e.kanji_forms@[k]@[0]
                    == c),
        decreases nk - f,
    {
        let form: &String = &e.kanji_forms[f];
        if !form.as_str().is_empty() {
            if form.as_str().get_char(0) == c {
                return true;
            }
        }
        f += 1;
    }
    let nr: usize = e.readings.len();
    let mut g: usize = 0;
    while g < nr
        invariant
            nr == e.readings@.len(),
            g <= nr,
            forall|k: int|
                0 <= k < nk as int ==> !(#[trigger] e.kanji_forms@[k]@.len() > 0
                    && e.kanji_forms@[k]@[0] == c),
            nk == e.kanji_forms@.len(),
            forall|k: int|
                0 <= k < g ==> !(#[trigger] e.readings@[k].text@.len() > 0 && e.readings@[k].text@[0]
                    == c),
        decreases nr - g,
    {
        let form: &String = &e.readings[g].text;
        if !form.as_str().is_empty() {
            if form.as_str().get_char(0) == c {
                return true;
            }
        }
        g += 1;
    }
    false
}

/// Whether `form` has `line[start .. start+len]` as a prefix.
fn form_starts_with(form: &String, line: &Vec<char>, start: usize, len: usize) -> (r: bool)
    requires
        start + len <= line@.len(),
    ensures
        r == starts_with(form@, line@.subrange(start as int, start as int + len as int)),
{
    let ghost p = line@.subrange(start as int, start as int + len as int);
    let fl: usize = form.as_str().unicode_len();
    if fl < len {
        return false;
    }
    let nl: usize = line.len();
    let mut k: usize = 0;
    while k < len
        invariant
            nl == line@.len(),
            start + len <= line@.len(),
            len <= fl == form@.len(),
            k <= len,
            p == line@.subrange(start as int, start as int + len as int),
            forall|t: int| 0 <= t < k ==> form@[t] == p[t],
        decreases len - k,
    {
        if form.as_str().get_char(k) != line[start + k] {
            proof {
                assert(form@[k as int] != p[k as int]);
                assert(form@.subrange(0, p.len() as int) != p);
            }
            return false;
        }
        k += 1;
    }
    proof {
        assert(form@.subrange(0, p.len() as int) =~= p);
    }
    true
}

/// Whether `form` equals `line[start .. start+len]` exactly.
fn form_equals(form: &String, line: &Vec<char>, start: usize, len: usize) -> (r: bool)
    requires
        start + len <= line@.len(),
    ensures
        r == (form@ == line@.subrange(start as int, start as int + len as int)),
{
    let fl: usize = form.as_str().unicode_len();
    if fl != len {
        return false;
    }
    let r = form_starts_with(form, line, start, len);
    proof {
        let p = line@.subrange(start as int, start as int + len as int);
        if starts_with(form@, p) {
            assert(form@.subrange(0, p.len() as int) =~= form@);
        }
        if form@ == p {
            assert(form@.subrange(0, p.len() as int) =~= p);
        }
    }
    r
}

/// Whether some written form of the entry has `line[start..start+len]` as a
/// prefix.
fn entry_has_written_prefix_exec(e: &DictEntry, line: &Vec<char>, start: usize, len: usize) -> (r:
    bool)
    requires
        start + len <= line@.len(),
    ensures
        r == entry_has_written_prefix(*e, line@.subrange(start as int, start as int + len as int)),
{
    let nk: usize = e.kanji_forms.len();
    let mut f: usize = 0;
    while f < nk
        invariant
            start + len <= line@.len(),
            nk == e.kanji_forms@.len(),
            f <= nk,
            forall|k: int|
                0 <= k < f ==> !starts_with(
                    #[trigger] e.kanji_forms@[k]@,
                    line@.subrange(start as int, start as int + len as int),
                ),
        decreases nk - f,
    {
        if form_starts_with(&e.kanji_forms[f], line, start, len) {
            return true;
        }
        f += 1;
    }
    false
}

/// Whether some written form of the entry equals `line[start..start+len]`.
fn entry_has_full_match_exec(e: &DictEntry, line: &Vec<char>, start: usize, len: usize) -> (r: bool)
    requires
        start + len <= line@.len(),
    ensures
        r == entry_has_full_match(*e, line@.subrange(start as int, start as int + len as int)),
{
    let nk: usize = e.kanji_forms.len();
    let mut f: usize = 0;
    while f < nk
        invariant
            start + len <= line@.len(),
            nk == e.kanji_forms@.len(),
            f <= nk,
            forall|k: int|
                0 <= k < f ==> #[trigger] e.kanji_forms@[k]@ != line@.subrange(
                    start as int,
                    start as int + len as int,
                ),
        decreases nk - f,
    {
        if form_equals(&e.kanji_forms[f], line, start, len) {
            return true;
        }
        f += 1;
    }
    false
}

/// The longest-match lookup at one position: the emitted substring length and
/// the indices of the fully matching entries, ascending. A leading character
/// with no bucket entries yields length one and no entries.
pub fn extract_dict_entries(dict: &DictIndex, line: &Vec<char>, start: usize) -> (r: (
    usize,
    Vec<usize>,
))
    requires
        start < line@.len(),
    ensures
        r.0 == chosen_len(*dict, line@, start as int),
        1 <= r.0 && start + r.0 <= line@.len(),
        forall|j1: int, j2: int| 0 <= j1 < j2 < r.1@.len() ==> r.1@[j1] < r.1@[j2],
        forall|j: int|
            0 <= j < r.1@.len() ==> is_reported(*dict, line@, start as int, #[trigger] r.1@[j] as int),
        forall|i: int| is_reported(*dict, line@, start as int, i) ==> r.1@.contains(i as usize),
        !some_candidate(*dict, line@, start as int, 1) ==> r.0 == 1 && r.1@.len() == 0,
    decreases line@.len() - start,
{
    let c: char = line[start];
    let n: usize = dict.entries.len();
    let nl: usize = line.len();

    // The bucket of the leading character, ascending.
    let mut cands: Vec<usize> = Vec::new();
    let mut i: usize = 0;
    while i < n
        invariant
            n == dict.entries@.len(),
            i <= n,
            c == line@[start as int],
            start < line@.len(),
            forall|j1: int, j2: int| 0 <= j1 < j2 < cands@.len() ==> cands@[j1] < cands@[j2],
            forall|j: int| 0 <= j < cands@.len() ==> #[trigger] cands@[j] < i,
            forall|j: int|
                0 <= j < cands@.len() ==> is_candidate(
                    *dict,
                    line@,
                    start as int,
                    1,
                    #[trigger] cands@[j] as int,
                ),
            forall|k: int|
                0 <= k < i && is_candidate(*dict, line@, start as int, 1, k) ==> cands@.contains(
                    k as usize,
                ),
        decreases n - i,
    {
        if entry_in_bucket_exec(&dict.entries[i], c) {
            let ghost oldc = cands@;
            cands.push(i);
            proof {
                assert forall|k: int|
                    0 <= k < i + 1 && is_candidate(*dict, line@, start as int, 1, k)
                    implies cands@.contains(k as usize) by {
                    if k < i {
                        assert(oldc.contains(k as usize));
                        let j = choose|j: int| 0 <= j < oldc.len() && oldc[j] == k as usize;
                        assert(cands@[j] == k as usize);
                    } else {
                        assert(cands@[cands@.len() - 1] == k as usize);
                    }
                }
            }
        }
        i += 1;
    }

    if cands.len() == 0 {
        proof {
            assert forall|k: int| !(#[trigger] is_candidate(*dict, line@, start as int, 1, k)) by {
                if 0 <= k < n as int && is_candidate(*dict, line@, start as int, 1, k) {
                    assert(cands@.contains(k as usize));
                }
            }
        }
        return (1, Vec::new());
    }
    proof {
        assert(is_candidate(*dict, line@, start as int, 1, cands@[0] as int));
        assert(some_candidate(*dict, line@, start as int, 1));
    }

    // Grow the candidate substring while candidates remain.
    let mut l: usize = 1;
    while start + l < nl
        invariant
            n == dict.entries@.len(),
            nl == line@.len(),
            start < line@.len(),
            1 <= l,
            start + l <= line@.len(),
            cands@.len() > 0,
            forall|j1: int, j2: int| 0 <= j1 < j2 < cands@.len() ==> cands@[j1] < cands@[j2],
            forall|j: int|
                0 <= j < cands@.len() ==> is_candidate(
                    *dict,
                    line@,
                    start as int,
                    l as int,
                    #[trigger] cands@[j] as int,
                ),
            forall|k: int|
                is_candidate(*dict, line@, start as int, l as int, k) ==> cands@.contains(
                    k as usize,
                ),
            some_candidate(*dict, line@, start as int, 1),
            grow_len(*dict, line@, start as int, l as int) == chosen_len(*dict, line@, start as int),
        ensures
            1 <= l,
            start + l <= line@.len(),
            l as int == chosen_len(*dict, line@, start as int),
            forall|j1: int, j2: int| 0 <= j1 < j2 < cands@.len() ==> cands@[j1] < cands@[j2],
            forall|j: int|
                0 <= j < cands@.len() ==> is_candidate(
                    *dict,
                    line@,
                    start as int,
                    l as int,
                    #[trigger] cands@[j] as int,
                ),
            forall|k: int|
                is_candidate(*dict, line@, start as int, l as int, k) ==> cands@.contains(
                    k as usize,
                ),
        decreases line@.len() - start - l,
    {
        let ghost pre = cands@;
        let mut kept: Vec<usize> = Vec::new();
        let m: usize = cands.len();
        let mut j: usize = 0;
        while j < m
            invariant
                n == dict.entries@.len(),
                nl == line@.len(),
                start + l < line@.len(),
                m == pre.len(),
                cands@ == pre,
                j <= m,
                forall|j1: int, j2: int| 0 <= j1 < j2 < pre.len() ==> pre[j1] < pre[j2],
                forall|t: int| 0 <= t < pre.len() ==> #[trigger] pre[t] < n,
                forall|t: int|
                    0 <= t < pre.len() ==> is_candidate(
                        *dict,
                        line@,
                        start as int,
                        l as int,
                        #[trigger] pre[t] as int,
                    ),
                forall|j1: int, j2: int| 0 <= j1 < j2 < kept@.len() ==> kept@[j1] < kept@[j2],
                forall|t: int|
                    0 <= t < kept@.len() ==> exists|u: int|
                        0 <= u < j && pre[u] == #[trigger] kept@[t],
                forall|t: int|
                    0 <= t < kept@.len() ==> is_candidate(
                        *dict,
                        line@,
                        start as int,
                        l as int,
                        #[trigger] kept@[t] as int,
                    ) && entry_has_written_prefix(
                        dict.entries@[kept@[t] as int],
                        line@.subrange(start as int, start as int + l as int + 1),
                    ),
                forall|u: int|
                    0 <= u < j && entry_has_written_prefix(
                        dict.entries@[pre[u] as int],
                        line@.subrange(start as int, start as int + l as int + 1),
                    ) ==> kept@.contains(#[trigger] pre[u]),
            decreases m - j,
        {
            let idx: usize = cands[j];
            if entry_has_written_prefix_exec(&dict.entries[idx], line, start, l + 1) {
                proof {
                    assert forall|j1: int, j2: int|
                        0 <= j1 < j2 < kept@.push(idx).len() implies kept@.push(idx)[j1]
                        < kept@.push(idx)[j2] by {
                        if j2 == kept@.len() as int {
                            let u = choose|u: int| 0 <= u < j && pre[u] == kept@[j1];
                            assert(pre[u] < pre[j as int]);
                        }
                    }
                }
                let ghost oldk = kept@;
                kept.push(idx);
                proof {
                    assert(is_candidate(*dict, line@, start as int, l as int, idx as int));
                    assert(kept@[kept@.len() - 1] == idx);
                    assert forall|u: int|
                        0 <= u < j + 1 && entry_has_written_prefix(
                            dict.entries@[pre[u] as int],
                            line@.subrange(start as int, start as int + l as int + 1),
                        ) implies kept@.contains(pre[u]) by {
                        if u < j {
                            assert(oldk.contains(pre[u]));
                            let t = choose|t: int| 0 <= t < oldk.len() && oldk[t] == pre[u];
                            assert(kept@[t] == pre[u]);
                        } else {
                            assert(kept@[kept@.len() - 1] == pre[u]);
                        }
                    }
                }
            }
            j += 1;
        }
        // `kept` is sound and complete for candidates of length l + 1.
        proof {
            assert forall|t: int| 0 <= t < kept@.len() implies is_candidate(
                *dict,
                line@,
                start as int,
                l as int + 1,
                #[trigger] kept@[t] as int,
            ) by {}
            assert forall|k: int|
                #[trigger] is_candidate(*dict, line@, start as int, l as int + 1, k)
                implies kept@.contains(k as usize) by {
                lemma_candidate_shrink(*dict, line@, start as int, l as int, k);
                assert(cands@.contains(k as usize));
                let u = choose|u: int| 0 <= u < pre.len() && pre[u] == k as usize;
            }
        }
        if kept.len() == 0 {
            proof {
                assert(!some_candidate(*dict, line@, start as int, l as int + 1)) by {
                    if some_candidate(*dict, line@, start as int, l as int + 1) {
                        let k = choose|k: int|
                            #[trigger] is_candidate(*dict, line@, start as int, l as int + 1, k);
                        assert(kept@.contains(k as usize));
                    }
                }
            }
            break;
        }
        proof {
            assert(is_candidate(*dict, line@, start as int, l as int + 1, kept@[0] as int));
        }
        cands = kept;
        l += 1;
    }

    // Full-match filter at the chosen length.
    proof {
        assert(chosen_len(*dict, line@, start as int) == l as int);
    }
    let mut full: Vec<usize> = Vec::new();
    let m: usize = cands.len();
    let mut j: usize = 0;
    while j < m
        invariant
            n == dict.entries@.len(),
            start + l <= line@.len(),
            m == cands@.len(),
            j <= m,
            l as int == chosen_len(*dict, line@, start as int),
            forall|j1: int, j2: int| 0 <= j1 < j2 < cands@.len() ==> cands@[j1] < cands@[j2],
            forall|t: int| 0 <= t < cands@.len() ==> #[trigger] cands@[t] < n,
            forall|t: int|
                0 <= t < cands@.len() ==> is_candidate(
                    *dict,
                    line@,
                    start as int,
                    l as int,
                    #[trigger] cands@[t] as int,
                ),
            forall|k: int|
                is_candidate(*dict, line@, start as int, l as int, k) ==> cands@.contains(
                    k as usize,
                ),
            forall|j1: int, j2: int| 0 <= j1 < j2 < full@.len() ==> full@[j1] < full@[j2],
            forall|t: int|
                0 <= t < full@.len() ==> exists|u: int|
                    0 <= u < j && cands@[u] == #[trigger] full@[t],
            forall|t: int|
                0 <= t < full@.len() ==> is_reported(
                    *dict,
                    line@,
                    start as int,
                    #[trigger] full@[t] as int,
                ),
            forall|u: int|
                0 <= u < j && is_reported(*dict, line@, start as int, cands@[u] as int)
                    ==> full@.contains(#[trigger] cands@[u]),
        decreases m - j,
    {
        let idx: usize = cands[j];
        if entry_has_full_match_exec(&dict.entries[idx], line, start, l) {
            proof {
                assert forall|j1: int, j2: int|
                    0 <= j1 < j2 < full@.push(idx).len() implies full@.push(idx)[j1] < full@.push(
                    idx,
                )[j2] by {
                    if j2 == full@.len() as int {
                        let u = choose|u: int| 0 <= u < j && cands@[u] == full@[j1];
                        assert(cands@[u] < cands@[j as int]);
                    }
                }
            }
            let ghost oldf = full@;
            full.push(idx);
            proof {
                assert forall|u: int|
                    0 <= u < j + 1 && is_reported(*dict, line@, start as int, cands@[u] as int)
                    implies full@.contains(cands@[u]) by {
                    if u < j {
                        assert(oldf.contains(cands@[u]));
                        let t = choose|t: int| 0 <= t < oldf.len() && oldf[t] == cands@[u];
                        assert(full@[t] == cands@[u]);
                    } else {
                        assert(full@[full@.len() - 1] == cands@[u]);
                    }
                }
            }
        }
        j += 1;
    }
    proof {
        assert forall|i: int| is_reported(*dict, line@, start as int, i) implies full@.contains(
            i as usize,
        ) by {
            assert(cands@.contains(i as usize));
            let u = choose|u: int| 0 <= u < cands@.len() && cands@[u] == i as usize;
        }
    }
    (l, full)
}

/// A candidate at a longer substring is a candidate at every shorter one.
proof fn lemma_candidate_shrink(dict: DictIndex, line: Seq<char>, start: int, l: int, k: int)
    requires
        0 <= start,
        1 <= l,
        start + l + 1 <= line.len(),
        is_candidate(dict, line, start, l + 1, k),
    ensures
        is_candidate(dict, line, start, l, k),
{
    if l >= 2 {
        let p_long = line.subrange(start, start + l + 1);
        let p_short = line.subrange(start, start + l);
        assert(entry_has_written_prefix(dict.entries@[k], p_long));
        let f = choose|f: int|
            0 <= f < dict.entries@[k].kanji_forms@.len() && starts_with(
                #[trigger] dict.entries@[k].kanji_forms@[f]@,
                p_long,
            );
        let form = dict.entries@[k].kanji_forms@[f]@;
        assert(starts_with(form, p_long));
        assert(form.subrange(0, p_long.len() as int) == p_long);
        assert(form.subrange(0, p_short.len() as int) =~= p_short) by {
            assert forall|t: int| 0 <= t < p_short.len() implies form.subrange(
                0,
                p_short.len() as int,
            )[t] == p_short[t] by {
                assert(p_long.len() == l + 1);
                assert(form.subrange(0, p_long.len() as int)[t] == p_long[t]);
                assert(form.subrange(0, p_long.len() as int)[t] == form[0 + t]);
                assert(form.subrange(0, p_short.len() as int)[t] == form[0 + t]);
                assert(p_long[t] == line[start + t]);
                assert(p_short[t] == line[start + t]);
            }
        }
        assert(starts_with(form, p_short));
    }
}

/// Longest-match segmentation of a whole line: the emitted spans tile the
/// line, and the concatenation of their texts is the line itself.
pub fn extract_words(dict: &DictIndex, line: &Vec<char>) -> (r: Vec<WordSpan>)
    ensures
        spans_tile(*dict, line@, 0, r@),
        concat_text(r@) == line@,
    decreases line@.len(),
{
    let n: usize = line.len();
    let mut out: Vec<WordSpan> = Vec::new();
    let mut pos: usize = 0;
    while pos < n
        invariant
            n == line@.len(),
            pos <= n,
            spans_tile(*dict, line@, 0, out@),
            concat_text(out@) == line@.take(pos as int),
        decreases n - pos,
    {
        let (len, entries) = extract_dict_entries(dict, line, pos);
        let text = chars_to_string(line, pos, pos + len);
        let span = WordSpan { text, entries };
        proof {
            assert(span_valid(*dict, line@, pos as int, span));
            lemma_spans_tile_push(*dict, line@, 0, out@, pos as int, span);
            lemma_concat_text_push(out@, span);
        }
        out.push(span);
        proof {
            assert(concat_text(out@) =~= line@.take(pos as int + len as int));
        }
        pos += len;
    }
    proof {
        assert(line@.take(n as int) =~= line@);
    }
    out
}

/// One window of a long line: its start offset and its characters.
pub struct LineWindow {
    pub start: usize,
    pub text: Vec<char>,
}

/// One window's segmentation output: the window's start offset and its spans.
pub struct WindowSpans {
    pub start: usize,
    pub spans: Vec<WordSpan>,
}

/// The fixed windows of a long line: full windows of `WINDOW_SIZE` characters
/// stepping by `STEP_SIZE`, plus one final window that reaches the line's
/// end and re-covers the last `LARGEST_WORD_SIZE` characters of the stepped
/// range.
pub fn split_line_windows(line: &Vec<char>) -> (r: Vec<LineWindow>)
    requires
        line@.len() > WINDOW_SIZE,
    ensures
        r@.len() >= 1,
        forall|w: int|
            0 <= w < r@.len() ==> (#[trigger] r@[w].start) + r@[w].text@.len() <= line@.len(),
        forall|w: int|
            0 <= w < r@.len() ==> #[trigger] r@[w].text@ == line@.subrange(
                r@[w].start as int,
                r@[w].start + r@[w].text@.len(),
            ),
        r@[r@.len() - 1].start + r@[r@.len() - 1].text@.len() == line@.len(),
{
    let n: usize = line.len();
    // Number of full windows: every start at a multiple of STEP_SIZE whose
    // window of WINDOW_SIZE characters still fits.
    let m: usize = 1 + (n - WINDOW_SIZE) / STEP_SIZE;
    proof {
        assert(STEP_SIZE as int * ((n - WINDOW_SIZE) as int / STEP_SIZE as int) <= (n
            - WINDOW_SIZE) as int) by {
            vstd::arithmetic::div_mod::lemma_fundamental_div_mod(
                (n - WINDOW_SIZE) as int,
                STEP_SIZE as int,
            );
        }
        assert((m - 1) * STEP_SIZE as int == STEP_SIZE as int * ((n - WINDOW_SIZE) as int
            / STEP_SIZE as int)) by (nonlinear_arith)
            requires
                m as int == 1 + (n - WINDOW_SIZE) as int / STEP_SIZE as int,
        ;
    }
    let mut out: Vec<LineWindow> = Vec::new();
    let mut i: usize = 0;
    while i < m
        invariant
            n == line@.len(),
            n > WINDOW_SIZE,
            (m - 1) * STEP_SIZE as int <= n - WINDOW_SIZE,
            i <= m,
            out@.len() == i,
            forall|w: int|
                0 <= w < i ==> (#[trigger] out@[w].start) == w * STEP_SIZE as int && out@[w].start
                    + out@[w].text@.len() <= n && out@[w].text@ == line@.subrange(
                    out@[w].start as int,
                    out@[w].start + out@[w].text@.len(),
                ),
        decreases m - i,
    {
        proof {
            assert(i as int * STEP_SIZE as int <= (m - 1) * STEP_SIZE as int) by (nonlinear_arith)
                requires
                    0 <= i as int <= m as int - 1,
            ;
        }
        let start: usize = i * STEP_SIZE;
        let mut text: Vec<char> = Vec::new();
        let mut k: usize = 0;
        while k < WINDOW_SIZE
            invariant
                n == line@.len(),
                start + WINDOW_SIZE <= n,
                k <= WINDOW_SIZE,
                text@ == line@.subrange(start as int, start as int + k as int),
            decreases WINDOW_SIZE - k,
        {
            text.push(line[start + k]);
            proof {
                assert(text@ =~= line@.subrange(start as int, start as int + k as int + 1));
            }
            k += 1;
        }
        out.push(LineWindow { start, text });
        i += 1;
    }
    // The final window: from STEP_SIZE * m - LARGEST_WORD_SIZE to the end.
    proof {
        assert(m as int * STEP_SIZE as int == (m - 1) * STEP_SIZE as int + STEP_SIZE as int)
            by (nonlinear_arith);
    }
    let fstart: usize = m * STEP_SIZE - LARGEST_WORD_SIZE;
    let mut text: Vec<char> = Vec::new();
    let mut k: usize = fstart;
    while k < n
        invariant
            n == line@.len(),
            fstart <= k <= n,
            text@ == line@.subrange(fstart as int, k as int),
        decreases n - k,
    {
        text.push(line[k]);
        proof {
            assert(text@ =~= line@.subrange(fstart as int, k as int + 1));
        }
        k += 1;
    }
    let ghost pre = out@;
    out.push(LineWindow { start: fstart, text });
    proof {
        assert forall|w: int|
            0 <= w < out@.len() implies (#[trigger] out@[w].start) + out@[w].text@.len()
            <= line@.len() && out@[w].text@ == line@.subrange(
            out@[w].start as int,
            out@[w].start + out@[w].text@.len(),
        ) by {
            if w < pre.len() {
                assert(out@[w] == pre[w]);
            }
        }
    }
    out
}

/// A fresh copy of an index list.
fn copy_indices(v: &Vec<usize>) -> (r: Vec<usize>)
    ensures
        r@ == v@,
{
    let mut out: Vec<usize> = Vec::new();
    let n: usize = v.len();
    let mut i: usize = 0;
    while i < n
        invariant
            n == v@.len(),
            i <= n,
            out@ == v@.take(i as int),
        decreases n - i,
    {
        out.push(v[i]);
        proof {
            assert(out@ =~= v@.take(i as int + 1));
        }
        i += 1;
    }
    proof {
        assert(v@.take(n as int) =~= v@);
    }
    out
}

/// The span at `t` of `r` carries the same text and entry indices as `s`.
pub open spec fn same_span(a: WordSpan, b: WordSpan) -> bool {
    a.text@ == b.text@ && a.entries@ == b.entries@
}

/// A result span either keeps a window span verbatim or carries no entries.
pub open spec fn span_from_windows(windows: Seq<WindowSpans>, s: WordSpan) -> bool {
    s.entries@.len() == 0 || exists|w: int, j: int|
        0 <= w < windows.len() && 0 <= j < windows[w].spans@.len() && same_span(
            s,
            #[trigger] windows[w].spans@[j],
        )
}

/// How many leading spans of one window the stitcher considers: all of them
/// for the final window, all but the likely-truncated last otherwise.
pub open spec fn considered_count(w: WindowSpans, is_final: bool) -> int {
    if is_final {
        w.spans@.len() as int
    } else if w.spans@.len() > 0 {
        w.spans@.len() - 1
    } else {
        0
    }
}

/// The character offset the windows before `w` cover: each window with
/// considered spans extends the covered prefix to the end of those spans.
pub open spec fn covered_before(windows: Seq<WindowSpans>, w: int) -> int
    decreases w,
{
    if w <= 0 {
        0
    } else {
        let prev = covered_before(windows, w - 1);
        let wprev = windows[w - 1];
        let cnt = considered_count(wprev, w - 1 == windows.len() - 1);
        if cnt == 0 {
            prev
        } else {
            let e = wprev.start + concat_text(wprev.spans@.take(cnt)).len();
            if e >= prev {
                e
            } else {
                prev
            }
        }
    }
}

/// Window `w`'s considered span `j` starts at or beyond what earlier windows
/// cover, so stitching must keep it verbatim (spans of empty text aside).
pub open spec fn span_is_unaffected(windows: Seq<WindowSpans>, w: int, j: int) -> bool {
    &&& 0 <= w < windows.len()
    &&& 0 <= j < considered_count(windows[w], w == windows.len() - 1)
    &&& windows[w].spans@[j].text@.len() > 0
    &&& windows[w].start + concat_text(windows[w].spans@.take(j)).len() >= covered_before(
        windows,
        w,
    )
}

/// Stitching of per-window segmentation results back into one span list.
///
/// A running valid-through offset records how much of the line the kept spans
/// already cover. The final span of every window but the last is dropped as
/// likely truncated; spans wholly before the offset are skipped; a span
/// straddling the offset contributes only its uncovered tail, with no
/// entries; a gap before a span (a window whose dropped span reached past the
/// next window's kept spans) is filled from the line, with no entries. The
/// concatenation of the kept texts is the whole line, whatever the windows
/// hold, and every considered span that starts at or beyond what the earlier
/// windows cover is kept verbatim.
pub fn stitch_windows(line: &Vec<char>, windows: &Vec<WindowSpans>) -> (r: Vec<WordSpan>)
    requires
        forall|w: int|
            0 <= w < windows@.len() ==> (#[trigger] windows@[w].start) + concat_text(
                windows@[w].spans@,
            ).len() <= line@.len(),
        forall|w: int|
            0 <= w < windows@.len() ==> concat_text(#[trigger] windows@[w].spans@)
                == line@.subrange(
                windows@[w].start as int,
                windows@[w].start + concat_text(windows@[w].spans@).len(),
            ),
    ensures
        concat_text(r@) == line@,
        forall|t: int| 0 <= t < r@.len() ==> span_from_windows(windows@, #[trigger] r@[t]),
        forall|w: int, j: int|
            #[trigger] span_is_unaffected(windows@, w, j) ==> exists|t: int|
                0 <= t < r@.len() && same_span(r@[t], windows@[w].spans@[j]),
{
    let n: usize = line.len();
    let nw: usize = windows.len();
    let mut out: Vec<WordSpan> = Vec::new();
    let mut valid: usize = 0;
    let mut w: usize = 0;
    proof {
        assert(covered_before(windows@, 0) == 0);
    }
    while w < nw
        invariant
            n == line@.len(),
            nw == windows@.len(),
            w <= nw,
            valid <= n,
            valid as int == covered_before(windows@, w as int),
            concat_text(out@) == line@.take(valid as int),
            forall|t: int| 0 <= t < out@.len() ==> span_from_windows(windows@, #[trigger] out@[t]),
            forall|v: int, j2: int|
                0 <= v < w && #[trigger] span_is_unaffected(windows@, v, j2) ==> exists|t: int|
                    0 <= t < out@.len() && same_span(out@[t], windows@[v].spans@[j2]),
            forall|v: int|
                0 <= v < windows@.len() ==> (#[trigger] windows@[v].start) + concat_text(
                    windows@[v].spans@,
                ).len() <= line@.len(),
            forall|v: int|
                0 <= v < windows@.len() ==> concat_text(#[trigger] windows@[v].spans@)
                    == line@.subrange(
                    windows@[v].start as int,
                    windows@[v].start + concat_text(windows@[v].spans@).len(),
                ),
        decreases nw - w,
    {
        let win_span_count: usize = windows[w].spans.len();
        let upto: usize = if w + 1 == nw {
            win_span_count
        } else if win_span_count > 0 {
            win_span_count - 1
        } else {
            0
        };
        let ghost wspans = windows@[w as int].spans@;
        let ghost wend = windows@[w as int].start + concat_text(wspans).len();
        let ghost cov = valid as int;
        let mut pos: usize = windows[w].start;
        let mut j: usize = 0;
        proof {
            assert(upto as int == considered_count(windows@[w as int], w as int == nw as int - 1));
            assert(wspans.skip(0) =~= wspans);
            assert(wspans.take(0) =~= Seq::<WordSpan>::empty());
        }
        while j < upto
            invariant
                n == line@.len(),
                nw == windows@.len(),
                w < nw,
                upto <= wspans.len(),
                upto as int == considered_count(
                    windows@[w as int],
                    w as int == nw as int - 1,
                ),
                wspans == windows@[w as int].spans@,
                wend == windows@[w as int].start + concat_text(wspans).len(),
                wend <= n,
                j <= upto,
                pos <= wend,
                pos as int == windows@[w as int].start + concat_text(
                    wspans.take(j as int),
                ).len(),
                valid <= n,
                cov == covered_before(windows@, w as int),
                valid as int == (if j == 0 {
                    cov
                } else if pos as int >= cov {
                    pos as int
                } else {
                    cov
                }),
                concat_text(wspans.skip(j as int)) == line@.subrange(pos as int, wend as int),
                concat_text(out@) == line@.take(valid as int),
                forall|t: int|
                    0 <= t < out@.len() ==> span_from_windows(windows@, #[trigger] out@[t]),
                forall|j2: int|
                    0 <= j2 < j && #[trigger] span_is_unaffected(windows@, w as int, j2)
                        ==> exists|t: int|
                        0 <= t < out@.len() && same_span(out@[t], wspans[j2]),
                forall|v: int, j2: int|
                    0 <= v < w && #[trigger] span_is_unaffected(windows@, v, j2) ==> exists|t: int|
                        0 <= t < out@.len() && same_span(out@[t], windows@[v].spans@[j2]),
            decreases upto - j,
        {
            let ghost rest = wspans.skip(j as int);
            proof {
                assert(rest[0] == wspans[j as int]);
                assert(rest.drop_first() =~= wspans.skip(j as int + 1));
                assert(concat_text(rest) == rest[0].text@ + concat_text(rest.drop_first()));
            }
            let span: &WordSpan = &windows[w].spans[j];
            let tl: usize = span.text.as_str().unicode_len();
            proof {
                assert(span.text@.len() + concat_text(rest.drop_first()).len() == wend - pos);
            }
            let b: usize = pos + tl;
            proof {
                assert(span.text@ =~= line@.subrange(pos as int, b as int)) by {
                    assert forall|t: int| 0 <= t < tl implies span.text@[t] == line@.subrange(
                        pos as int,
                        b as int,
                    )[t] by {
                        assert((rest[0].text@ + concat_text(rest.drop_first()))[t]
                            == span.text@[t]);
                        assert(line@.subrange(pos as int, wend as int)[t] == line@[pos + t]);
                    }
                }
                assert(concat_text(wspans.skip(j as int + 1)) =~= line@.subrange(
                    b as int,
                    wend as int,
                )) by {
                    assert forall|t: int|
                        0 <= t < concat_text(rest.drop_first()).len() implies concat_text(
                        rest.drop_first(),
                    )[t] == line@.subrange(b as int, wend as int)[t] by {
                        assert((rest[0].text@ + concat_text(rest.drop_first()))[tl + t]
                            == concat_text(rest.drop_first())[t]);
                        assert(line@.subrange(pos as int, wend as int)[tl + t] == line@[b + t]);
                    }
                }
                // The next prefix sum: this span's text appended.
                assert(wspans.take(j as int + 1) =~= wspans.take(j as int).push(
                    wspans[j as int],
                ));
                lemma_concat_text_push(wspans.take(j as int), wspans[j as int]);
            }
            if b <= valid {
                // Already covered by earlier windows: an unaffected span
                // never lands here, since its start is at or past the cover.
                proof {
                    assert forall|j2: int|
                        0 <= j2 < j + 1 && #[trigger] span_is_unaffected(windows@, w as int, j2)
                        implies exists|t: int|
                        0 <= t < out@.len() && same_span(out@[t], wspans[j2]) by {
                        if j2 == j {
                            assert(pos as int >= cov && wspans[j2].text@.len() > 0);
                            assert(valid as int <= pos as int);
                            assert(false);
                        }
                    }
                }
                pos = b;
                j += 1;
                continue;
            }
            if pos < valid {
                // The span straddles the covered boundary: keep its tail. An
                // unaffected span never straddles, since the cover never
                // reaches past its start.
                proof {
                    assert(!span_is_unaffected(windows@, w as int, j as int)) by {
                        if span_is_unaffected(windows@, w as int, j as int) {
                            assert(pos as int >= cov);
                            assert(valid as int <= pos as int);
                        }
                    }
                }
                let text = chars_to_string(line, valid, b);
                let tail = WordSpan { text, entries: Vec::new() };
                let ghost pre = out@;
                proof {
                    lemma_concat_text_push(out@, tail);
                }
                out.push(tail);
                proof {
                    assert(concat_text(out@) =~= line@.take(b as int));
                    assert forall|j2: int|
                        0 <= j2 < j + 1 && #[trigger] span_is_unaffected(windows@, w as int, j2)
                        implies exists|t: int|
                        0 <= t < out@.len() && same_span(out@[t], wspans[j2]) by {
                        if j2 < j {
                            let t = choose|t: int|
                                0 <= t < pre.len() && same_span(pre[t], wspans[j2]);
                            assert(out@[t] == pre[t]);
                        }
                    }
                    assert forall|v: int, j2: int|
                        0 <= v < w && #[trigger] span_is_unaffected(windows@, v, j2)
                        implies exists|t: int|
                        0 <= t < out@.len() && same_span(out@[t], windows@[v].spans@[j2]) by {
                        let t = choose|t: int|
                            0 <= t < pre.len() && same_span(pre[t], windows@[v].spans@[j2]);
                        assert(out@[t] == pre[t]);
                    }
                }
            } else {
                let ghost before_gap = out@;
                if pos > valid {
                    // A gap the previous window's dropped span left: fill it.
                    let text = chars_to_string(line, valid, pos);
                    let filler = WordSpan { text, entries: Vec::new() };
                    proof {
                        lemma_concat_text_push(out@, filler);
                    }
                    out.push(filler);
                    proof {
                        assert(concat_text(out@) =~= line@.take(pos as int));
                    }
                }
                let kept = WordSpan {
                    text: span.text.clone(),
                    entries: copy_indices(&span.entries),
                };
                proof {
                    assert(same_span(kept, wspans[j as int]));
                    lemma_concat_text_push(out@, kept);
                }
                out.push(kept);
                proof {
                    assert(concat_text(out@) =~= line@.take(b as int));
                    assert(out@[out@.len() - 1] == kept);
                    assert forall|j2: int|
                        0 <= j2 < j + 1 && #[trigger] span_is_unaffected(windows@, w as int, j2)
                        implies exists|t: int|
                        0 <= t < out@.len() && same_span(out@[t], wspans[j2]) by {
                        if j2 == j {
                            assert(same_span(out@[out@.len() - 1], wspans[j2]));
                        } else {
                            let t = choose|t: int|
                                0 <= t < before_gap.len() && same_span(before_gap[t], wspans[j2]);
                            assert(out@[t] == before_gap[t]);
                        }
                    }
                    assert forall|v: int, j2: int|
                        0 <= v < w && #[trigger] span_is_unaffected(windows@, v, j2)
                        implies exists|t: int|
                        0 <= t < out@.len() && same_span(out@[t], windows@[v].spans@[j2]) by {
                        let t = choose|t: int|
                            0 <= t < before_gap.len() && same_span(
                                before_gap[t],
                                windows@[v].spans@[j2],
                            );
                        assert(out@[t] == before_gap[t]);
                    }
                }
            }
            valid = b;
            pos = b;
            j += 1;
        }
        proof {
            // The covered offset after this window is the closed form the
            // next window's unaffected spans are judged against.
            assert(valid as int == covered_before(windows@, w as int + 1)) by {
                if upto == 0 {
                } else {
                    assert(pos as int == windows@[w as int].start + concat_text(
                        wspans.take(upto as int),
                    ).len());
                }
            }
            assert forall|v: int, j2: int|
                0 <= v < w + 1 && #[trigger] span_is_unaffected(windows@, v, j2)
                implies exists|t: int|
                0 <= t < out@.len() && same_span(out@[t], windows@[v].spans@[j2]) by {
                if v == w as int {
                    assert(exists|t: int| 0 <= t < out@.len() && same_span(out@[t], wspans[j2]));
                }
            }
        }
        w += 1;
    }
    if valid < n {
        // Text past every window's kept spans: emit it without entries.
        let text = chars_to_string(line, valid, n);
        let tail = WordSpan { text, entries: Vec::new() };
        let ghost pre = out@;
        proof {
            lemma_concat_text_push(out@, tail);
        }
        out.push(tail);
        proof {
            assert(concat_text(out@) =~= line@.take(n as int));
            assert forall|v: int, j2: int|
                #[trigger] span_is_unaffected(windows@, v, j2) implies exists|t: int|
                0 <= t < out@.len() && same_span(out@[t], windows@[v].spans@[j2]) by {
                let t = choose|t: int|
                    0 <= t < pre.len() && same_span(pre[t], windows@[v].spans@[j2]);
                assert(out@[t] == pre[t]);
            }
        }
    }
    proof {
        assert(line@.take(n as int) =~= line@);
    }
    out
}

/// Segmentation of one line, windowed when the line is long: lines of at
/// most `WINDOW_SIZE` characters go through the core algorithm directly;
/// longer lines are split into fixed windows, each window is segmented on its
/// own, and the window results are stitched. Either way the concatenation of
/// the emitted texts is the input line.
pub fn extract_words_windowed(dict: &DictIndex, line: &Vec<char>) -> (r: Vec<WordSpan>)
    ensures
        concat_text(r@) == line@,
        line@.len() <= WINDOW_SIZE ==> spans_tile(*dict, line@, 0, r@),
{
    let n: usize = line.len();
    if n <= WINDOW_SIZE {
        return extract_words(dict, line);
    }
    let wins = split_line_windows(line);
    let m: usize = wins.len();
    let mut results: Vec<WindowSpans> = Vec::new();
    let mut i: usize = 0;
    while i < m
        invariant
            m == wins@.len(),
            i <= m,
            results@.len() == i,
            forall|w: int|
                0 <= w < wins@.len() ==> (#[trigger] wins@[w].start) + wins@[w].text@.len()
                    <= line@.len(),
            forall|w: int|
                0 <= w < wins@.len() ==> #[trigger] wins@[w].text@ == line@.subrange(
                    wins@[w].start as int,
                    wins@[w].start + wins@[w].text@.len(),
                ),
            forall|w: int|
                0 <= w < i ==> (#[trigger] results@[w].start) == wins@[w].start && concat_text(
                    results@[w].spans@,
                ) == wins@[w].text@,
        decreases m - i,
    {
        let spans = extract_words(dict, &wins[i].text);
        results.push(WindowSpans { start: wins[i].start, spans });
        i += 1;
    }
    proof {
        assert forall|w: int|
            0 <= w < results@.len() implies (#[trigger] results@[w].start) + concat_text(
            results@[w].spans@,
        ).len() <= line@.len() && concat_text(results@[w].spans@) == line@.subrange(
            results@[w].start as int,
            results@[w].start + concat_text(results@[w].spans@).len(),
        ) by {
            assert(results@[w].start == wins@[w].start);
            assert(concat_text(results@[w].spans@) == wins@[w].text@);
        }
    }
    stitch_windows(line, &results)
}

} // verus!
