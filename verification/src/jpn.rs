//! Per-character kanji annotations and the display rows built from lexicon
//! entries for recognized words.

use crate::dict::{DictEntry, DictGloss, DictIndex, DictReading, DictSense};
use crate::strings::{
    concat_str, debug_quote, debug_quoted, join_strings, spec_decimal, spec_join, str_views,
    u64_to_string,
};
use vstd::prelude::*;
use vstd::string::StringExecFns;

verus! {

/// One character's record in the kanji table.
#[derive(Clone, Debug, PartialEq, Eq)]
pub struct KanjiData {
    pub strokes: u8,
    pub grade: Option<u8>,
    pub freq: Option<u16>,
    pub jlpt_old: Option<u8>,
    pub jlpt_new: Option<u8>,
    pub meanings: Vec<String>,
    pub readings_on: Vec<String>,
    pub readings_kun: Vec<String>,
    pub wk_level: Option<u8>,
    pub wk_meanings: Vec<String>,
    pub wk_readings_on: Vec<String>,
    pub wk_readings_kun: Vec<String>,
    pub wk_radicals: Vec<String>,
}

/// The kanji table: one record per character.
pub struct KanjiMap {
    pub entries: Vec<(char, KanjiData)>,
}

/// `a` carries the same record contents as `b`.
pub open spec fn kanji_data_like(a: KanjiData, b: KanjiData) -> bool {
    &&& a.strokes == b.strokes
    &&& a.grade == b.grade
    &&& a.freq == b.freq
    &&& a.jlpt_old == b.jlpt_old
    &&& a.jlpt_new == b.jlpt_new
    &&& str_views(a.meanings@) == str_views(b.meanings@)
    &&& str_views(a.readings_on@) == str_views(b.readings_on@)
    &&& str_views(a.readings_kun@) == str_views(b.readings_kun@)
    &&& a.wk_level == b.wk_level
    &&& str_views(a.wk_meanings@) == str_views(b.wk_meanings@)
    &&& str_views(a.wk_readings_on@) == str_views(b.wk_readings_on@)
    &&& str_views(a.wk_readings_kun@) == str_views(b.wk_readings_kun@)
    &&& str_views(a.wk_radicals@) == str_views(b.wk_radicals@)
}

/// The first record keyed by `c`, if any.
pub open spec fn spec_kanji_lookup(entries: Seq<(char, KanjiData)>, c: char) -> Option<KanjiData>
    decreases entries.len(),
{
    if entries.len() == 0 {
        None
    } else if entries[0].0 == c {
        Some(entries[0].1)
    } else {
        spec_kanji_lookup(entries.drop_first(), c)
    }
}

fn clone_strings(v: &Vec<String>) -> (r: Vec<String>)
    ensures
        str_views(r@) == str_views(v@),
{
    let n: usize = v.len();
    let mut out: Vec<String> = Vec::new();
    let mut i: usize = 0;
    while i < n
        invariant
            n == v@.len(),
            i <= n,
            out@.len() == i,
            forall|k: int| 0 <= k < i ==> (#[trigger] out@[k])@ == v@[k]@,
        decreases n - i,
    {
        out.push(v[i].clone());
        i += 1;
    }
    proof {
        assert(str_views(out@) =~= str_views(v@));
    }
    out
}

fn clone_kanji_data(d: &KanjiData) -> (r: KanjiData)
    ensures
        kanji_data_like(r, *d),
{
    KanjiData {
        strokes: d.strokes,
        grade: d.grade,
        freq: d.freq,
        jlpt_old: d.jlpt_old,
        jlpt_new: d.jlpt_new,
        meanings: clone_strings(&d.meanings),
        readings_on: clone_strings(&d.readings_on),
        readings_kun: clone_strings(&d.readings_kun),
        wk_level: d.wk_level,
        wk_meanings: clone_strings(&d.wk_meanings),
        wk_readings_on: clone_strings(&d.wk_readings_on),
        wk_readings_kun: clone_strings(&d.wk_readings_kun),
        wk_radicals: clone_strings(&d.wk_radicals),
    }
}

/// The record of the given character, if the table holds one.
pub fn get_kanji_data(map: &KanjiMap, word: &char) -> (r: Option<KanjiData>)
    ensures
        match r {
            Some(d) => spec_kanji_lookup(map.entries@, *word) matches Some(e) && kanji_data_like(
                d,
                e,
            ),
            None => spec_kanji_lookup(map.entries@, *word) is None,
        },
{
    let n: usize = map.entries.len();
    let mut i: usize = 0;
    proof {
        assert(map.entries@.skip(0) =~= map.entries@);
    }
    while i < n
        invariant
            n == map.entries@.len(),
            i <= n,
            spec_kanji_lookup(map.entries@, *word) == spec_kanji_lookup(
                map.entries@.skip(i as int),
                *word,
            ),
        decreases n - i,
    {
        proof {
            assert(map.entries@.skip(i as int)[0] == map.entries@[i as int]);
            assert(map.entries@.skip(i as int).drop_first() =~= map.entries@.skip(i as int + 1));
        }
        if map.entries[i].0 == *word {
            return Some(clone_kanji_data(&map.entries[i].1));
        }
        i += 1;
    }
    proof {
        assert(map.entries@.skip(n as int) =~= Seq::<(char, KanjiData)>::empty());
    }
    None
}

/// The meanings recorded for the character; empty when the table has none.
pub fn get_meanings(map: &KanjiMap, word: &char) -> (r: Vec<String>)
    ensures
        str_views(r@) == (match spec_kanji_lookup(map.entries@, *word) {
            Some(d) => str_views(d.meanings@),
            None => Seq::empty(),
        }),
{
    match get_kanji_data(map, word) {
        Some(d) => d.meanings,
        None => {
            proof {
                assert(str_views(Seq::<String>::empty()) =~= Seq::<Seq<char>>::empty());
            }
            Vec::new()
        },
    }
}

/// One annotated character of a recognized word.
pub struct JpnWordInfo {
    pub word: char,
    pub kanji_data: Option<KanjiData>,
}

impl JpnWordInfo {
    /// The character with its kanji record, when the table has one.
    pub fn new(word: char, map: &KanjiMap) -> (r: JpnWordInfo)
        ensures
            r.word == word,
            r.kanji_data is Some <==> spec_kanji_lookup(map.entries@, word) is Some,
            r.kanji_data matches Some(d) ==> spec_kanji_lookup(map.entries@, word) matches Some(e)
                && kanji_data_like(d, e),
    {
        let kanji_data = get_kanji_data(map, &word);
        JpnWordInfo { word, kanji_data }
    }
}

/// The display rows of one lexicon entry.
pub struct JmDictInfo {
    pub info: Vec<String>,
}

/// The gloss texts of one sense in the given language.
pub open spec fn spec_gloss_texts(gs: Seq<DictGloss>, language: Seq<char>) -> Seq<Seq<char>>
    decreases gs.len(),
{
    if gs.len() == 0 {
        Seq::empty()
    } else {
        let rest = spec_gloss_texts(gs.drop_last(), language);
        if gs.last().language@ == language {
            rest.push(gs.last().text@)
        } else {
            rest
        }
    }
}

/// The rows the written forms contribute: each quoted, labeled and
/// comma-terminated.
pub open spec fn spec_kanji_rows(forms: Seq<String>) -> Seq<Seq<char>>
    decreases forms.len(),
{
    if forms.len() == 0 {
        Seq::empty()
    } else {
        spec_kanji_rows(forms.drop_last()).push(
            "Kanji: "@ + debug_quoted(forms.last()@) + ", "@,
        )
    }
}

/// The rows one reading contributes: its quoted text, then its annotations.
pub open spec fn spec_reading_block(r: DictReading) -> Seq<Seq<char>> {
    seq!["Reading: "@ + debug_quoted(r.text@) + ", "@] + spec_info_rows(r.infos@)
}

/// Annotation strings, each comma-terminated, one row each.
pub open spec fn spec_info_rows(infos: Seq<String>) -> Seq<Seq<char>>
    decreases infos.len(),
{
    if infos.len() == 0 {
        Seq::empty()
    } else {
        spec_info_rows(infos.drop_last()).push(infos.last()@ + ", "@)
    }
}

/// The rows of all readings.
pub open spec fn spec_reading_rows(rs: Seq<DictReading>) -> Seq<Seq<char>>
    decreases rs.len(),
{
    if rs.len() == 0 {
        Seq::empty()
    } else {
        spec_reading_rows(rs.drop_last()) + spec_reading_block(rs.last())
    }
}

/// The rows one sense contributes at its one-based position: a numbered
/// summary line, then its topics.
pub open spec fn spec_sense_block(s: DictSense, number: nat) -> Seq<Seq<char>> {
    seq![
        spec_decimal(number) + ". "@ + spec_join(str_views(s.parts_of_speech@), ", "@) + ": "@
            + spec_join(spec_gloss_texts(s.glosses@, "English"@), "; "@),
    ] + spec_info_rows(s.topics@)
}

/// The rows of all senses, numbered from one.
pub open spec fn spec_sense_rows(ss: Seq<DictSense>) -> Seq<Seq<char>>
    decreases ss.len(),
{
    if ss.len() == 0 {
        Seq::empty()
    } else {
        spec_sense_rows(ss.drop_last()) + spec_sense_block(ss.last(), ss.len() as nat)
    }
}

/// Every display row of one entry: written forms, readings, a blank row, then
/// the numbered senses.
pub open spec fn spec_entry_rows(e: DictEntry) -> Seq<Seq<char>> {
    spec_kanji_rows(e.kanji_forms@) + spec_reading_rows(e.readings@) + seq![Seq::<char>::empty()]
        + spec_sense_rows(e.senses@)
}

/// The gloss texts of the sense in the given language, in order.
fn gloss_texts(gs: &Vec<DictGloss>, language: &str) -> (r: Vec<String>)
    ensures
        str_views(r@) == spec_gloss_texts(gs@, language@),
{
    let n: usize = gs.len();
    let mut out: Vec<String> = Vec::new();
    let mut i: usize = 0;
    while i < n
        invariant
            n == gs@.len(),
            i <= n,
            str_views(out@) == spec_gloss_texts(gs@.take(i as int), language@),
        decreases n - i,
    {
        proof {
            assert(gs@.take(i as int + 1).drop_last() =~= gs@.take(i as int));
            assert(gs@.take(i as int + 1).last() == gs@[i as int]);
        }
        let g: &DictGloss = &gs[i];
        if crate::strings::str_eq(g.language.as_str(), language) {
            let ghost pre = out@;
            out.push(g.text.clone());
            proof {
                assert(str_views(out@) =~= str_views(pre).push(g.text@));
            }
        }
        i += 1;
    }
    proof {
        assert(gs@.take(n as int) =~= gs@);
    }
    out
}

/// The display rows of one lexicon entry, as the UI shows them.
pub fn get_info_from_entry(e: &DictEntry) -> (r: Vec<String>)
    ensures
        str_views(r@) == spec_entry_rows(*e),
{
    let mut out: Vec<String> = Vec::new();

    let nk: usize = e.kanji_forms.len();
    let mut i: usize = 0;
    while i < nk
        invariant
            nk == e.kanji_forms@.len(),
            i <= nk,
            str_views(out@) == spec_kanji_rows(e.kanji_forms@.take(i as int)),
        decreases nk - i,
    {
        proof {
            assert(e.kanji_forms@.take(i as int + 1).drop_last() =~= e.kanji_forms@.take(i as int));
            assert(e.kanji_forms@.take(i as int + 1).last() == e.kanji_forms@[i as int]);
        }
        let quoted = debug_quote(e.kanji_forms[i].as_str());
        let row = concat_str(concat_str(String::from_str("Kanji: "), quoted.as_str()), ", ");
        let ghost pre = out@;
        out.push(row);
        proof {
            assert(str_views(out@) =~= str_views(pre).push(
                "Kanji: "@ + debug_quoted(e.kanji_forms@[i as int]@) + ", "@,
            ));
        }
        i += 1;
    }
    proof {
        assert(e.kanji_forms@.take(nk as int) =~= e.kanji_forms@);
    }

    let nr: usize = e.readings.len();
    let mut j: usize = 0;
    while j < nr
        invariant
            nr == e.readings@.len(),
            j <= nr,
            str_views(out@) == spec_kanji_rows(e.kanji_forms@) + spec_reading_rows(
                e.readings@.take(j as int),
            ),
        decreases nr - j,
    {
        proof {
            assert(e.readings@.take(j as int + 1).drop_last() =~= e.readings@.take(j as int));
            assert(e.readings@.take(j as int + 1).last() == e.readings@[j as int]);
        }
        let reading: &DictReading = &e.readings[j];
        let quoted = debug_quote(reading.text.as_str());
        let row = concat_str(concat_str(String::from_str("Reading: "), quoted.as_str()), ", ");
        let ghost pre = out@;
        out.push(row);
        let ghost mid = out@;
        proof {
            assert(str_views(mid) =~= str_views(pre).push(
                "Reading: "@ + debug_quoted(reading.text@) + ", "@,
            ));
        }
        let ni: usize = reading.infos.len();
        let mut k: usize = 0;
        while k < ni
            invariant
                ni == reading.infos@.len(),
                k <= ni,
                str_views(out@) == str_views(mid) + spec_info_rows(reading.infos@.take(k as int)),
            decreases ni - k,
        {
            proof {
                assert(reading.infos@.take(k as int + 1).drop_last() =~= reading.infos@.take(
                    k as int,
                ));
                assert(reading.infos@.take(k as int + 1).last() == reading.infos@[k as int]);
            }
            let row = concat_str(reading.infos[k].clone(), ", ");
            let ghost pre2 = out@;
            out.push(row);
            proof {
                assert(str_views(out@) =~= str_views(pre2).push(
                    reading.infos@[k as int]@ + ", "@,
                ));
                assert(str_views(pre2) + seq![reading.infos@[k as int]@ + ", "@] =~= str_views(
                    out@,
                ));
            }
            k += 1;
        }
        proof {
            assert(reading.infos@.take(ni as int) =~= reading.infos@);
            assert(str_views(mid) + spec_info_rows(reading.infos@) =~= str_views(pre)
                + spec_reading_block(e.readings@[j as int]));
        }
        j += 1;
    }
    proof {
        assert(e.readings@.take(nr as int) =~= e.readings@);
    }

    let ghost before_blank = out@;
    out.push(String::new());
    proof {
        assert(str_views(out@) =~= str_views(before_blank) + seq![Seq::<char>::empty()]);
    }

    let ghost head = str_views(out@);
    let ns: usize = e.senses.len();
    let mut s: usize = 0;
    while s < ns
        invariant
            ns == e.senses@.len(),
            s <= ns,
            head == spec_kanji_rows(e.kanji_forms@) + spec_reading_rows(e.readings@) + seq![
                Seq::<char>::empty(),
            ],
            str_views(out@) == head + spec_sense_rows(e.senses@.take(s as int)),
        decreases ns - s,
    {
        proof {
            assert(e.senses@.take(s as int + 1).drop_last() =~= e.senses@.take(s as int));
            assert(e.senses@.take(s as int + 1).last() == e.senses@[s as int]);
        }
        let sense: &DictSense = &e.senses[s];
        let number = u64_to_string((s as u64) + 1);
        let pos = join_strings(&sense.parts_of_speech, ", ");
        let english = gloss_texts(&sense.glosses, "English");
        let meanings = join_strings(&english, "; ");
        let mut row = number;
        row = concat_str(row, ". ");
        row = concat_str(row, pos.as_str());
        row = concat_str(row, ": ");
        row = concat_str(row, meanings.as_str());
        let ghost pre = out@;
        out.push(row);
        let ghost mid = out@;
        proof {
            assert(str_views(mid) =~= str_views(pre).push(
                spec_decimal((s + 1) as nat) + ". "@ + spec_join(
                    str_views(sense.parts_of_speech@),
                    ", "@,
                ) + ": "@ + spec_join(spec_gloss_texts(sense.glosses@, "English"@), "; "@),
            ));
        }
        let nt: usize = sense.topics.len();
        let mut k: usize = 0;
        while k < nt
            invariant
                nt == sense.topics@.len(),
                k <= nt,
                str_views(out@) == str_views(mid) + spec_info_rows(sense.topics@.take(k as int)),
            decreases nt - k,
        {
            proof {
                assert(sense.topics@.take(k as int + 1).drop_last() =~= sense.topics@.take(
                    k as int,
                ));
                assert(sense.topics@.take(k as int + 1).last() == sense.topics@[k as int]);
            }
            let row = concat_str(sense.topics[k].clone(), ", ");
            let ghost pre2 = out@;
            out.push(row);
            proof {
                assert(str_views(out@) =~= str_views(pre2).push(sense.topics@[k as int]@ + ", "@));
            }
            k += 1;
        }
        proof {
            assert(sense.topics@.take(nt as int) =~= sense.topics@);
            assert(str_views(mid) + spec_info_rows(sense.topics@) =~= str_views(pre)
                + spec_sense_block(e.senses@[s as int], (s + 1) as nat));
        }
        s += 1;
    }
    proof {
        assert(e.senses@.take(ns as int) =~= e.senses@);
        assert(str_views(out@) =~= spec_entry_rows(*e));
    }
    out
}

impl JmDictInfo {
    /// The display rows of one lexicon entry, wrapped.
    pub fn new(e: &DictEntry) -> (r: JmDictInfo)
        ensures
            str_views(r.info@) == spec_entry_rows(*e),
    {
        JmDictInfo { info: get_info_from_entry(e) }
    }
}

/// One recognized word with its per-character kanji records and its lexicon
/// entry rows.
pub struct JpnData {
    pub words: Vec<JpnWordInfo>,
    pub jm_dict: Vec<JmDictInfo>,
}

/// The rows of all entry infos, flattened in order.
pub open spec fn spec_flat_infos(s: Seq<JmDictInfo>) -> Seq<Seq<char>>
    decreases s.len(),
{
    if s.len() == 0 {
        Seq::empty()
    } else {
        spec_flat_infos(s.drop_last()) + str_views(s.last().info@)
    }
}

/// The rows one annotated character contributes: nothing without a kanji
/// record with meanings, else the meanings and both readings.
pub open spec fn spec_word_block(w: JpnWordInfo) -> Seq<Seq<char>> {
    match w.kanji_data {
        Some(d) => {
            if d.meanings@.len() > 0 {
                seq![
                    seq![w.word] + ": "@ + spec_join(str_views(d.meanings@), ", "@),
                    "on Reading: "@ + spec_join(str_views(d.readings_on@), ", "@),
                    "kun Reading: "@ + spec_join(str_views(d.readings_kun@), ", "@),
                ]
            } else {
                Seq::empty()
            }
        },
        None => Seq::empty(),
    }
}

/// The rows of all annotated characters.
pub open spec fn spec_word_rows(ws: Seq<JpnWordInfo>) -> Seq<Seq<char>>
    decreases ws.len(),
{
    if ws.len() == 0 {
        Seq::empty()
    } else {
        spec_word_rows(ws.drop_last()) + spec_word_block(ws.last())
    }
}

/// The display rows of one recognized word: the lexicon rows, then the
/// per-character rows, empty rows dropped; nothing for an empty word.
pub open spec fn spec_jpn_info_rows(d: JpnData) -> Seq<Seq<char>> {
    if d.words@.len() == 0 {
        Seq::empty()
    } else {
        (spec_flat_infos(d.jm_dict@) + spec_word_rows(d.words@)).filter(
            |r: Seq<char>| r.len() > 0,
        )
    }
}

impl JpnData {
    /// One annotated word: each character looked up in the kanji table, each
    /// reported lexicon entry rendered to its display rows.
    pub fn new(text: &Vec<char>, map: &KanjiMap, dict: &DictIndex, entry_indices: &Vec<usize>) -> (r:
        JpnData)
        requires
            forall|k: int| 0 <= k < entry_indices@.len() ==> entry_indices@[k] < dict.entries@.len(),
        ensures
            r.words@.len() == text@.len(),
            forall|k: int|
                0 <= k < text@.len() ==> (#[trigger] r.words@[k]).word == text@[k] && (
                r.words@[k].kanji_data is Some <==> spec_kanji_lookup(map.entries@, text@[k]) is Some),
            r.jm_dict@.len() == entry_indices@.len(),
            forall|k: int|
                0 <= k < entry_indices@.len() ==> str_views((#[trigger] r.jm_dict@[k]).info@)
                    == spec_entry_rows(dict.entries@[entry_indices@[k] as int]),
    {
        let n: usize = text.len();
        let mut words: Vec<JpnWordInfo> = Vec::new();
        let mut i: usize = 0;
        while i < n
            invariant
                n == text@.len(),
                i <= n,
                words@.len() == i,
                forall|k: int|
                    0 <= k < i ==> (#[trigger] words@[k]).word == text@[k] && (
                    words@[k].kanji_data is Some <==> spec_kanji_lookup(
                        map.entries@,
                        text@[k],
                    ) is Some),
            decreases n - i,
        {
            words.push(JpnWordInfo::new(text[i], map));
            i += 1;
        }
        let m: usize = entry_indices.len();
        let mut jm_dict: Vec<JmDictInfo> = Vec::new();
        let mut j: usize = 0;
        while j < m
            invariant
                m == entry_indices@.len(),
                j <= m,
                forall|k: int| 0 <= k < m ==> (#[trigger] entry_indices@[k]) < dict.entries@.len(),
                jm_dict@.len() == j,
                forall|k: int|
                    0 <= k < j ==> str_views((#[trigger] jm_dict@[k]).info@) == spec_entry_rows(
                        dict.entries@[entry_indices@[k] as int],
                    ),
            decreases m - j,
        {
            jm_dict.push(JmDictInfo::new(&dict.entries[entry_indices[j]]));
            j += 1;
        }
        JpnData { words, jm_dict }
    }

    /// Whether anything is known of this word: a character with a kanji
    /// record, or a lexicon entry with rows.
    pub fn has_kanji_data(&self) -> (r: bool)
        ensures
            r == ((exists|k: int|
                0 <= k < self.words@.len() && (#[trigger] self.words@[k]).kanji_data is Some)
                || (exists|k: int|
                0 <= k < self.jm_dict@.len() && (#[trigger] self.jm_dict@[k]).info@.len() > 0)),
    {
        let n: usize = self.words.len();
        let mut i: usize = 0;
        while i < n
            invariant
                n == self.words@.len(),
                i <= n,
                forall|k: int| 0 <= k < i ==> (#[trigger] self.words@[k]).kanji_data is None,
            decreases n - i,
        {
            if self.words[i].kanji_data.is_some() {
                return true;
            }
            i += 1;
        }
        let m: usize = self.jm_dict.len();
        let mut j: usize = 0;
        while j < m
            invariant
                m == self.jm_dict@.len(),
                j <= m,
                forall|k: int| 0 <= k < n as int ==> (#[trigger] self.words@[k]).kanji_data is None,
                n == self.words@.len(),
                forall|k: int| 0 <= k < j ==> (#[trigger] self.jm_dict@[k]).info@.len() == 0,
            decreases m - j,
        {
            if self.jm_dict[j].info.len() > 0 {
                return true;
            }
            j += 1;
        }
        false
    }

    /// The word's characters as one string.
    pub fn get_kanji(&self) -> (r: String)
        ensures
            r@ == self.words@.map_values(|w: JpnWordInfo| w.word),
    {
        let ghost target = self.words@.map_values(|w: JpnWordInfo| w.word);
        let n: usize = self.words.len();
        let mut out: String = String::new();
        let mut i: usize = 0;
        while i < n
            invariant
                n == self.words@.len(),
                i <= n,
                target == self.words@.map_values(|w: JpnWordInfo| w.word),
                target.len() == n,
                out@ == target.take(i as int),
            decreases n - i,
        {
            crate::strings::push_char(&mut out, self.words[i].word);
            proof {
                assert(out@ =~= target.take(i as int + 1));
            }
            i += 1;
        }
        proof {
            assert(target.take(n as int) =~= target);
        }
        out
    }

    /// The display rows of this word, empty rows dropped; an empty word has
    /// none.
    pub fn get_info_rows(&self) -> (r: Vec<String>)
        ensures
            str_views(r@) == spec_jpn_info_rows(*self),
    {
        if self.words.len() == 0 {
            proof {
                assert(str_views(Seq::<String>::empty()) =~= Seq::<Seq<char>>::empty());
            }
            return Vec::new();
        }
        let mut rows: Vec<String> = Vec::new();

        let m: usize = self.jm_dict.len();
        let mut j: usize = 0;
        while j < m
            invariant
                m == self.jm_dict@.len(),
                j <= m,
                str_views(rows@) == spec_flat_infos(self.jm_dict@.take(j as int)),
            decreases m - j,
        {
            proof {
                assert(self.jm_dict@.take(j as int + 1).drop_last() =~= self.jm_dict@.take(
                    j as int,
                ));
                assert(self.jm_dict@.take(j as int + 1).last() == self.jm_dict@[j as int]);
            }
            let info: &Vec<String> = &self.jm_dict[j].info;
            let ni: usize = info.len();
            let ghost pre = rows@;
            let mut k: usize = 0;
            while k < ni
                invariant
                    ni == info@.len(),
                    k <= ni,
                    str_views(rows@) == str_views(pre) + str_views(info@.take(k as int)),
                decreases ni - k,
            {
                let ghost pre2 = rows@;
                rows.push(info[k].clone());
                proof {
                    assert(str_views(rows@) =~= str_views(pre2).push(info@[k as int]@));
                    assert(str_views(info@.take(k as int + 1)) =~= str_views(
                        info@.take(k as int),
                    ).push(info@[k as int]@));
                    assert(str_views(pre) + str_views(info@.take(k as int + 1)) =~= str_views(
                        rows@,
                    ));
                }
                k += 1;
            }
            proof {
                assert(info@.take(ni as int) =~= info@);
            }
            j += 1;
        }
        proof {
            assert(self.jm_dict@.take(m as int) =~= self.jm_dict@);
        }

        let ghost flat = str_views(rows@);
        let n: usize = self.words.len();
        let mut i: usize = 0;
        while i < n
            invariant
                n == self.words@.len(),
                i <= n,
                flat == spec_flat_infos(self.jm_dict@),
                str_views(rows@) == flat + spec_word_rows(self.words@.take(i as int)),
            decreases n - i,
        {
            proof {
                assert(self.words@.take(i as int + 1).drop_last() =~= self.words@.take(i as int));
                assert(self.words@.take(i as int + 1).last() == self.words@[i as int]);
            }
            let w: &JpnWordInfo = &self.words[i];
            match &w.kanji_data {
                Some(d) => {
                    if d.meanings.len() > 0 {
                        let mut row1: String = String::new();
                        crate::strings::push_char(&mut row1, w.word);
                        row1 = concat_str(row1, ": ");
                        let meanings = join_strings(&d.meanings, ", ");
                        row1 = concat_str(row1, meanings.as_str());
                        let ons = join_strings(&d.readings_on, ", ");
                        let row2 = concat_str(String::from_str("on Reading: "), ons.as_str());
                        let kuns = join_strings(&d.readings_kun, ", ");
                        let row3 = concat_str(String::from_str("kun Reading: "), kuns.as_str());
                        let ghost pre = rows@;
                        rows.push(row1);
                        rows.push(row2);
                        rows.push(row3);
                        proof {
                            assert(seq![w.word] =~= Seq::<char>::empty().push(w.word));
                            assert(str_views(rows@) =~= str_views(pre) + spec_word_block(
                                self.words@[i as int],
                            ));
                        }
                    } else {
                        proof {
                            assert(spec_word_block(self.words@[i as int]) =~= Seq::<
                                Seq<char>,
                            >::empty());
                            assert(str_views(rows@) + Seq::<Seq<char>>::empty() =~= str_views(
                                rows@,
                            ));
                        }
                    }
                },
                None => {
                    proof {
                        assert(spec_word_block(self.words@[i as int]) =~= Seq::<Seq<char>>::empty());
                        assert(str_views(rows@) + Seq::<Seq<char>>::empty() =~= str_views(rows@));
                    }
                },
            }
            i += 1;
        }
        proof {
            assert(self.words@.take(n as int) =~= self.words@);
        }

        // Drop the empty rows.
        let ghost all = str_views(rows@);
        let total: usize = rows.len();
        let mut out: Vec<String> = Vec::new();
        let mut t: usize = 0;
        while t < total
            invariant
                total == rows@.len(),
                t <= total,
                all == str_views(rows@),
                all.len() == total,
                forall|k: int| 0 <= k < total ==> all[k] == (#[trigger] rows@[k])@,
                str_views(out@) == all.take(t as int).filter(|r: Seq<char>| r.len() > 0),
            decreases total - t,
        {
            proof {
                reveal_with_fuel(Seq::filter, 2);
                assert(all.take(t as int + 1).drop_last() =~= all.take(t as int));
                assert(all.take(t as int + 1).last() == all[t as int]);
            }
            if !rows[t].as_str().is_empty() {
                let ghost pre = out@;
                out.push(rows[t].clone());
                proof {
                    assert(str_views(out@) =~= str_views(pre).push(rows@[t as int]@));
                }
            }
            t += 1;
        }
        proof {
            assert(all.take(total as int) =~= all);
        }
        out
    }
}

} // verus!
