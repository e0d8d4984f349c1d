use manga_overlay::dict::{
    extract_dict_entries, extract_words, extract_words_windowed, DictEntry, DictIndex, DictReading,
    DictSense, WordSpan,
};
use manga_overlay::strings::{remove_whitespace, replace_nth_char_safe};

fn entry(written: &[&str], readings: &[&str]) -> DictEntry {
    DictEntry {
        kanji_forms: written.iter().map(|s| s.to_string()).collect(),
        readings: readings
            .iter()
            .map(|s| DictReading { text: s.to_string(), infos: Vec::new() })
            .collect(),
        senses: Vec::new(),
    }
}

fn index(entries: Vec<DictEntry>) -> DictIndex {
    DictIndex { entries }
}

fn chars(s: &str) -> Vec<char> {
    s.chars().collect()
}

fn texts(spans: &[WordSpan]) -> Vec<String> {
    spans.iter().map(|s| s.text.clone()).collect()
}

fn concat(spans: &[WordSpan]) -> String {
    spans.iter().map(|s| s.text.clone()).collect::<Vec<_>>().join("")
}

#[test]
fn unmatched_character_yields_a_single_span_without_entries() {
    let dict = index(vec![entry(&["日本"], &["にほん"])]);
    let line = chars("x");
    let spans = extract_words(&dict, &line);
    assert_eq!(spans.len(), 1);
    assert_eq!(spans[0].text, "x");
    assert!(spans[0].entries.is_empty());
}

#[test]
fn a_known_two_character_word_is_one_span() {
    let dict = index(vec![entry(&["日本"], &["にほん"]), entry(&["日"], &["ひ"])]);
    let line = chars("日本語");
    let spans = extract_words(&dict, &line);
    assert_eq!(texts(&spans), vec!["日本", "語"]);
    assert_eq!(spans[0].entries, vec![0]);
    assert!(spans[1].entries.is_empty());
}

#[test]
fn full_match_filter_discards_prefix_only_entries() {
    // "日本語" only matches as a longer word's prefix here, so the two-char
    // span keeps only the exact match.
    let dict = index(vec![entry(&["日本"], &[]), entry(&["日本人"], &[])]);
    let line = chars("日本で");
    let spans = extract_words(&dict, &line);
    assert_eq!(texts(&spans), vec!["日本", "で"]);
    assert_eq!(spans[0].entries, vec![0]);
}

#[test]
fn reading_forms_reach_the_bucket_but_only_written_forms_match() {
    // The entry is bucketed under both its written and its reading form, but
    // growth and the full-match filter go by written forms alone.
    let dict = index(vec![entry(&["二"], &["に"])]);
    let spans = extract_words(&dict, &chars("に"));
    assert_eq!(texts(&spans), vec!["に"]);
    assert!(spans[0].entries.is_empty());
}

#[test]
fn round_trip_holds_for_any_line() {
    let dict = index(vec![entry(&["日本"], &["にほん"]), entry(&["語学"], &[])]);
    let line = "日本語学の勉強 and plain text 1234 日本語学";
    let spans = extract_words(&dict, &chars(line));
    assert_eq!(concat(&spans), line);
}

#[test]
fn windowed_round_trip_holds_on_long_lines() {
    let dict = index(vec![entry(&["日本"], &["にほん"]), entry(&["日本語"], &[])]);
    let mut line = String::new();
    for _ in 0..37 {
        line.push_str("日本語");
    }
    assert_eq!(line.chars().count(), 111);
    let spans = extract_words_windowed(&dict, &chars(&line));
    assert_eq!(concat(&spans), line);
    // Stitching keeps the unaffected windows' annotated spans, so the
    // dictionary hits survive windowing.
    assert!(spans.iter().filter(|s| !s.entries.is_empty()).count() >= 30);
}

#[test]
fn windowed_results_match_plain_results_around_the_threshold() {
    let dict = index(vec![entry(&["日本"], &["にほん"]), entry(&["語学"], &[])]);
    let mut base = String::new();
    for _ in 0..13 {
        base.push_str("日本語学");
    }
    // 52 characters; take prefixes just below, at, and above the threshold.
    for len in [49usize, 50, 51] {
        let line: Vec<char> = base.chars().take(len).collect();
        let plain = extract_words(&dict, &line);
        let windowed = extract_words_windowed(&dict, &line);
        assert_eq!(texts(&plain), texts(&windowed), "length {len}");
        for (a, b) in plain.iter().zip(windowed.iter()) {
            assert_eq!(a.entries, b.entries, "length {len}");
        }
    }
}

#[test]
fn extract_dict_entries_reports_the_chosen_length() {
    let dict = index(vec![entry(&["日本"], &[]), entry(&["日"], &[])]);
    let line = chars("日本");
    let (len, entries) = extract_dict_entries(&dict, &line, 0);
    assert_eq!(len, 2);
    assert_eq!(entries, vec![0]);
    let (len1, entries1) = extract_dict_entries(&dict, &line, 1);
    assert_eq!(len1, 1);
    assert!(entries1.is_empty());
}

#[test]
fn remove_whitespace_strips_all_whitespace() {
    assert_eq!(remove_whitespace("日本 語\u{3000}の\n本"), "日本語の本");
    assert_eq!(remove_whitespace("  "), "");
    assert_eq!(remove_whitespace("abc"), "abc");
}

#[test]
fn replace_nth_char_replaces_only_in_range() {
    assert_eq!(replace_nth_char_safe("abc", 1, 'x'), "axc");
    assert_eq!(replace_nth_char_safe("abc", 9, 'x'), "abc");
    assert_eq!(replace_nth_char_safe("日本", 0, '二'), "二本");
}

#[test]
fn senses_do_not_affect_segmentation() {
    let mut e = entry(&["犬"], &["いぬ"]);
    e.senses.push(DictSense {
        parts_of_speech: vec!["noun".to_string()],
        glosses: Vec::new(),
        topics: Vec::new(),
    });
    let dict = index(vec![e]);
    let spans = extract_words(&dict, &chars("犬だ"));
    assert_eq!(texts(&spans), vec!["犬", "だ"]);
    assert_eq!(spans[0].entries, vec![0]);
}
