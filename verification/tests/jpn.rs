use manga_overlay::dict::{DictEntry, DictGloss, DictIndex, DictReading, DictSense};
use manga_overlay::jpn::{
    get_info_from_entry, get_kanji_data, get_meanings, JmDictInfo, JpnData, KanjiData, KanjiMap,
};

fn kanji_data(meanings: &[&str], on: &[&str], kun: &[&str]) -> KanjiData {
    KanjiData {
        strokes: 4,
        grade: Some(1),
        freq: None,
        jlpt_old: None,
        jlpt_new: Some(5),
        meanings: meanings.iter().map(|s| s.to_string()).collect(),
        readings_on: on.iter().map(|s| s.to_string()).collect(),
        readings_kun: kun.iter().map(|s| s.to_string()).collect(),
        wk_level: None,
        wk_meanings: Vec::new(),
        wk_readings_on: Vec::new(),
        wk_readings_kun: Vec::new(),
        wk_radicals: Vec::new(),
    }
}

fn sample_map() -> KanjiMap {
    KanjiMap {
        entries: vec![('日', kanji_data(&["day", "sun"], &["ニチ"], &["ひ"]))],
    }
}

fn sample_entry() -> DictEntry {
    DictEntry {
        kanji_forms: vec!["日本".to_string()],
        readings: vec![DictReading {
            text: "にほん".to_string(),
            infos: vec!["UsuallyInKana".to_string()],
        }],
        senses: vec![DictSense {
            parts_of_speech: vec!["Noun".to_string()],
            glosses: vec![
                DictGloss { language: "English".to_string(), text: "Japan".to_string() },
                DictGloss { language: "German".to_string(), text: "Japan (de)".to_string() },
            ],
            topics: vec!["Geography".to_string()],
        }],
    }
}

#[test]
fn kanji_lookup_finds_the_record() {
    let map = sample_map();
    let data = get_kanji_data(&map, &'日').unwrap();
    assert_eq!(data.meanings, vec!["day", "sun"]);
    assert!(get_kanji_data(&map, &'月').is_none());
}

#[test]
fn get_meanings_of_unknown_character_is_empty() {
    let map = sample_map();
    assert_eq!(get_meanings(&map, &'日'), vec!["day", "sun"]);
    assert!(get_meanings(&map, &'月').is_empty());
}

#[test]
fn entry_rows_render_forms_readings_and_senses() {
    let rows = get_info_from_entry(&sample_entry());
    assert_eq!(
        rows,
        vec![
            "Kanji: \"日本\", ".to_string(),
            "Reading: \"にほん\", ".to_string(),
            "UsuallyInKana, ".to_string(),
            String::new(),
            "1. Noun: Japan".to_string(),
            "Geography, ".to_string(),
        ]
    );
}

#[test]
fn jpn_data_rows_combine_entries_and_kanji_records() {
    let map = sample_map();
    let dict = DictIndex { entries: vec![sample_entry()] };
    let text: Vec<char> = "日x".chars().collect();
    let indices = vec![0usize];
    let data = JpnData::new(&text, &map, &dict, &indices);

    assert!(data.has_kanji_data());
    assert_eq!(data.get_kanji(), "日x");

    let rows = data.get_info_rows();
    // The blank separator row is dropped; the kanji record of the first
    // character contributes its three rows; the second character has none.
    assert_eq!(
        rows,
        vec![
            "Kanji: \"日本\", ".to_string(),
            "Reading: \"にほん\", ".to_string(),
            "UsuallyInKana, ".to_string(),
            "1. Noun: Japan".to_string(),
            "Geography, ".to_string(),
            "日: day, sun".to_string(),
            "on Reading: ニチ".to_string(),
            "kun Reading: ひ".to_string(),
        ]
    );
}

#[test]
fn empty_word_has_no_rows_and_no_kanji_data() {
    let map = sample_map();
    let dict = DictIndex { entries: Vec::new() };
    let data = JpnData::new(&Vec::new(), &map, &dict, &Vec::new());
    assert!(!data.has_kanji_data());
    assert_eq!(data.get_kanji(), "");
    assert!(data.get_info_rows().is_empty());
}

#[test]
fn jm_dict_info_wraps_the_entry_rows() {
    let info = JmDictInfo::new(&sample_entry());
    assert_eq!(info.info, get_info_from_entry(&sample_entry()));
}
