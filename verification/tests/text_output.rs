use manga_overlay::easy_ocr::parse_easy_ocr_output;
use manga_overlay::ocr::{convert_tokens, KanjiConf};
use manga_overlay::decoder::TokenConf;
use manga_overlay::strings::{join_strings, u64_to_string};

fn kc(kanji: &str, confidence: i64) -> KanjiConf {
    KanjiConf { kanji: kanji.to_string(), confidence }
}

#[test]
fn get_ocr_concatenates_the_candidate_texts() {
    let row = vec![kc("日", 9), kc("本", 8)];
    assert_eq!(KanjiConf::get_ocr(&row), "日本");
    assert_eq!(KanjiConf::get_ocr(&Vec::new()), "");
}

#[test]
fn conf_matrix_joins_positions_with_bars() {
    let rows = vec![vec![kc("日", 9), kc("目", 3)], vec![kc("本", 8)]];
    assert_eq!(KanjiConf::get_conf_matrix(&rows), "日目 | 本");
}

#[test]
fn convert_drops_reserved_ids_and_empty_texts() {
    let vocab = vec![
        "<pad>".to_string(),
        "<unk>".to_string(),
        "<start>".to_string(),
        "<end>".to_string(),
        "<mask>".to_string(),
        "あ".to_string(),
        "".to_string(),
    ];
    let tokens = vec![
        TokenConf { token_id: 3, confidence: 9 },
        TokenConf { token_id: 5, confidence: 8 },
        TokenConf { token_id: 6, confidence: 7 },
        TokenConf { token_id: 99, confidence: 6 },
    ];
    let converted = convert_tokens(&tokens, &vocab);
    assert_eq!(converted.len(), 1);
    assert_eq!(converted[0].kanji, "あ");
    assert_eq!(converted[0].confidence, 8);
}

#[test]
fn easy_ocr_lines_keep_their_captured_text() {
    let output = "([[1, 2]], 'hello',\nnothing here\n([[3, 4]], 'world',";
    assert_eq!(parse_easy_ocr_output(output), "hello\nworld");
    assert_eq!(parse_easy_ocr_output(""), "");
}

#[test]
fn decimal_rendering_and_joins() {
    assert_eq!(u64_to_string(0), "0");
    assert_eq!(u64_to_string(907), "907");
    let parts = vec!["a".to_string(), "b".to_string(), "c".to_string()];
    assert_eq!(join_strings(&parts, ", "), "a, b, c");
    assert_eq!(join_strings(&Vec::new(), ", "), "");
}
