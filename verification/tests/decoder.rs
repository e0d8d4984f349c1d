use manga_overlay::decoder::{
    get_token_ids, run_decode, top_candidates, SequenceModel, END_TOKEN, MAX_DECODE_STEPS,
};
use manga_overlay::ocr::{decode_tokens, get_kanji_top_text, inference, KanjiConf};

/// A model whose highest score always sits on the end token.
struct ImmediateEndModel;

impl SequenceModel for ImmediateEndModel {
    fn run(&mut self, token_history: &Vec<Vec<i64>>) -> Vec<Vec<i64>> {
        let mut rows = Vec::new();
        for _ in 0..token_history.len() {
            // Vocabulary of 8 ids; id 3 (the end token) scores highest.
            rows.push(vec![0, 0, 0, 100, 0, 1, 1, 1]);
        }
        rows
    }
}

/// A model that counts its invocations and favors one fixed glyph id.
struct CountingModel {
    calls: usize,
}

impl SequenceModel for CountingModel {
    fn run(&mut self, token_history: &Vec<Vec<i64>>) -> Vec<Vec<i64>> {
        self.calls += 1;
        let mut rows = Vec::new();
        for _ in 0..token_history.len() {
            rows.push(vec![0, 0, 0, 1, 0, 100, 2, 2]);
        }
        rows
    }
}

/// A model scripted by step: glyph 5, then glyph 6, then the end token.
struct ScriptedModel;

impl SequenceModel for ScriptedModel {
    fn run(&mut self, token_history: &Vec<Vec<i64>>) -> Vec<Vec<i64>> {
        let step = token_history[0].len() - 1;
        let mut rows = Vec::new();
        for _ in 0..token_history.len() {
            let row = match step {
                0 => vec![0, 0, 0, 1, 0, 100, 50, 2],
                1 => vec![0, 0, 0, 1, 0, 40, 100, 2],
                _ => vec![0, 0, 0, 100, 0, 1, 2, 2],
            };
            rows.push(row);
        }
        rows
    }
}

fn vocab() -> Vec<String> {
    vec![
        "<pad>".to_string(),
        "<unk>".to_string(),
        "<start>".to_string(),
        "<end>".to_string(),
        "<mask>".to_string(),
        "あ".to_string(),
        "い".to_string(),
        "".to_string(),
    ]
}

#[test]
fn immediate_end_token_yields_empty_text_at_rank_zero() {
    let mut model = ImmediateEndModel;
    let results = inference(&mut model, &vocab(), 2).unwrap();
    // Every sequence finished on the seed step with nothing recorded, so no
    // sequence keeps any position.
    assert!(results.is_empty());
    let empty: Vec<Vec<KanjiConf>> = Vec::new();
    assert_eq!(get_kanji_top_text(&empty, 0), Some(String::new()));
}

#[test]
fn empty_batch_returns_empty_without_invoking_the_model() {
    let mut model = CountingModel { calls: 0 };
    let results = inference(&mut model, &vocab(), 0).unwrap();
    assert!(results.is_empty());
    assert_eq!(model.calls, 0);
}

#[test]
fn decoding_halts_within_the_step_budget() {
    // This model never emits the end token, so decoding runs to the cap.
    let mut model = CountingModel { calls: 0 };
    let state = run_decode(&mut model, 1).unwrap();
    assert_eq!(state.steps, MAX_DECODE_STEPS);
    assert_eq!(model.calls, MAX_DECODE_STEPS);
    // One token per step plus the start token; one recorded list per step
    // after the seed step.
    assert_eq!(state.seqs[0].tokens.len(), MAX_DECODE_STEPS + 1);
    assert_eq!(state.seqs[0].recorded.len(), MAX_DECODE_STEPS - 1);
}

#[test]
fn scripted_decode_reconstructs_the_glyphs() {
    let mut model = ScriptedModel;
    let token_ids = get_token_ids(&mut model, 1).unwrap();
    assert_eq!(token_ids.len(), 1);
    // The seed step and the end-token transition are not recorded.
    assert_eq!(token_ids[0].len(), 1);
    assert_eq!(token_ids[0][0][0].token_id, 6);
    let results = decode_tokens(&token_ids, &vocab());
    assert_eq!(results.len(), 1);
    let text = get_kanji_top_text(&results[0], 0).unwrap();
    assert_eq!(text, "い");
    // Rank 1 at that position is glyph 5.
    let text1 = get_kanji_top_text(&results[0], 1).unwrap();
    assert_eq!(text1, "あ");
}

#[test]
fn top_candidates_rank_by_score_then_id() {
    let row = vec![5, 9, 9, 1];
    let top = top_candidates(&row);
    assert_eq!(top.len(), 4);
    let ids: Vec<i64> = top.iter().map(|t| t.token_id).collect();
    assert_eq!(ids, vec![1, 2, 0, 3]);
    assert_eq!(top[0].confidence, 9);
}

#[test]
fn top_candidates_keep_at_most_twenty() {
    let mut row = Vec::new();
    for i in 0..30 {
        row.push(i as i64);
    }
    let top = top_candidates(&row);
    assert_eq!(top.len(), 20);
    assert_eq!(top[0].token_id, 29);
    assert_eq!(top[19].token_id, 10);
}

#[test]
fn model_of_wrong_shape_is_a_hard_error() {
    struct WrongShapeModel;
    impl SequenceModel for WrongShapeModel {
        fn run(&mut self, _token_history: &Vec<Vec<i64>>) -> Vec<Vec<i64>> {
            Vec::new()
        }
    }
    let mut model = WrongShapeModel;
    assert!(run_decode(&mut model, 2).is_err());
    // The same failure surfaces through the recognition pass.
    let mut model = WrongShapeModel;
    assert!(inference(&mut model, &vocab(), 2).is_err());
    // The end token id is one of the reserved ids.
    assert!(END_TOKEN < 5);
}
