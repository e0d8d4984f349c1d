//! Mapping of decoded token candidates through the vocabulary table into
//! glyph candidates, and reconstruction of recognized text.

use crate::decoder::{ModelShapeError, SequenceModel, TokenConf, TokenConfVec, RESERVED_TOKEN_COUNT};
use crate::strings::concat_str;
use vstd::prelude::*;

verus! {

/// One glyph candidate: the vocabulary entry's text and the raw model score
/// of the token it came from.
#[derive(Clone, Debug)]
pub struct KanjiConf {
    pub kanji: String,
    pub confidence: i64,
}

/// Per position, the ranked glyph candidates of one decoded sequence.
pub type KanjiResult = Vec<KanjiConf>;

/// Per decoded sequence, the ordered per-position candidate lists.
pub type KanjiTopResults = Vec<KanjiResult>;

/// The text of each vocabulary entry.
pub open spec fn vocab_view(vocab: Seq<String>) -> Seq<Seq<char>> {
    vocab.map_values(|s: String| s@)
}

/// A token survives the vocabulary mapping: its id is not reserved, lies in
/// the table, and maps to a non-empty text.
pub open spec fn keeps_token(t: TokenConf, vocab: Seq<Seq<char>>) -> bool {
    RESERVED_TOKEN_COUNT <= t.token_id && t.token_id < vocab.len() && vocab[t.token_id as int].len()
        > 0
}

/// The glyph view of one candidate list: each surviving token's vocabulary
/// text with its score, in order.
pub open spec fn spec_glyphs(s: Seq<TokenConf>, vocab: Seq<Seq<char>>) -> Seq<(Seq<char>, i64)>
    decreases s.len(),
{
    if s.len() == 0 {
        Seq::empty()
    } else {
        let rest = spec_glyphs(s.drop_last(), vocab);
        if keeps_token(s.last(), vocab) {
            rest.push((vocab[s.last().token_id as int], s.last().confidence))
        } else {
            rest
        }
    }
}

/// The glyph view of a list of glyph candidates.
pub open spec fn glyph_view(s: Seq<KanjiConf>) -> Seq<(Seq<char>, i64)> {
    s.map_values(|k: KanjiConf| (k.kanji@, k.confidence))
}

impl TokenConf {
    /// The vocabulary text of this token: nothing for an id outside the
    /// table or one that maps to an empty text (reserved ids are the callers'
    /// concern).
    pub fn convert(&self, vocab: &Vec<String>) -> (r: Option<KanjiConf>)
        ensures
            match r {
                Some(k) => 0 <= self.token_id < vocab@.len() && k.kanji@ == vocab@[self.token_id as int]@
                    && k.kanji@.len() > 0 && k.confidence == self.confidence,
                None => !(0 <= self.token_id < vocab@.len() && vocab@[self.token_id as int]@.len()
                    > 0),
            },
    {
        if self.token_id < 0 {
            return None;
        }
        if self.token_id as u128 >= vocab.len() as u128 {
            return None;
        }
        let kanji: &String = &vocab[self.token_id as usize];
        if kanji.as_str().is_empty() {
            return None;
        }
        Some(KanjiConf { kanji: kanji.clone(), confidence: self.confidence })
    }
}

/// One position's candidate list mapped through the vocabulary: reserved ids
/// and empty vocabulary texts are dropped.
pub fn convert_tokens(middle: &Vec<TokenConf>, vocab: &Vec<String>) -> (r: Vec<KanjiConf>)
    ensures
        glyph_view(r@) == spec_glyphs(middle@, vocab_view(vocab@)),
{
    let ghost vv = vocab_view(vocab@);
    let n: usize = middle.len();
    let mut out: Vec<KanjiConf> = Vec::new();
    let mut i: usize = 0;
    while i < n
        invariant
            n == middle@.len(),
            i <= n,
            vv == vocab_view(vocab@),
            glyph_view(out@) == spec_glyphs(middle@.take(i as int), vv),
        decreases n - i,
    {
        let t: TokenConf = middle[i];
        proof {
            assert(middle@.take(i as int + 1).drop_last() =~= middle@.take(i as int));
            assert(middle@.take(i as int + 1).last() == middle@[i as int]);
        }
        if t.token_id >= RESERVED_TOKEN_COUNT {
            match t.convert(vocab) {
                Some(k) => {
                    proof {
                        assert(vv[t.token_id as int] == vocab@[t.token_id as int]@);
                        assert(keeps_token(t, vv));
                    }
                    let ghost pre = out@;
                    out.push(k);
                    proof {
                        assert(glyph_view(out@) =~= glyph_view(pre).push((k.kanji@, k.confidence)));
                    }
                },
                None => {
                    proof {
                        assert(!keeps_token(t, vv));
                    }
                },
            }
        } else {
            proof {
                assert(!keeps_token(t, vv));
            }
        }
        i += 1;
    }
    proof {
        assert(middle@.take(n as int) =~= middle@);
    }
    out
}

/// The glyph views of a sequence's recorded lists, empty positions dropped.
pub open spec fn spec_positions(rec: Seq<Seq<TokenConf>>, vocab: Seq<Seq<char>>) -> Seq<
    Seq<(Seq<char>, i64)>,
>
    decreases rec.len(),
{
    if rec.len() == 0 {
        Seq::empty()
    } else {
        let rest = spec_positions(rec.drop_last(), vocab);
        if spec_glyphs(rec.last(), vocab).len() > 0 {
            rest.push(spec_glyphs(rec.last(), vocab))
        } else {
            rest
        }
    }
}

/// The glyph views of a whole position list.
pub open spec fn positions_view(s: Seq<Vec<KanjiConf>>) -> Seq<Seq<(Seq<char>, i64)>> {
    s.map_values(|v: Vec<KanjiConf>| glyph_view(v@))
}

/// One decoded sequence's recorded lists mapped through the vocabulary;
/// positions whose whole list mapped away are dropped.
pub fn get_kanji_top_results(outer: &Vec<Vec<TokenConf>>, vocab: &Vec<String>) -> (r:
    KanjiTopResults)
    ensures
        positions_view(r@) == spec_positions(crate::decoder::rec_view(outer@), vocab_view(vocab@)),
{
    let ghost vv = vocab_view(vocab@);
    let ghost ov = crate::decoder::rec_view(outer@);
    let n: usize = outer.len();
    let mut out: KanjiTopResults = Vec::new();
    let mut i: usize = 0;
    while i < n
        invariant
            n == outer@.len(),
            i <= n,
            vv == vocab_view(vocab@),
            ov == crate::decoder::rec_view(outer@),
            ov.len() == n,
            forall|k: int| 0 <= k < n ==> ov[k] == (#[trigger] outer@[k])@,
            positions_view(out@) == spec_positions(ov.take(i as int), vv),
        decreases n - i,
    {
        proof {
            assert(ov.take(i as int + 1).drop_last() =~= ov.take(i as int));
            assert(ov.take(i as int + 1).last() == ov[i as int]);
        }
        let converted = convert_tokens(&outer[i], vocab);
        proof {
            assert(glyph_view(converted@) == spec_glyphs(ov[i as int], vv));
        }
        if converted.len() > 0 {
            let ghost pre = out@;
            out.push(converted);
            proof {
                assert(spec_glyphs(ov[i as int], vv).len() > 0);
                assert(positions_view(out@) =~= positions_view(pre).push(glyph_view(converted@)));
            }
        } else {
            proof {
                assert(spec_glyphs(ov[i as int], vv).len() == 0);
            }
        }
        i += 1;
    }
    proof {
        assert(ov.take(n as int) =~= ov);
    }
    out
}

/// The glyph views of every decoded sequence, sequences with no positions
/// dropped.
pub open spec fn spec_decoded(tc: Seq<Seq<Seq<TokenConf>>>, vocab: Seq<Seq<char>>) -> Seq<
    Seq<Seq<(Seq<char>, i64)>>,
>
    decreases tc.len(),
{
    if tc.len() == 0 {
        Seq::empty()
    } else {
        let rest = spec_decoded(tc.drop_last(), vocab);
        if spec_positions(tc.last(), vocab).len() > 0 {
            rest.push(spec_positions(tc.last(), vocab))
        } else {
            rest
        }
    }
}

/// The token-list views of a whole decode result.
pub open spec fn token_results_view(s: Seq<Vec<Vec<TokenConf>>>) -> Seq<Seq<Seq<TokenConf>>> {
    s.map_values(|v: Vec<Vec<TokenConf>>| crate::decoder::rec_view(v@))
}

/// The glyph views of a list of per-sequence results.
pub open spec fn results_view(s: Seq<Vec<Vec<KanjiConf>>>) -> Seq<Seq<Seq<(Seq<char>, i64)>>> {
    s.map_values(|v: Vec<Vec<KanjiConf>>| positions_view(v@))
}

/// Every decoded sequence mapped through the vocabulary; sequences that kept
/// no position are dropped.
pub fn decode_tokens(token_ids: &TokenConfVec, vocab: &Vec<String>) -> (r: Vec<KanjiTopResults>)
    ensures
        results_view(r@) == spec_decoded(token_results_view(token_ids@), vocab_view(vocab@)),
{
    let ghost vv = vocab_view(vocab@);
    let ghost tv = token_results_view(token_ids@);
    let n: usize = token_ids.len();
    let mut out: Vec<KanjiTopResults> = Vec::new();
    let mut i: usize = 0;
    while i < n
        invariant
            n == token_ids@.len(),
            i <= n,
            vv == vocab_view(vocab@),
            tv == token_results_view(token_ids@),
            tv.len() == n,
            forall|k: int|
                0 <= k < n ==> tv[k] == crate::decoder::rec_view((#[trigger] token_ids@[k])@),
            results_view(out@) == spec_decoded(tv.take(i as int), vv),
        decreases n - i,
    {
        proof {
            assert(tv.take(i as int + 1).drop_last() =~= tv.take(i as int));
            assert(tv.take(i as int + 1).last() == tv[i as int]);
        }
        let converted = get_kanji_top_results(&token_ids[i], vocab);
        if converted.len() > 0 {
            let ghost pre = out@;
            out.push(converted);
            proof {
                assert(positions_view(converted@).len() > 0);
                assert(results_view(out@) =~= results_view(pre).push(positions_view(converted@)));
            }
        } else {
            proof {
                assert(spec_positions(tv[i as int], vv).len() == 0);
            }
        }
        i += 1;
    }
    proof {
        assert(tv.take(n as int) =~= tv);
    }
    out
}

/// The reconstructed text at one rank: position by position, the text of the
/// rank's candidate, positions lacking that rank skipped.
pub open spec fn spec_top_text(rs: Seq<Seq<(Seq<char>, i64)>>, top: int) -> Seq<char>
    decreases rs.len(),
{
    if rs.len() == 0 {
        Seq::empty()
    } else {
        spec_top_text(rs.drop_last(), top) + (if 0 <= top < rs.last().len() {
            rs.last()[top].0
        } else {
            Seq::empty()
        })
    }
}

/// The text a sequence's results reconstruct at rank `top` (0 is best).
pub fn get_kanji_top_text(result: &KanjiTopResults, top: usize) -> (r: Option<String>)
    ensures
        match r {
            Some(s) => s@ == spec_top_text(positions_view(result@), top as int),
            None => false,
        },
{
    let ghost rv = positions_view(result@);
    let n: usize = result.len();
    let mut out: String = String::new();
    let mut i: usize = 0;
    while i < n
        invariant
            n == result@.len(),
            i <= n,
            rv == positions_view(result@),
            rv.len() == n,
            forall|k: int| 0 <= k < n ==> rv[k] == glyph_view((#[trigger] result@[k])@),
            out@ == spec_top_text(rv.take(i as int), top as int),
        decreases n - i,
    {
        proof {
            assert(rv.take(i as int + 1).drop_last() =~= rv.take(i as int));
            assert(rv.take(i as int + 1).last() == rv[i as int]);
        }
        let row: &Vec<KanjiConf> = &result[i];
        if top < row.len() {
            proof {
                assert(rv[i as int][top as int].0 == row@[top as int].kanji@);
            }
            out = concat_str(out, row[top].kanji.as_str());
        } else {
            proof {
                assert(out@ + Seq::<char>::empty() =~= out@);
            }
        }
        i += 1;
    }
    proof {
        assert(rv.take(n as int) =~= rv);
    }
    Some(out)
}

/// The concatenation of every candidate's text.
pub open spec fn spec_all_text(s: Seq<(Seq<char>, i64)>) -> Seq<char>
    decreases s.len(),
{
    if s.len() == 0 {
        Seq::empty()
    } else {
        spec_all_text(s.drop_last()) + s.last().0
    }
}

impl KanjiConf {
    /// The texts of the candidates joined into one string.
    pub fn get_ocr(vec: &Vec<KanjiConf>) -> (r: String)
        ensures
            r@ == spec_all_text(glyph_view(vec@)),
    {
        let ghost gv = glyph_view(vec@);
        let n: usize = vec.len();
        let mut out: String = String::new();
        let mut i: usize = 0;
        while i < n
            invariant
                n == vec@.len(),
                i <= n,
                gv == glyph_view(vec@),
                gv.len() == n,
                forall|k: int| 0 <= k < n ==> gv[k] == ((#[trigger] vec@[k]).kanji@, vec@[k].confidence),
                out@ == spec_all_text(gv.take(i as int)),
            decreases n - i,
        {
            proof {
                assert(gv.take(i as int + 1).drop_last() =~= gv.take(i as int));
                assert(gv.take(i as int + 1).last() == gv[i as int]);
            }
            out = concat_str(out, vec[i].kanji.as_str());
            i += 1;
        }
        proof {
            assert(gv.take(n as int) =~= gv);
        }
        out
    }

    /// The per-position candidate texts, positions joined by a bar separator.
    pub fn get_conf_matrix(vec: &Vec<Vec<KanjiConf>>) -> (r: String)
        ensures
            r@ == spec_conf_matrix(positions_view(vec@)),
    {
        let ghost pv = positions_view(vec@);
        let n: usize = vec.len();
        let mut out: String = String::new();
        let mut i: usize = 0;
        while i < n
            invariant
                n == vec@.len(),
                i <= n,
                pv == positions_view(vec@),
                pv.len() == n,
                forall|k: int| 0 <= k < n ==> pv[k] == glyph_view((#[trigger] vec@[k])@),
                out@ == spec_conf_matrix(pv.take(i as int)),
            decreases n - i,
        {
            proof {
                assert(pv.take(i as int + 1).drop_last() =~= pv.take(i as int));
                assert(pv.take(i as int + 1).last() == pv[i as int]);
            }
            if i > 0 {
                out = concat_str(out, " | ");
            }
            let row_text = KanjiConf::get_ocr(&vec[i]);
            out = concat_str(out, row_text.as_str());
            i += 1;
        }
        proof {
            assert(pv.take(n as int) =~= pv);
        }
        out
    }
}

/// The candidate texts of each position concatenated, positions joined by
/// `" | "`.
pub open spec fn spec_conf_matrix(rs: Seq<Seq<(Seq<char>, i64)>>) -> Seq<char>
    decreases rs.len(),
{
    if rs.len() == 0 {
        Seq::empty()
    } else if rs.len() == 1 {
        spec_all_text(rs.last())
    } else {
        spec_conf_matrix(rs.drop_last()) + " | "@ + spec_all_text(rs.last())
    }
}

/// The OCR backends the pipeline can run.
#[derive(Clone, Copy, Debug, PartialEq, Eq, Structural)]
pub enum OcrBackend {
    MangaOcr,
}

/// What one backend returned for one image.
#[derive(Clone, Debug)]
pub enum BackendResult {
    MangaOcr(KanjiTopResults),
    Unknown,
}

/// A sequence that recorded nothing reconstructs the empty string at every
/// rank: with `lemma_immediate_end`, a model that immediately ranks the end
/// token first yields empty text.
pub proof fn lemma_empty_results_text(rec: Seq<Seq<TokenConf>>, vocab: Seq<Seq<char>>, top: int)
    requires
        rec.len() == 0,
    ensures
        spec_positions(rec, vocab) == Seq::<Seq<(Seq<char>, i64)>>::empty(),
        spec_top_text(spec_positions(rec, vocab), top) == Seq::<char>::empty(),
{
}

/// The mapping drops sequences, never adds them.
proof fn lemma_spec_decoded_len(tc: Seq<Seq<Seq<TokenConf>>>, vocab: Seq<Seq<char>>)
    ensures
        spec_decoded(tc, vocab).len() <= tc.len(),
    decreases tc.len(),
{
    if tc.len() > 0 {
        lemma_spec_decoded_len(tc.drop_last(), vocab);
    }
}

/// A whole recognition pass: decode a batch against the model, then map every
/// sequence through the vocabulary. An empty batch succeeds with an empty
/// result without consulting the model; a model answer of the wrong shape is
/// a hard error, never mistaken for recognized empty text.
pub fn inference<M: SequenceModel>(model: &mut M, vocab: &Vec<String>, batch_size: usize) -> (r:
    Result<Vec<KanjiTopResults>, ModelShapeError>)
    ensures
        batch_size == 0 ==> (r matches Ok(out) && out@.len() == 0),
        r matches Ok(out) ==> out@.len() <= batch_size,
{
    if batch_size == 0 {
        return Ok(Vec::new());
    }
    match crate::decoder::get_token_ids(model, batch_size) {
        Ok(token_ids) => {
            let decoded = decode_tokens(&token_ids, vocab);
            proof {
                lemma_spec_decoded_len(token_results_view(token_ids@), vocab_view(vocab@));
                assert(results_view(decoded@).len() == decoded@.len());
                assert(token_results_view(token_ids@).len() == token_ids@.len());
            }
            Ok(decoded)
        },
        Err(e) => Err(e),
    }
}

impl OcrBackend {
    /// The chosen backend run over a decoded batch, each sequence's results
    /// wrapped in that backend's result variant; a model answer of the wrong
    /// shape surfaces as the error.
    pub fn run_backend<M: SequenceModel>(
        &self,
        model: &mut M,
        vocab: &Vec<String>,
        batch_size: usize,
    ) -> (r: Result<Vec<BackendResult>, ModelShapeError>)
        ensures
            batch_size == 0 ==> (r matches Ok(out) && out@.len() == 0),
            r matches Ok(out) ==> out@.len() <= batch_size && (forall|k: int|
                0 <= k < out@.len() ==> (#[trigger] out@[k]) is MangaOcr),
    {
        match self {
            OcrBackend::MangaOcr => {
                let results = match inference(model, vocab, batch_size) {
                    Ok(results) => results,
                    Err(e) => {
                        return Err(e);
                    },
                };
                let ghost total = results@.len();
                let mut out: Vec<BackendResult> = Vec::new();
                let mut rest = results;
                while rest.len() > 0
                    invariant
                        out@.len() + rest@.len() == total,
                        forall|k: int| 0 <= k < out@.len() ==> (#[trigger] out@[k]) is MangaOcr,
                    decreases rest@.len(),
                {
                    let first = rest.remove(0);
                    out.push(BackendResult::MangaOcr(first));
                }
                Ok(out)
            },
        }
    }
}

} // verus!
