//! Autoregressive sequence decoding of cropped glyph images into ranked
//! per-position token candidates.
//!
//! The neural model itself is an opaque service: the decoder drives it
//! through the [`SequenceModel`] trait, makes no assumption about what it
//! returns, and is verified for every possible model output. Raw model
//! scores are fixed-point integers.

use vstd::prelude::*;

verus! {

/// Upper bound on decode steps; decoding always halts within this many.
pub const MAX_DECODE_STEPS: usize = 300;

/// How many top-ranked candidates are recorded per position.
pub const MAX_TOP_KANJI: usize = 20;

/// Reserved vocabulary id every sequence starts with.
pub const START_TOKEN: i64 = 2;

/// Reserved vocabulary id that finishes a sequence.
pub const END_TOKEN: i64 = 3;

/// Vocabulary ids below this are reserved (pad, start, end, unknown, mask).
pub const RESERVED_TOKEN_COUNT: i64 = 5;

/// One ranked candidate: a vocabulary id and its raw model score.
#[derive(Clone, Copy, Debug, PartialEq, Eq, Structural)]
pub struct TokenConf {
    pub token_id: i64,
    pub confidence: i64,
}

/// Per input image, an ordered list (one per emitted position) of top-ranked
/// candidate lists.
pub type TokenConfVec = Vec<Vec<Vec<TokenConf>>>;

/// `a` ranks strictly before `b`: higher score first, lower id on ties.
pub open spec fn ranks_before(a: TokenConf, b: TokenConf) -> bool {
    a.confidence > b.confidence || (a.confidence == b.confidence && a.token_id < b.token_id)
}

/// The candidate a logits row assigns to a vocabulary id.
pub open spec fn candidate_of(row: Seq<i64>, id: int) -> TokenConf {
    TokenConf { token_id: id as i64, confidence: row[id] }
}

/// Some candidate of the list carries the given vocabulary id.
pub open spec fn contains_id(r: Seq<TokenConf>, id: int) -> bool {
    exists|t: int| 0 <= t < r.len() && (#[trigger] r[t]).token_id == id
}

/// `r` is the ranked top list of the row: as many entries as the row allows
/// up to `MAX_TOP_KANJI`, all genuine candidates, in strictly descending rank
/// order, and every left-out candidate ranks below the last kept one.
pub open spec fn is_top_list(row: Seq<i64>, r: Seq<TokenConf>) -> bool {
    &&& r.len() == if row.len() < MAX_TOP_KANJI {
        row.len() as int
    } else {
        MAX_TOP_KANJI as int
    }
    &&& forall|t: int|
        0 <= t < r.len() ==> 0 <= (#[trigger] r[t]).token_id < row.len() && r[t] == candidate_of(
            row,
            r[t].token_id as int,
        )
    &&& forall|t1: int, t2: int| 0 <= t1 < t2 < r.len() ==> ranks_before(r[t1], r[t2])
    &&& forall|id: int|
        0 <= id < row.len() && !contains_id(r, id) ==> r.len() > 0 && ranks_before(
            r[r.len() - 1],
            candidate_of(row, id),
        )
}

fn ranks_before_exec(a: &TokenConf, b: &TokenConf) -> (r: bool)
    ensures
        r == ranks_before(*a, *b),
{
    a.confidence > b.confidence || (a.confidence == b.confidence && a.token_id < b.token_id)
}

/// The top-`MAX_TOP_KANJI` candidates of one logits row, ranked descending
/// (ties broken by the lower vocabulary id).
pub fn top_candidates(row: &Vec<i64>) -> (r: Vec<TokenConf>)
    requires
        row@.len() <= i64::MAX,
    ensures
        is_top_list(row@, r@),
{
    let n: usize = row.len();
    let mut list: Vec<TokenConf> = Vec::new();
    let mut i: usize = 0;
    while i < n
        invariant
            n == row@.len(),
            n <= i64::MAX,
            i <= n,
            list@.len() == (if i < MAX_TOP_KANJI {
                i as int
            } else {
                MAX_TOP_KANJI as int
            }),
            forall|t: int|
                0 <= t < list@.len() ==> 0 <= (#[trigger] list@[t]).token_id < i && list@[t]
                    == candidate_of(row@, list@[t].token_id as int),
            forall|t1: int, t2: int|
                0 <= t1 < t2 < list@.len() ==> ranks_before(list@[t1], list@[t2]),
            forall|id: int|
                0 <= id < i && !contains_id(list@, id) ==> list@.len() > 0 && ranks_before(
                    list@[list@.len() - 1],
                    candidate_of(row@, id),
                ),
            i <= MAX_TOP_KANJI ==> forall|id: int| 0 <= id < i ==> contains_id(list@, id),
        decreases n - i,
    {
        let cand = TokenConf { token_id: i as i64, confidence: row[i] };
        proof {
            assert(cand == candidate_of(row@, i as int));
        }
        let ghost pre = list@;
        let m: usize = list.len();
        let mut pos: usize = 0;
        while pos < m && ranks_before_exec(&list[pos], &cand)
            invariant
                m == list@.len(),
                pos <= m,
                forall|t: int| 0 <= t < pos ==> ranks_before(#[trigger] list@[t], cand),
                list@ == pre,
            decreases m - pos,
        {
            pos += 1;
        }
        // The candidate's id is new, so its rank differs from every kept one.
        proof {
            assert forall|t: int| pos <= t < pre.len() implies ranks_before(
                cand,
                #[trigger] pre[t],
            ) by {
                assert(pre[t].token_id < i);
                if t == pos {
                    assert(!ranks_before(pre[pos as int], cand));
                } else {
                    assert(ranks_before(pre[pos as int], pre[t]));
                    assert(!ranks_before(pre[pos as int], cand));
                }
            }
        }
        list.insert(pos, cand);
        proof {
            pre.insert_ensures(pos as int, cand);
            assert(list@ == pre.insert(pos as int, cand));
            assert forall|t1: int, t2: int|
                0 <= t1 < t2 < list@.len() implies ranks_before(list@[t1], list@[t2]) by {
                if t1 < pos && t2 == pos {
                    assert(list@[t1] == pre[t1]);
                } else if t1 == pos {
                    assert(list@[t2] == pre[t2 - 1]);
                } else if t1 < pos && t2 > pos {
                    assert(list@[t1] == pre[t1] && list@[t2] == pre[t2 - 1]);
                    assert(ranks_before(pre[t1], cand) && ranks_before(cand, pre[t2 - 1]));
                    if t2 - 1 == pos as int {
                    } else {
                    }
                }
            }
        }
        let ghost inserted = list@;
        if list.len() > MAX_TOP_KANJI {
            let _ = list.pop();
            proof {
                let d = inserted[inserted.len() - 1];
                assert(list@ =~= inserted.drop_last());
                let last = list@[list@.len() - 1];
                assert(last == inserted[inserted.len() - 2]);
                assert(ranks_before(last, d));
                // The dropped box is the minimum: either the incoming
                // candidate or the previous last.
                if pos as int == inserted.len() - 1 {
                    assert(d == cand);
                } else {
                    assert(d == pre[pre.len() - 1]);
                }
                // Every id outside the kept list ranks below the new last.
                assert forall|id: int|
                    0 <= id < i + 1 && !contains_id(list@, id) implies list@.len() > 0
                    && ranks_before(list@[list@.len() - 1], candidate_of(row@, id)) by {
                    if id == d.token_id {
                        assert(d == candidate_of(row@, id));
                    } else if id == i as int {
                        // The incoming candidate was inserted and not
                        // dropped, so it is in the kept part.
                        assert(inserted[pos as int] == cand);
                        assert(list@[pos as int].token_id == id);
                        assert(contains_id(list@, id));
                    } else {
                        if contains_id(pre, id) {
                            let t = choose|t: int|
                                0 <= t < pre.len() && (#[trigger] pre[t]).token_id == id;
                            if t < pos {
                                assert(inserted[t] == pre[t]);
                                assert(t < list@.len());
                                assert(list@[t].token_id == id);
                                assert(contains_id(list@, id));
                            } else {
                                assert(inserted[t + 1] == pre[t]);
                                if t + 1 < list@.len() {
                                    assert(list@[t + 1].token_id == id);
                                    assert(contains_id(list@, id));
                                } else {
                                    assert(pre[t] == d);
                                }
                            }
                        } else {
                            assert(ranks_before(pre[pre.len() - 1], candidate_of(row@, id)));
                            assert(ranks_before(d, candidate_of(row@, id)) || d == cand);
                            if d == cand {
                                assert(pos as int == inserted.len() - 1);
                                assert(last == pre[pre.len() - 1]);
                            }
                        }
                    }
                }
            }
        } else {
            // Below the cap nothing has ever been dropped: every processed id
            // is in the list.
            proof {
                assert(pre.len() < MAX_TOP_KANJI);
                assert(i < MAX_TOP_KANJI);
                assert forall|id: int| 0 <= id < i + 1 implies contains_id(list@, id) by {
                    if id == i as int {
                        assert(inserted[pos as int].token_id == id);
                    } else {
                        assert(contains_id(pre, id));
                        let t = choose|t: int|
                            0 <= t < pre.len() && (#[trigger] pre[t]).token_id == id;
                        if t < pos {
                            assert(inserted[t] == pre[t]);
                        } else {
                            assert(inserted[t + 1] == pre[t]);
                        }
                    }
                }
            }
        }
        i += 1;
    }
    list
}

/// A non-empty candidate list of bounded length in strictly descending rank
/// order.
pub open spec fn ranked_list(l: Seq<TokenConf>) -> bool {
    &&& 1 <= l.len() <= MAX_TOP_KANJI
    &&& forall|t1: int, t2: int| 0 <= t1 < t2 < l.len() ==> ranks_before(l[t1], l[t2])
}

/// The views of a list of recorded candidate lists.
pub open spec fn rec_view(r: Seq<Vec<TokenConf>>) -> Seq<Seq<TokenConf>> {
    r.map_values(|v: Vec<TokenConf>| v@)
}

/// One decoding sequence: its running token list, the top-candidate lists
/// recorded for its content positions, and whether it has finished.
pub struct SequenceState {
    pub tokens: Vec<i64>,
    pub recorded: Vec<Vec<TokenConf>>,
    pub finished: bool,
}

impl SequenceState {
    /// Well-formed after `steps` decode steps: one token per step plus the
    /// start token, and one recorded ranked list at most per step after the
    /// seed step.
    pub open spec fn wf(self, steps: int) -> bool {
        &&& self.tokens@.len() == steps + 1
        &&& self.tokens@[0] == START_TOKEN
        &&& self.recorded@.len() <= (if steps > 0 {
            steps - 1
        } else {
            0
        })
        &&& forall|k: int|
            0 <= k < self.recorded@.len() ==> ranked_list((#[trigger] self.recorded@[k])@)
    }
}

/// The batched decode state: one sequence per input image and the number of
/// model steps taken so far.
pub struct DecoderState {
    pub seqs: Vec<SequenceState>,
    pub steps: usize,
}

/// How one sequence changes in one step on one logits row: a finished
/// sequence is force-extended with the end token; an active one appends the
/// top-ranked id, records the top list except on the seed step, and does not
/// record the end-token transition.
pub open spec fn step_chose(o: SequenceState, n: SequenceState, top: Seq<TokenConf>, steps: int) -> bool {
    &&& top.len() > 0
    &&& n.tokens@ == o.tokens@.push(top[0].token_id)
    &&& n.finished == (top[0].token_id == END_TOKEN)
    &&& rec_view(n.recorded@) == if steps > 0 && top[0].token_id != END_TOKEN {
        rec_view(o.recorded@).push(top)
    } else {
        rec_view(o.recorded@)
    }
}

/// The full per-sequence step relation.
pub open spec fn step_seq_rel(o: SequenceState, n: SequenceState, row: Seq<i64>, steps: int) -> bool {
    if o.finished {
        &&& n.tokens@ == o.tokens@.push(END_TOKEN)
        &&& rec_view(n.recorded@) == rec_view(o.recorded@)
        &&& n.finished
    } else {
        exists|top: Seq<TokenConf>| #[trigger] is_top_list(row, top) && step_chose(o, n, top, steps)
    }
}

impl DecoderState {
    pub open spec fn wf(self) -> bool {
        &&& self.steps <= MAX_DECODE_STEPS
        &&& forall|s: int|
            0 <= s < self.seqs@.len() ==> (#[trigger] self.seqs@[s]).wf(self.steps as int)
    }

    pub open spec fn all_finished(self) -> bool {
        forall|s: int| 0 <= s < self.seqs@.len() ==> (#[trigger] self.seqs@[s]).finished
    }

    /// Decoding goes on while some sequence is active and the step budget is
    /// not exhausted.
    pub open spec fn spec_needs_step(self) -> bool {
        !self.all_finished() && self.steps < MAX_DECODE_STEPS
    }

    /// A fresh batch: every sequence holds only the start token.
    pub fn new(batch_size: usize) -> (r: Self)
        ensures
            r.wf(),
            r.steps == 0,
            r.seqs@.len() == batch_size,
            forall|s: int|
                0 <= s < batch_size ==> (#[trigger] r.seqs@[s]).tokens@ == seq![START_TOKEN]
                    && r.seqs@[s].recorded@.len() == 0 && !r.seqs@[s].finished,
    {
        let mut seqs: Vec<SequenceState> = Vec::new();
        let mut s: usize = 0;
        while s < batch_size
            invariant
                s <= batch_size,
                seqs@.len() == s,
                forall|k: int|
                    0 <= k < s ==> (#[trigger] seqs@[k]).tokens@ == seq![START_TOKEN]
                        && seqs@[k].recorded@.len() == 0 && !seqs@[k].finished,
            decreases batch_size - s,
        {
            let mut tokens: Vec<i64> = Vec::new();
            tokens.push(START_TOKEN);
            proof {
                assert(tokens@ =~= seq![START_TOKEN]);
            }
            seqs.push(SequenceState { tokens, recorded: Vec::new(), finished: false });
            s += 1;
        }
        DecoderState { seqs, steps: 0 }
    }

    pub fn needs_step(&self) -> (r: bool)
        ensures
            r == self.spec_needs_step(),
    {
        if self.steps >= MAX_DECODE_STEPS {
            return false;
        }
        let n: usize = self.seqs.len();
        let mut s: usize = 0;
        while s < n
            invariant
                n == self.seqs@.len(),
                s <= n,
                self.steps < MAX_DECODE_STEPS,
                forall|k: int| 0 <= k < s ==> (#[trigger] self.seqs@[k]).finished,
            decreases n - s,
        {
            if !self.seqs[s].finished {
                proof {
                    assert(!(#[trigger] self.seqs@[s as int]).finished);
                    assert(!self.all_finished());
                }
                return true;
            }
            s += 1;
        }
        false
    }

    /// A copy of every sequence's token history, for one model call.
    pub fn token_history(&self) -> (r: Vec<Vec<i64>>)
        ensures
            r@.len() == self.seqs@.len(),
            forall|s: int| 0 <= s < r@.len() ==> (#[trigger] r@[s])@ == self.seqs@[s].tokens@,
    {
        let n: usize = self.seqs.len();
        let mut out: Vec<Vec<i64>> = Vec::new();
        let mut s: usize = 0;
        while s < n
            invariant
                n == self.seqs@.len(),
                s <= n,
                out@.len() == s,
                forall|k: int| 0 <= k < s ==> (#[trigger] out@[k])@ == self.seqs@[k].tokens@,
            decreases n - s,
        {
            let toks: &Vec<i64> = &self.seqs[s].tokens;
            let m: usize = toks.len();
            let mut copy: Vec<i64> = Vec::new();
            let mut t: usize = 0;
            while t < m
                invariant
                    m == toks@.len(),
                    t <= m,
                    copy@ == toks@.take(t as int),
                decreases m - t,
            {
                copy.push(toks[t]);
                proof {
                    assert(copy@ =~= toks@.take(t as int + 1));
                }
                t += 1;
            }
            proof {
                assert(toks@.take(m as int) =~= toks@);
            }
            out.push(copy);
            s += 1;
        }
        out
    }

    /// One batched decode step on the model's logits rows (one row of raw
    /// scores per sequence, covering the whole vocabulary).
    pub fn step(&mut self, logits: &Vec<Vec<i64>>)
        requires
            old(self).wf(),
            old(self).spec_needs_step(),
            logits@.len() == old(self).seqs@.len(),
            forall|i: int|
                0 <= i < logits@.len() ==> 0 < (#[trigger] logits@[i])@.len() <= i64::MAX,
        ensures
            final(self).wf(),
            final(self).steps == old(self).steps + 1,
            final(self).seqs@.len() == old(self).seqs@.len(),
            forall|i: int|
                0 <= i < old(self).seqs@.len() ==> step_seq_rel(
                    old(self).seqs@[i],
                    #[trigger] final(self).seqs@[i],
                    logits@[i]@,
                    old(self).steps as int,
                ),
    {
        let ghost oldseqs = self.seqs@;
        let ghost st = self.steps as int;
        let step_count: usize = self.steps;
        let mut rest: Vec<SequenceState> = Vec::new();
        core::mem::swap(&mut self.seqs, &mut rest);
        let mut done: Vec<SequenceState> = Vec::new();
        while rest.len() > 0
            invariant
                logits@.len() == oldseqs.len(),
                forall|i: int| 0 <= i < logits@.len() ==> 0 < (#[trigger] logits@[i])@.len() <= i64::MAX,
                forall|i: int| 0 <= i < oldseqs.len() ==> (#[trigger] oldseqs[i]).wf(st),
                step_count == st,
                0 <= st < MAX_DECODE_STEPS,
                done@.len() + rest@.len() == oldseqs.len(),
                forall|k: int|
                    0 <= k < rest@.len() ==> #[trigger] rest@[k] == oldseqs[done@.len() + k],
                forall|k: int|
                    0 <= k < done@.len() ==> (#[trigger] done@[k]).wf(st + 1) && step_seq_rel(
                        oldseqs[k],
                        done@[k],
                        logits@[k]@,
                        st,
                    ),
            decreases rest@.len(),
        {
            let ghost pre_rest = rest@;
            let mut s = rest.remove(0);
            let i: usize = done.len();
            proof {
                assert(pre_rest[0] == oldseqs[i as int]);
                assert(rest@ =~= pre_rest.subrange(1, pre_rest.len() as int));
            }
            let ghost o = oldseqs[i as int];
            if s.finished {
                s.tokens.push(END_TOKEN);
                proof {
                    assert(rec_view(s.recorded@) == rec_view(o.recorded@));
                    assert(step_seq_rel(o, s, logits@[i as int]@, st));
                }
            } else {
                let row: &Vec<i64> = &logits[i];
                let top = top_candidates(row);
                let chosen: i64 = top[0].token_id;
                s.tokens.push(chosen);
                if chosen == END_TOKEN {
                    s.finished = true;
                    proof {
                        assert(is_top_list(row@, top@));
                        assert(step_chose(o, s, top@, st));
                    }
                } else if step_count > 0 {
                    let ghost oldrec = s.recorded@;
                    s.recorded.push(top);
                    proof {
                        assert(is_top_list(row@, top@));
                        assert(rec_view(s.recorded@) =~= rec_view(oldrec).push(top@));
                        assert(ranked_list(top@));
                        assert(step_chose(o, s, top@, st));
                    }
                } else {
                    proof {
                        assert(is_top_list(row@, top@));
                        assert(step_chose(o, s, top@, st));
                    }
                }
            }
            proof {
                assert(step_seq_rel(o, s, logits@[i as int]@, st));
                assert(s.wf(st + 1));
            }
            done.push(s);
        }
        core::mem::swap(&mut self.seqs, &mut done);
        self.steps = step_count + 1;
    }

    /// The recorded top-candidate lists, one outer entry per sequence.
    pub fn into_results(self) -> (r: TokenConfVec)
        ensures
            r@.len() == self.seqs@.len(),
            forall|s: int| 0 <= s < r@.len() ==> #[trigger] r@[s] == self.seqs@[s].recorded,
    {
        let ghost oldseqs = self.seqs@;
        let mut rest = self.seqs;
        let mut out: TokenConfVec = Vec::new();
        while rest.len() > 0
            invariant
                out@.len() + rest@.len() == oldseqs.len(),
                forall|k: int|
                    0 <= k < rest@.len() ==> #[trigger] rest@[k] == oldseqs[out@.len() + k],
                forall|k: int| 0 <= k < out@.len() ==> #[trigger] out@[k] == oldseqs[k].recorded,
            decreases rest@.len(),
        {
            let ghost pre_rest = rest@;
            let s = rest.remove(0);
            proof {
                assert(pre_rest[0] == oldseqs[out@.len() as int]);
                assert(rest@ =~= pre_rest.subrange(1, pre_rest.len() as int));
            }
            out.push(s.recorded);
        }
        out
    }
}

/// The opaque vision-to-text model: one call takes every sequence's token
/// history and returns one row of raw last-position scores per sequence.
/// Nothing is assumed of what it returns.
pub trait SequenceModel {
    fn run(&mut self, token_history: &Vec<Vec<i64>>) -> Vec<Vec<i64>>;
}

/// A model answer whose shape does not fit the batch: a programming-invariant
/// violation, reported as a hard error.
#[derive(Clone, Copy, Debug, PartialEq, Eq, Structural)]
pub struct ModelShapeError;

/// The batched greedy decode loop: up to `MAX_DECODE_STEPS` model calls, each
/// followed by one state step; it stops early once every sequence is
/// finished, and an empty batch returns at once without consulting the model.
pub fn run_decode<M: SequenceModel>(model: &mut M, batch_size: usize) -> (r: Result<
    DecoderState,
    ModelShapeError,
>)
    ensures
        batch_size == 0 ==> r is Ok,
        match r {
            Ok(st) => st.wf() && !st.spec_needs_step() && st.seqs@.len() == batch_size && (
            batch_size == 0 ==> st.steps == 0),
            Err(_) => true,
        },
{
    let mut state = DecoderState::new(batch_size);
    loop
        invariant
            state.wf(),
            state.seqs@.len() == batch_size,
            batch_size == 0 ==> state.steps == 0,
        decreases MAX_DECODE_STEPS - state.steps,
    {
        if !state.needs_step() {
            return Ok(state);
        }
        proof {
            // Some sequence is still active, so the batch is not empty.
            assert(batch_size > 0);
        }
        let history = state.token_history();
        let logits = model.run(&history);
        if logits.len() != batch_size {
            return Err(ModelShapeError);
        }
        let mut i: usize = 0;
        let mut rows_ok: bool = true;
        while i < batch_size
            invariant
                batch_size == logits@.len(),
                i <= batch_size,
                rows_ok == forall|k: int|
                    0 <= k < i ==> 0 < (#[trigger] logits@[k])@.len() <= i64::MAX,
            decreases batch_size - i,
        {
            let m: usize = logits[i].len();
            if m == 0 || m as u128 > i64::MAX as u128 {
                rows_ok = false;
            }
            i += 1;
        }
        if !rows_ok {
            return Err(ModelShapeError);
        }
        state.step(&logits);
    }
}

/// The recorded candidate lists of a whole decode run: one entry per input,
/// each an ordered list of ranked top lists.
pub fn get_token_ids<M: SequenceModel>(model: &mut M, batch_size: usize) -> (r: Result<
    TokenConfVec,
    ModelShapeError,
>)
    ensures
        batch_size == 0 ==> r is Ok,
        match r {
            Ok(out) => {
                &&& out@.len() == batch_size
                &&& forall|s: int, k: int|
                    0 <= s < out@.len() && 0 <= k < out@[s]@.len() ==> ranked_list(
                        (#[trigger] out@[s]@[k])@,
                    ) && out@[s]@.len() <= MAX_DECODE_STEPS - 1
            },
            Err(_) => true,
        },
{
    match run_decode(model, batch_size) {
        Ok(state) => {
            proof {
                assert(forall|s: int|
                    0 <= s < state.seqs@.len() ==> (#[trigger] state.seqs@[s]).wf(
                        state.steps as int,
                    ));
            }
            Ok(state.into_results())
        },
        Err(e) => Err(e),
    }
}

/// A stopped decode has either finished every sequence or exhausted the step
/// budget: decoding always halts within `MAX_DECODE_STEPS` steps.
pub proof fn lemma_decoding_halts(st: DecoderState)
    requires
        st.wf(),
        !st.spec_needs_step(),
    ensures
        st.steps <= MAX_DECODE_STEPS,
        st.all_finished() || st.steps == MAX_DECODE_STEPS,
{
}

/// A model that immediately ranks the end token first finishes every
/// sequence on the seed step, with nothing recorded: the reconstructed text
/// is empty.
pub proof fn lemma_immediate_end(pre: DecoderState, post: DecoderState, rows: Seq<Seq<i64>>)
    requires
        pre.wf(),
        pre.steps == 0,
        forall|i: int|
            0 <= i < pre.seqs@.len() ==> !(#[trigger] pre.seqs@[i]).finished
                && pre.seqs@[i].recorded@.len() == 0,
        rows.len() == pre.seqs@.len(),
        forall|i: int|
            0 <= i < rows.len() ==> 0 <= END_TOKEN < (#[trigger] rows[i]).len() && (forall|id: int|
                0 <= id < rows[i].len() && id != END_TOKEN ==> ranks_before(
                    candidate_of(rows[i], END_TOKEN as int),
                    #[trigger] candidate_of(rows[i], id),
                )),
        post.seqs@.len() == pre.seqs@.len(),
        forall|i: int|
            0 <= i < pre.seqs@.len() ==> step_seq_rel(
                pre.seqs@[i],
                #[trigger] post.seqs@[i],
                rows[i],
                0,
            ),
    ensures
        forall|i: int|
            0 <= i < post.seqs@.len() ==> (#[trigger] post.seqs@[i]).finished && post.seqs@[i].recorded@.len()
                == 0,
        post.all_finished(),
{
    assert forall|i: int|
        0 <= i < post.seqs@.len() implies (#[trigger] post.seqs@[i]).finished
        && post.seqs@[i].recorded@.len() == 0 by {
        let o = pre.seqs@[i];
        let n = post.seqs@[i];
        let row = rows[i];
        let top = choose|top: Seq<TokenConf>|
            #[trigger] is_top_list(row, top) && step_chose(o, n, top, 0);
        // The end token must be in the top list: it outranks everything else.
        assert(contains_id(top, END_TOKEN as int)) by {
            if !contains_id(top, END_TOKEN as int) {
                let last = top[top.len() - 1];
                assert(ranks_before(last, candidate_of(row, END_TOKEN as int)));
                assert(last == candidate_of(row, last.token_id as int));
                assert(last.token_id != END_TOKEN);
                assert(ranks_before(candidate_of(row, END_TOKEN as int), last));
            }
        }
        let t = choose|t: int| 0 <= t < top.len() && (#[trigger] top[t]).token_id == END_TOKEN;
        // And it must be first: anything ahead of it would be outranked.
        assert(top[0].token_id == END_TOKEN) by {
            if t > 0 {
                assert(ranks_before(top[0], top[t]));
                assert(top[0] == candidate_of(row, top[0].token_id as int));
                assert(top[0].token_id != END_TOKEN || top[0] == top[t]);
                if top[0].token_id != END_TOKEN {
                    assert(ranks_before(candidate_of(row, END_TOKEN as int), top[0]));
                    assert(top[t] == candidate_of(row, END_TOKEN as int));
                }
            }
        }
        assert(n.finished);
        assert(rec_view(n.recorded@) == rec_view(o.recorded@));
        assert(rec_view(n.recorded@).len() == n.recorded@.len());
        assert(rec_view(o.recorded@).len() == o.recorded@.len());
    }
}

} // verus!
