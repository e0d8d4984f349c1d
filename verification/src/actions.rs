//! Store actions as the application-level handlers use them.

use crate::database::{
    has_stat, increment_kanji_statistic as increment_statistic_row, load_full_history, next_clock,
    next_count, stat_key_at, Database, HistoryData, KanjiStatistic,
};
use vstd::prelude::*;

verus! {

/// The whole recognition history, most recently updated first.
pub fn load_history(db: &Database) -> (r: Vec<HistoryData>)
    ensures
        r@.to_multiset() == db.history@.to_multiset(),
        forall|j1: int, j2: int|
            0 <= j1 < j2 < r@.len() ==> crate::database::hist_before(r@[j1], r@[j2]),
{
    load_full_history(db)
}

/// Counts one kanji and hands back its statistic row.
pub fn increment_kanji_statistic(db: &mut Database, kanji: &str) -> (r: KanjiStatistic)
    requires
        old(db).wf(),
        old(db).statistic@.len() + 2 <= u64::MAX,
    ensures
        final(db).wf(),
        final(db).history == old(db).history,
        final(db).clock == next_clock(old(db).clock),
        has_stat(old(db).statistic@, kanji@) ==> exists|k: int|
            #[trigger] stat_key_at(old(db).statistic@, kanji@, k) && r.id == old(
                db,
            ).statistic@[k].id && r.created_at == old(db).statistic@[k].created_at && r.updated_at
                == old(db).clock && r.kanji@ == kanji@ && r.count == next_count(
                old(db).statistic@[k].count,
            ) && final(db).statistic@ == old(db).statistic@.update(k, r),
        !has_stat(old(db).statistic@, kanji@) ==> r.kanji@ == kanji@ && r.count == 1 && r.id == old(
            db,
        ).statistic@.len() + 1 && r.created_at == old(db).clock && r.updated_at == old(db).clock
            && final(db).statistic@ == old(db).statistic@.push(r),
{
    match increment_statistic_row(db, kanji) {
        Ok(row) => row,
        Err(_) => {
            proof {
                assert(false);
            }
            KanjiStatistic {
                id: 0,
                created_at: 0,
                updated_at: 0,
                kanji: String::new(),
                count: 0,
            }
        },
    }
}

} // verus!
