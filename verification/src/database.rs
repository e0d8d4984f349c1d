//! In-memory statistic and history stores with the upsert and query semantics
//! the persistence layer relies on. Rows carry logical timestamps drawn from
//! a per-store clock; mirroring the rows to disk is the surrounding
//! application's concern.

use vstd::multiset::Multiset;
use vstd::prelude::*;

verus! {

broadcast use vstd::seq_lib::group_to_multiset_ensures, vstd::string::group_string_axioms;

/// One kanji-statistic row.
#[derive(Clone, Debug, PartialEq)]
pub struct KanjiStatistic {
    pub id: u64,
    pub created_at: u64,
    pub updated_at: u64,
    pub kanji: String,
    pub count: u64,
}

/// One recognition-history row.
#[derive(Clone, Debug, PartialEq)]
pub struct HistoryData {
    pub id: u64,
    pub created_at: u64,
    pub updated_at: u64,
    pub ocr: String,
    pub translation: Option<String>,
}

/// A failed lookup, or a table that cannot take one more row.
#[derive(Clone, Copy, Debug, PartialEq, Eq, Structural)]
pub enum DbError {
    NotFound,
    Full,
}

/// The two tables and their shared logical clock.
pub struct Database {
    pub statistic: Vec<KanjiStatistic>,
    pub history: Vec<HistoryData>,
    pub clock: u64,
}

/// Row `k` of the statistic table carries the key.
pub open spec fn stat_key_at(s: Seq<KanjiStatistic>, kanji: Seq<char>, k: int) -> bool {
    0 <= k < s.len() && s[k].kanji@ == kanji
}

/// The statistic table has a row with the key.
pub open spec fn has_stat(s: Seq<KanjiStatistic>, kanji: Seq<char>) -> bool {
    exists|k: int| stat_key_at(s, kanji, k)
}

/// Row `k` of the history table carries the key.
pub open spec fn hist_key_at(s: Seq<HistoryData>, ocr: Seq<char>, k: int) -> bool {
    0 <= k < s.len() && s[k].ocr@ == ocr
}

/// The history table has a row with the key.
pub open spec fn has_hist(s: Seq<HistoryData>, ocr: Seq<char>) -> bool {
    exists|k: int| hist_key_at(s, ocr, k)
}

/// The clock after one write.
pub open spec fn next_clock(c: u64) -> u64 {
    if c < u64::MAX {
        (c + 1) as u64
    } else {
        c
    }
}

/// A count after one increment.
pub open spec fn next_count(c: u64) -> u64 {
    if c < u64::MAX {
        (c + 1) as u64
    } else {
        c
    }
}

impl Database {
    /// Keys are unique and row ids are consecutive from one.
    pub open spec fn wf(self) -> bool {
        &&& forall|k1: int, k2: int|
            0 <= k1 < k2 < self.statistic@.len() ==> (#[trigger] self.statistic@[k1]).kanji@ != (
            #[trigger] self.statistic@[k2]).kanji@
        &&& forall|k: int|
            0 <= k < self.statistic@.len() ==> (#[trigger] self.statistic@[k]).id == k + 1
        &&& forall|k1: int, k2: int|
            0 <= k1 < k2 < self.history@.len() ==> (#[trigger] self.history@[k1]).ocr@ != (
            #[trigger] self.history@[k2]).ocr@
        &&& forall|k: int| 0 <= k < self.history@.len() ==> (#[trigger] self.history@[k]).id == k + 1
        &&& self.statistic@.len() < u64::MAX
        &&& self.history@.len() < u64::MAX
    }

    /// A fresh, empty pair of tables.
    pub fn new() -> (r: Database)
        ensures
            r.wf(),
            r.statistic@.len() == 0,
            r.history@.len() == 0,
            r.clock == 1,
    {
        Database { statistic: Vec::new(), history: Vec::new(), clock: 1 }
    }

    fn tick(&mut self) -> (r: u64)
        ensures
            r == old(self).clock,
            final(self).clock == next_clock(old(self).clock),
            final(self).statistic == old(self).statistic,
            final(self).history == old(self).history,
    {
        let t = self.clock;
        if self.clock < u64::MAX {
            self.clock = self.clock + 1;
        }
        t
    }
}

fn clone_stat(row: &KanjiStatistic) -> (r: KanjiStatistic)
    ensures
        r == *row,
{
    KanjiStatistic {
        id: row.id,
        created_at: row.created_at,
        updated_at: row.updated_at,
        kanji: row.kanji.clone(),
        count: row.count,
    }
}

fn clone_hist(row: &HistoryData) -> (r: HistoryData)
    ensures
        r == *row,
{
    HistoryData {
        id: row.id,
        created_at: row.created_at,
        updated_at: row.updated_at,
        ocr: row.ocr.clone(),
        translation: match &row.translation {
            Some(t) => Some(t.clone()),
            None => None,
        },
    }
}

/// The first statistic row keyed by `kanji`, if any.
fn find_stat(db: &Database, kanji: &str) -> (r: Option<usize>)
    ensures
        match r {
            Some(k) => stat_key_at(db.statistic@, kanji@, k as int),
            None => !has_stat(db.statistic@, kanji@),
        },
{
    let n: usize = db.statistic.len();
    let mut i: usize = 0;
    while i < n
        invariant
            n == db.statistic@.len(),
            i <= n,
            forall|k: int| 0 <= k < i ==> (#[trigger] db.statistic@[k]).kanji@ != kanji@,
        decreases n - i,
    {
        if crate::strings::str_eq(db.statistic[i].kanji.as_str(), kanji) {
            return Some(i);
        }
        i += 1;
    }
    proof {
        assert forall|k: int| !stat_key_at(db.statistic@, kanji@, k) by {}
    }
    None
}

/// The first history row keyed by `ocr`, if any.
fn find_hist(db: &Database, ocr: &str) -> (r: Option<usize>)
    ensures
        match r {
            Some(k) => hist_key_at(db.history@, ocr@, k as int),
            None => !has_hist(db.history@, ocr@),
        },
{
    let n: usize = db.history.len();
    let mut i: usize = 0;
    while i < n
        invariant
            n == db.history@.len(),
            i <= n,
            forall|k: int| 0 <= k < i ==> (#[trigger] db.history@[k]).ocr@ != ocr@,
        decreases n - i,
    {
        if crate::strings::str_eq(db.history[i].ocr.as_str(), ocr) {
            return Some(i);
        }
        i += 1;
    }
    proof {
        assert forall|k: int| !hist_key_at(db.history@, ocr@, k) by {}
    }
    None
}

/// Empties the named table; any other name is a no-op. The clock is kept.
pub fn drop_table(db: &mut Database, table_name: &str) -> (r: Result<(), DbError>)
    requires
        old(db).wf(),
    ensures
        final(db).wf(),
        r is Ok,
        final(db).clock == old(db).clock,
        table_name@ == "statistic"@ ==> final(db).statistic@.len() == 0 && final(db).history
            == old(db).history,
        table_name@ == "history"@ ==> final(db).history@.len() == 0 && final(db).statistic == old(
            db,
        ).statistic,
        table_name@ != "statistic"@ && table_name@ != "history"@ ==> final(db).statistic == old(
            db,
        ).statistic && final(db).history == old(db).history,
{
    proof {
        reveal_strlit("statistic");
        reveal_strlit("history");
        assert("statistic"@.len() == 9);
        assert("history"@.len() == 7);
        assert("statistic"@ != "history"@);
    }
    if crate::strings::str_eq(table_name, "statistic") {
        db.statistic = Vec::new();
    } else if crate::strings::str_eq(table_name, "history") {
        db.history = Vec::new();
    }
    Ok(())
}

/// The upsert that registers a kanji without counting it: a new row starts at
/// count zero; an existing row is left untouched. Returns the row.
pub fn init_kanji_statistic(db: &mut Database, kanji: &str) -> (r: Result<KanjiStatistic, DbError>)
    requires
        old(db).wf(),
    ensures
        final(db).wf(),
        final(db).history == old(db).history,
        final(db).clock == next_clock(old(db).clock),
        has_stat(old(db).statistic@, kanji@) ==> final(db).statistic == old(db).statistic && (
        r matches Ok(row) && exists|k: int|
            #[trigger] stat_key_at(old(db).statistic@, kanji@, k) && row == old(db).statistic@[k]),
        !has_stat(old(db).statistic@, kanji@) && old(db).statistic@.len() + 2 <= u64::MAX ==> (
        r matches Ok(row) && row.kanji@ == kanji@ && row.count == 0 && row.id == old(
            db,
        ).statistic@.len() + 1 && row.created_at == old(db).clock && row.updated_at == old(
            db,
        ).clock && final(db).statistic@ == old(db).statistic@.push(row)),
        !has_stat(old(db).statistic@, kanji@) && old(db).statistic@.len() + 2 > u64::MAX ==> r
            == Err::<KanjiStatistic, DbError>(DbError::Full) && final(db).statistic == old(
            db,
        ).statistic,
{
    let t = db.tick();
    match find_stat(db, kanji) {
        Some(k) => {
            let row = clone_stat(&db.statistic[k]);
            proof {
                assert(stat_key_at(old(db).statistic@, kanji@, k as int));
                assert(row == old(db).statistic@[k as int]);
            }
            Ok(row)
        },
        None => {
            if db.statistic.len() as u64 >= u64::MAX - 1 {
                return Err(DbError::Full);
            }
            let id = db.statistic.len() as u64 + 1;
            let row = KanjiStatistic {
                id,
                created_at: t,
                updated_at: t,
                kanji: kanji.to_owned(),
                count: 0,
            };
            let copy = clone_stat(&row);
            db.statistic.push(row);
            proof {
                assert forall|k1: int, k2: int|
                    0 <= k1 < k2 < db.statistic@.len() implies (
                #[trigger] db.statistic@[k1]).kanji@ != (#[trigger] db.statistic@[k2]).kanji@ by {
                    if k2 == db.statistic@.len() - 1 {
                        assert(stat_key_at(old(db).statistic@, kanji@, k1) ==> has_stat(
                            old(db).statistic@,
                            kanji@,
                        ));
                    }
                }
            }
            Ok(copy)
        },
    }
}

/// The counting upsert: a new row starts at count one; an existing row's
/// count rises by one and its update time moves to now. Returns the row.
pub fn increment_kanji_statistic(db: &mut Database, kanji: &str) -> (r: Result<
    KanjiStatistic,
    DbError,
>)
    requires
        old(db).wf(),
    ensures
        final(db).wf(),
        final(db).history == old(db).history,
        final(db).clock == next_clock(old(db).clock),
        has_stat(old(db).statistic@, kanji@) ==> (r matches Ok(row) && exists|k: int|
            #[trigger] stat_key_at(old(db).statistic@, kanji@, k) && row.id == old(db).statistic@[k].id
                && row.created_at == old(db).statistic@[k].created_at && row.updated_at == old(
                db,
            ).clock && row.kanji@ == kanji@ && row.count == next_count(old(db).statistic@[k].count)
                && final(db).statistic@ == old(db).statistic@.update(k, row)),
        !has_stat(old(db).statistic@, kanji@) && old(db).statistic@.len() + 2 <= u64::MAX ==> (
        r matches Ok(row) && row.kanji@ == kanji@ && row.count == 1 && row.id == old(
            db,
        ).statistic@.len() + 1 && row.created_at == old(db).clock && row.updated_at == old(
            db,
        ).clock && final(db).statistic@ == old(db).statistic@.push(row)),
        !has_stat(old(db).statistic@, kanji@) && old(db).statistic@.len() + 2 > u64::MAX ==> r
            == Err::<KanjiStatistic, DbError>(DbError::Full) && final(db).statistic == old(
            db,
        ).statistic,
{
    let t = db.tick();
    match find_stat(db, kanji) {
        Some(k) => {
            let old_row = &db.statistic[k];
            let new_count = if old_row.count < u64::MAX {
                old_row.count + 1
            } else {
                old_row.count
            };
            let row = KanjiStatistic {
                id: old_row.id,
                created_at: old_row.created_at,
                updated_at: t,
                kanji: old_row.kanji.clone(),
                count: new_count,
            };
            let copy = clone_stat(&row);
            let ghost rowval = row;
            db.statistic.set(k, row);
            proof {
                assert(stat_key_at(old(db).statistic@, kanji@, k as int));
                assert(final(db).statistic@ == old(db).statistic@.update(k as int, rowval));
                assert(copy == rowval);
                assert forall|t2: int| 0 <= t2 < db.statistic@.len() implies (
                #[trigger] db.statistic@[t2]).kanji@ == old(db).statistic@[t2].kanji@
                    && db.statistic@[t2].id == old(db).statistic@[t2].id by {
                    if t2 != k as int {
                        assert(db.statistic@[t2] == old(db).statistic@[t2]);
                    }
                }
                assert forall|k1: int, k2: int|
                    0 <= k1 < k2 < db.statistic@.len() implies (
                #[trigger] db.statistic@[k1]).kanji@ != (#[trigger] db.statistic@[k2]).kanji@ by {
                    assert(old(db).statistic@[k1].kanji@ != old(db).statistic@[k2].kanji@);
                }
                assert(stat_key_at(old(db).statistic@, kanji@, k as int) && copy.id == old(
                    db,
                ).statistic@[k as int].id && copy.created_at == old(
                    db,
                ).statistic@[k as int].created_at && copy.updated_at == old(db).clock && copy.kanji@
                    == kanji@ && copy.count == next_count(old(db).statistic@[k as int].count)
                    && final(db).statistic@ == old(db).statistic@.update(k as int, copy));
            }
            Ok(copy)
        },
        None => {
            if db.statistic.len() as u64 >= u64::MAX - 1 {
                return Err(DbError::Full);
            }
            let id = db.statistic.len() as u64 + 1;
            let row = KanjiStatistic {
                id,
                created_at: t,
                updated_at: t,
                kanji: kanji.to_owned(),
                count: 1,
            };
            let copy = clone_stat(&row);
            db.statistic.push(row);
            proof {
                assert forall|k1: int, k2: int|
                    0 <= k1 < k2 < db.statistic@.len() implies (
                #[trigger] db.statistic@[k1]).kanji@ != (#[trigger] db.statistic@[k2]).kanji@ by {
                    if k2 == db.statistic@.len() - 1 {
                        assert(stat_key_at(old(db).statistic@, kanji@, k1) ==> has_stat(
                            old(db).statistic@,
                            kanji@,
                        ));
                    }
                }
            }
            Ok(copy)
        },
    }
}

/// The statistic row of one kanji; absent keys are an error.
pub fn load_kanji_statistic(db: &Database, kanji: &str) -> (r: Result<KanjiStatistic, DbError>)
    ensures
        match r {
            Ok(row) => exists|k: int|
                #[trigger] stat_key_at(db.statistic@, kanji@, k) && row == db.statistic@[k],
            Err(e) => !has_stat(db.statistic@, kanji@) && e == DbError::NotFound,
        },
{
    match find_stat(db, kanji) {
        Some(k) => Ok(clone_stat(&db.statistic[k])),
        None => Err(DbError::NotFound),
    }
}

/// Statistic rows ordered by count, highest first; rows of equal count come
/// in no promised order.
pub fn load_statistic(db: &Database) -> (r: Vec<KanjiStatistic>)
    ensures
        r@.to_multiset() == db.statistic@.to_multiset(),
        forall|j1: int, j2: int| 0 <= j1 < j2 < r@.len() ==> r@[j1].count >= r@[j2].count,
{
    let n: usize = db.statistic.len();
    let mut rest: Vec<KanjiStatistic> = Vec::new();
    let mut i: usize = 0;
    while i < n
        invariant
            n == db.statistic@.len(),
            i <= n,
            rest@ == db.statistic@.take(i as int),
        decreases n - i,
    {
        rest.push(clone_stat(&db.statistic[i]));
        proof {
            assert(rest@ =~= db.statistic@.take(i as int + 1));
        }
        i += 1;
    }
    proof {
        assert(db.statistic@.take(n as int) =~= db.statistic@);
    }
    let mut out: Vec<KanjiStatistic> = Vec::new();
    while rest.len() > 0
        invariant
            out@.to_multiset().add(rest@.to_multiset()) =~= db.statistic@.to_multiset(),
            forall|j1: int, j2: int| 0 <= j1 < j2 < out@.len() ==> out@[j1].count >= out@[j2].count,
            forall|j: int, k: int|
                0 <= j < out@.len() && 0 <= k < rest@.len() ==> (#[trigger] out@[j]).count >= (
                #[trigger] rest@[k]).count,
        decreases rest@.len(),
    {
        // Pick the first row of maximal count.
        let m: usize = rest.len();
        let mut mi: usize = 0;
        let mut j: usize = 1;
        while j < m
            invariant
                m == rest@.len(),
                mi < m,
                j <= m,
                forall|k: int| 0 <= k < j ==> rest@[mi as int].count >= (#[trigger] rest@[k]).count,
            decreases m - j,
        {
            if rest[j].count > rest[mi].count {
                mi = j;
            }
            j += 1;
        }
        let ghost pre_rest = rest@;
        let ghost pre_out = out@;
        let row = rest.remove(mi);
        proof {
            assert(row == pre_rest[mi as int]);
            assert(rest@ == pre_rest.remove(mi as int));
            assert(pre_rest.remove(mi as int).to_multiset() =~= pre_rest.to_multiset().remove(
                pre_rest[mi as int],
            ));
        }
        out.push(row);
        proof {
            assert(out@ == pre_out.push(row));
            assert(pre_out.push(row).to_multiset() =~= pre_out.to_multiset().insert(row));
            assert(pre_rest.to_multiset().count(row) > 0) by {
                assert(pre_rest.contains(row));
            }
            assert(out@.to_multiset().add(rest@.to_multiset()) =~= db.statistic@.to_multiset());
            assert forall|j1: int, k: int|
                0 <= j1 < out@.len() && 0 <= k < rest@.len() implies (#[trigger] out@[j1]).count
                >= (#[trigger] rest@[k]).count by {
                if j1 == out@.len() - 1 {
                    if k < mi {
                        assert(pre_rest[k].count <= row.count);
                    } else {
                        assert(rest@[k] == pre_rest[k + 1]);
                    }
                } else {
                    if k < mi {
                        assert(rest@[k] == pre_rest[k]);
                    } else {
                        assert(rest@[k] == pre_rest[k + 1]);
                    }
                }
            }
        }
    }
    proof {
        assert(rest@.to_multiset() =~= Multiset::<KanjiStatistic>::empty());
        assert(out@.to_multiset().add(Multiset::<KanjiStatistic>::empty()) =~= out@.to_multiset());
    }
    out
}

/// Stores one recognized text; a text already stored is left untouched.
pub fn store_ocr(db: &mut Database, ocr: &str) -> (r: Result<(), DbError>)
    requires
        old(db).wf(),
    ensures
        final(db).wf(),
        final(db).statistic == old(db).statistic,
        final(db).clock == next_clock(old(db).clock),
        has_hist(old(db).history@, ocr@) ==> r is Ok && final(db).history == old(db).history,
        !has_hist(old(db).history@, ocr@) && old(db).history@.len() + 2 <= u64::MAX ==> r is Ok
            && final(db).history@.len() == old(db).history@.len() + 1
            && final(db).history@.drop_last() == old(db).history@ && {
            let row = final(db).history@.last();
            row.ocr@ == ocr@ && row.translation is None && row.id == old(db).history@.len() + 1
                && row.created_at == old(db).clock && row.updated_at == old(db).clock
        },
        !has_hist(old(db).history@, ocr@) && old(db).history@.len() + 2 > u64::MAX ==> r == Err::<
            (),
            DbError,
        >(DbError::Full) && final(db).history == old(db).history,
{
    let t = db.tick();
    match find_hist(db, ocr) {
        Some(_) => Ok(()),
        None => {
            if db.history.len() as u64 >= u64::MAX - 1 {
                return Err(DbError::Full);
            }
            let id = db.history.len() as u64 + 1;
            let row = HistoryData {
                id,
                created_at: t,
                updated_at: t,
                ocr: ocr.to_owned(),
                translation: None,
            };
            db.history.push(row);
            proof {
                assert(final(db).history@.drop_last() =~= old(db).history@);
                assert forall|k1: int, k2: int|
                    0 <= k1 < k2 < db.history@.len() implies (#[trigger] db.history@[k1]).ocr@ != (
                #[trigger] db.history@[k2]).ocr@ by {
                    if k2 == db.history@.len() - 1 {
                        assert(hist_key_at(old(db).history@, ocr@, k1) ==> has_hist(
                            old(db).history@,
                            ocr@,
                        ));
                    }
                }
            }
            Ok(())
        },
    }
}

/// Stores one recognized text with its translation; an existing row gets the
/// new translation and update time.
pub fn store_ocr_translation(db: &mut Database, ocr: &str, translation: &str) -> (r: Result<
    (),
    DbError,
>)
    requires
        old(db).wf(),
    ensures
        final(db).wf(),
        final(db).statistic == old(db).statistic,
        final(db).clock == next_clock(old(db).clock),
        has_hist(old(db).history@, ocr@) ==> r is Ok && exists|k: int|
            #[trigger] hist_key_at(old(db).history@, ocr@, k) && {
                let row = final(db).history@[k];
                &&& final(db).history@ == old(db).history@.update(k, row)
                &&& row.id == old(db).history@[k].id
                &&& row.created_at == old(db).history@[k].created_at
                &&& row.updated_at == old(db).clock
                &&& row.ocr@ == ocr@
                &&& row.translation matches Some(tr) && tr@ == translation@
            },
        !has_hist(old(db).history@, ocr@) && old(db).history@.len() + 2 <= u64::MAX ==> r is Ok
            && final(db).history@.len() == old(db).history@.len() + 1
            && final(db).history@.drop_last() == old(db).history@ && {
            let row = final(db).history@.last();
            &&& row.ocr@ == ocr@
            &&& row.translation matches Some(tr) && tr@ == translation@
            &&& row.id == old(db).history@.len() + 1
            &&& row.created_at == old(db).clock
            &&& row.updated_at == old(db).clock
        },
        !has_hist(old(db).history@, ocr@) && old(db).history@.len() + 2 > u64::MAX ==> r == Err::<
            (),
            DbError,
        >(DbError::Full) && final(db).history == old(db).history,
{
    let t = db.tick();
    match find_hist(db, ocr) {
        Some(k) => {
            let old_row = &db.history[k];
            let row = HistoryData {
                id: old_row.id,
                created_at: old_row.created_at,
                updated_at: t,
                ocr: old_row.ocr.clone(),
                translation: Some(translation.to_owned()),
            };
            let ghost rowval = row;
            db.history.set(k, row);
            proof {
                assert(hist_key_at(old(db).history@, ocr@, k as int));
                assert(final(db).history@ == old(db).history@.update(k as int, rowval));
                assert(final(db).history@[k as int] == rowval);
                assert forall|t2: int| 0 <= t2 < db.history@.len() implies (
                #[trigger] db.history@[t2]).ocr@ == old(db).history@[t2].ocr@ && db.history@[t2].id
                    == old(db).history@[t2].id by {
                    if t2 != k as int {
                        assert(db.history@[t2] == old(db).history@[t2]);
                    }
                }
                assert forall|k1: int, k2: int|
                    0 <= k1 < k2 < db.history@.len() implies (#[trigger] db.history@[k1]).ocr@ != (
                #[trigger] db.history@[k2]).ocr@ by {
                    assert(old(db).history@[k1].ocr@ != old(db).history@[k2].ocr@);
                }
            }
            Ok(())
        },
        None => {
            if db.history.len() as u64 >= u64::MAX - 1 {
                return Err(DbError::Full);
            }
            let id = db.history.len() as u64 + 1;
            let row = HistoryData {
                id,
                created_at: t,
                updated_at: t,
                ocr: ocr.to_owned(),
                translation: Some(translation.to_owned()),
            };
            db.history.push(row);
            proof {
                assert(final(db).history@.drop_last() =~= old(db).history@);
                assert forall|k1: int, k2: int|
                    0 <= k1 < k2 < db.history@.len() implies (#[trigger] db.history@[k1]).ocr@ != (
                #[trigger] db.history@[k2]).ocr@ by {
                    if k2 == db.history@.len() - 1 {
                        assert(hist_key_at(old(db).history@, ocr@, k1) ==> has_hist(
                            old(db).history@,
                            ocr@,
                        ));
                    }
                }
            }
            Ok(())
        },
    }
}

/// The history row of one recognized text; absent keys are an error.
pub fn load_history_data(db: &Database, ocr: &str) -> (r: Result<HistoryData, DbError>)
    ensures
        match r {
            Ok(row) => exists|k: int| #[trigger] hist_key_at(db.history@, ocr@, k) && row == db.history@[k],
            Err(e) => !has_hist(db.history@, ocr@) && e == DbError::NotFound,
        },
{
    match find_hist(db, ocr) {
        Some(k) => Ok(clone_hist(&db.history[k])),
        None => Err(DbError::NotFound),
    }
}

/// Whether `a` sorts at or before `b` in history order: later updates first,
/// higher ids first among equal update times.
pub open spec fn hist_before(a: HistoryData, b: HistoryData) -> bool {
    a.updated_at > b.updated_at || (a.updated_at == b.updated_at && a.id >= b.id)
}

/// Every history row, most recently updated first (ties broken by the higher
/// id).
pub fn load_full_history(db: &Database) -> (r: Vec<HistoryData>)
    ensures
        r@.to_multiset() == db.history@.to_multiset(),
        forall|j1: int, j2: int| 0 <= j1 < j2 < r@.len() ==> hist_before(r@[j1], r@[j2]),
{
    let n: usize = db.history.len();
    let mut rest: Vec<HistoryData> = Vec::new();
    let mut i: usize = 0;
    while i < n
        invariant
            n == db.history@.len(),
            i <= n,
            rest@ == db.history@.take(i as int),
        decreases n - i,
    {
        rest.push(clone_hist(&db.history[i]));
        proof {
            assert(rest@ =~= db.history@.take(i as int + 1));
        }
        i += 1;
    }
    proof {
        assert(db.history@.take(n as int) =~= db.history@);
    }
    let mut out: Vec<HistoryData> = Vec::new();
    while rest.len() > 0
        invariant
            out@.to_multiset().add(rest@.to_multiset()) =~= db.history@.to_multiset(),
            forall|j1: int, j2: int| 0 <= j1 < j2 < out@.len() ==> hist_before(out@[j1], out@[j2]),
            forall|j: int, k: int|
                0 <= j < out@.len() && 0 <= k < rest@.len() ==> hist_before(
                    #[trigger] out@[j],
                    #[trigger] rest@[k],
                ),
        decreases rest@.len(),
    {
        let m: usize = rest.len();
        let mut mi: usize = 0;
        let mut j: usize = 1;
        while j < m
            invariant
                m == rest@.len(),
                mi < m,
                j <= m,
                forall|k: int|
                    0 <= k < j ==> hist_before(rest@[mi as int], #[trigger] rest@[k]),
            decreases m - j,
        {
            let better = rest[j].updated_at > rest[mi].updated_at || (rest[j].updated_at
                == rest[mi].updated_at && rest[j].id > rest[mi].id);
            if better {
                mi = j;
            }
            j += 1;
        }
        let ghost pre_rest = rest@;
        let ghost pre_out = out@;
        let row = rest.remove(mi);
        proof {
            assert(row == pre_rest[mi as int]);
            assert(rest@ == pre_rest.remove(mi as int));
            assert(pre_rest.remove(mi as int).to_multiset() =~= pre_rest.to_multiset().remove(
                pre_rest[mi as int],
            ));
        }
        out.push(row);
        proof {
            assert(out@ == pre_out.push(row));
            assert(pre_out.push(row).to_multiset() =~= pre_out.to_multiset().insert(row));
            assert(pre_rest.to_multiset().count(row) > 0) by {
                assert(pre_rest.contains(row));
            }
            assert(out@.to_multiset().add(rest@.to_multiset()) =~= db.history@.to_multiset());
            assert forall|j1: int, k: int|
                0 <= j1 < out@.len() && 0 <= k < rest@.len() implies hist_before(
                #[trigger] out@[j1],
                #[trigger] rest@[k],
            ) by {
                if j1 == out@.len() - 1 {
                    if k < mi {
                        assert(hist_before(row, pre_rest[k]));
                    } else {
                        assert(rest@[k] == pre_rest[k + 1]);
                    }
                } else {
                    if k < mi {
                        assert(rest@[k] == pre_rest[k]);
                    } else {
                        assert(rest@[k] == pre_rest[k + 1]);
                    }
                }
            }
        }
    }
    proof {
        assert(rest@.to_multiset() =~= Multiset::<HistoryData>::empty());
        assert(out@.to_multiset().add(Multiset::<HistoryData>::empty()) =~= out@.to_multiset());
    }
    out
}

} // verus!
