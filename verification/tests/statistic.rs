use manga_overlay::database::{
    drop_table, increment_kanji_statistic, init_kanji_statistic, load_kanji_statistic,
    load_statistic, Database, DbError,
};

#[test]
fn store_and_load_statistic() {
    let mut db = Database::new();
    drop_table(&mut db, "statistic").unwrap();

    init_kanji_statistic(&mut db, "Test1").unwrap();
    increment_kanji_statistic(&mut db, "Test1").unwrap();

    increment_kanji_statistic(&mut db, "Test2").unwrap();
    increment_kanji_statistic(&mut db, "Test2").unwrap();

    let result = load_statistic(&db);

    assert_eq!(result.len(), 2);

    assert_eq!(result[0].kanji, "Test2");
    assert_eq!(result[0].count, 2);
    assert_eq!(result[1].kanji, "Test1");
    assert_eq!(result[1].count, 1);
}

#[test]
fn test_init_kanji_statistic() {
    let mut db = Database::new();
    drop_table(&mut db, "statistic").unwrap();

    let kanji = "kanji";
    init_kanji_statistic(&mut db, kanji).unwrap();

    let statistic = load_kanji_statistic(&db, kanji).unwrap();
    assert_eq!(statistic.count, 0);

    let statistic = load_kanji_statistic(&db, kanji).unwrap();
    assert_eq!(statistic.count, 0);
}

#[test]
fn test_increment_kanji_statistic() {
    let mut db = Database::new();
    drop_table(&mut db, "statistic").unwrap();

    let kanji = "kanji";

    let statistic = increment_kanji_statistic(&mut db, kanji).unwrap();
    assert_eq!(statistic.count, 1);

    let statistic = increment_kanji_statistic(&mut db, kanji).unwrap();
    assert_eq!(statistic.count, 2);
}

#[test]
fn init_keeps_existing_count() {
    let mut db = Database::new();
    increment_kanji_statistic(&mut db, "漢").unwrap();
    increment_kanji_statistic(&mut db, "漢").unwrap();
    let row = init_kanji_statistic(&mut db, "漢").unwrap();
    assert_eq!(row.count, 2);
    assert_eq!(load_statistic(&db).len(), 1);
}

#[test]
fn load_missing_statistic_is_not_found() {
    let db = Database::new();
    let err = load_kanji_statistic(&db, "absent").unwrap_err();
    assert_eq!(err, DbError::NotFound);
}

#[test]
fn drop_table_ignores_unknown_names() {
    let mut db = Database::new();
    increment_kanji_statistic(&mut db, "字").unwrap();
    drop_table(&mut db, "something_else").unwrap();
    assert_eq!(load_statistic(&db).len(), 1);
    drop_table(&mut db, "statistic").unwrap();
    assert_eq!(load_statistic(&db).len(), 0);
}

#[test]
fn action_increment_returns_row() {
    let mut db = Database::new();
    let row = manga_overlay::actions::increment_kanji_statistic(&mut db, "力");
    assert_eq!(row.kanji, "力");
    assert_eq!(row.count, 1);
}
