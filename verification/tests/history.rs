use manga_overlay::database::{
    drop_table, load_full_history, load_history_data, store_ocr, store_ocr_translation, Database,
    DbError,
};

#[test]
fn store_and_load_history() {
    let mut db = Database::new();
    drop_table(&mut db, "history").unwrap();

    store_ocr(&mut db, "ocr1").unwrap();
    store_ocr(&mut db, "ocr2").unwrap();

    let vec = load_full_history(&db);

    assert_eq!(&vec[0].ocr, "ocr2");
    assert!(&vec[0].translation.is_none());
    assert_eq!(&vec[1].ocr, "ocr1");
    assert!(&vec[1].translation.is_none());

    store_ocr_translation(&mut db, "ocr1", "translation1").unwrap();

    let vec = load_full_history(&db);

    assert_eq!(&vec[0].ocr, "ocr1");
    assert_eq!(&vec[0].translation, &Some("translation1".to_string()));
    assert_eq!(&vec[1].ocr, "ocr2");
    assert!(&vec[1].translation.is_none());
}

#[test]
fn storing_the_same_text_twice_keeps_one_row() {
    let mut db = Database::new();
    store_ocr(&mut db, "line").unwrap();
    store_ocr(&mut db, "line").unwrap();
    assert_eq!(load_full_history(&db).len(), 1);
}

#[test]
fn load_history_data_finds_the_row() {
    let mut db = Database::new();
    store_ocr_translation(&mut db, "text", "meaning").unwrap();
    let row = load_history_data(&db, "text").unwrap();
    assert_eq!(row.ocr, "text");
    assert_eq!(row.translation, Some("meaning".to_string()));
    assert_eq!(load_history_data(&db, "other").unwrap_err(), DbError::NotFound);
}

#[test]
fn action_load_history_matches_full_history() {
    let mut db = Database::new();
    store_ocr(&mut db, "a").unwrap();
    store_ocr(&mut db, "b").unwrap();
    let via_action = manga_overlay::actions::load_history(&db);
    let direct = load_full_history(&db);
    assert_eq!(via_action.len(), direct.len());
    assert_eq!(via_action[0].ocr, direct[0].ocr);
    assert_eq!(via_action[1].ocr, direct[1].ocr);
}
