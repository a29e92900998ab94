use minka_ledger::db::{current_version, integrity, migrate, read_version, DbError, CHECKS, MIGRATIONS};

#[test]
fn migrates_a_fresh_book_and_is_idempotent() {
    // A fresh book needs every migration, and records the version it ends at.
    assert_eq!(migrate(read_version(None)).unwrap(), 0);
    assert_eq!(current_version(), MIGRATIONS.len() as i64);
    // A book at that version needs none.
    let again = read_version(Some(&current_version().to_string()));
    assert_eq!(again, current_version());
    assert_eq!(migrate(again).unwrap(), MIGRATIONS.len());
}

#[test]
fn a_fresh_book_is_internally_consistent() {
    assert_eq!(CHECKS.len(), 3);
    assert!(integrity(&vec![0, 0, 0]));
    assert!(!integrity(&vec![0, 1, 0]));
}

#[test]
fn refuses_a_book_from_a_newer_build() {
    let newer = current_version() + 5;
    match migrate(read_version(Some(&newer.to_string()))) {
        Err(DbError::FromTheFuture { found, known }) => {
            assert_eq!(found, current_version() + 5);
            assert_eq!(known, current_version());
        }
        other => panic!("expected FromTheFuture, got {other:?}"),
    }
    assert_eq!(
        migrate(newer).unwrap_err().to_text(),
        format!(
            "book is schema version {} but this build only knows {} -- upgrade minka-ledger",
            newer,
            current_version()
        )
    );
}

#[test]
fn an_unreadable_version_is_a_brand_new_book() {
    assert_eq!(read_version(Some("not a number")), 0);
    assert_eq!(read_version(Some("")), 0);
    assert_eq!(read_version(Some("2")), 2);
}
