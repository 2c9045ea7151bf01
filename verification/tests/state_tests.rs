use rereader::state::{ProgressDb, ProgressEntry, StateManager};

fn entry(c: usize, s: usize, t: &str, ts: u64) -> ProgressEntry {
    ProgressEntry { chapter_index: c, scroll_offset: s, title: t.to_string(), timestamp: ts }
}

fn fields(e: &ProgressEntry) -> (usize, usize, String, u64) {
    (e.chapter_index, e.scroll_offset, e.title.clone(), e.timestamp)
}

#[test]
fn nothing_saved_at_first() {
    let m = StateManager::new("/tmp/progress.json".to_string(), None);
    assert!(m.load("/books/a.epub").is_none());
    assert_eq!(m.db_path(), "/tmp/progress.json");
    assert!(m.db().entries().is_empty());
}

#[test]
fn load_gives_back_what_was_saved() {
    let mut m = StateManager::new("p".to_string(), None);
    m.save("/books/a.epub", 3, 17, "A Book", 1000);
    assert_eq!(fields(&m.load("/books/a.epub").unwrap()), (3, 17, "A Book".to_string(), 1000));
    assert!(m.load("/books/b.epub").is_none());
}

#[test]
fn saving_again_replaces_and_leaves_others() {
    let mut m = StateManager::new("p".to_string(), None);
    m.save("a", 1, 2, "A", 5);
    m.save("b", 4, 5, "B", 6);
    m.save("a", 7, 8, "A", 9);
    assert_eq!(fields(&m.load("a").unwrap()), (7, 8, "A".to_string(), 9));
    assert_eq!(fields(&m.load("b").unwrap()), (4, 5, "B".to_string(), 6));
    assert_eq!(m.db().entries().len(), 2);
}

#[test]
fn database_from_entries_keeps_the_last_of_each_key() {
    let db = ProgressDb::from_entries(vec![
        ("a".to_string(), entry(1, 1, "x", 1)),
        ("b".to_string(), entry(2, 2, "y", 2)),
        ("a".to_string(), entry(3, 3, "z", 3)),
    ]);
    assert_eq!(db.entries().len(), 2);
    assert_eq!(fields(db.get(&"a".to_string()).unwrap()), (3, 3, "z".to_string(), 3));
    let m = StateManager::new("p".to_string(), Some(db));
    assert_eq!(fields(&m.load("b").unwrap()), (2, 2, "y".to_string(), 2));
}

#[test]
fn progress_entry_copy_is_equal() {
    let e = entry(1, 2, "t", 3);
    assert_eq!(fields(&e.copy()), fields(&e));
}
