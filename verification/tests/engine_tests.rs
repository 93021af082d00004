use memo_tori::engine::{FtsRow, LinkRow, NoteRow, Store, TagRow};
use memo_tori::errors::StorageError;

fn strvec(xs: &[&str]) -> Vec<String> {
    xs.iter().map(|s| s.to_string()).collect()
}

fn note_row(id: &str, content: &str, created: u64, updated: u64, deleted: Option<u64>) -> NoteRow {
    NoteRow {
        id: id.to_string(),
        content: content.to_string(),
        created_at: created,
        updated_at: updated,
        deleted_at: deleted,
        pinned: false,
    }
}

fn fts_row(id: &str, content: &str) -> FtsRow {
    FtsRow { note_id: id.to_string(), content: content.to_string() }
}

#[test]
fn round_trip_insert_then_tags() {
    let mut store = Store::new();
    let id = store
        .insert_note("Buy milk", &strvec(&["Home", " home ", "errand"]))
        .expect("insert should succeed");
    assert_eq!(id.len(), 36);
    let tags = store.get_note_tags(&id).expect("read should succeed");
    assert_eq!(tags, strvec(&["errand", "home"]));
}

#[test]
fn replace_tags_normalizes_and_dedupes() {
    let mut store = Store::new();
    let id = store.insert_note("note body", &Vec::new()).unwrap();
    store.replace_note_tags(&id, &strvec(&["A", "a", "A "])).unwrap();
    let tags = store.get_note_tags(&id).unwrap();
    assert_eq!(tags, strvec(&["a"]));
}

#[test]
fn update_refreshes_the_index() {
    let mut store = Store::new();
    let id = store.insert_note("alpha bravo", &Vec::new()).unwrap();
    store.update_note_content(&id, "charlie delta").unwrap();
    let found = store.search_notes("charlie", &Vec::new(), 10).unwrap();
    assert_eq!(found.len(), 1);
    assert_eq!(found[0].id, id);
    let stale = store.search_notes("alpha", &Vec::new(), 10).unwrap();
    assert!(stale.is_empty());
}

#[test]
fn soft_deleted_notes_are_invisible() {
    let store = Store::from_rows(
        vec![
            note_row("gone", "hidden text", 5, 9, Some(12)),
            note_row("here", "visible text", 5, 9, None),
        ],
        Vec::new(),
        Vec::new(),
        vec![fts_row("gone", "hidden text"), fts_row("here", "visible text")],
    )
    .expect("rows satisfy the invariant");
    let all = store.search_notes("", &Vec::new(), 10).unwrap();
    assert_eq!(all.len(), 1);
    assert_eq!(all[0].id, "here");
    let direct = store.search_notes("hidden", &Vec::new(), 10).unwrap();
    assert!(direct.is_empty());
    assert_eq!(store.get_note_content("gone").unwrap(), None);
    assert!(store.get_note_tags("gone").unwrap().is_empty());
}

#[test]
fn tag_filter_requires_every_tag() {
    let mut store = Store::new();
    store.insert_note_with("n1", 10, "first", &strvec(&["a", "b"])).unwrap();
    store.insert_note_with("n2", 11, "second", &strvec(&["a"])).unwrap();
    store.insert_note_with("n3", 12, "third", &strvec(&["b"])).unwrap();
    let hits = store.search_notes("", &strvec(&["a", "b"]), 10).unwrap();
    assert_eq!(hits.len(), 1);
    assert_eq!(hits[0].id, "n1");
}

#[test]
fn results_come_most_recently_updated_first() {
    let mut store = Store::new();
    store.insert_note_with("old", 10, "one", &Vec::new()).unwrap();
    store.insert_note_with("new", 30, "two", &Vec::new()).unwrap();
    store.insert_note_with("mid", 20, "three", &Vec::new()).unwrap();
    let hits = store.search_notes("", &Vec::new(), 10).unwrap();
    let ids: Vec<&str> = hits.iter().map(|h| h.id.as_str()).collect();
    assert_eq!(ids, vec!["new", "mid", "old"]);
}

#[test]
fn empty_prefix_lists_nothing() {
    let mut store = Store::new();
    store.insert_note("something", &strvec(&["alpha", "beta"])).unwrap();
    let names = store.list_tags_prefix("", 10).unwrap();
    assert!(names.is_empty());
    let blank = store.list_tags_prefix("   ", 10).unwrap();
    assert!(blank.is_empty());
}

#[test]
fn failed_write_leaves_every_relation_untouched() {
    // a tag id at the top of the id space exhausts allocation for new names
    let store = Store::from_rows(
        vec![note_row("n1", "text body", 5, 9, None)],
        vec![TagRow { id: u64::MAX, name: "zz".to_string() }],
        vec![LinkRow { note_id: "n1".to_string(), tag_id: u64::MAX }],
        vec![fts_row("n1", "text body")],
    )
    .expect("rows satisfy the invariant");
    let mut store = store;
    let before_search = store.search_notes("", &Vec::new(), 10).unwrap();
    let before_tags = store.get_note_tags("n1").unwrap();
    let before_names = store.list_tags_prefix("z", 10).unwrap();

    let err = store.replace_note_tags("n1", &strvec(&["fresh"])).unwrap_err();
    assert_eq!(err, StorageError::WriteFailed);

    let after_search = store.search_notes("", &Vec::new(), 10).unwrap();
    let after_tags = store.get_note_tags("n1").unwrap();
    let after_names = store.list_tags_prefix("z", 10).unwrap();
    assert_eq!(before_search.len(), after_search.len());
    assert_eq!(before_search[0].id, after_search[0].id);
    assert_eq!(before_search[0].preview, after_search[0].preview);
    assert_eq!(before_tags, after_tags);
    assert_eq!(before_names, after_names);
}

#[test]
fn inserting_a_taken_id_fails_and_changes_nothing() {
    let mut store = Store::new();
    store.insert_note_with("dup", 10, "first", &Vec::new()).unwrap();
    let err = store.insert_note_with("dup", 11, "second", &strvec(&["t"])).unwrap_err();
    assert_eq!(err, StorageError::WriteFailed);
    assert_eq!(store.get_note_content("dup").unwrap(), Some("first".to_string()));
    assert!(store.list_tags_prefix("t", 10).unwrap().is_empty());
}

#[test]
fn search_ranks_by_token_hits_then_recency() {
    let mut store = Store::new();
    store.insert_note_with("twice", 10, "apple pie apple", &Vec::new()).unwrap();
    store.insert_note_with("once", 20, "apple tart", &Vec::new()).unwrap();
    let hits = store.search_notes("apple", &Vec::new(), 10).unwrap();
    let ids: Vec<&str> = hits.iter().map(|h| h.id.as_str()).collect();
    assert_eq!(ids, vec!["twice", "once"]);
}

#[test]
fn search_matches_case_insensitively() {
    let mut store = Store::new();
    let id = store.insert_note("Buy Milk today", &Vec::new()).unwrap();
    let hits = store.search_notes("milk", &Vec::new(), 10).unwrap();
    assert_eq!(hits.len(), 1);
    assert_eq!(hits[0].id, id);
    assert_eq!(hits[0].preview, "Buy Milk today");
}

#[test]
fn search_honors_the_limit() {
    let mut store = Store::new();
    store.insert_note_with("a", 1, "x", &Vec::new()).unwrap();
    store.insert_note_with("b", 2, "x", &Vec::new()).unwrap();
    store.insert_note_with("c", 3, "x", &Vec::new()).unwrap();
    let hits = store.search_notes("", &Vec::new(), 2).unwrap();
    assert_eq!(hits.len(), 2);
    let ids: Vec<&str> = hits.iter().map(|h| h.id.as_str()).collect();
    assert_eq!(ids, vec!["c", "b"]);
    assert!(store.search_notes("", &Vec::new(), 0).unwrap().is_empty());
}

#[test]
fn update_of_unknown_or_deleted_note_is_a_no_op() {
    let mut store = Store::new();
    store.update_note_content("missing", "whatever").unwrap();
    assert_eq!(store.get_note_content("missing").unwrap(), None);

    let mut store = Store::from_rows(
        vec![note_row("gone", "old words", 5, 9, Some(12))],
        Vec::new(),
        Vec::new(),
        vec![fts_row("gone", "old words")],
    )
    .unwrap();
    store.update_note_content("gone", "new words").unwrap();
    assert!(store.search_notes("new", &Vec::new(), 10).unwrap().is_empty());
}

#[test]
fn replace_tags_on_unknown_id_changes_nothing() {
    let mut store = Store::new();
    store.replace_note_tags("missing", &strvec(&["tag"])).unwrap();
    assert!(store.list_tags_prefix("t", 10).unwrap().is_empty());
}

#[test]
fn prefix_listing_filters_sorts_and_limits() {
    let mut store = Store::new();
    store
        .insert_note("body", &strvec(&["apple", "apricot", "banana", "avocado"]))
        .unwrap();
    let a_names = store.list_tags_prefix("a", 10).unwrap();
    assert_eq!(a_names, strvec(&["apple", "apricot", "avocado"]));
    let capped = store.list_tags_prefix("a", 2).unwrap();
    assert_eq!(capped, strvec(&["apple", "apricot"]));
    let upper = store.list_tags_prefix("  A ", 10).unwrap();
    assert_eq!(upper, strvec(&["apple", "apricot", "avocado"]));
    assert!(store.list_tags_prefix("zzz", 10).unwrap().is_empty());
}

#[test]
fn tags_persist_in_the_tag_relation_after_unlinking() {
    let mut store = Store::new();
    let id = store.insert_note("body", &strvec(&["keeper"])).unwrap();
    store.replace_note_tags(&id, &Vec::new()).unwrap();
    assert!(store.get_note_tags(&id).unwrap().is_empty());
    // the tag name itself stays listed, as the relation only grows
    assert_eq!(store.list_tags_prefix("ke", 10).unwrap(), strvec(&["keeper"]));
}

#[test]
fn fresh_ids_differ_between_inserts() {
    let mut store = Store::new();
    let a = store.insert_note("one", &Vec::new()).unwrap();
    let b = store.insert_note("two", &Vec::new()).unwrap();
    assert_ne!(a, b);
}

#[test]
fn from_rows_rejects_broken_states() {
    // duplicate note ids
    assert!(Store::from_rows(
        vec![note_row("x", "a", 1, 1, None), note_row("x", "b", 1, 1, None)],
        Vec::new(),
        Vec::new(),
        vec![fts_row("x", "a"), fts_row("x", "b")],
    )
    .is_none());
    // index out of step with the content
    assert!(Store::from_rows(
        vec![note_row("x", "a", 1, 1, None)],
        Vec::new(),
        Vec::new(),
        vec![fts_row("x", "stale")],
    )
    .is_none());
    // link to a missing tag
    assert!(Store::from_rows(
        vec![note_row("x", "a", 1, 1, None)],
        Vec::new(),
        vec![LinkRow { note_id: "x".to_string(), tag_id: 7 }],
        vec![fts_row("x", "a")],
    )
    .is_none());
}

#[test]
fn error_messages_name_the_failure() {
    assert!(StorageError::InitFailed.message().contains("initialize"));
    assert!(StorageError::ClockError.message().contains("clock"));
    assert!(StorageError::WriteFailed.message().contains("rolled back"));
    assert!(StorageError::QueryFailed.message().contains("query"));
}
