use chronicle::store::{Store, StoreError};
use chronicle::links::LinkInput;

#[test]
fn test_upsert_and_get_note() {
    let mut store = Store::new();

    let id = store
        .upsert_note(
            "test.md",
            "Test Note",
            Some("2024-01-01T00:00:00Z"),
            Some("2024-01-01T00:00:00Z"),
            "abc123",
            100,
        )
        .unwrap();

    assert!(id > 0);

    let note = store.get_note_by_path("test.md").unwrap();
    assert_eq!(note.title, "Test Note");
    assert_eq!(note.word_count, 100);
}

#[test]
fn test_list_notes() {
    let mut store = Store::new();

    store.upsert_note("a.md", "Note A", None, None, "a", 10).unwrap();
    store.upsert_note("b.md", "Note B", None, None, "b", 20).unwrap();

    let notes = store.list_notes();
    assert_eq!(notes.len(), 2);
}

#[test]
fn test_delete_note() {
    let mut store = Store::new();

    store.upsert_note("test.md", "Test", None, None, "x", 0).unwrap();
    assert!(store.get_note_by_path("test.md").is_some());

    store.delete_note("test.md");
    assert!(store.get_note_by_path("test.md").is_none());
}

#[test]
fn test_replace_links() {
    let mut store = Store::new();

    let id = store.upsert_note("source.md", "Source", None, None, "x", 0).unwrap();

    let links = vec![
        LinkInput { target: "target1".to_string(), display: None, line: Some(5) },
        LinkInput {
            target: "target2".to_string(),
            display: Some("display".to_string()),
            line: Some(10),
        },
    ];

    store.replace_links(id, &links).unwrap();

    let outlinks = store.get_outlinks(id);
    assert_eq!(outlinks.len(), 2);
}

#[test]
fn test_update_and_search_fts() {
    let mut store = Store::new();

    let id = store.upsert_note("test.md", "Hello World", None, None, "x", 10).unwrap();
    store.update_fts(id, "Hello World", "This is a test note about Rust programming.");

    let results = store.search_notes("rust", 10);
    assert_eq!(results.len(), 1);
    assert_eq!(results[0].title, "Hello World");
}

#[test]
fn test_empty_search() {
    let store = Store::new();

    let results = store.search_notes("", 10);
    assert!(results.is_empty());
}

#[test]
fn test_set_and_get_tags() {
    let mut store = Store::new();

    let note_id = store.upsert_note("test.md", "Test", None, None, "x", 0).unwrap();

    store
        .set_note_tags(note_id, &vec!["rust".to_string(), "programming".to_string()])
        .unwrap();

    let tags = store.get_note_tags(note_id);
    assert_eq!(tags.len(), 2);
    assert!(tags.contains(&"rust".to_string()));
    assert!(tags.contains(&"programming".to_string()));
}

#[test]
fn test_list_tags() {
    let mut store = Store::new();

    let note1 = store.upsert_note("a.md", "A", None, None, "x", 0).unwrap();
    let note2 = store.upsert_note("b.md", "B", None, None, "x", 0).unwrap();

    store.set_note_tags(note1, &vec!["rust".to_string()]).unwrap();
    store.set_note_tags(note2, &vec!["rust".to_string(), "go".to_string()]).unwrap();

    let tags = store.list_tags();
    assert_eq!(tags.len(), 2);

    let rust_tag = tags.iter().find(|t| t.name == "rust").unwrap();
    assert_eq!(rust_tag.count, 2);
}

#[test]
fn test_case_insensitive_tags() {
    let mut store = Store::new();

    let id1 = store.get_or_create_tag("Rust").unwrap();
    let id2 = store.get_or_create_tag("rust").unwrap();
    let id3 = store.get_or_create_tag("RUST").unwrap();

    assert_eq!(id1, id2);
    assert_eq!(id2, id3);
}

#[test]
fn first_seen_tag_casing_is_canonical() {
    let mut store = Store::new();
    let nid = store.upsert_note("n.md", "N", None, None, "h", 1).unwrap();
    store.set_note_tags(nid, &vec!["Rust".to_string(), "rust".to_string()]).unwrap();
    let tags = store.get_note_tags(nid);
    assert_eq!(tags, vec!["Rust".to_string()]);
}

#[test]
fn upsert_preserves_identifier_and_creation_time() {
    let mut store = Store::new();
    let id1 = store
        .upsert_note("n.md", "First", Some("2024-01-01T00:00:00Z"), Some("2024-01-01T00:00:00Z"), "h1", 1)
        .unwrap();
    let id2 = store
        .upsert_note("n.md", "Second", Some("2025-06-06T00:00:00Z"), Some("2025-06-06T00:00:00Z"), "h2", 2)
        .unwrap();
    assert_eq!(id1, id2);
    let note = store.get_note_by_path("n.md").unwrap();
    assert_eq!(note.title, "Second");
    assert_eq!(note.created_at, Some("2024-01-01T00:00:00Z".to_string()));
    assert_eq!(note.modified_at, Some("2025-06-06T00:00:00Z".to_string()));
    assert_eq!(store.list_notes().len(), 1);
}

#[test]
fn link_resolution_is_case_insensitive_on_paths() {
    let mut store = Store::new();
    let target_id = store.upsert_note("Other.md", "Other", None, None, "h", 1).unwrap();
    let src_id = store.upsert_note("src.md", "Src", None, None, "h", 1).unwrap();
    let links = vec![LinkInput { target: "other".to_string(), display: None, line: Some(1) }];
    store.replace_links(src_id, &links).unwrap();
    let out = store.get_outlinks(src_id);
    assert_eq!(out.len(), 1);
    assert_eq!(out[0].target_id, Some(target_id));
}

#[test]
fn duplicate_links_on_one_line_collapse() {
    let mut store = Store::new();
    let src_id = store.upsert_note("s.md", "S", None, None, "h", 1).unwrap();
    let links = vec![
        LinkInput { target: "x".to_string(), display: None, line: Some(3) },
        LinkInput { target: "x".to_string(), display: Some("again".to_string()), line: Some(3) },
        LinkInput { target: "x".to_string(), display: None, line: Some(4) },
    ];
    store.replace_links(src_id, &links).unwrap();
    assert_eq!(store.get_outlinks(src_id).len(), 2);
}

#[test]
fn backlinks_match_syntactically_and_order_by_modified() {
    let mut store = Store::new();
    store
        .upsert_note("old.md", "Old", None, Some("2024-01-01T00:00:00Z"), "h", 1)
        .unwrap();
    let a = store
        .upsert_note("a.md", "A", None, Some("2024-02-02T00:00:00Z"), "h", 1)
        .unwrap();
    let b = store
        .upsert_note("b.md", "B", None, Some("2024-03-03T00:00:00Z"), "h", 1)
        .unwrap();
    store
        .replace_links(a, &vec![LinkInput { target: "old".to_string(), display: None, line: Some(1) }])
        .unwrap();
    store
        .replace_links(b, &vec![LinkInput { target: "Old".to_string(), display: None, line: Some(2) }])
        .unwrap();
    let backs = store.get_backlinks("old.md");
    assert_eq!(backs.len(), 2);
    // most recently modified linking note first
    assert_eq!(backs[0].source_path, "b.md");
    assert_eq!(backs[1].source_path, "a.md");
}

#[test]
fn search_ranks_more_occurrences_better() {
    let mut store = Store::new();
    let a = store.upsert_note("a.md", "A", None, None, "h", 1).unwrap();
    let b = store.upsert_note("b.md", "B", None, None, "h", 1).unwrap();
    store.update_fts(a, "A", "pelican");
    store.update_fts(b, "B", "pelican pelican pelican");
    let results = store.search_notes("pelican", 10);
    assert_eq!(results.len(), 2);
    assert_eq!(results[0].path, "b.md");
    assert_eq!(results[0].match_count, 3);
    assert_eq!(results[1].match_count, 1);
    assert!(results[0].rank < results[1].rank);
}

#[test]
fn search_is_case_insensitive_and_caps_at_limit() {
    let mut store = Store::new();
    for i in 0..5 {
        let p = format!("n{}.md", i);
        let id = store.upsert_note(&p, "T", None, None, "h", 1).unwrap();
        store.update_fts(id, "T", "Apple pie");
    }
    let results = store.search_notes("APPLE", 3);
    assert_eq!(results.len(), 3);
    let none = store.search_notes("orange", 10);
    assert!(none.is_empty());
}

#[test]
fn match_count_is_non_overlapping() {
    let mut store = Store::new();
    let id = store.upsert_note("o.md", "O", None, None, "h", 1).unwrap();
    store.update_fts(id, "O", "aaa");
    let results = store.search_notes("aa", 10);
    assert_eq!(results.len(), 1);
    assert_eq!(results[0].match_count, 1);
}

#[test]
fn search_snippet_highlights_match() {
    let mut store = Store::new();
    let id = store.upsert_note("s.md", "S", None, None, "h", 1).unwrap();
    store.update_fts(id, "S", "before the needle after");
    let results = store.search_notes("needle", 10);
    assert_eq!(results.len(), 1);
    assert_eq!(results[0].snippet, "before the <mark>needle</mark> after");
}

#[test]
fn rename_keeps_identifier_and_links() {
    let mut store = Store::new();
    let t = store.upsert_note("target.md", "T", None, None, "h", 1).unwrap();
    let s = store.upsert_note("src.md", "S", None, Some("2024-01-01T00:00:00Z"), "h", 1).unwrap();
    store
        .replace_links(s, &vec![LinkInput { target: "target".to_string(), display: None, line: Some(1) }])
        .unwrap();
    let renamed = store.rename_note("target.md", "moved.md").unwrap();
    assert!(renamed);
    let note = store.get_note_by_path("moved.md").unwrap();
    assert_eq!(note.id, t);
    // the raw reference still names the old path: the backlink query by
    // the old path still finds it, the new path finds nothing
    assert_eq!(store.get_backlinks("target.md").len(), 1);
    assert_eq!(store.get_backlinks("moved.md").len(), 0);
    // the stale resolution is still in place until src.md is re-indexed
    let out = store.get_outlinks(s);
    assert_eq!(out[0].target_id, Some(t));
    assert_eq!(out[0].target_path, "target");
}

#[test]
fn delete_cascades_and_clears_resolutions() {
    let mut store = Store::new();
    let t = store.upsert_note("t.md", "T", None, None, "h", 1).unwrap();
    let s = store.upsert_note("s.md", "S", None, None, "h", 1).unwrap();
    store
        .replace_links(s, &vec![LinkInput { target: "t".to_string(), display: None, line: Some(1) }])
        .unwrap();
    store
        .replace_links(t, &vec![LinkInput { target: "s".to_string(), display: None, line: Some(1) }])
        .unwrap();
    store.set_note_tags(t, &vec!["tag".to_string()]).unwrap();
    let deleted = store.delete_note("t.md");
    assert!(deleted);
    // the deleted note's own links and tag associations are gone
    assert_eq!(store.get_outlinks(t).len(), 0);
    assert_eq!(store.get_note_tags(t).len(), 0);
    // the other note's link survives with its resolution cleared
    let out = store.get_outlinks(s);
    assert_eq!(out.len(), 1);
    assert_eq!(out[0].target_path, "t");
    assert_eq!(out[0].target_id, None);
    // removing an already absent path is not an error
    assert!(!store.delete_note("t.md"));
}

#[test]
fn rename_to_taken_path_is_refused() {
    let mut store = Store::new();
    store.upsert_note("a.md", "A", None, None, "h", 1).unwrap();
    store.upsert_note("b.md", "B", None, None, "h", 1).unwrap();
    let r = store.rename_note("a.md", "b.md");
    assert!(matches!(r, Err(StoreError::DuplicatePath)));
    assert!(store.get_note_by_path("a.md").is_some());
}

#[test]
fn exhausted_identifiers_are_refused() {
    let mut store = Store::new();
    store.next_note_id = i64::MAX;
    let r = store.upsert_note("n.md", "N", None, None, "h", 1);
    assert!(matches!(r, Err(StoreError::IdsExhausted)));

    let mut store2 = Store::new();
    let id = store2.upsert_note("n.md", "N", None, None, "h", 1).unwrap();
    store2.next_link_id = i64::MAX;
    let links = vec![LinkInput { target: "x".to_string(), display: None, line: None }];
    let r2 = store2.replace_links(id, &links);
    assert!(matches!(r2, Err(StoreError::IdsExhausted)));
}

#[test]
fn writes_for_missing_notes_are_refused() {
    let mut store = Store::new();
    let links = vec![LinkInput { target: "x".to_string(), display: None, line: None }];
    assert!(matches!(store.replace_links(99, &links), Err(StoreError::MissingRow)));
    assert!(matches!(
        store.set_note_tags(99, &vec!["t".to_string()]),
        Err(StoreError::MissingRow)
    ));
}

#[test]
fn tags_by_name_and_notes_by_tag() {
    let mut store = Store::new();
    let a = store.upsert_note("a.md", "A", None, None, "h", 1).unwrap();
    let b = store.upsert_note("b.md", "B", None, None, "h", 1).unwrap();
    store.set_note_tags(a, &vec!["Shared".to_string()]).unwrap();
    store.set_note_tags(b, &vec!["shared".to_string()]).unwrap();
    let notes = store.get_notes_by_tag("SHARED");
    assert_eq!(notes, vec![a, b]);
    assert!(store.get_notes_by_tag("absent").is_empty());
}
