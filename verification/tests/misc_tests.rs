use chronicle::search::escape_fts_query;
use chronicle::fingerprint::hash_content;
use chronicle::timefmt::format_timestamp;
use chronicle::util::{sanitize_filename, new_note_content};
use chronicle::watcher::{is_markdown_path, is_hidden_path, classify_event, FsChangeKind, VaultEvent};
use chronicle::indexer::{Indexer, IndexError, NoteFile};
use chronicle::store::Store;
use chronicle::error::ChronicleError;

#[test]
fn test_escape_fts_query() {
    assert_eq!(escape_fts_query("hello"), "\"hello\"");
    assert_eq!(escape_fts_query("hello world"), "\"hello world\"");
    assert_eq!(escape_fts_query(""), "");
}

#[test]
fn escape_doubles_internal_quotes() {
    assert_eq!(escape_fts_query("say \"hi\""), "\"say \"\"hi\"\"\"");
    assert_eq!(escape_fts_query("   \t  "), "");
}

#[test]
fn test_is_markdown_file() {
    assert!(is_markdown_path("note.md"));
    assert!(is_markdown_path("note.MD"));
    assert!(!is_markdown_path("note.txt"));
    assert!(!is_markdown_path("note"));
}

#[test]
fn test_is_hidden() {
    let vault = "/vault";

    assert!(is_hidden_path("/vault/.hidden/note.md", vault));
    assert!(is_hidden_path("/vault/.git/config", vault));
    assert!(!is_hidden_path("/vault/note.md", vault));
    assert!(!is_hidden_path("/vault/subdir/note.md", vault));
}

#[test]
fn hidden_test_respects_the_root_component_boundary() {
    // a different directory that merely shares the root's spelling is
    // not under the vault
    assert!(!is_hidden_path("/vaultx/.git/a.md", "/vault"));
    assert!(is_hidden_path("/vault/.git/a.md", "/vault/"));
}

#[test]
fn fingerprint_is_deterministic_and_content_sensitive() {
    let a = hash_content("alpha beta");
    let b = hash_content("alpha beta");
    let c = hash_content("alpha betA");
    assert_eq!(a, b);
    assert_ne!(a, c);
    assert!(!a.is_empty());
    assert!(a.chars().all(|ch| ch.is_ascii_hexdigit()));
}

#[test]
fn timestamps_render_as_iso8601() {
    assert_eq!(format_timestamp(0), "1970-01-01T00:00:00Z");
    assert_eq!(format_timestamp(86400), "1970-01-02T00:00:00Z");
    assert_eq!(format_timestamp(3661), "1970-01-01T01:01:01Z");
    // a known date: 2024-01-01T00:00:00Z
    assert_eq!(format_timestamp(1704067200), "2024-01-01T00:00:00Z");
}

#[test]
fn sanitize_makes_safe_lowercase_names() {
    assert_eq!(sanitize_filename("Hello World!"), "hello-world-");
    assert_eq!(sanitize_filename("  My Note  "), "my-note");
    assert_eq!(sanitize_filename("a/b\\c"), "a-b-c");
}

#[test]
fn new_note_starts_with_its_title_heading() {
    assert_eq!(new_note_content("My Title"), "# My Title\n\n");
}

#[test]
fn classify_filters_and_maps_events() {
    let paths = vec![
        "/v/a.md".to_string(),
        "/v/.hidden/b.md".to_string(),
        "/v/c.txt".to_string(),
        "/v/d.md".to_string(),
    ];
    let evs = classify_event(FsChangeKind::CreateFile, &paths, "/v");
    assert_eq!(evs.len(), 2);
    assert!(matches!(&evs[0], VaultEvent::Created(p) if p == "/v/a.md"));
    assert!(matches!(&evs[1], VaultEvent::Created(p) if p == "/v/d.md"));

    let evs = classify_event(FsChangeKind::RenameBoth, &paths, "/v");
    assert_eq!(evs.len(), 1);
    assert!(matches!(&evs[0], VaultEvent::Renamed { from, to } if from == "/v/a.md" && to == "/v/d.md"));

    let evs = classify_event(FsChangeKind::RemoveFile, &vec!["/v/x.md".to_string()], "/v");
    assert!(matches!(&evs[0], VaultEvent::Deleted(p) if p == "/v/x.md"));

    assert!(classify_event(FsChangeKind::Other, &paths, "/v").is_empty());
}

fn vault_files() -> Vec<NoteFile> {
    vec![
        NoteFile {
            rel_path: "note1.md".to_string(),
            filename: "note1.md".to_string(),
            content: "# Note One\n\nContent.".to_string(),
            created: None,
            modified: None,
        },
        NoteFile {
            rel_path: "note2.md".to_string(),
            filename: "note2.md".to_string(),
            content: "---\ntitle: Note Two\ntags:\n  - test\n---\n\nLinks to [[note1]].".to_string(),
            created: None,
            modified: None,
        },
        NoteFile {
            rel_path: "subdir/nested.md".to_string(),
            filename: "nested.md".to_string(),
            content: "# Nested\n\nDeep note.".to_string(),
            created: None,
            modified: None,
        },
    ]
}

#[test]
fn test_full_index() {
    let mut store = Store::new();
    let indexer = Indexer::new("/vault".to_string(), true).unwrap();

    let count = indexer.index_all(&mut store, &vault_files());

    assert_eq!(count, 3);

    let notes = store.list_notes();
    assert_eq!(notes.len(), 3);
}

#[test]
fn full_index_twice_upserts_not_duplicates() {
    let mut store = Store::new();
    let indexer = Indexer::new("/vault".to_string(), true).unwrap();
    let first = indexer.index_all(&mut store, &vault_files());
    let second = indexer.index_all(&mut store, &vault_files());
    assert_eq!(first, 3);
    assert_eq!(second, 3);
    assert_eq!(store.list_notes().len(), 3);
}

#[test]
fn test_index_extracts_links() {
    let mut store = Store::new();
    let indexer = Indexer::new("/vault".to_string(), true).unwrap();
    indexer.index_all(&mut store, &vault_files());

    let note2 = store.get_note_by_path("note2.md").unwrap();
    let links = store.get_outlinks(note2.id);

    assert_eq!(links.len(), 1);
    assert_eq!(links[0].target_path, "note1");
}

#[test]
fn test_index_extracts_tags() {
    let mut store = Store::new();
    let indexer = Indexer::new("/vault".to_string(), true).unwrap();
    indexer.index_all(&mut store, &vault_files());

    let note2 = store.get_note_by_path("note2.md").unwrap();
    let tags = store.get_note_tags(note2.id);

    assert_eq!(tags, vec!["test"]);
}

#[test]
fn test_remove_file() {
    let mut store = Store::new();
    let indexer = Indexer::new("/vault".to_string(), true).unwrap();
    indexer.index_all(&mut store, &vault_files());

    assert!(store.get_note_by_path("note1.md").is_some());

    let removed = indexer.remove_note(&mut store, "note1.md");
    assert!(removed);

    assert!(store.get_note_by_path("note1.md").is_none());
}

#[test]
fn removed_note_vanishes_from_search() {
    let mut store = Store::new();
    let indexer = Indexer::new("/vault".to_string(), true).unwrap();
    indexer
        .index_note(&mut store, "u.md", "u.md", "# U\n\nzyzzyva appears here.", None, None)
        .unwrap();
    assert_eq!(store.search_notes("zyzzyva", 10).len(), 1);
    indexer.remove_note(&mut store, "u.md");
    assert!(store.search_notes("zyzzyva", 10).is_empty());
}

#[test]
fn indexing_resolves_only_the_written_note() {
    let mut store = Store::new();
    let indexer = Indexer::new("/vault".to_string(), true).unwrap();
    // a.md links to b before b exists: unresolved
    let a = indexer
        .index_note(&mut store, "a.md", "a.md", "See [[b]].", None, None)
        .unwrap();
    assert_eq!(store.get_outlinks(a)[0].target_id, None);
    // indexing b.md later does not re-resolve a.md's link
    let b = indexer
        .index_note(&mut store, "b.md", "b.md", "See [[a]].", None, None)
        .unwrap();
    assert_eq!(store.get_outlinks(a)[0].target_id, None);
    // b's own fresh link resolves at once
    assert_eq!(store.get_outlinks(b)[0].target_id, Some(a));
    // re-indexing a.md finally resolves it
    indexer
        .index_note(&mut store, "a.md", "a.md", "See [[b]].", None, None)
        .unwrap();
    assert_eq!(store.get_outlinks(a)[0].target_id, Some(b));
}

#[test]
fn missing_vault_is_refused() {
    let r = Indexer::new("/nowhere".to_string(), false);
    assert!(matches!(r, Err(IndexError::VaultNotFound(_))));
}

#[test]
fn index_failure_leaves_store_unchanged() {
    let mut store = Store::new();
    store.next_link_id = i64::MAX;
    let indexer = Indexer::new("/vault".to_string(), true).unwrap();
    let r = indexer.index_note(&mut store, "x.md", "x.md", "Link [[y]].", None, None);
    assert!(matches!(r, Err(IndexError::Storage(_))));
    assert!(store.get_note_by_path("x.md").is_none());
    assert!(store.search_notes("Link", 10).is_empty());
}

#[test]
fn graph_lists_nodes_and_resolvable_edges() {
    let mut store = Store::new();
    let indexer = Indexer::new("/vault".to_string(), true).unwrap();
    indexer
        .index_note(&mut store, "a.md", "a.md", "To [[b]] and [[ghost]].", None, None)
        .unwrap();
    indexer
        .index_note(&mut store, "b.md", "b.md", "Plain.", None, None)
        .unwrap();
    let g = store.get_graph_data();
    assert_eq!(g.nodes.len(), 2);
    assert_eq!(g.edges.len(), 1);
    assert_eq!(g.edges[0].source, "a.md");
    assert_eq!(g.edges[0].target, "b");
}

#[test]
fn markdown_paths_need_a_stem_and_extension() {
    assert!(!is_markdown_path(".md"));
    assert!(!is_markdown_path("dir/.md"));
    assert!(is_markdown_path("dir/.hidden/x.Md"));
    assert!(!is_markdown_path(""));
}

#[test]
fn timestamps_cover_leap_days() {
    assert_eq!(format_timestamp(951696000), "2000-02-28T00:00:00Z");
    assert_eq!(format_timestamp(951782400), "2000-02-29T00:00:00Z");
    assert_eq!(format_timestamp(951868800), "2000-03-01T00:00:00Z");
    // the last day of a leap year is still December
    assert_eq!(format_timestamp(1735603200), "2024-12-31T00:00:00Z");
    // a date after February in a leap year lands on its civil day
    assert_eq!(format_timestamp(1717200000), "2024-06-01T00:00:00Z");
}

#[test]
fn empty_text_indexes_cleanly() {
    let mut store = Store::new();
    let indexer = Indexer::new("/v".to_string(), true).unwrap();
    let id = indexer.index_note(&mut store, "e.md", "e.md", "", None, None).unwrap();
    let meta = store.get_note_by_path("e.md").unwrap();
    assert_eq!(meta.id, id);
    assert_eq!(meta.title, "e");
    assert_eq!(meta.word_count, 0);
    assert!(store.get_outlinks(id).is_empty());
}

#[test]
fn get_note_joins_metadata_tags_and_text() {
    let mut store = Store::new();
    let indexer = Indexer::new("/v".to_string(), true).unwrap();
    let content = "---\ntitle: Joined\ntags:\n  - b\n  - a\n---\n\nBody.";
    indexer.index_note(&mut store, "j.md", "j.md", content, None, None).unwrap();
    let note = store.get_note("j.md", content).unwrap();
    assert_eq!(note.title, "Joined");
    assert_eq!(note.content, content);
    assert_eq!(note.tags, vec!["a".to_string(), "b".to_string()]);
    let missing = store.get_note("absent.md", "");
    assert!(matches!(missing, Err(ChronicleError::NoteNotFound(_))));
}

#[test]
fn error_messages_name_their_kind() {
    let e = ChronicleError::NoteNotFound("x.md".to_string());
    assert_eq!(e.message(), "Note not found: x.md");
    assert_eq!(ChronicleError::NoVaultOpen.message(), "No vault is open");
}
