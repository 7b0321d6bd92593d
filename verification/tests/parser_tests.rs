use chronicle::parser::{parse_note, extract_links, parse_frontmatter, determine_title, count_words};

#[test]
fn test_parse_note_simple() {
    let content = "# Hello World\n\nThis is a test note.";
    let parsed = parse_note(content, "test.md");

    assert_eq!(parsed.title, "Hello World");
    // Word count includes heading: # Hello World This is a test note.
    assert_eq!(parsed.word_count, 8);
    assert!(parsed.links.is_empty());
}

#[test]
fn test_parse_note_with_frontmatter() {
    let content = "---\ntitle: My Custom Title\ntags:\n  - rust\n  - programming\n---\n\n# Heading\n\nContent here.";

    let parsed = parse_note(content, "test.md");

    assert_eq!(parsed.title, "My Custom Title");
    assert!(parsed.frontmatter.is_some());

    let fm = parsed.frontmatter.unwrap();
    assert_eq!(fm.tags, vec!["rust", "programming"]);
}

#[test]
fn test_parse_note_title_fallback() {
    let content = "Just some text without a heading.";
    let parsed = parse_note(content, "my-note.md");

    assert_eq!(parsed.title, "my-note");
}

#[test]
fn test_extract_links() {
    let content =
        "Link to [[other-note]] and [[another|display text]].\nSecond line with [[third]].";
    let links = extract_links(content);

    assert_eq!(links.len(), 3);

    assert_eq!(links[0].target, "other-note");
    assert!(links[0].display.is_none());
    assert_eq!(links[0].line_number, 1);

    assert_eq!(links[1].target, "another");
    assert_eq!(links[1].display, Some("display text".to_string()));
    assert_eq!(links[1].line_number, 1);

    assert_eq!(links[2].target, "third");
    assert_eq!(links[2].line_number, 2);
}

#[test]
fn test_extract_links_empty() {
    let content = "No links here.";
    let links = extract_links(content);
    assert!(links.is_empty());
}

#[test]
fn test_word_count() {
    assert_eq!(count_words("hello world"), 2);
    assert_eq!(count_words("one two three four five"), 5);
    assert_eq!(count_words(""), 0);
    assert_eq!(count_words("   whitespace   "), 1);
}

#[test]
fn test_frontmatter_parsing() {
    let content = "---\ncreated: 2024-01-01\nmodified: 2024-01-02\n---\nBody";
    let (fm, body_start) = parse_frontmatter(content);

    assert!(fm.is_some());
    let fm = fm.unwrap();
    assert_eq!(fm.created, Some("2024-01-01".to_string()));
    assert_eq!(fm.modified, Some("2024-01-02".to_string()));
    assert!(body_start > 0);
}

#[test]
fn parse_twice_yields_identical_structure() {
    let content = "---\ntitle: T\ntags:\n  - a\n---\n\n# H\n\nBody [[x|y]] text.";
    let a = parse_note(content, "n.md");
    let b = parse_note(content, "n.md");
    assert_eq!(a.title, b.title);
    assert_eq!(a.word_count, b.word_count);
    assert_eq!(a.content, b.content);
    assert_eq!(a.links.len(), b.links.len());
    for i in 0..a.links.len() {
        assert_eq!(a.links[i].target, b.links[i].target);
        assert_eq!(a.links[i].display, b.links[i].display);
        assert_eq!(a.links[i].line_number, b.links[i].line_number);
    }
    let fa = a.frontmatter.unwrap();
    let fb = b.frontmatter.unwrap();
    assert_eq!(fa.title, fb.title);
    assert_eq!(fa.tags, fb.tags);
}

#[test]
fn metadata_title_wins_over_heading() {
    let content = "---\ntitle: From Metadata\n---\n# From Heading\n\nBody.";
    let parsed = parse_note(content, "file.md");
    assert_eq!(parsed.title, "From Metadata");
}

#[test]
fn heading_after_blank_lines_wins() {
    let content = "\n\n   \n# The Heading\n\nBody text.";
    let parsed = parse_note(content, "file.md");
    assert_eq!(parsed.title, "The Heading");
}

#[test]
fn filename_title_when_nothing_else() {
    let parsed = parse_note("plain body only", "some-note.md");
    assert_eq!(parsed.title, "some-note");
    let parsed2 = parse_note("", "bare");
    assert_eq!(parsed2.title, "bare");
}

#[test]
fn empty_target_links_are_discarded() {
    let links = extract_links("A [[   ]] and [[real]]");
    assert_eq!(links.len(), 1);
    assert_eq!(links[0].target, "real");
}

#[test]
fn determine_title_follows_precedence() {
    let t = determine_title(&None, "## sub\n# top\nbody", "f.md");
    assert_eq!(t, "top");
    let t2 = determine_title(&None, "text first\n# later", "f.md");
    assert_eq!(t2, "f");
}

#[test]
fn malformed_metadata_degrades_to_none() {
    let content = "---\nnot yaml at all !!\n---\n# H\n\nBody.";
    let parsed = parse_note(content, "x.md");
    assert!(parsed.frontmatter.is_none());
    // the block is still skipped when resolving the title
    assert_eq!(parsed.title, "H");
}
