use moried::extract::{
    build_entry, extract_metadata, get_first_toplevel_rank1_heading, get_frontmatter_node,
    guess_mime_from_path, metadata_from_blocks, FrontMatter, MdBlock, MARKDOWN_NESTING_LIMIT,
};
use moried::history::CommitTime;

#[test]
fn mime_falls_back_to_octet_stream() {
    assert_eq!(guess_mime_from_path("notes/plan.md"), "text/markdown");
    assert_eq!(guess_mime_from_path("image.png"), "image/png");
    assert_eq!(guess_mime_from_path("README"), "application/octet-stream");
    assert_eq!(guess_mime_from_path("archive.unknownext"), "application/octet-stream");
}

#[test]
fn non_utf8_bytes_give_nothing() {
    let (m, t) = extract_metadata(&[0xff, 0xfe, 0x00, 0x41]);
    assert!(m.is_none());
    assert!(t.is_none());
}

#[test]
fn plain_text_without_signals_gives_nothing() {
    let (m, t) = extract_metadata(b"just a paragraph\n\nand another");
    assert!(m.is_none());
    assert!(t.is_none());
}

#[test]
fn front_matter_and_title_are_extracted() {
    let doc = "---\ntitle: \"Test\"\ntags: [a, b]\n---\n## Sub\n# Main Title\n# Second\n";
    let (m, t) = extract_metadata(doc.as_bytes());
    match m {
        Some(FrontMatter::Yaml(v)) => {
            assert_eq!(v.get("title").and_then(|x| x.as_str()), Some("Test"));
        },
        other => panic!("unexpected front matter: {:?}", other),
    }
    assert_eq!(t.as_deref(), Some("Main Title"));
}

#[test]
fn malformed_front_matter_becomes_error_document() {
    let doc = "---\ntitle: [unclosed\n---\n# T\n";
    let (m, t) = extract_metadata(doc.as_bytes());
    match m {
        Some(FrontMatter::Error(msg)) => assert!(!msg.is_empty()),
        other => panic!("expected an error document, got {:?}", other),
    }
    assert_eq!(t.as_deref(), Some("T"));
}

#[test]
fn toml_block_gives_toml_document() {
    let blocks = vec![MdBlock::Toml("a = 1".to_string()), MdBlock::Heading(1, "H".to_string())];
    assert!(matches!(get_frontmatter_node(&blocks), Some(MdBlock::Toml(_))));
    let (m, t) = metadata_from_blocks(&blocks);
    match m {
        Some(FrontMatter::Toml(v)) => assert_eq!(v.get("a").and_then(|x| x.as_integer()), Some(1)),
        other => panic!("expected a TOML document, got {:?}", other),
    }
    assert_eq!(t.as_deref(), Some("H"));
}

#[test]
fn front_matter_must_be_first_block() {
    let blocks = vec![MdBlock::Other, MdBlock::Yaml("a: 1".to_string())];
    assert!(get_frontmatter_node(&blocks).is_none());
    assert!(get_frontmatter_node(&vec![]).is_none());
    let (m, _) = metadata_from_blocks(&blocks);
    assert!(m.is_none());
}

#[test]
fn title_is_first_rank_one_heading() {
    let blocks = vec![
        MdBlock::Heading(2, "two".to_string()),
        MdBlock::Other,
        MdBlock::Heading(1, "one".to_string()),
        MdBlock::Heading(1, "later".to_string()),
    ];
    assert_eq!(get_first_toplevel_rank1_heading(&blocks).as_deref(), Some("one"));
    assert!(get_first_toplevel_rank1_heading(&vec![MdBlock::Heading(3, "x".to_string())]).is_none());
}

#[test]
fn yaml_block_is_parsed() {
    let blocks = vec![MdBlock::Yaml("author: Someone\n".to_string())];
    match metadata_from_blocks(&blocks).0 {
        Some(FrontMatter::Yaml(v)) => {
            assert_eq!(v.get("author").and_then(|x| x.as_str()), Some("Someone"))
        },
        other => panic!("unexpected: {:?}", other),
    }
}

#[test]
fn entry_carries_size_mime_and_time() {
    let time = CommitTime { seconds: 1_700_000_000, offset_minutes: -300 };
    let content = b"# Hello\nbody\n";
    let e = build_entry(&"dir/a.md".to_string(), time, content);
    assert_eq!(e.path, "dir/a.md");
    assert_eq!(e.size, 13);
    assert_eq!(e.mime_type, "text/markdown");
    assert_eq!(e.time, time);
    assert!(e.metadata.is_none());
    assert_eq!(e.title.as_deref(), Some("Hello"));
}

#[test]
fn toml_front_matter_is_parsed() {
    let doc = "+++\ntitle = \"T\"\n+++\n";
    let (m, t) = extract_metadata(doc.as_bytes());
    match m {
        Some(FrontMatter::Toml(v)) => assert_eq!(v.get("title").and_then(|x| x.as_str()), Some("T")),
        other => panic!("expected a TOML document, got {:?}", other),
    }
    assert!(t.is_none());
}

#[test]
fn malformed_toml_gives_parser_message() {
    let src = "title = [unclosed";
    let (m, _) = metadata_from_blocks(&vec![MdBlock::Toml(src.to_string())]);
    let expected = toml::from_str::<toml::Value>(src).unwrap_err().to_string();
    match m {
        Some(FrontMatter::Error(msg)) => assert_eq!(msg, expected),
        other => panic!("expected an error document, got {:?}", other),
    }
}

#[test]
fn yaml_error_message_is_the_parsers() {
    let src = "key: [unclosed\n";
    let (m, _) = metadata_from_blocks(&vec![MdBlock::Yaml(src.to_string())]);
    let expected = serde_yaml::from_str::<serde_yaml::Value>(src).unwrap_err().to_string();
    match m {
        Some(FrontMatter::Error(msg)) => assert_eq!(msg, expected),
        other => panic!("expected an error document, got {:?}", other),
    }
}

#[test]
fn too_many_openers_skip_the_parser() {
    let mut doc = String::from("---\na: 1\n---\n# Title\n");
    doc.push_str(&"[".repeat(MARKDOWN_NESTING_LIMIT + 1));
    let (m, t) = extract_metadata(doc.as_bytes());
    assert!(m.is_none());
    assert!(t.is_none());
    let mut ok = String::from("# Title\n");
    ok.push_str(&"*a* ".repeat(100));
    assert_eq!(extract_metadata(ok.as_bytes()).1.as_deref(), Some("Title"));
}

#[test]
fn ordinary_long_notes_keep_their_metadata() {
    let mut doc = String::from("---\ntitle: Long\n---\n# Long note\n");
    for k in 0..800 {
        doc.push_str(&format!("A well-known snake_case name, version 2.{} - see below.\n", k));
    }
    let (m, t) = extract_metadata(doc.as_bytes());
    assert!(matches!(m, Some(FrontMatter::Yaml(_))));
    assert_eq!(t.as_deref(), Some("Long note"));
}

#[test]
fn deeply_nested_quotes_skip_the_parser() {
    let mut doc = String::from("# Title\n");
    doc.push_str(&">".repeat(MARKDOWN_NESTING_LIMIT + 1));
    doc.push_str(" deep\n");
    let (m, t) = extract_metadata(doc.as_bytes());
    assert!(m.is_none());
    assert!(t.is_none());
}
