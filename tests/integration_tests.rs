use moried::extract::{extract_metadata, guess_mime_from_path, metadata_from_blocks, FrontMatter, MdBlock};

#[test]
fn test_mime_type_detection() {
    assert_eq!(guess_mime_from_path("test.txt"), "text/plain");
    assert_eq!(guess_mime_from_path("test.md"), "text/markdown");
    assert_eq!(guess_mime_from_path("test.json"), "application/json");
}

#[test]
fn test_yaml_parsing() {
    let yaml_content = r#"
title: "Test Document"
author: "Test Author"
tags: ["test", "yaml"]
"#;
    let (metadata, _) = metadata_from_blocks(&vec![MdBlock::Yaml(yaml_content.to_string())]);
    assert!(matches!(metadata, Some(FrontMatter::Yaml(_))));
    let doc = match metadata {
        Some(FrontMatter::Yaml(doc)) => doc,
        _ => unreachable!(),
    };
    assert!(doc.get("title").is_some());
    assert!(doc.get("author").is_some());
    assert!(doc.get("tags").is_some());
}

#[test]
fn test_markdown_parsing() {
    let content = r#"---
title: "Test"
---
# Heading 1
## Heading 2
Some content here.
"#;
    let (metadata, title) = extract_metadata(content.as_bytes());
    assert!(metadata.is_some());
    assert_eq!(title.as_deref(), Some("Heading 1"));
}
