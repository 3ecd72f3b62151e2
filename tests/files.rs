use moried::files::{etag_of, image_cache_key, serves_as_image};

#[test]
fn cache_key_is_hex_sha1() {
    assert_eq!(image_cache_key(b"abc"), "a9993e364706816aba3e25717850c26c9cd0d89d");
    assert_eq!(image_cache_key(b""), "da39a3ee5e6b4b0d3255bfef95601890afd80709");
}

#[test]
fn images_are_recognised_by_extension() {
    assert!(serves_as_image("pics/cat.png"));
    assert!(serves_as_image("photo.jpeg"));
    assert!(!serves_as_image("notes/a.md"));
    assert!(!serves_as_image("Makefile"));
}

#[test]
fn etag_quotes_commit_id() {
    assert_eq!(etag_of(&"0a1b".to_string()), "\"0a1b\"");
    assert_eq!(etag_of(&String::new()), "\"\"");
}
