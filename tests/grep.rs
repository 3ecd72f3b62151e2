use moried::grep::{parse_grep_output, GrepMatch, GrepQuery};

fn triple(m: &GrepMatch) -> (&str, usize, &str) {
    (m.file.as_str(), m.line, m.content.as_str())
}

#[test]
fn reads_matches_and_strips_revision() {
    let out = b"HEAD:test.txt\x002\x00This is a test\nHEAD:dir/n.md\x0010\x00a test here\n";
    let r = parse_grep_output(out, "HEAD");
    assert_eq!(r.len(), 2);
    assert_eq!(triple(&r[0]), ("test.txt", 2, "This is a test"));
    assert_eq!(triple(&r[1]), ("dir/n.md", 10, "a test here"));
}

#[test]
fn skips_malformed_lines() {
    let out = b"HEAD:a\x00x\x00bad number\nno fields\nHEAD:b\x007\n\nHEAD:c\x00+3\x00ok\r\n";
    let r = parse_grep_output(out, "HEAD");
    assert_eq!(r.len(), 1);
    assert_eq!(triple(&r[0]), ("c", 3, "ok"));
}

#[test]
fn keeps_file_without_prefix_and_cuts_content_at_nul() {
    let out = b"other:f\x001\x00left\x00right";
    let r = parse_grep_output(out, "HEAD");
    assert_eq!(r.len(), 1);
    assert_eq!(triple(&r[0]), ("other:f", 1, "left"));
}

#[test]
fn rejects_line_numbers_that_overflow() {
    let out = b"HEAD:f\x0099999999999999999999999\x00x\n";
    assert!(parse_grep_output(out, "HEAD").is_empty());
    assert!(parse_grep_output(b"", "HEAD").is_empty());
}

#[test]
fn invalid_utf8_is_replaced() {
    let out = b"HEAD:f\x005\x00a\xffb\n";
    let r = parse_grep_output(out, "HEAD");
    assert_eq!(r[0].content, "a\u{FFFD}b");
}

#[test]
fn query_holds_pattern() {
    let q = GrepQuery { pattern: "test".to_string() };
    assert_eq!(q.pattern, "test");
}
