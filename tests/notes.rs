use moried::notes::NoteSave;

#[test]
fn save_uses_its_own_message() {
    let n = NoteSave::Save { content: "x".to_string(), message: "Update a.md".to_string() };
    assert_eq!(n.commit_message(&"a.md".to_string()), "Update a.md");
}

#[test]
fn rename_names_both_paths() {
    let n = NoteSave::Rename { from: "a.md".to_string() };
    assert_eq!(n.commit_message(&"b.md".to_string()), "Rename a.md to b.md");
}
