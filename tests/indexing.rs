use moried::delta::{collect_recent_file_ops, FileOp, PathOp};
use moried::full::{resolve_last_touches, FullScan, Resolved};
use moried::history::{CommitTime, DeltaStatus, FileDelta, WalkCommit};
use moried::maintain::{
    choose_strategy, classify, is_ancestor, plan_rebuild, rebuild_entries_cache, plan_update, CacheImage, CacheStatus,
    Plan, Strategy,
};

fn time(seconds: i64) -> CommitTime {
    CommitTime { seconds, offset_minutes: 60 }
}

fn delta(status: DeltaStatus, old_path: &str, new_path: &str, blob_id: &str) -> FileDelta {
    FileDelta {
        status,
        old_path: old_path.to_string(),
        new_path: new_path.to_string(),
        blob_id: blob_id.to_string(),
    }
}

fn added(path: &str, blob_id: &str) -> FileDelta {
    delta(DeltaStatus::Added, path, path, blob_id)
}

fn modified(path: &str, blob_id: &str) -> FileDelta {
    delta(DeltaStatus::Modified, path, path, blob_id)
}

fn deleted(path: &str) -> FileDelta {
    delta(DeltaStatus::Deleted, path, path, "0000")
}

fn commit(id: &str, seconds: i64, deltas: Vec<FileDelta>) -> WalkCommit {
    WalkCommit { id: id.to_string(), time: time(seconds), deltas }
}

fn strings(v: &[&str]) -> Vec<String> {
    v.iter().map(|s| s.to_string()).collect()
}

fn row<'a>(img: &'a CacheImage, path: &str) -> Option<&'a Resolved> {
    img.rows.iter().find(|r| r.path == path)
}

fn op_of<'a>(ops: &'a [PathOp], path: &str) -> Option<&'a FileOp> {
    ops.iter().find(|p| p.path == path).map(|p| &p.op)
}

fn sorted_rows(rows: &[Resolved]) -> Vec<(String, i64, String)> {
    let mut v: Vec<(String, i64, String)> = rows
        .iter()
        .map(|r| (r.path.clone(), r.time.seconds, r.blob_id.clone()))
        .collect();
    v.sort();
    v
}

fn c1() -> WalkCommit {
    commit("c1", 100, vec![added("a.md", "a1"), added("b.md", "b1")])
}

fn c2() -> WalkCommit {
    commit("c2", 200, vec![modified("a.md", "a2"), deleted("b.md")])
}

#[test]
fn first_maintenance_indexes_two_files() {
    let mut img = CacheImage::new();
    let s = img.maintain(
        &"c1".to_string(),
        &strings(&["c1"]),
        &vec![],
        strings(&["a.md", "b.md"]),
        &vec![c1()],
    );
    assert!(matches!(s, Strategy::Rebuild));
    assert_eq!(img.commit.as_deref(), Some("c1"));
    assert_eq!(img.rows.len(), 2);
    assert_eq!(row(&img, "a.md").unwrap().blob_id, "a1");
    assert_eq!(row(&img, "b.md").unwrap().time, time(100));
}

#[test]
fn delta_modifies_and_deletes() {
    let mut img = CacheImage::new();
    img.maintain(&"c1".to_string(), &strings(&["c1"]), &vec![], strings(&["a.md", "b.md"]), &vec![c1()]);
    let s = img.maintain(
        &"c2".to_string(),
        &strings(&["c2", "c1"]),
        &vec![c2()],
        strings(&["a.md"]),
        &vec![c2(), c1()],
    );
    assert!(matches!(s, Strategy::Delta(ref from) if from == "c1"));
    assert_eq!(img.commit.as_deref(), Some("c2"));
    assert_eq!(img.rows.len(), 1);
    let a = row(&img, "a.md").unwrap();
    assert_eq!(a.time, time(200));
    assert_eq!(a.blob_id, "a2");
    assert!(row(&img, "b.md").is_none());
}

#[test]
fn abandoned_branch_takes_full_rebuild() {
    let mut img = CacheImage::new();
    let side = commit("x1", 150, vec![added("stale.md", "s1"), added("a.md", "ax")]);
    img.maintain(&"x1".to_string(), &strings(&["x1"]), &vec![], strings(&["stale.md", "a.md"]), &vec![side]);
    assert_eq!(img.rows.len(), 2);
    let s = img.maintain(
        &"c2".to_string(),
        &strings(&["c2", "c1"]),
        &vec![],
        strings(&["a.md"]),
        &vec![c2(), c1()],
    );
    assert!(matches!(s, Strategy::Rebuild));
    assert_eq!(img.commit.as_deref(), Some("c2"));
    assert_eq!(sorted_rows(&img.rows), vec![("a.md".to_string(), 200, "a2".to_string())]);
}

#[test]
fn second_maintenance_writes_nothing() {
    let mut img = CacheImage::new();
    img.maintain(&"c1".to_string(), &strings(&["c1"]), &vec![], strings(&["a.md", "b.md"]), &vec![c1()]);
    let before = sorted_rows(&img.rows);
    let s = img.maintain(&"c1".to_string(), &strings(&["c1"]), &vec![], strings(&["a.md", "b.md"]), &vec![c1()]);
    assert!(matches!(s, Strategy::Keep));
    assert_eq!(sorted_rows(&img.rows), before);
    assert_eq!(img.commit.as_deref(), Some("c1"));
}

#[test]
fn full_rebuild_equals_incremental_deltas() {
    let c3 = commit("c3", 300, vec![
        delta(DeltaStatus::Renamed, "a.md", "c.md", "a2"),
        added("d.md", "d1"),
    ]);
    let history = vec![c3.clone(), c2(), c1()];
    // Full rebuild at c3.
    let (rows, _) = resolve_last_touches(strings(&["c.md", "d.md"]), &history);
    // Deltas from an empty cache through each commit.
    let mut img = CacheImage::new();
    img.maintain(&"c1".to_string(), &strings(&["c1"]), &vec![], strings(&["a.md", "b.md"]), &vec![c1()]);
    img.maintain(&"c2".to_string(), &strings(&["c2", "c1"]), &vec![c2()], vec![], &vec![]);
    img.maintain(&"c3".to_string(), &strings(&["c3", "c2", "c1"]), &vec![c3], vec![], &vec![]);
    assert_eq!(sorted_rows(&rows), sorted_rows(&img.rows));
    assert_eq!(
        sorted_rows(&rows),
        vec![("c.md".to_string(), 300, "a2".to_string()), ("d.md".to_string(), 300, "d1".to_string())]
    );
}

#[test]
fn maintenance_records_head() {
    let mut img = CacheImage::new();
    img.maintain(&"c1".to_string(), &strings(&["c1"]), &vec![], strings(&["a.md", "b.md"]), &vec![c1()]);
    assert_eq!(img.commit.as_deref(), Some("c1"));
    img.maintain(&"c2".to_string(), &strings(&["c2", "c1"]), &vec![c2()], vec![], &vec![]);
    assert_eq!(img.commit.as_deref(), Some("c2"));
}

#[test]
fn full_walk_stops_once_all_paths_resolved() {
    let newest = commit("c9", 900, vec![modified("a.md", "a9"), modified("b.md", "b9")]);
    let mut history = vec![newest];
    for k in 0..50 {
        history.push(commit(&format!("old{}", k), 100 - k, vec![modified("a.md", "ax")]));
    }
    let (rows, visited) = resolve_last_touches(strings(&["a.md", "b.md"]), &history);
    assert_eq!(visited, 1);
    assert_eq!(sorted_rows(&rows), vec![
        ("a.md".to_string(), 900, "a9".to_string()),
        ("b.md".to_string(), 900, "b9".to_string()),
    ]);
}

#[test]
fn full_walk_visits_until_oldest_needed_commit() {
    let history = vec![
        commit("c3", 300, vec![modified("a.md", "a3")]),
        commit("c2", 200, vec![modified("a.md", "a2")]),
        commit("c1", 100, vec![added("a.md", "a1"), added("b.md", "b1")]),
        commit("c0", 50, vec![added("z.md", "z0")]),
    ];
    let (plan, visited) = rebuild_entries_cache(&"c3".to_string(), strings(&["a.md", "b.md"]), &history);
    assert_eq!(visited, 3);
    let rows = match plan {
        Plan::Rebuild { commit, rows, .. } => {
            assert_eq!(commit, "c3");
            rows
        },
        _ => panic!("expected a rebuild"),
    };
    assert_eq!(sorted_rows(&rows), vec![
        ("a.md".to_string(), 300, "a3".to_string()),
        ("b.md".to_string(), 100, "b1".to_string()),
    ]);
}

#[test]
fn full_walk_of_empty_tree_visits_nothing() {
    let (rows, visited) = resolve_last_touches(vec![], &vec![c2(), c1()]);
    assert_eq!(visited, 0);
    assert!(rows.is_empty());
}

#[test]
fn added_then_deleted_path_is_absent() {
    let range = vec![
        commit("c4", 400, vec![deleted("x.md")]),
        commit("c3", 300, vec![added("x.md", "x1")]),
    ];
    let ops = collect_recent_file_ops(&range);
    assert!(matches!(op_of(&ops, "x.md"), Some(FileOp::Deleted)));
    let mut img = CacheImage::new();
    img.maintain(&"c2".to_string(), &strings(&["c2"]), &vec![], strings(&["a.md"]), &vec![c2()]);
    img.maintain(&"c4".to_string(), &strings(&["c4", "c3", "c2"]), &range, vec![], &vec![]);
    assert!(row(&img, "x.md").is_none());
    assert_eq!(img.rows.len(), 1);
}

#[test]
fn rename_moves_the_row() {
    let mut img = CacheImage::new();
    img.maintain(&"c1".to_string(), &strings(&["c1"]), &vec![], strings(&["a.md", "b.md"]), &vec![c1()]);
    let rename = commit("c5", 500, vec![delta(DeltaStatus::Renamed, "a.md", "z.md", "a1")]);
    img.maintain(&"c5".to_string(), &strings(&["c5", "c1"]), &vec![rename], vec![], &vec![]);
    assert!(row(&img, "a.md").is_none());
    let z = row(&img, "z.md").unwrap();
    assert_eq!(z.time, time(500));
    assert_eq!(z.blob_id, "a1");
    assert_eq!(img.rows.len(), 2);
}

#[test]
fn first_candidate_wins_in_a_range() {
    let range = vec![
        commit("c3", 300, vec![modified("a.md", "a3"), delta(DeltaStatus::Copied, "a.md", "k.md", "a3")]),
        commit("c2", 200, vec![modified("a.md", "a2"), deleted("k.md"), delta(DeltaStatus::Other, "q", "q", "q")]),
    ];
    let ops = collect_recent_file_ops(&range);
    assert_eq!(ops.len(), 2);
    match op_of(&ops, "a.md") {
        Some(FileOp::AddedOrModified(t, b)) => {
            assert_eq!(*t, time(300));
            assert_eq!(b, "a3");
        },
        _ => panic!("a.md should be written"),
    }
    assert!(matches!(op_of(&ops, "k.md"), Some(FileOp::AddedOrModified(_, _))));
    assert!(op_of(&ops, "q").is_none());
}

#[test]
fn empty_range_has_no_ops() {
    assert!(collect_recent_file_ops(&vec![]).is_empty());
}

#[test]
fn classify_compares_with_head() {
    let head = "h".to_string();
    assert!(matches!(classify(&None, &head), CacheStatus::Empty));
    assert!(matches!(classify(&Some("h".to_string()), &head), CacheStatus::Fresh));
    assert!(matches!(classify(&Some("o".to_string()), &head), CacheStatus::Stale(ref l) if l == "o"));
}

#[test]
fn strategy_follows_status_and_ancestry() {
    assert!(matches!(choose_strategy(&CacheStatus::Empty, true), Strategy::Rebuild));
    assert!(matches!(choose_strategy(&CacheStatus::Fresh, false), Strategy::Keep));
    assert!(matches!(choose_strategy(&CacheStatus::Stale("o".to_string()), true), Strategy::Delta(ref f) if f == "o"));
    assert!(matches!(choose_strategy(&CacheStatus::Stale("o".to_string()), false), Strategy::Rebuild));
}

#[test]
fn ancestry_is_membership_in_the_walk() {
    let walk = strings(&["c3", "c2", "c1"]);
    assert!(is_ancestor(&"c1".to_string(), &walk));
    assert!(is_ancestor(&"c3".to_string(), &walk));
    assert!(!is_ancestor(&"x".to_string(), &walk));
    assert!(!is_ancestor(&"c1".to_string(), &vec![]));
}

#[test]
fn stepwise_scan_matches_batch() {
    let mut scan = FullScan::new(strings(&["a.md", "b.md", "a.md"]));
    assert!(!scan.is_complete());
    scan.observe(&c2());
    assert!(!scan.is_complete());
    scan.observe(&c1());
    assert!(scan.is_complete());
    let plan = plan_rebuild(&"c2".to_string(), scan);
    match &plan {
        Plan::Rebuild { commit, rows, .. } => {
            assert_eq!(commit, "c2");
            assert_eq!(sorted_rows(rows), vec![
                ("a.md".to_string(), 200, "a2".to_string()),
                ("b.md".to_string(), 100, "b1".to_string()),
            ]);
        },
        _ => panic!("expected a rebuild"),
    }
    assert!(!plan.is_unchanged());
}

#[test]
fn update_plan_applies_to_image() {
    let mut img = CacheImage::new();
    img.apply(plan_update(&"c1".to_string(), &vec![c1()]));
    assert_eq!(img.rows.len(), 2);
    img.apply(plan_update(&"c2".to_string(), &vec![c2()]));
    assert_eq!(img.commit.as_deref(), Some("c2"));
    assert_eq!(sorted_rows(&img.rows), vec![("a.md".to_string(), 200, "a2".to_string())]);
    img.apply(Plan::Unchanged);
    assert_eq!(img.rows.len(), 1);
}

#[test]
fn repeated_deletion_keeps_path_absent() {
    let range = vec![
        commit("c6", 600, vec![deleted("x.md")]),
        commit("c5", 500, vec![delta(DeltaStatus::Renamed, "x.md", "y.md", "x1")]),
        commit("c4", 400, vec![added("x.md", "x1")]),
    ];
    let ops = collect_recent_file_ops(&range);
    assert!(matches!(op_of(&ops, "x.md"), Some(FileOp::Deleted)));
    match op_of(&ops, "y.md") {
        Some(FileOp::AddedOrModified(t, b)) => {
            assert_eq!(*t, time(500));
            assert_eq!(b, "x1");
        },
        _ => panic!("y.md should be written"),
    }
}
