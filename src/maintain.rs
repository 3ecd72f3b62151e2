//! The index maintainer: which strategy a cycle takes, the plan of writes it
//! makes, and an in-memory cache image that such plans are applied to.
use vstd::prelude::*;
use crate::history::{CommitTime, WalkCommit, Stamp, walk_cands, apply_ops};
use crate::delta::{PathOp, FileOp, ops_represent, walk_ops, collect_recent_file_ops};
use crate::full::{Resolved, FullScan, resolved_represent, full_result, string_set, all_resolved,
    resolve_last_touches};

verus! {

/// How the cached state relates to the current head.
#[derive(Clone, Debug)]
pub enum CacheStatus {
    /// Never indexed.
    Empty,
    /// Indexed at the head.
    Fresh,
    /// Indexed at another commit.
    Stale(String),
}

/// The strategy of one maintenance cycle.
#[derive(Clone, Debug)]
pub enum Strategy {
    /// Nothing to do.
    Keep,
    /// Apply the changes after the given commit.
    Delta(String),
    /// Rebuild the whole table.
    Rebuild,
}

pub open spec fn opt_view(o: Option<String>) -> Option<Seq<char>> {
    match o {
        Some(s) => Some(s@),
        None => None,
    }
}

/// Compares the cached commit with the head.
pub fn classify(cached: &Option<String>, head: &String) -> (r: CacheStatus)
    ensures
        cached is None ==> r is Empty,
        cached is Some && cached->0@ == head@ ==> r is Fresh,
        cached is Some && cached->0@ != head@ ==> (r matches CacheStatus::Stale(l) && l@ == cached->0@),
{
    match cached {
        None => CacheStatus::Empty,
        Some(c) => {
            if *c == *head {
                CacheStatus::Fresh
            } else {
                CacheStatus::Stale(c.clone())
            }
        },
    }
}

/// Whether `ancestor` is met on a walk of the ancestry of a commit.
pub fn is_ancestor(ancestor: &String, walk_ids: &Vec<String>) -> (r: bool)
    ensures
        r == string_set(walk_ids@).contains(ancestor@),
{
    let mut i: usize = 0;
    while i < walk_ids.len()
        invariant
            0 <= i <= walk_ids@.len(),
            forall|a: int| 0 <= a < i ==> walk_ids@[a]@ != ancestor@,
        decreases walk_ids@.len() - i,
    {
        if walk_ids[i] == *ancestor {
            assert(walk_ids@[i as int]@ == ancestor@);
            return true;
        }
        i = i + 1;
    }
    false
}

/// Picks the strategy: rebuild when never indexed or when the cached commit
/// is not an ancestor of the head, apply the delta when it is, and keep the
/// table when it is the head.
pub fn choose_strategy(status: &CacheStatus, last_is_ancestor: bool) -> (r: Strategy)
    ensures
        status is Empty ==> r is Rebuild,
        status is Fresh ==> r is Keep,
        status matches CacheStatus::Stale(l) ==> if last_is_ancestor {
            (r matches Strategy::Delta(f) && f@ == l@)
        } else {
            r is Rebuild
        },
{
    match status {
        CacheStatus::Empty => Strategy::Rebuild,
        CacheStatus::Fresh => Strategy::Keep,
        CacheStatus::Stale(l) => {
            if last_is_ancestor {
                Strategy::Delta(l.clone())
            } else {
                Strategy::Rebuild
            }
        },
    }
}

/// The writes of one maintenance cycle.
pub enum Plan {
    Unchanged,
    /// Replace every row and record `commit`.
    Rebuild { commit: String, rows: Vec<Resolved>, table: Ghost<Map<Seq<char>, Stamp>> },
    /// Apply `ops` and record `commit`.
    Update { commit: String, ops: Vec<PathOp>, table: Ghost<Map<Seq<char>, Option<Stamp>>> },
}

impl Plan {
    pub open spec fn wf(&self) -> bool {
        match self {
            Plan::Unchanged => true,
            Plan::Rebuild { rows, table, .. } => resolved_represent(rows@, table@),
            Plan::Update { ops, table, .. } => ops_represent(ops@, table@),
        }
    }

    /// Whether the plan writes nothing.
    pub fn is_unchanged(&self) -> (r: bool)
        ensures
            r == self is Unchanged,
    {
        match self {
            Plan::Unchanged => true,
            _ => false,
        }
    }
}

/// The state of a cache after a plan: the recorded commit and the table.
pub open spec fn after_plan(
    commit: Option<Seq<char>>,
    table: Map<Seq<char>, Stamp>,
    plan: Plan,
) -> (Option<Seq<char>>, Map<Seq<char>, Stamp>) {
    match plan {
        Plan::Unchanged => (commit, table),
        Plan::Rebuild { commit: c, table: t, .. } => (Some(c@), t@),
        Plan::Update { commit: c, table: t, .. } => (Some(c@), apply_ops(t@, table)),
    }
}

/// The plan of a delta cycle from the commits after the cached one up to `head`.
pub fn plan_update(head: &String, range: &Vec<WalkCommit>) -> (p: Plan)
    ensures
        p.wf(),
        (p matches Plan::Update { commit, table, .. } && commit@ == head@ && table@ == walk_ops(range@)),
{
    let ops = collect_recent_file_ops(range);
    Plan::Update { commit: head.clone(), ops, table: Ghost(walk_ops(range@)) }
}

/// The plan of a full cycle from a finished scan of `head`.
pub fn plan_rebuild(head: &String, scan: FullScan) -> (p: Plan)
    requires
        scan.wf(),
    ensures
        p.wf(),
        (p matches Plan::Rebuild { commit, table, .. } && commit@ == head@ && table@ == full_result(
            scan.target@,
            scan.seen@,
        )),
{
    let ghost t = full_result(scan.target@, scan.seen@);
    let rows = scan.into_resolved();
    Plan::Rebuild { commit: head.clone(), rows, table: Ghost(t) }
}

/// The plan of a full rebuild at `commit_id`, whose tree holds `paths`,
/// from the walk of its history, newest first: every row is replaced by the
/// last touches of the tree's paths and `commit_id` is recorded. The walk
/// stops at the first commit after which every path is resolved; the
/// number of commits visited is returned beside the plan.
pub fn rebuild_entries_cache(commit_id: &String, paths: Vec<String>, walk: &Vec<WalkCommit>) -> (r: (
    Plan,
    usize,
))
    ensures
        r.0.wf(),
        (r.0 matches Plan::Rebuild { commit, table, .. } && commit@ == commit_id@ && table@
            == full_result(string_set(paths@), walk_cands(walk@))),
        r.1 <= walk@.len(),
        r.1 == walk@.len() || all_resolved(string_set(paths@), walk_cands(walk@.take(r.1 as int))),
        forall|k: int|
            0 <= k < r.1 ==> !all_resolved(string_set(paths@), #[trigger] walk_cands(walk@.take(k))),
{
    let ghost t = full_result(string_set(paths@), walk_cands(walk@));
    let (rows, visited) = resolve_last_touches(paths, walk);
    (Plan::Rebuild { commit: commit_id.clone(), rows, table: Ghost(t) }, visited)
}

/// What a maintenance cycle leaves in a cache that records `commit` and
/// `table`, given the head, the ids of the head's ancestry walk, the range
/// walk after the cached commit, the paths of the head's tree and the full
/// walk from the head.
pub open spec fn maintained(
    commit: Option<Seq<char>>,
    table: Map<Seq<char>, Stamp>,
    head: Seq<char>,
    ancestry: Set<Seq<char>>,
    range: Seq<WalkCommit>,
    live: Set<Seq<char>>,
    full: Seq<WalkCommit>,
) -> (Option<Seq<char>>, Map<Seq<char>, Stamp>) {
    match commit {
        Some(c) => if c == head {
            (commit, table)
        } else if ancestry.contains(c) {
            (Some(head), apply_ops(walk_ops(range), table))
        } else {
            (Some(head), full_result(live, walk_cands(full)))
        },
        None => (Some(head), full_result(live, walk_cands(full))),
    }
}

/// An in-memory cache: the last indexed commit and one row per path.
pub struct CacheImage {
    pub commit: Option<String>,
    pub rows: Vec<Resolved>,
    pub table: Ghost<Map<Seq<char>, Stamp>>,
}

impl CacheImage {
    pub open spec fn wf(&self) -> bool {
        resolved_represent(self.rows@, self.table@)
    }

    pub open spec fn state(&self) -> (Option<Seq<char>>, Map<Seq<char>, Stamp>) {
        (opt_view(self.commit), self.table@)
    }

    /// A cache that was never indexed.
    pub fn new() -> (r: CacheImage)
        ensures
            r.wf(),
            r.commit is None,
            r.table@ == Map::<Seq<char>, Stamp>::empty(),
    {
        CacheImage { commit: None, rows: Vec::new(), table: Ghost(Map::empty()) }
    }

    /// Writes the row of `path`, replacing the one it had.
    fn put_row(&mut self, path: &String, time: CommitTime, blob_id: &String)
        requires
            old(self).wf(),
        ensures
            final(self).wf(),
            final(self).commit == old(self).commit,
            final(self).table@ == old(self).table@.insert(path@, (time, blob_id@)),
    {
        let ghost t0 = self.table@;
        let ghost old_rows = self.rows@;
        let ghost t1 = t0.insert(path@, (time, blob_id@));
        let row = Resolved { path: path.clone(), time, blob_id: blob_id.clone() };
        let j = find_row(&self.rows, path);
        if j < self.rows.len() {
            self.rows.set(j, row);
            self.table = Ghost(t1);
            assert forall|a: int, b: int| 0 <= a < b < self.rows@.len() implies self.rows@[a].path@
                != self.rows@[b].path@ by {
                assert(old_rows[a].path@ != old_rows[b].path@);
            }
            assert forall|k: Seq<char>| t1.contains_key(k) implies exists|i: int|
                0 <= i < self.rows@.len() && #[trigger] self.rows@[i].path@ == k by {
                if k == path@ {
                    assert(self.rows@[j as int].path@ == k);
                } else {
                    let i = choose|i: int| 0 <= i < old_rows.len() && #[trigger] old_rows[i].path@ == k;
                    assert(self.rows@[i].path@ == k);
                }
            }
            assert forall|k: Seq<char>|
                (exists|i: int| 0 <= i < self.rows@.len() && #[trigger] self.rows@[i].path@ == k)
                    implies t1.contains_key(k) by {
                let i = choose|i: int| 0 <= i < self.rows@.len() && #[trigger] self.rows@[i].path@ == k;
                if i != j {
                    assert(old_rows[i].path@ == k);
                }
            }
            assert forall|i: int| 0 <= i < self.rows@.len() implies t1[#[trigger] self.rows@[
                i
            ].path@] == self.rows@[i].stamp() by {
                if i != j {
                    assert(old_rows[i] == self.rows@[i]);
                    assert(old_rows[i].path@ != path@);
                }
            }
        } else {
            self.rows.push(row);
            self.table = Ghost(t1);
            assert(!t0.contains_key(path@));
            assert forall|k: Seq<char>| t1.contains_key(k) implies exists|i: int|
                0 <= i < self.rows@.len() && #[trigger] self.rows@[i].path@ == k by {
                if k == path@ {
                    assert(self.rows@[self.rows@.len() - 1].path@ == k);
                } else {
                    let i = choose|i: int| 0 <= i < old_rows.len() && #[trigger] old_rows[i].path@ == k;
                    assert(self.rows@[i].path@ == k);
                }
            }
            assert forall|k: Seq<char>|
                (exists|i: int| 0 <= i < self.rows@.len() && #[trigger] self.rows@[i].path@ == k)
                    implies t1.contains_key(k) by {
                let i = choose|i: int| 0 <= i < self.rows@.len() && #[trigger] self.rows@[i].path@ == k;
                if i < old_rows.len() {
                    assert(old_rows[i].path@ == k);
                }
            }
            assert forall|i: int| 0 <= i < self.rows@.len() implies t1[#[trigger] self.rows@[
                i
            ].path@] == self.rows@[i].stamp() by {
                if i < old_rows.len() {
                    assert(old_rows[i] == self.rows@[i]);
                }
            }
        }
    }

    /// Deletes the row of `path`, if there is one.
    fn delete_row(&mut self, path: &String)
        requires
            old(self).wf(),
        ensures
            final(self).wf(),
            final(self).commit == old(self).commit,
            final(self).table@ == old(self).table@.remove(path@),
    {
        let ghost t0 = self.table@;
        let ghost old_rows = self.rows@;
        let ghost t1 = t0.remove(path@);
        let j = find_row(&self.rows, path);
        if j < self.rows.len() {
            self.rows.remove(j);
            self.table = Ghost(t1);
            assert(self.rows@ =~= old_rows.remove(j as int));
            assert forall|a: int, b: int| 0 <= a < b < self.rows@.len() implies self.rows@[a].path@
                != self.rows@[b].path@ by {
                let a0 = if a < j { a } else { a + 1 };
                let b0 = if b < j { b } else { b + 1 };
                assert(old_rows[a0].path@ != old_rows[b0].path@);
            }
            assert forall|k: Seq<char>| t1.contains_key(k) implies exists|i: int|
                0 <= i < self.rows@.len() && #[trigger] self.rows@[i].path@ == k by {
                let i0 = choose|i: int| 0 <= i < old_rows.len() && #[trigger] old_rows[i].path@ == k;
                assert(i0 != j);
                let i = if i0 < j { i0 } else { i0 - 1 };
                assert(self.rows@[i].path@ == k);
            }
            assert forall|k: Seq<char>|
                (exists|i: int| 0 <= i < self.rows@.len() && #[trigger] self.rows@[i].path@ == k)
                    implies t1.contains_key(k) by {
                let i = choose|i: int| 0 <= i < self.rows@.len() && #[trigger] self.rows@[i].path@ == k;
                let i0 = if i < j { i } else { i + 1 };
                assert(old_rows[i0].path@ == k);
                assert(i0 != j);
            }
            assert forall|i: int| 0 <= i < self.rows@.len() implies t1[#[trigger] self.rows@[
                i
            ].path@] == self.rows@[i].stamp() by {
                let i0 = if i < j { i } else { i + 1 };
                assert(old_rows[i0] == self.rows@[i]);
                assert(i0 != j);
            }
        } else {
            assert(!t0.contains_key(path@));
            assert(t1 =~= t0);
            self.table = Ghost(t1);
        }
    }

    /// Applies a plan: a rebuild replaces the whole table, an update writes
    /// and deletes row by row, and both record their commit.
    pub fn apply(&mut self, plan: Plan)
        requires
            old(self).wf(),
            plan.wf(),
        ensures
            final(self).wf(),
            final(self).state() == after_plan(old(self).state().0, old(self).state().1, plan),
    {
        match plan {
            Plan::Unchanged => {},
            Plan::Rebuild { commit, rows, table } => {
                self.commit = Some(commit);
                self.rows = rows;
                self.table = table;
            },
            Plan::Update { commit, ops, table } => {
                let ghost t0 = self.table@;
                let mut i: usize = 0;
                assert(apply_ops(table@.restrict(paths_of_ops(ops@.take(0))), t0) =~= t0);
                while i < ops.len()
                    invariant
                        0 <= i <= ops@.len(),
                        self.wf(),
                        self.commit == old(self).commit,
                        ops_represent(ops@, table@),
                        self.table@ == apply_ops(
                            table@.restrict(paths_of_ops(ops@.take(i as int))),
                            t0,
                        ),
                    decreases ops@.len() - i,
                {
                    let ghost before = self.table@;
                    let p = &ops[i];
                    match &p.op {
                        FileOp::AddedOrModified(t, b) => {
                            self.put_row(&p.path, *t, b);
                        },
                        FileOp::Deleted => {
                            self.delete_row(&p.path);
                        },
                    }
                    proof {
                        let prev = paths_of_ops(ops@.take(i as int));
                        let next = paths_of_ops(ops@.take(i + 1));
                        assert(next =~= prev.insert(p.path@)) by {
                            assert forall|k: Seq<char>| #[trigger] next.contains(k) implies prev.insert(
                                p.path@,
                            ).contains(k) by {
                                let a = choose|a: int|
                                    0 <= a < i + 1 && #[trigger] ops@.take(i + 1)[a].path@ == k;
                                if a < i {
                                    assert(ops@.take(i as int)[a].path@ == k);
                                }
                            }
                            assert forall|k: Seq<char>| #[trigger] prev.insert(p.path@).contains(k)
                                implies next.contains(k) by {
                                if k == p.path@ {
                                    assert(ops@.take(i + 1)[i as int].path@ == k);
                                } else {
                                    let a = choose|a: int|
                                        0 <= a < i && #[trigger] ops@.take(i as int)[a].path@ == k;
                                    assert(ops@.take(i + 1)[a].path@ == k);
                                }
                            }
                        }
                        assert(table@[p.path@] == p.op.view());
                        assert(self.table@ =~= apply_ops(table@.restrict(next), t0));
                    }
                    i = i + 1;
                }
                proof {
                    assert(ops@.take(ops@.len() as int) =~= ops@);
                    assert(table@.restrict(paths_of_ops(ops@)) =~= table@) by {
                        assert forall|k: Seq<char>| table@.contains_key(k) implies #[trigger] paths_of_ops(
                            ops@,
                        ).contains(k) by {
                            let a = choose|a: int| 0 <= a < ops@.len() && #[trigger] ops@[a].path@ == k;
                        }
                    }
                }
                self.commit = Some(commit);
            },
        }
    }

    /// Runs one maintenance cycle on this cache, given the head, the ids of
    /// the walk from the head (for the ancestry test), the walk after the
    /// cached commit, the paths of the head's tree and the walk from the
    /// head. Returns the strategy taken.
    pub fn maintain(
        &mut self,
        head: &String,
        ancestry: &Vec<String>,
        range: &Vec<WalkCommit>,
        paths: Vec<String>,
        full: &Vec<WalkCommit>,
    ) -> (r: Strategy)
        requires
            old(self).wf(),
        ensures
            final(self).wf(),
            final(self).state() == maintained(
                old(self).state().0,
                old(self).state().1,
                head@,
                string_set(ancestry@),
                range@,
                string_set(paths@),
                full@,
            ),
            r is Keep <==> old(self).state().0 == Some(head@),
            match old(self).state().0 {
                Some(l) => l != head@ ==> if string_set(ancestry@).contains(l) {
                    (r matches Strategy::Delta(f) && f@ == l)
                } else {
                    r is Rebuild
                },
                None => r is Rebuild,
            },
    {
        let status = classify(&self.commit, head);
        let ancestor = match &status {
            CacheStatus::Stale(l) => is_ancestor(l, ancestry),
            _ => false,
        };
        let strategy = choose_strategy(&status, ancestor);
        let plan = match &strategy {
            Strategy::Keep => Plan::Unchanged,
            Strategy::Delta(_) => plan_update(head, range),
            Strategy::Rebuild => {
                let (plan, _visited) = rebuild_entries_cache(head, paths, full);
                plan
            },
        };
        self.apply(plan);
        strategy
    }
}

/// The index of the row of `path`, or the number of rows if it has none.
fn find_row(rows: &Vec<Resolved>, path: &String) -> (r: usize)
    ensures
        r <= rows@.len(),
        r < rows@.len() ==> rows@[r as int].path@ == path@,
        r == rows@.len() ==> forall|a: int| 0 <= a < rows@.len() ==> rows@[a].path@ != path@,
{
    let mut j: usize = 0;
    while j < rows.len()
        invariant
            0 <= j <= rows@.len(),
            forall|a: int| 0 <= a < j ==> rows@[a].path@ != path@,
        decreases rows@.len() - j,
    {
        if rows[j].path == *path {
            return j;
        }
        j = j + 1;
    }
    j
}

/// The paths that a list of operations names.
pub open spec fn paths_of_ops(v: Seq<PathOp>) -> Set<Seq<char>> {
    Set::new(|k: Seq<char>| exists|i: int| 0 <= i < v.len() && #[trigger] v[i].path@ == k)
}

} // verus!
