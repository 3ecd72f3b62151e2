//! Delta indexing: the operations that a range of commits asks of the cache.
use vstd::prelude::*;
use crate::history::{
    CommitTime, DeltaStatus, FileDelta, WalkCommit, Stamp, Cand, delta_cands, deltas_cands,
    walk_cands, first_wins, lemma_first_wins_push, lemma_walk_cands_step, lemma_deltas_cands_step,
};

verus! {

/// What happens to one path: its row is written from a commit's blob, or removed.
#[derive(Clone, Debug)]
pub enum FileOp {
    AddedOrModified(CommitTime, String),
    Deleted,
}

impl FileOp {
    pub open spec fn view(self) -> Option<Stamp> {
        match self {
            FileOp::AddedOrModified(t, b) => Some((t, b@)),
            FileOp::Deleted => None,
        }
    }
}

/// A path with the operation resolved for it.
#[derive(Clone, Debug)]
pub struct PathOp {
    pub path: String,
    pub op: FileOp,
}

/// `v` lists each key of `m` once, with its value.
pub open spec fn ops_represent(v: Seq<PathOp>, m: Map<Seq<char>, Option<Stamp>>) -> bool {
    &&& forall|i: int, j: int| 0 <= i < j < v.len() ==> v[i].path@ != v[j].path@
    &&& forall|k: Seq<char>| m.contains_key(k) <==> exists|i: int| 0 <= i < v.len() && v[i].path@ == k
    &&& forall|i: int| 0 <= i < v.len() ==> m[#[trigger] v[i].path@] == v[i].op.view()
}

/// The operations resolved from a walk: the first candidate of each path wins.
pub open spec fn walk_ops(w: Seq<WalkCommit>) -> Map<Seq<char>, Option<Stamp>> {
    first_wins(walk_cands(w))
}

/// Records `op` for `path` unless the path already has one.
fn record_first(ops: &mut Vec<PathOp>, path: String, op: FileOp, Ghost(seen): Ghost<Seq<Cand>>)
    requires
        ops_represent(old(ops)@, first_wins(seen)),
    ensures
        ops_represent(final(ops)@, first_wins(seen.push((path@, op.view())))),
{
    proof {
        lemma_first_wins_push(seen, (path@, op.view()));
    }
    let mut i: usize = 0;
    while i < ops.len()
        invariant
            0 <= i <= ops@.len(),
            ops@ == old(ops)@,
            ops_represent(ops@, first_wins(seen)),
            forall|k: int| 0 <= k < i ==> ops@[k].path@ != path@,
        decreases ops@.len() - i,
    {
        if ops[i].path == path {
            assert(ops@[i as int].path@ == path@);
            assert(first_wins(seen).contains_key(path@));
            proof {
                lemma_first_wins_push(seen, (path@, op.view()));
            }
            return;
        }
        i = i + 1;
    }
    let ghost m = first_wins(seen);
    assert(!m.contains_key(path@));
    ops.push(PathOp { path, op });
    let ghost m2 = m.insert(path@, op.view());
    assert forall|k: Seq<char>| m2.contains_key(k) implies exists|i: int|
        0 <= i < ops@.len() && ops@[i].path@ == k by {
        if k == path@ {
            assert(ops@[ops@.len() - 1].path@ == k);
        } else {
            let i = choose|i: int| 0 <= i < old(ops)@.len() && old(ops)@[i].path@ == k;
            assert(ops@[i].path@ == k);
        }
    }
    assert forall|i: int| 0 <= i < ops@.len() implies m2[#[trigger] ops@[i].path@]
        == ops@[i].op.view() by {
        if i < ops@.len() - 1 {
            assert(ops@[i] == old(ops)@[i]);
        }
    }
}

/// Walks the commits after the last indexed one, newest first, and resolves
/// one operation per path: the first candidate met wins. Added, modified and
/// copied files are written, deleted ones removed, and a rename does both.
pub fn collect_recent_file_ops(walk: &Vec<WalkCommit>) -> (ops: Vec<PathOp>)
    ensures
        ops_represent(ops@, walk_ops(walk@)),
{
    let mut ops: Vec<PathOp> = Vec::new();
    let mut i: usize = 0;
    assert(walk@.take(0) =~= Seq::<WalkCommit>::empty());
    while i < walk.len()
        invariant
            0 <= i <= walk@.len(),
            ops_represent(ops@, first_wins(walk_cands(walk@.take(i as int)))),
        decreases walk@.len() - i,
    {
        let c = &walk[i];
        let ghost before = walk_cands(walk@.take(i as int));
        let mut j: usize = 0;
        assert(c.deltas@.take(0) =~= Seq::<FileDelta>::empty());
        assert(before + deltas_cands(c.deltas@.take(0), c.time) =~= before);
        while j < c.deltas.len()
            invariant
                0 <= j <= c.deltas@.len(),
                c == walk@[i as int],
                before == walk_cands(walk@.take(i as int)),
                ops_represent(ops@, first_wins(before + deltas_cands(c.deltas@.take(j as int), c.time))),
            decreases c.deltas@.len() - j,
        {
            let d = &c.deltas[j];
            let ghost seen = before + deltas_cands(c.deltas@.take(j as int), c.time);
            proof {
                lemma_deltas_cands_step(c.deltas@, c.time, j as int);
                assert(before + deltas_cands(c.deltas@.take(j + 1), c.time) =~= seen + delta_cands(
                    *d,
                    c.time,
                ));
            }
            match d.status {
                DeltaStatus::Added | DeltaStatus::Modified | DeltaStatus::Copied => {
                    let op = FileOp::AddedOrModified(c.time, d.blob_id.clone());
                    record_first(&mut ops, d.new_path.clone(), op, Ghost(seen));
                    assert(seen + delta_cands(*d, c.time) =~= seen.push(
                        (d.new_path@, Some((c.time, d.blob_id@))),
                    ));
                },
                DeltaStatus::Renamed => {
                    let op = FileOp::AddedOrModified(c.time, d.blob_id.clone());
                    record_first(&mut ops, d.new_path.clone(), op, Ghost(seen));
                    let ghost seen2 = seen.push((d.new_path@, Some((c.time, d.blob_id@))));
                    record_first(&mut ops, d.old_path.clone(), FileOp::Deleted, Ghost(seen2));
                    assert(seen + delta_cands(*d, c.time) =~= seen2.push((d.old_path@, None)));
                },
                DeltaStatus::Deleted => {
                    record_first(&mut ops, d.old_path.clone(), FileOp::Deleted, Ghost(seen));
                    assert(seen + delta_cands(*d, c.time) =~= seen.push((d.old_path@, None)));
                },
                DeltaStatus::Other => {
                    assert(seen + delta_cands(*d, c.time) =~= seen);
                },
            }
            j = j + 1;
        }
        proof {
            lemma_walk_cands_step(walk@, i as int);
            assert(c.deltas@.take(c.deltas@.len() as int) =~= c.deltas@);
        }
        i = i + 1;
    }
    assert(walk@.take(walk@.len() as int) =~= walk@);
    ops
}

} // verus!
