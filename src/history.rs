//! Plain-value model of what a revision walk hands to the indexers: commits in
//! newest-to-oldest order, each with the file-level deltas against its parents.
use vstd::prelude::*;

verus! {

/// Authored time of a commit: seconds since the epoch and the UTC offset.
#[derive(Clone, Copy, Debug, PartialEq, Eq, Structural)]
pub struct CommitTime {
    pub seconds: i64,
    pub offset_minutes: i32,
}

/// Kind of a file-level change between two trees.
#[derive(Clone, Copy, Debug, PartialEq, Eq, Structural)]
pub enum DeltaStatus {
    Added,
    Modified,
    Deleted,
    Renamed,
    Copied,
    /// Unmodified, ignored, type changes and the like: never acted upon.
    Other,
}

/// One file-level change. `blob_id` is the id of the new file's content.
#[derive(Clone, Debug)]
pub struct FileDelta {
    pub status: DeltaStatus,
    pub old_path: String,
    pub new_path: String,
    pub blob_id: String,
}

/// One commit of a walk, with the deltas against each of its parents
/// concatenated in parent order.
#[derive(Clone, Debug)]
pub struct WalkCommit {
    pub id: String,
    pub time: CommitTime,
    pub deltas: Vec<FileDelta>,
}

/// What the cache records of a path: the time of the commit that last
/// touched it and the blob it holds there.
pub type Stamp = (CommitTime, Seq<char>);

/// A candidate operation on a path: `Some(stamp)` to write the row,
/// `None` to delete it.
pub type Cand = (Seq<char>, Option<Stamp>);

/// The candidates that one delta yields.
pub open spec fn delta_cands(d: FileDelta, t: CommitTime) -> Seq<Cand> {
    match d.status {
        DeltaStatus::Added | DeltaStatus::Modified | DeltaStatus::Copied => seq![
            (d.new_path@, Some((t, d.blob_id@))),
        ],
        DeltaStatus::Renamed => seq![(d.new_path@, Some((t, d.blob_id@))), (d.old_path@, None)],
        DeltaStatus::Deleted => seq![(d.old_path@, None)],
        DeltaStatus::Other => Seq::empty(),
    }
}

/// The candidates of a list of deltas, in order.
pub open spec fn deltas_cands(ds: Seq<FileDelta>, t: CommitTime) -> Seq<Cand>
    decreases ds.len(),
{
    if ds.len() == 0 {
        Seq::empty()
    } else {
        deltas_cands(ds.drop_last(), t) + delta_cands(ds.last(), t)
    }
}

pub open spec fn commit_cands(c: WalkCommit) -> Seq<Cand> {
    deltas_cands(c.deltas@, c.time)
}

/// The candidates of a walk, newest commit first.
pub open spec fn walk_cands(w: Seq<WalkCommit>) -> Seq<Cand>
    decreases w.len(),
{
    if w.len() == 0 {
        Seq::empty()
    } else {
        walk_cands(w.drop_last()) + commit_cands(w.last())
    }
}

/// Keeps, for each path, the first value that the sequence gives it.
pub open spec fn first_wins<V>(s: Seq<(Seq<char>, V)>) -> Map<Seq<char>, V>
    decreases s.len(),
{
    if s.len() == 0 {
        Map::empty()
    } else {
        let m = first_wins(s.drop_last());
        if m.contains_key(s.last().0) {
            m
        } else {
            m.insert(s.last().0, s.last().1)
        }
    }
}

/// The write candidates of a sequence, as stamps.
pub open spec fn touches(s: Seq<Cand>) -> Seq<(Seq<char>, Stamp)>
    decreases s.len(),
{
    if s.len() == 0 {
        Seq::empty()
    } else {
        let rest = touches(s.drop_last());
        match s.last().1 {
            Some(st) => rest.push((s.last().0, st)),
            None => rest,
        }
    }
}

/// The effect of a resolved set of operations on a table of stamps.
pub open spec fn apply_ops(ops: Map<Seq<char>, Option<Stamp>>, table: Map<Seq<char>, Stamp>) -> Map<
    Seq<char>,
    Stamp,
> {
    Map::new(
        |k: Seq<char>|
            if ops.contains_key(k) {
                ops[k] is Some
            } else {
                table.contains_key(k)
            },
        |k: Seq<char>|
            if ops.contains_key(k) {
                ops[k]->0
            } else {
                table[k]
            },
    )
}

pub proof fn lemma_walk_cands_step(w: Seq<WalkCommit>, i: int)
    requires
        0 <= i < w.len(),
    ensures
        walk_cands(w.take(i + 1)) == walk_cands(w.take(i)) + commit_cands(w[i]),
{
    assert(w.take(i + 1).drop_last() =~= w.take(i));
}

pub proof fn lemma_deltas_cands_step(ds: Seq<FileDelta>, t: CommitTime, j: int)
    requires
        0 <= j < ds.len(),
    ensures
        deltas_cands(ds.take(j + 1), t) == deltas_cands(ds.take(j), t) + delta_cands(ds[j], t),
{
    assert(ds.take(j + 1).drop_last() =~= ds.take(j));
}

/// Appending one element steps `first_wins` once.
pub proof fn lemma_first_wins_push<V>(s: Seq<(Seq<char>, V)>, c: (Seq<char>, V))
    ensures
        first_wins(s.push(c)) == (if first_wins(s).contains_key(c.0) {
            first_wins(s)
        } else {
            first_wins(s).insert(c.0, c.1)
        }),
{
    assert(s.push(c).drop_last() =~= s);
}

/// Earlier elements take precedence over later ones.
pub proof fn lemma_first_wins_append<V>(a: Seq<(Seq<char>, V)>, b: Seq<(Seq<char>, V)>, k: Seq<char>)
    ensures
        first_wins(a + b).contains_key(k) == (first_wins(a).contains_key(k) || first_wins(
            b,
        ).contains_key(k)),
        first_wins(a).contains_key(k) ==> first_wins(a + b)[k] == first_wins(a)[k],
        !first_wins(a).contains_key(k) && first_wins(b).contains_key(k) ==> first_wins(a + b)[k]
            == first_wins(b)[k],
    decreases b.len(),
{
    if b.len() == 0 {
        assert(a + b =~= a);
    } else {
        lemma_first_wins_append(a, b.drop_last(), k);
        assert((a + b).drop_last() =~= a + b.drop_last());
    }
}

pub proof fn lemma_touches_append(a: Seq<Cand>, b: Seq<Cand>)
    ensures
        touches(a + b) == touches(a) + touches(b),
    decreases b.len(),
{
    if b.len() == 0 {
        assert(a + b =~= a);
        assert(touches(a) + touches(b) =~= touches(a));
    } else {
        lemma_touches_append(a, b.drop_last());
        assert((a + b).drop_last() =~= a + b.drop_last());
        match b.last().1 {
            Some(st) => {
                assert(touches(a) + touches(b.drop_last()).push((b.last().0, st)) =~= (touches(a)
                    + touches(b.drop_last())).push((b.last().0, st)));
            },
            None => {},
        }
    }
}

/// A path's first write candidate is its first candidate whenever that one
/// is a write.
pub proof fn lemma_touches_first_wins(s: Seq<Cand>, k: Seq<char>)
    ensures
        first_wins(s).contains_key(k) && first_wins(s)[k] is Some ==> first_wins(
            touches(s),
        ).contains_key(k) && first_wins(touches(s))[k] == first_wins(s)[k]->0,
        first_wins(touches(s)).contains_key(k) ==> first_wins(s).contains_key(k),
    decreases s.len(),
{
    if s.len() > 0 {
        lemma_touches_first_wins(s.drop_last(), k);
        match s.last().1 {
            Some(st) => lemma_first_wins_push(touches(s.drop_last()), (s.last().0, st)),
            None => {},
        }
    }
}

} // verus!
