//! Properties of maintenance that relate several runs or several strategies.
use vstd::prelude::*;
use crate::history::{
    WalkCommit, FileDelta, Stamp, Cand, CommitTime, DeltaStatus, delta_cands, deltas_cands,
    commit_cands, walk_cands, first_wins, apply_ops, touches, lemma_first_wins_append,
    lemma_touches_first_wins, lemma_walk_cands_step, lemma_deltas_cands_step,
};
use crate::delta::walk_ops;
use crate::full::{full_result, lemma_walk_cands_append};
use crate::maintain::maintained;

verus! {

/// The table left by applying the operations of each commit on its own,
/// oldest commit first.
pub open spec fn incremental(w: Seq<WalkCommit>, table: Map<Seq<char>, Stamp>) -> Map<
    Seq<char>,
    Stamp,
>
    decreases w.len(),
{
    if w.len() == 0 {
        table
    } else {
        apply_ops(walk_ops(seq![w[0]]), incremental(w.drop_first(), table))
    }
}

/// A walk is consistent with a tree when the paths of the tree are exactly
/// those whose newest candidate writes them.
pub open spec fn tree_consistent(live: Set<Seq<char>>, w: Seq<WalkCommit>) -> bool {
    forall|k: Seq<char>|
        live.contains(k) <==> (#[trigger] walk_ops(w).contains_key(k) && walk_ops(w)[k] is Some)
}

proof fn lemma_first_wins_absent<V>(s: Seq<(Seq<char>, V)>, k: Seq<char>)
    requires
        forall|j: int| 0 <= j < s.len() ==> (#[trigger] s[j]).0 != k,
    ensures
        !first_wins(s).contains_key(k),
    decreases s.len(),
{
    if s.len() > 0 {
        lemma_first_wins_absent(s.drop_last(), k);
    }
}

proof fn lemma_first_wins_uniform<V>(s: Seq<(Seq<char>, V)>, k: Seq<char>, v: V)
    requires
        exists|j: int| 0 <= j < s.len() && (#[trigger] s[j]).0 == k,
        forall|j: int| 0 <= j < s.len() && (#[trigger] s[j]).0 == k ==> s[j].1 == v,
    ensures
        first_wins(s).contains_key(k),
        first_wins(s)[k] == v,
    decreases s.len(),
{
    let last = s.len() - 1;
    if exists|j: int| 0 <= j < last && (#[trigger] s.drop_last()[j]).0 == k {
        assert forall|j: int| 0 <= j < last && (#[trigger] s.drop_last()[j]).0 == k implies s.drop_last()[j].1
            == v by {
            assert(s[j] == s.drop_last()[j]);
        }
        lemma_first_wins_uniform(s.drop_last(), k, v);
    } else {
        assert forall|j: int| 0 <= j < s.drop_last().len() implies (#[trigger] s.drop_last()[j]).0 != k by {}
        lemma_first_wins_absent(s.drop_last(), k);
        let j = choose|j: int| 0 <= j < s.len() && (#[trigger] s[j]).0 == k;
        if j < last {
            assert(s.drop_last()[j] == s[j]);
        }
        assert(s[last].0 == k);
    }
}

proof fn lemma_walk_cands_member(w: Seq<WalkCommit>, x: Cand)
    requires
        walk_cands(w).contains(x),
    ensures
        exists|c: int| 0 <= c < w.len() && #[trigger] commit_cands(w[c]).contains(x),
    decreases w.len(),
{
    let a = walk_cands(w.drop_last());
    let b = commit_cands(w.last());
    let j = choose|j: int| 0 <= j < walk_cands(w).len() && walk_cands(w)[j] == x;
    if j < a.len() {
        assert(a[j] == x);
        lemma_walk_cands_member(w.drop_last(), x);
        let c = choose|c: int| 0 <= c < w.len() - 1 && #[trigger] commit_cands(w.drop_last()[c]).contains(x);
        assert(w.drop_last()[c] == w[c]);
    } else {
        assert(b[j - a.len()] == x);
        assert(commit_cands(w[w.len() - 1]).contains(x));
    }
}

proof fn lemma_delta_in_commit(ds: Seq<FileDelta>, t: CommitTime, j: int, x: Cand)
    requires
        0 <= j < ds.len(),
        delta_cands(ds[j], t).contains(x),
    ensures
        deltas_cands(ds, t).contains(x),
    decreases ds.len(),
{
    let a = deltas_cands(ds.drop_last(), t);
    let b = delta_cands(ds.last(), t);
    if j < ds.len() - 1 {
        assert(ds.drop_last()[j] == ds[j]);
        lemma_delta_in_commit(ds.drop_last(), t, j, x);
        let i = choose|i: int| 0 <= i < a.len() && a[i] == x;
        assert((a + b)[i] == x);
    } else {
        let i = choose|i: int| 0 <= i < b.len() && b[i] == x;
        assert((a + b)[a.len() + i] == x);
    }
}

/// Applying the operations of a range at once equals applying those of its
/// older part and then those of its newer part.
pub proof fn lemma_delta_ranges_compose(
    newer: Seq<WalkCommit>,
    older: Seq<WalkCommit>,
    table: Map<Seq<char>, Stamp>,
)
    ensures
        apply_ops(walk_ops(newer + older), table) == apply_ops(
            walk_ops(newer),
            apply_ops(walk_ops(older), table),
        ),
{
    lemma_walk_cands_append(newer, older);
    assert forall|k: Seq<char>| true implies {
        &&& first_wins(walk_cands(newer) + walk_cands(older)).contains_key(k) == (first_wins(
            walk_cands(newer),
        ).contains_key(k) || first_wins(walk_cands(older)).contains_key(k))
        &&& #[trigger] first_wins(walk_cands(newer)).contains_key(k) ==> first_wins(
            walk_cands(newer) + walk_cands(older),
        )[k] == first_wins(walk_cands(newer))[k]
        &&& !first_wins(walk_cands(newer)).contains_key(k) && first_wins(
            walk_cands(older),
        ).contains_key(k) ==> first_wins(walk_cands(newer) + walk_cands(older))[k] == first_wins(
            walk_cands(older),
        )[k]
    } by {
        lemma_first_wins_append(walk_cands(newer), walk_cands(older), k);
    }
    assert(apply_ops(walk_ops(newer + older), table) =~= apply_ops(
        walk_ops(newer),
        apply_ops(walk_ops(older), table),
    ));
}

/// Applying a range's operations at once equals applying each commit's
/// operations on its own, oldest first.
pub proof fn lemma_delta_incremental(w: Seq<WalkCommit>, table: Map<Seq<char>, Stamp>)
    ensures
        apply_ops(walk_ops(w), table) == incremental(w, table),
    decreases w.len(),
{
    if w.len() == 0 {
        assert(walk_cands(w) =~= Seq::<Cand>::empty());
        assert(apply_ops(walk_ops(w), table) =~= table);
    } else {
        lemma_delta_incremental(w.drop_first(), table);
        assert(seq![w[0]] + w.drop_first() =~= w);
        lemma_delta_ranges_compose(seq![w[0]], w.drop_first(), table);
    }
}

/// A full rebuild and the deltas applied from an empty cache through every
/// commit of the history give the same table, for a history consistent with
/// the tree of its newest commit.
pub proof fn lemma_full_matches_incremental(live: Set<Seq<char>>, w: Seq<WalkCommit>)
    requires
        tree_consistent(live, w),
    ensures
        full_result(live, walk_cands(w)) == incremental(w, Map::empty()),
{
    lemma_delta_incremental(w, Map::empty());
    let s = walk_cands(w);
    assert forall|k: Seq<char>| true implies {
        &&& #[trigger] first_wins(s).contains_key(k) && first_wins(s)[k] is Some ==> first_wins(
            touches(s),
        ).contains_key(k) && first_wins(touches(s))[k] == first_wins(s)[k]->0
        &&& first_wins(touches(s)).contains_key(k) ==> first_wins(s).contains_key(k)
    } by {
        lemma_touches_first_wins(s, k);
    }
    assert(full_result(live, s) =~= apply_ops(walk_ops(w), Map::empty()));
}

/// A path that a commit of a range deletes (or renames away) has no row
/// after the range is applied when neither that commit nor any newer one of
/// the range writes it again (adds, modifies, copies or renames to it),
/// whatever older commits did to it: each of their candidates for the path
/// is then a delete.
pub proof fn lemma_tombstone_precedence(
    w: Seq<WalkCommit>,
    i: int,
    p: Seq<char>,
    table: Map<Seq<char>, Stamp>,
)
    requires
        0 <= i < w.len(),
        commit_cands(w[i]).contains((p, None)),
        forall|c: int, x: Cand|
            0 <= c <= i && #[trigger] commit_cands(w[c]).contains(x) && x.0 == p ==> x.1 is None,
    ensures
        !apply_ops(walk_ops(w), table).contains_key(p),
{
    let newer = w.take(i + 1);
    let rest = w.skip(i + 1);
    assert(newer + rest =~= w);
    lemma_walk_cands_append(newer, rest);
    let a = walk_cands(newer);
    lemma_walk_cands_step(w, i);
    let j0 = choose|j: int| 0 <= j < commit_cands(w[i]).len() && commit_cands(w[i])[j] == (p, None::<Stamp>);
    assert(a[walk_cands(w.take(i)).len() + j0] == (p, None::<Stamp>));
    assert forall|j: int| 0 <= j < a.len() && (#[trigger] a[j]).0 == p implies a[j].1 == None::<Stamp> by {
        assert(a.contains(a[j]));
        lemma_walk_cands_member(newer, a[j]);
        let c = choose|c: int| 0 <= c < newer.len() && #[trigger] commit_cands(newer[c]).contains(a[j]);
        assert(newer[c] == w[c]);
    }
    lemma_first_wins_uniform(a, p, None);
    lemma_first_wins_append(a, walk_cands(rest), p);
}

/// Renaming `from` to `to` in a commit of a range leaves no row for `from`
/// and a row for `to` with the renamed blob and the commit's time, when no
/// newer commit of the range and no earlier change of that commit names
/// either path.
pub proof fn lemma_rename(
    w: Seq<WalkCommit>,
    i: int,
    d: int,
    table: Map<Seq<char>, Stamp>,
)
    requires
        0 <= i < w.len(),
        0 <= d < w[i].deltas@.len(),
        w[i].deltas@[d].status == DeltaStatus::Renamed,
        w[i].deltas@[d].old_path@ != w[i].deltas@[d].new_path@,
        forall|e: int, x: Cand|
            0 <= e < d && #[trigger] delta_cands(w[i].deltas@[e], w[i].time).contains(x)
                ==> x.0 != w[i].deltas@[d].old_path@ && x.0 != w[i].deltas@[d].new_path@,
        forall|c: int, x: Cand|
            0 <= c < i && #[trigger] commit_cands(w[c]).contains(x) ==> x.0 != w[i].deltas@[d].old_path@
                && x.0 != w[i].deltas@[d].new_path@,
    ensures
        !apply_ops(walk_ops(w), table).contains_key(w[i].deltas@[d].old_path@),
        apply_ops(walk_ops(w), table).contains_key(w[i].deltas@[d].new_path@),
        apply_ops(walk_ops(w), table)[w[i].deltas@[d].new_path@] == (
            w[i].time,
            w[i].deltas@[d].blob_id@,
        ),
{
    let ds = w[i].deltas@;
    let t = w[i].time;
    let dd = ds[d];
    let from = dd.old_path@;
    let to = dd.new_path@;
    let st: Stamp = (t, dd.blob_id@);
    // The candidates of the walk: those before the rename, the rename's own,
    // and those after it.
    let before = walk_cands(w.take(i)) + deltas_cands(ds.take(d), t);
    let own = delta_cands(dd, t);
    let after = deltas_cands(ds.skip(d + 1), t) + walk_cands(w.skip(i + 1));
    assert(w.take(i + 1) + w.skip(i + 1) =~= w);
    lemma_walk_cands_append(w.take(i + 1), w.skip(i + 1));
    lemma_walk_cands_step(w, i);
    lemma_deltas_cands_append(ds.take(d + 1), ds.skip(d + 1), t);
    assert(ds.take(d + 1) + ds.skip(d + 1) =~= ds);
    lemma_deltas_cands_step(ds, t, d);
    assert(walk_cands(w) =~= before + (own + after));
    assert forall|j: int| 0 <= j < before.len() implies (#[trigger] before[j]).0 != from && before[j].0
        != to by {
        let x = before[j];
        let wa = walk_cands(w.take(i));
        if j < wa.len() {
            assert(wa[j] == x);
            assert(wa.contains(x));
            lemma_walk_cands_member(w.take(i), x);
            let c = choose|c: int| 0 <= c < i && #[trigger] commit_cands(w.take(i)[c]).contains(x);
            assert(w.take(i)[c] == w[c]);
        } else {
            let da = deltas_cands(ds.take(d), t);
            assert(da[j - wa.len()] == x);
            assert(da.contains(x));
            lemma_commit_cand_origin(ds.take(d), t, x);
            let e = choose|e: int| 0 <= e < d && #[trigger] delta_cands(ds.take(d)[e], t).contains(x);
            assert(ds.take(d)[e] == ds[e]);
        }
    }
    lemma_first_wins_absent(before, from);
    lemma_first_wins_absent(before, to);
    assert(own =~= seq![(to, Some(st)), (from, None::<Stamp>)]);
    let one: Seq<Cand> = seq![(to, Some(st))];
    assert(own.drop_last() =~= one);
    assert(one.drop_last() =~= Seq::<Cand>::empty());
    assert(first_wins(Seq::<Cand>::empty()) == Map::<Seq<char>, Option<Stamp>>::empty());
    assert(first_wins(one) == Map::<Seq<char>, Option<Stamp>>::empty().insert(to, Some(st)));
    assert(first_wins(own) == first_wins(one).insert(from, None::<Stamp>));
    assert(first_wins(own).contains_key(to) && first_wins(own)[to] == Some(st));
    assert(first_wins(own).contains_key(from) && first_wins(own)[from] == None::<Stamp>);
    lemma_first_wins_append(own, after, from);
    lemma_first_wins_append(own, after, to);
    lemma_first_wins_append(before, own + after, from);
    lemma_first_wins_append(before, own + after, to);
}

proof fn lemma_deltas_cands_append(a: Seq<FileDelta>, b: Seq<FileDelta>, t: CommitTime)
    ensures
        deltas_cands(a + b, t) == deltas_cands(a, t) + deltas_cands(b, t),
    decreases b.len(),
{
    if b.len() == 0 {
        assert(a + b =~= a);
        assert(deltas_cands(a, t) + deltas_cands(b, t) =~= deltas_cands(a, t));
    } else {
        lemma_deltas_cands_append(a, b.drop_last(), t);
        assert((a + b).drop_last() =~= a + b.drop_last());
        assert(deltas_cands(a, t) + deltas_cands(b, t) =~= deltas_cands(a, t) + deltas_cands(
            b.drop_last(),
            t,
        ) + delta_cands(b.last(), t));
    }
}

proof fn lemma_commit_cand_origin(ds: Seq<FileDelta>, t: CommitTime, x: Cand)
    requires
        deltas_cands(ds, t).contains(x),
    ensures
        exists|e: int| 0 <= e < ds.len() && #[trigger] delta_cands(ds[e], t).contains(x),
    decreases ds.len(),
{
    let a = deltas_cands(ds.drop_last(), t);
    let b = delta_cands(ds.last(), t);
    let j = choose|j: int| 0 <= j < (a + b).len() && (a + b)[j] == x;
    if j < a.len() {
        assert(a[j] == x);
        lemma_commit_cand_origin(ds.drop_last(), t, x);
        let e = choose|e: int| 0 <= e < ds.len() - 1 && #[trigger] delta_cands(ds.drop_last()[e], t).contains(x);
        assert(ds.drop_last()[e] == ds[e]);
    } else {
        assert(b[j - a.len()] == x);
        assert(delta_cands(ds[ds.len() - 1], t).contains(x));
    }
}

/// Whether commit `c` writes path `p` (adds, modifies, copies or renames
/// to it).
pub open spec fn writes(c: WalkCommit, p: Seq<char>) -> bool {
    exists|x: Cand| #[trigger] commit_cands(c).contains(x) && x.0 == p && x.1 is Some
}

/// Whether commit `c` deletes path `p` (or renames it away).
pub open spec fn deletes(c: WalkCommit, p: Seq<char>) -> bool {
    exists|x: Cand| #[trigger] commit_cands(c).contains(x) && x.0 == p && x.1 is None
}

/// The deltas of `c` are a diff from the tree with paths `before` to the
/// tree with paths `after`: no path is both written and deleted, and a path
/// is in `after` when it is written, or when it was in `before` and is not
/// deleted.
pub open spec fn diff_of(c: WalkCommit, before: Set<Seq<char>>, after: Set<Seq<char>>) -> bool {
    &&& forall|p: Seq<char>| !(#[trigger] writes(c, p) && deletes(c, p))
    &&& forall|p: Seq<char>|
        #[trigger] after.contains(p) <==> (writes(c, p) || (before.contains(p) && !deletes(c, p)))
}

/// A linear history, newest commit first: `trees[k]` holds the paths of the
/// tree of `w[k]`, each commit's deltas are the diff from its parent's tree,
/// and the oldest commit is diffed against the empty tree.
pub open spec fn linear_history(w: Seq<WalkCommit>, trees: Seq<Set<Seq<char>>>) -> bool {
    &&& trees.len() == w.len() + 1
    &&& trees[w.len() as int] == Set::<Seq<char>>::empty()
    &&& forall|k: int| 0 <= k < w.len() ==> diff_of(#[trigger] w[k], trees[k + 1], trees[k])
}

proof fn lemma_first_wins_witness<V>(s: Seq<(Seq<char>, V)>, k: Seq<char>)
    requires
        first_wins(s).contains_key(k),
    ensures
        exists|j: int| 0 <= j < s.len() && #[trigger] s[j] == (k, first_wins(s)[k]),
    decreases s.len(),
{
    let m = first_wins(s.drop_last());
    if m.contains_key(k) {
        lemma_first_wins_witness(s.drop_last(), k);
        let j = choose|j: int| 0 <= j < s.len() - 1 && #[trigger] s.drop_last()[j] == (k, m[k]);
        assert(s[j] == s.drop_last()[j]);
    } else {
        assert(s[s.len() - 1] == (k, first_wins(s)[k]));
    }
}

/// In a linear history the paths of the newest tree are exactly those whose
/// newest candidate writes them.
pub proof fn lemma_linear_history_consistent(w: Seq<WalkCommit>, trees: Seq<Set<Seq<char>>>)
    requires
        linear_history(w, trees),
    ensures
        tree_consistent(trees[0], w),
    decreases w.len(),
{
    if w.len() == 0 {
        assert(walk_cands(w) =~= Seq::<Cand>::empty());
        return;
    }
    let c = w[0];
    let rest = w.drop_first();
    let trees2 = trees.drop_first();
    assert forall|k: int| 0 <= k < rest.len() implies diff_of(#[trigger] rest[k], trees2[k + 1], trees2[k]) by {
        assert(rest[k] == w[k + 1]);
        assert(diff_of(w[k + 1], trees[k + 2], trees[k + 1]));
    }
    lemma_linear_history_consistent(rest, trees2);
    assert(seq![c] + rest =~= w);
    lemma_walk_cands_append(seq![c], rest);
    assert(walk_cands(seq![c]) =~= commit_cands(c)) by {
        assert(seq![c].drop_last() =~= Seq::<WalkCommit>::empty());
        assert(walk_cands(Seq::<WalkCommit>::empty()) =~= Seq::<Cand>::empty());
    }
    let a = commit_cands(c);
    let b = walk_cands(rest);
    assert(diff_of(w[0], trees[1], trees[0]));
    assert forall|p: Seq<char>| trees[0].contains(p) <==> (#[trigger] walk_ops(w).contains_key(p)
        && walk_ops(w)[p] is Some) by {
        lemma_first_wins_append(a, b, p);
        if first_wins(a).contains_key(p) {
            lemma_first_wins_witness(a, p);
            let j = choose|j: int| 0 <= j < a.len() && #[trigger] a[j] == (p, first_wins(a)[p]);
            assert(a.contains(a[j]));
            if first_wins(a)[p] is Some {
                assert(writes(c, p));
            } else {
                assert(deletes(c, p));
            }
        } else {
            assert forall|j: int| 0 <= j < a.len() implies (#[trigger] a[j]).0 != p by {
                if a[j].0 == p {
                    assert(a.contains(a[j]));
                    lemma_first_wins_uniform_contains(a, p, j);
                }
            }
            assert(!writes(c, p)) by {
                if writes(c, p) {
                    let x = choose|x: Cand| #[trigger] a.contains(x) && x.0 == p && x.1 is Some;
                    let j = choose|j: int| 0 <= j < a.len() && a[j] == x;
                    assert(a[j].0 == p);
                }
            }
            assert(!deletes(c, p)) by {
                if deletes(c, p) {
                    let x = choose|x: Cand| #[trigger] a.contains(x) && x.0 == p && x.1 is None;
                    let j = choose|j: int| 0 <= j < a.len() && a[j] == x;
                    assert(a[j].0 == p);
                }
            }
            assert(walk_ops(rest).contains_key(p) == first_wins(b).contains_key(p));
        }
    }
}

proof fn lemma_first_wins_uniform_contains<V>(s: Seq<(Seq<char>, V)>, k: Seq<char>, j: int)
    requires
        0 <= j < s.len(),
        s[j].0 == k,
    ensures
        first_wins(s).contains_key(k),
    decreases s.len(),
{
    if j < s.len() - 1 {
        assert(s.drop_last()[j] == s[j]);
        lemma_first_wins_uniform_contains(s.drop_last(), k, j);
    }
}

/// Convergence: in a linear history, a full rebuild at the newest commit
/// and the deltas of every commit applied one by one from an empty cache
/// give the same table.
pub proof fn lemma_linear_history_converges(w: Seq<WalkCommit>, trees: Seq<Set<Seq<char>>>)
    requires
        linear_history(w, trees),
    ensures
        full_result(trees[0], walk_cands(w)) == incremental(w, Map::empty()),
{
    lemma_linear_history_consistent(w, trees);
    lemma_full_matches_incremental(trees[0], w);
}

/// After any maintenance cycle the cache records the head.
pub proof fn lemma_freshness(
    commit: Option<Seq<char>>,
    table: Map<Seq<char>, Stamp>,
    head: Seq<char>,
    ancestry: Set<Seq<char>>,
    range: Seq<WalkCommit>,
    live: Set<Seq<char>>,
    full: Seq<WalkCommit>,
)
    ensures
        maintained(commit, table, head, ancestry, range, live, full).0 == Some(head),
{
}

/// A second cycle on an unchanged head leaves the cache as the first left it.
pub proof fn lemma_maintenance_idempotent(
    commit: Option<Seq<char>>,
    table: Map<Seq<char>, Stamp>,
    head: Seq<char>,
    ancestry: Set<Seq<char>>,
    range: Seq<WalkCommit>,
    live: Set<Seq<char>>,
    full: Seq<WalkCommit>,
    ancestry2: Set<Seq<char>>,
    range2: Seq<WalkCommit>,
    live2: Set<Seq<char>>,
    full2: Seq<WalkCommit>,
)
    ensures
        ({
            let first = maintained(commit, table, head, ancestry, range, live, full);
            &&& first.0 == Some(head)
            &&& maintained(first.0, first.1, head, ancestry2, range2, live2, full2) == first
        }),
{
}

} // verus!
