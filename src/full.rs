//! Full indexing: the last touch of every path of a tree, found by walking
//! history from the newest commit and stopping once every path is resolved.
use vstd::prelude::*;
use crate::history::{
    CommitTime, DeltaStatus, FileDelta, WalkCommit, Stamp, Cand, delta_cands, deltas_cands,
    commit_cands, walk_cands, first_wins, touches, lemma_first_wins_push, lemma_first_wins_append,
    lemma_touches_append, lemma_walk_cands_step, lemma_deltas_cands_step,
};

verus! {

/// A path with the commit time and blob of its last touch.
#[derive(Clone, Debug)]
pub struct Resolved {
    pub path: String,
    pub time: CommitTime,
    pub blob_id: String,
}

impl Resolved {
    pub open spec fn stamp(self) -> Stamp {
        (self.time, self.blob_id@)
    }
}

/// `v` lists each key of `m` once, with its stamp.
pub open spec fn resolved_represent(v: Seq<Resolved>, m: Map<Seq<char>, Stamp>) -> bool {
    &&& forall|i: int, j: int| 0 <= i < j < v.len() ==> v[i].path@ != v[j].path@
    &&& forall|k: Seq<char>| m.contains_key(k) <==> exists|i: int| 0 <= i < v.len() && #[trigger] v[i].path@ == k
    &&& forall|i: int| 0 <= i < v.len() ==> m[#[trigger] v[i].path@] == v[i].stamp()
}

/// The last touches of the paths of `live` that the candidates `s` resolve.
pub open spec fn full_result(live: Set<Seq<char>>, s: Seq<Cand>) -> Map<Seq<char>, Stamp> {
    first_wins(touches(s)).restrict(live)
}

/// Every path of `live` has a last touch among the candidates `s`.
pub open spec fn all_resolved(live: Set<Seq<char>>, s: Seq<Cand>) -> bool {
    forall|k: Seq<char>| live.contains(k) ==> #[trigger] first_wins(touches(s)).contains_key(k)
}

/// The strings that a list holds, as a set.
pub open spec fn string_set(v: Seq<String>) -> Set<Seq<char>> {
    Set::new(|k: Seq<char>| exists|i: int| 0 <= i < v.len() && #[trigger] v[i]@ == k)
}

/// The state of a full indexing run.
pub struct FullScan {
    /// Paths of the target tree whose last touch has not been met yet.
    pub live: Vec<String>,
    /// Paths whose last touch has been met.
    pub resolved: Vec<Resolved>,
    /// All paths of the target tree.
    pub target: Ghost<Set<Seq<char>>>,
    /// The candidates of the commits observed so far.
    pub seen: Ghost<Seq<Cand>>,
}

pub open spec fn scan_state(
    live: Seq<String>,
    resolved: Seq<Resolved>,
    target: Set<Seq<char>>,
    ts: Seq<(Seq<char>, Stamp)>,
) -> bool {
    &&& forall|i: int, j: int| 0 <= i < j < live.len() ==> live[i]@ != live[j]@
    &&& string_set(live) == target.difference(first_wins(ts).dom())
    &&& resolved_represent(resolved, first_wins(ts).restrict(target))
}

impl FullScan {
    pub open spec fn wf(&self) -> bool {
        scan_state(self.live@, self.resolved@, self.target@, touches(self.seen@))
    }

    /// Starts a run over the paths of a tree.
    pub fn new(paths: Vec<String>) -> (r: FullScan)
        ensures
            r.wf(),
            r.target@ == string_set(paths@),
            r.seen@ == Seq::<Cand>::empty(),
    {
        let mut live: Vec<String> = Vec::new();
        let mut i: usize = 0;
        assert(string_set(live@) =~= string_set(paths@.take(0)));
        while i < paths.len()
            invariant
                0 <= i <= paths@.len(),
                forall|a: int, b: int| 0 <= a < b < live@.len() ==> live@[a]@ != live@[b]@,
                string_set(live@) == string_set(paths@.take(i as int)),
            decreases paths@.len() - i,
        {
            let mut j: usize = 0;
            let mut found = false;
            while j < live.len()
                invariant
                    0 <= j <= live@.len(),
                    i < paths@.len(),
                    found ==> string_set(live@).contains(paths@[i as int]@),
                    !found ==> forall|a: int| 0 <= a < j ==> live@[a]@ != paths@[i as int]@,
                decreases live@.len() - j,
            {
                if live[j] == paths[i] {
                    found = true;
                    assert(live@[j as int]@ == paths@[i as int]@);
                }
                j = j + 1;
            }
            let ghost old_live = live@;
            if !found {
                live.push(paths[i].clone());
            }
            assert(string_set(live@) =~= string_set(paths@.take(i + 1))) by {
                assert forall|k: Seq<char>| #[trigger] string_set(paths@.take(i + 1)).contains(k)
                    implies string_set(live@).contains(k) by {
                    let a = choose|a: int| 0 <= a < i + 1 && #[trigger] paths@.take(i + 1)[a]@ == k;
                    if a < i {
                        assert(paths@.take(i as int)[a]@ == k);
                        assert(string_set(old_live).contains(k));
                        let b = choose|b: int| 0 <= b < old_live.len() && #[trigger] old_live[b]@ == k;
                        assert(live@[b]@ == k);
                    } else if !found {
                        assert(live@[live@.len() - 1]@ == k);
                    }
                }
                assert forall|k: Seq<char>| #[trigger] string_set(live@).contains(k)
                    implies string_set(paths@.take(i + 1)).contains(k) by {
                    let a = choose|a: int| 0 <= a < live@.len() && #[trigger] live@[a]@ == k;
                    if a < old_live.len() {
                        assert(old_live[a]@ == k);
                        assert(string_set(paths@.take(i as int)).contains(k));
                        let b = choose|b: int| 0 <= b < i && #[trigger] paths@.take(i as int)[b]@ == k;
                        assert(paths@.take(i + 1)[b]@ == k);
                    } else {
                        assert(paths@.take(i + 1)[i as int]@ == k);
                    }
                }
            }
            i = i + 1;
        }
        assert(paths@.take(paths@.len() as int) =~= paths@);
        let r = FullScan {
            live,
            resolved: Vec::new(),
            target: Ghost(string_set(paths@)),
            seen: Ghost(Seq::empty()),
        };
        assert(first_wins(touches(Seq::<Cand>::empty())) =~= Map::empty());
        assert(first_wins(touches(r.seen@)).restrict(r.target@) =~= Map::empty());
        assert(string_set(r.live@) =~= r.target@.difference(first_wins(touches(r.seen@)).dom()));
        r
    }

    /// Whether every path of the tree has been resolved.
    pub fn is_complete(&self) -> (r: bool)
        requires
            self.wf(),
        ensures
            r == all_resolved(self.target@, self.seen@),
    {
        if self.live.len() == 0 {
            assert forall|k: Seq<char>| self.target@.contains(k) implies #[trigger] first_wins(
                touches(self.seen@),
            ).contains_key(k) by {
                if !first_wins(touches(self.seen@)).contains_key(k) {
                    assert(string_set(self.live@).contains(k));
                }
            }
            true
        } else {
            let ghost k = self.live@[0]@;
            assert(string_set(self.live@).contains(k));
            assert(!first_wins(touches(self.seen@)).contains_key(k));
            false
        }
    }

    /// Resolves `path` to `stamp` if it is still live.
    fn resolve_path(&mut self, path: &String, time: CommitTime, blob_id: &String)
        requires
            old(self).wf(),
        ensures
            final(self).target@ == old(self).target@,
            scan_state(
                final(self).live@,
                final(self).resolved@,
                final(self).target@,
                touches(old(self).seen@).push((path@, (time, blob_id@))),
            ),
    {
        let ghost ts = touches(self.seen@);
        let ghost fw = first_wins(ts);
        let ghost st: Stamp = (time, blob_id@);
        let ghost fw2 = first_wins(ts.push((path@, st)));
        proof {
            lemma_first_wins_push(ts, (path@, st));
        }
        let mut j: usize = 0;
        let mut at: usize = self.live.len();
        while j < self.live.len()
            invariant
                0 <= j <= self.live@.len(),
                self == old(self),
                at <= self.live@.len(),
                at == self.live@.len() ==> forall|a: int| 0 <= a < j ==> self.live@[a]@ != path@,
                at < self.live@.len() ==> self.live@[at as int]@ == path@,
            decreases self.live@.len() - j,
        {
            if at == self.live.len() && self.live[j] == *path {
                at = j;
            }
            j = j + 1;
        }
        let j = at;
        if j == self.live.len() {
            // Not live: either outside the tree or already resolved.
            proof {
                if self.target@.contains(path@) && !fw.contains_key(path@) {
                    assert(string_set(self.live@).contains(path@));
                    let i = choose|i: int| 0 <= i < self.live@.len() && #[trigger] self.live@[i]@ == path@;
                    assert(self.live@[i]@ == path@);
                }
            }
            assert(fw2.restrict(self.target@) =~= fw.restrict(self.target@));
            assert(string_set(self.live@) =~= self.target@.difference(fw2.dom()));
            return;
        }
        assert(self.live@[j as int]@ == path@);
        assert(string_set(self.live@).contains(path@));
        assert(self.target@.difference(fw.dom()).contains(path@));
        assert(self.target@.contains(path@) && !fw.contains_key(path@));
        let ghost old_live = self.live@;
        let ghost old_res = self.resolved@;
        self.live.remove(j);
        self.resolved.push(Resolved { path: path.clone(), time, blob_id: blob_id.clone() });
        assert(self.live@ =~= old_live.remove(j as int));
        assert forall|a: int, b: int| 0 <= a < b < self.live@.len() implies self.live@[a]@
            != self.live@[b]@ by {
            let a0 = if a < j { a } else { a + 1 };
            let b0 = if b < j { b } else { b + 1 };
            assert(old_live[a0]@ != old_live[b0]@);
        }
        assert forall|k: Seq<char>| #[trigger] string_set(self.live@).contains(k) implies
            string_set(old_live).contains(k) && k != path@ by {
            let i = choose|i: int| 0 <= i < self.live@.len() && #[trigger] self.live@[i]@ == k;
            let i0 = if i < j { i } else { i + 1 };
            assert(old_live[i0]@ == k);
            assert(i0 != j);
        }
        assert forall|k: Seq<char>| string_set(old_live).contains(k) && k != path@ implies
            #[trigger] string_set(self.live@).contains(k) by {
            let i0 = choose|i: int| 0 <= i < old_live.len() && #[trigger] old_live[i]@ == k;
            assert(i0 != j);
            let i = if i0 < j { i0 } else { i0 - 1 };
            assert(self.live@[i]@ == k);
        }
        assert(string_set(self.live@) =~= self.target@.difference(fw2.dom()));
        let ghost m2 = fw2.restrict(self.target@);
        assert forall|a: int, b: int| 0 <= a < b < self.resolved@.len() implies self.resolved@[a].path@
            != self.resolved@[b].path@ by {
            if b == self.resolved@.len() - 1 {
                assert(fw.restrict(self.target@).contains_key(old_res[a].path@));
            }
        }
        assert forall|k: Seq<char>| m2.contains_key(k) implies exists|i: int|
            0 <= i < self.resolved@.len() && #[trigger] self.resolved@[i].path@ == k by {
            if k == path@ {
                assert(self.resolved@[self.resolved@.len() - 1].path@ == k);
            } else {
                assert(fw.restrict(self.target@).contains_key(k));
                let i = choose|i: int| 0 <= i < old_res.len() && #[trigger] old_res[i].path@ == k;
                assert(self.resolved@[i].path@ == k);
            }
        }
        assert forall|k: Seq<char>|
            (exists|i: int| 0 <= i < self.resolved@.len() && #[trigger] self.resolved@[i].path@ == k)
                implies m2.contains_key(k) by {
            let i = choose|i: int| 0 <= i < self.resolved@.len() && #[trigger] self.resolved@[i].path@ == k;
            if i < old_res.len() {
                assert(old_res[i].path@ == k);
                assert(fw.restrict(self.target@).contains_key(k));
            }
        }
        assert forall|i: int| 0 <= i < self.resolved@.len() implies m2[#[trigger] self.resolved@[
            i
        ].path@] == self.resolved@[i].stamp() by {
            if i < old_res.len() {
                assert(old_res[i] == self.resolved@[i]);
                assert(fw.restrict(self.target@).contains_key(old_res[i].path@));
            }
        }
    }

    /// Observes the next commit of the walk: each path that the commit adds,
    /// modifies, renames to or copies to and that is still live is resolved
    /// to this commit.
    pub fn observe(&mut self, c: &WalkCommit)
        requires
            old(self).wf(),
        ensures
            final(self).wf(),
            final(self).target@ == old(self).target@,
            final(self).seen@ == old(self).seen@ + commit_cands(*c),
    {
        let ghost s0 = self.seen@;
        let mut j: usize = 0;
        assert(c.deltas@.take(0) =~= Seq::<FileDelta>::empty());
        assert(s0 + deltas_cands(c.deltas@.take(0), c.time) =~= s0);
        while j < c.deltas.len()
            invariant
                0 <= j <= c.deltas@.len(),
                self.wf(),
                self.target@ == old(self).target@,
                self.seen@ == s0 + deltas_cands(c.deltas@.take(j as int), c.time),
            decreases c.deltas@.len() - j,
        {
            let d = &c.deltas[j];
            let ghost seen = self.seen@;
            proof {
                lemma_deltas_cands_step(c.deltas@, c.time, j as int);
                assert(s0 + deltas_cands(c.deltas@.take(j + 1), c.time) =~= seen + delta_cands(
                    *d,
                    c.time,
                ));
                lemma_touches_append(seen, delta_cands(*d, c.time));
            }
            match d.status {
                DeltaStatus::Added | DeltaStatus::Modified | DeltaStatus::Renamed
                | DeltaStatus::Copied => {
                    self.resolve_path(&d.new_path, c.time, &d.blob_id);
                    proof {
                        let st: Stamp = (c.time, d.blob_id@);
                        let one: Seq<Cand> = seq![(d.new_path@, Some(st))];
                        assert(one.drop_last() =~= Seq::<Cand>::empty());
                        assert(touches(Seq::<Cand>::empty()) =~= Seq::empty());
                        assert(touches(one) =~= seq![(d.new_path@, st)]);
                        if d.status is Renamed {
                            let two: Seq<Cand> = one.push((d.old_path@, None));
                            assert(two.drop_last() =~= one);
                            assert(touches(two) == touches(one));
                            assert(delta_cands(*d, c.time) =~= two);
                        } else {
                            assert(delta_cands(*d, c.time) =~= one);
                        }
                        assert(touches(seen) + seq![(d.new_path@, st)] =~= touches(seen).push(
                            (d.new_path@, st),
                        ));
                    }
                    self.seen = Ghost(seen + delta_cands(*d, c.time));
                },
                _ => {
                    proof {
                        assert(touches(Seq::<Cand>::empty()) =~= Seq::empty());
                        if d.status is Deleted {
                            assert(seq![(d.old_path@, None::<Stamp>)].drop_last()
                                =~= Seq::<Cand>::empty());
                        }
                        assert(touches(delta_cands(*d, c.time)) =~= Seq::empty());
                        assert(touches(seen) + Seq::empty() =~= touches(seen));
                    }
                    self.seen = Ghost(seen + delta_cands(*d, c.time));
                },
            }
            j = j + 1;
        }
        assert(c.deltas@.take(c.deltas@.len() as int) =~= c.deltas@);
    }

    /// Hands out the resolved paths.
    pub fn into_resolved(self) -> (r: Vec<Resolved>)
        requires
            self.wf(),
        ensures
            resolved_represent(r@, full_result(self.target@, self.seen@)),
    {
        self.resolved
    }
}

pub proof fn lemma_walk_cands_append(a: Seq<WalkCommit>, b: Seq<WalkCommit>)
    ensures
        walk_cands(a + b) == walk_cands(a) + walk_cands(b),
    decreases b.len(),
{
    if b.len() == 0 {
        assert(a + b =~= a);
        assert(walk_cands(a) + walk_cands(b) =~= walk_cands(a));
    } else {
        lemma_walk_cands_append(a, b.drop_last());
        assert((a + b).drop_last() =~= a + b.drop_last());
        assert(walk_cands(a) + walk_cands(b) =~= walk_cands(a) + walk_cands(b.drop_last())
            + commit_cands(b.last()));
    }
}

/// Once every path is resolved, older candidates change nothing.
pub proof fn lemma_resolved_stays(live: Set<Seq<char>>, s1: Seq<Cand>, s2: Seq<Cand>)
    requires
        all_resolved(live, s1),
    ensures
        full_result(live, s1 + s2) == full_result(live, s1),
        all_resolved(live, s1 + s2),
{
    lemma_touches_append(s1, s2);
    assert forall|k: Seq<char>| live.contains(k) implies #[trigger] first_wins(
        touches(s1 + s2),
    ).contains_key(k) && first_wins(touches(s1 + s2))[k] == first_wins(touches(s1))[k] by {
        lemma_first_wins_append(touches(s1), touches(s2), k);
    }
    assert(full_result(live, s1 + s2) =~= full_result(live, s1));
}

/// Resolves the last touch of each of `paths`, walking `walk` newest first
/// and visiting no commit once every path is resolved. Returns the resolved
/// paths and the number of commits visited.
pub fn resolve_last_touches(paths: Vec<String>, walk: &Vec<WalkCommit>) -> (r: (
    Vec<Resolved>,
    usize,
))
    ensures
        r.1 <= walk@.len(),
        resolved_represent(r.0@, full_result(string_set(paths@), walk_cands(walk@))),
        resolved_represent(r.0@, full_result(string_set(paths@), walk_cands(walk@.take(r.1 as int)))),
        r.1 == walk@.len() || all_resolved(string_set(paths@), walk_cands(walk@.take(r.1 as int))),
        forall|k: int|
            0 <= k < r.1 ==> !all_resolved(string_set(paths@), #[trigger] walk_cands(walk@.take(k))),
{
    let ghost target = string_set(paths@);
    let mut scan = FullScan::new(paths);
    let mut i: usize = 0;
    assert(walk@.take(0) =~= Seq::<WalkCommit>::empty());
    while i < walk.len() && !scan.is_complete()
        invariant
            0 <= i <= walk@.len(),
            scan.wf(),
            scan.target@ == target,
            scan.seen@ == walk_cands(walk@.take(i as int)),
            forall|k: int| 0 <= k < i ==> !all_resolved(target, #[trigger] walk_cands(walk@.take(k))),
        decreases walk@.len() - i,
    {
        scan.observe(&walk[i]);
        proof {
            lemma_walk_cands_step(walk@, i as int);
        }
        i = i + 1;
    }
    proof {
        if i < walk@.len() {
            lemma_walk_cands_append(walk@.take(i as int), walk@.skip(i as int));
            assert(walk@.take(i as int) + walk@.skip(i as int) =~= walk@);
            lemma_resolved_stays(target, walk_cands(walk@.take(i as int)), walk_cands(walk@.skip(i as int)));
        } else {
            assert(walk@.take(i as int) =~= walk@);
        }
    }
    (scan.into_resolved(), i)
}

} // verus!
