//! Generalization of blocked cubes: dropping literals one by one, with
//! counterexamples to generalization blocked on the way.
//!
//! What a generalization or an attempt made is stated as a run: the states
//! it went through and, for each step, the answers it got and what it made
//! of them. [`mic_run`] and [`down_run`] say that there is such a run;
//! [`run_from`] gives the result as a function of the outcomes of the
//! attempts.

use crate::activity::{bump_cube_activity, bumped, ranked_by, sort_by_activity};
use crate::cube::{
    copy, id_set, ids, lemma_permutation, lemma_restrict, lemma_subset_refl, lemma_subset_trans,
    restrict, retain_in, subset, views,
};
use crate::frames::{is_candidate, level_ok, overlap, top_similar};
use crate::ic3::blocking::{
    answered_ordered, conflict_of, found_blocked, lemma_found_blocked_same, lifted, no_at, yes_at,
    BlockResult, BlockResultNo, BlockResultYes,
};
use crate::ic3::{added, Ic3};
use crate::lemma::Lemma;
use crate::lit::Lit;
use crate::model::Model;
use crate::sat::{ActivityCall, SatAnswer, SatQuery, SolverId};
use std::collections::HashSet;
use vstd::prelude::*;
use vstd::std_specs::hash::*;

verus! {

broadcast use group_hash_axioms;

/// Number of counterexamples to generalization that one attempt to drop
/// a literal may block before it shrinks its cube instead.
pub const MAX_CTGS: usize = 3;

/// How an attempt to generalize a cube ended.
#[derive(Debug)]
pub enum DownResult {
    /// A part of the cube was found blocked: its conflict cube.
    Success(Vec<Lit>),
    /// No part of the cube that holds the literals to keep was found
    /// blocked.
    Fail,
    /// An initial state lies in the cube.
    IncludeInit,
}

/// Where generalization goes on after the cube `cube`, whose literal at
/// position `i` was dropped, shrank to its literals in `found`: at the
/// number of literals before position `i` that stay.
pub open spec fn resume_at(cube: Seq<Lit>, i: int, found: Seq<Lit>) -> int {
    restrict(cube.subrange(0, i), ids(found)).len() as int
}

/// After a successful drop the cube is the old one without the dropped
/// literal and whatever else the conflict cube left out. Generalization
/// goes on at the first literal that was not yet tried before the drop; the
/// cube has fewer untried literals than before.
pub proof fn lemma_rewind(cube: Seq<Lit>, i: int, found: Seq<Lit>)
    requires
        cube.no_duplicates(),
        0 <= i < cube.len(),
        !found.contains(cube[i]),
    ensures
        ({
            let next = restrict(cube, ids(found));
            let at = resume_at(cube, i, found);
            &&& 0 <= at <= i
            &&& at <= next.len()
            &&& next.len() - at < cube.len() - i
            &&& forall|k: int| 0 <= k < at ==> cube.subrange(0, i).contains(#[trigger] next[k])
            &&& at < next.len() ==> !cube.subrange(0, i + 1).contains(next[at])
            &&& forall|k: int|
                at <= k < next.len() ==> cube.subrange(i + 1, cube.len() as int).contains(
                    #[trigger] next[k],
                )
        }),
{
    let keep = ids(found);
    let pred = |l: Lit| keep.contains(l.0);
    let head = cube.subrange(0, i);
    let tail = cube.subrange(i + 1, cube.len() as int);
    let one = seq![cube[i]];
    let next = restrict(cube, keep);
    assert(cube =~= head + one + tail);
    Seq::filter_distributes_over_add(head + one, tail, pred);
    Seq::filter_distributes_over_add(head, one, pred);
    assert(one.filter(pred) =~= Seq::<Lit>::empty()) by {
        assert(one =~= Seq::<Lit>::empty().push(cube[i]));
        Seq::<Lit>::empty().lemma_filter_push(cube[i], pred);
        Seq::<Lit>::empty().lemma_filter_len(pred);
        assert(!pred(cube[i])) by {
            assert(Lit(cube[i].0) == cube[i]);
        }
    }
    let rh = restrict(head, keep);
    let rt = restrict(tail, keep);
    assert(next =~= rh + rt);
    lemma_restrict(head, keep);
    lemma_restrict(tail, keep);
    assert forall|k: int| 0 <= k < rh.len() implies head.contains(#[trigger] next[k]) by {
        assert(next[k] == rh[k]);
        assert(head.contains(rh[k]));
    }
    assert forall|k: int| rh.len() <= k < next.len() implies tail.contains(#[trigger] next[k]) by {
        assert(next[k] == rt[k - rh.len()]);
        assert(tail.contains(rt[k - rh.len()]));
    }
    if rh.len() < next.len() {
        let l = next[rh.len() as int];
        assert(l == rt[0]);
        assert(tail.contains(rt[0]));
        let m = choose|m: int| 0 <= m < tail.len() && tail[m] == l;
        assert(cube[i + 1 + m] == l);
        let pre = cube.subrange(0, i + 1);
        if pre.contains(l) {
            let x = choose|x: int| 0 <= x < pre.len() && pre[x] == l;
            assert(cube[x] == cube[i + 1 + m]);
        }
    }
}

/// The cube that generalization goes on with after the literal at
/// position `i` of `cube` was dropped and the conflict cube `found` came
/// back, and the position at which it goes on.
pub fn rewind(cube: &Vec<Lit>, i: usize, found: &Vec<Lit>) -> (r: (Vec<Lit>, usize))
    requires
        cube@.no_duplicates(),
        i < cube@.len(),
        !found@.contains(cube@[i as int]),
    ensures
        r.0@ == restrict(cube@, ids(found@)),
        r.1 == resume_at(cube@, i as int, found@),
        r.1 <= i,
        r.1 <= r.0@.len(),
        r.0@.len() - r.1 < cube@.len() - i,
        subset(r.0@, cube@),
        r.0@.no_duplicates(),
        forall|k: int| 0 <= k < r.1 ==> cube@.subrange(0, i as int).contains(#[trigger] r.0@[k]),
        r.1 < r.0@.len() ==> !cube@.subrange(0, i + 1).contains(r.0@[r.1 as int]),
        forall|k: int|
            r.1 <= k < r.0@.len() ==> cube@.subrange(i + 1, cube@.len() as int).contains(
                #[trigger] r.0@[k],
            ),
{
    let keep = id_set(found);
    let next = retain_in(cube, &keep);
    let mut at: usize = 0;
    let mut k: usize = 0;
    let ghost pred = |l: Lit| keep@.contains(l.0);
    assert(cube@.subrange(0, 0) =~= Seq::<Lit>::empty());
    proof {
        Seq::<Lit>::empty().lemma_filter_len(pred);
    }
    while k < i
        invariant
            k <= i < cube.len(),
            at <= k,
            pred == (|l: Lit| keep@.contains(l.0)),
            at == cube@.subrange(0, k as int).filter(pred).len(),
        decreases i - k,
    {
        proof {
            let head = cube@.subrange(0, k as int);
            assert(cube@.subrange(0, k + 1) =~= head.push(cube@[k as int]));
            head.lemma_filter_push(cube@[k as int], pred);
        }
        if keep.contains(&cube[k].0) {
            at = at + 1;
        }
        k = k + 1;
    }
    proof {
        lemma_rewind(cube@, i as int, found@);
        lemma_restrict(cube@, ids(found@));
    }
    (next, at)
}

impl Ic3 {
    /// Takes up the conflict cube `new_cube` that came back after the
    /// literal at position `i` of `cube` was dropped: generalization goes on
    /// with the literals of `cube` that are in `new_cube`, at the first of
    /// them not yet tried, and the clause of that cube is asserted for the
    /// time being in the solvers of the levels from 1 to `frame`.
    pub fn handle_down_success(
        &mut self,
        frame: usize,
        cube: Vec<Lit>,
        i: usize,
        new_cube: Vec<Lit>,
    ) -> (r: (Vec<Lit>, usize))
        requires
            old(self).wf(),
            frame < old(self).levels().len(),
            old(self).spec_model().in_range(cube@),
            cube@.no_duplicates(),
            i < cube@.len(),
            !new_cube@.contains(cube@[i as int]),
        ensures
            final(self).wf(),
            final(self).spec_model() == old(self).spec_model(),
            final(self).spec_similar() == old(self).spec_similar(),
            final(self).spec_statistic() == old(self).spec_statistic(),
            final(self).spec_frames() == old(self).spec_frames(),
            final(self).spec_lift() == old(self).spec_lift(),
            final(self).spec_solvers().len() == old(self).spec_solvers().len(),
            r.0@ == restrict(cube@, ids(new_cube@)),
            r.1 == resume_at(cube@, i as int, new_cube@),
            r.1 <= i,
            r.1 <= r.0@.len(),
            r.0@.len() - r.1 < cube@.len() - i,
            subset(r.0@, cube@),
            r.0@.no_duplicates(),
            forall|k: int|
                0 <= k < r.1 ==> cube@.subrange(0, i as int).contains(#[trigger] r.0@[k]),
            r.1 < r.0@.len() ==> !cube@.subrange(0, i + 1).contains(r.0@[r.1 as int]),
            forall|k: int|
                r.1 <= k < r.0@.len() ==> cube@.subrange(i + 1, cube@.len() as int).contains(
                    #[trigger] r.0@[k],
                ),
            forall|j: int|
                0 <= j < old(self).spec_solvers().len() && !(1 <= j <= frame) ==> (
                #[trigger] final(self).spec_solvers()[j]) == old(self).spec_solvers()[j],
            forall|j: int|
                1 <= j <= frame ==> {
                    let s = #[trigger] final(self).spec_solvers()[j];
                    let o = old(self).spec_solvers()[j];
                    &&& s.same_counters(&o)
                    &&& crate::solver::covered_by(o.spec_temporary(), r.0@) ==> s.asserted()
                        == o.asserted() && s.spec_temporary() == o.spec_temporary()
                    &&& !crate::solver::covered_by(o.spec_temporary(), r.0@) ==> s.asserted()
                        == o.asserted().push(crate::cube::negated(r.0@))
                        && s.spec_temporary().len() > 0 && s.spec_temporary().drop_last()
                        == crate::solver::unpruned(o.spec_temporary(), r.0@)
                        && crate::cube::sorted(s.spec_temporary().last())
                        && s.spec_temporary().last().to_multiset() == r.0@.to_multiset()
                },
    {
        let r = rewind(&cube, i, &new_cube);
        proof {
            let model = self.spec_model();
            assert(model.in_range(r.0@)) by {
                assert forall|k: int| 0 <= k < r.0@.len() implies (#[trigger] r.0@[k]).var().0
                    < model.spec_num_var() by {
                    assert(cube@.contains(r.0@[k]));
                    let m = choose|m: int| 0 <= m < cube@.len() && cube@[m] == r.0@[k];
                    assert(cube@[m].var().0 < model.spec_num_var());
                }
            }
        }
        self.add_temporary(frame, &r.0);
        r
    }
}

/// `cube` holds a literal whose code is in `keep` and not in `stay`.
pub open spec fn loses_kept(cube: Seq<Lit>, stay: Set<u32>, keep: Set<u32>) -> bool {
    exists|k: int|
        0 <= k < cube.len() && !stay.contains((#[trigger] cube[k]).0) && keep.contains(cube[k].0)
}

/// What is left of `cube` when a predecessor with the literals `stay`
/// leads into it: its literals among `stay`, unless one of those it would
/// lose has to be kept, or it would lose none.
pub open spec fn spec_shrink(cube: Seq<Lit>, stay: Set<u32>, keep: Set<u32>) -> Option<Seq<Lit>> {
    if loses_kept(cube, stay, keep) || restrict(cube, stay).len() >= cube.len() {
        None
    } else {
        Some(restrict(cube, stay))
    }
}

/// The cube that an attempt at generalization goes on with after the
/// predecessor `pred` was found to lead into `cube`: the literals of `cube`
/// that hold in `pred`. There is none where that would drop a literal whose
/// code is in `keep`, or no literal at all.
pub fn shrink(cube: &Vec<Lit>, pred: &Vec<Lit>, keep: &HashSet<u32>) -> (r: Option<Vec<Lit>>)
    ensures
        match spec_shrink(cube@, ids(pred@), keep@) {
            None => r is None,
            Some(n) => r matches Some(v) && v@ == n,
        },
        r matches Some(v) ==> v@.len() < cube@.len() && subset(v@, cube@) && (
        cube@.no_duplicates() ==> v@.no_duplicates()),
{
    let stay = id_set(pred);
    let mut k: usize = 0;
    while k < cube.len()
        invariant
            k <= cube.len(),
            stay@ == ids(pred@),
            forall|m: int|
                0 <= m < k ==> !(!stay@.contains((#[trigger] cube@[m]).0) && keep@.contains(
                    cube@[m].0,
                )),
        decreases cube.len() - k,
    {
        if !stay.contains(&cube[k].0) && keep.contains(&cube[k].0) {
            assert(!stay@.contains(cube@[k as int].0) && keep@.contains(cube@[k as int].0));
            assert(loses_kept(cube@, ids(pred@), keep@));
            return None;
        }
        k = k + 1;
    }
    let next = retain_in(cube, &stay);
    proof {
        lemma_restrict(cube@, stay@);
    }
    if next.len() >= cube.len() {
        None
    } else {
        Some(next)
    }
}

/// Where a generalization stands between two attempts: the cube it has
/// come to, the position of the next literal to try, the codes of the
/// literals found necessary, and the lemmas of the levels.
pub struct MicState {
    /// The cube the generalization has come to.
    pub cube: Seq<Lit>,
    /// The position of the next literal to try.
    pub at: int,
    /// The codes of the literals found necessary.
    pub keep: Set<u32>,
    /// The lemmas of each level.
    pub levels: Seq<Seq<Lemma>>,
}

/// Where an attempt on a cube stands between two rounds: the cube it has
/// come to, the number of counterexamples to generalization blocked since
/// the cube last shrank, and the lemmas of the levels.
pub struct DownState {
    /// The cube the attempt has come to.
    pub cube: Seq<Lit>,
    /// Counterexamples to generalization blocked since the cube last shrank.
    pub ctgs: int,
    /// The lemmas of each level.
    pub levels: Seq<Seq<Lemma>>,
}

/// What an attempt that ended with `d` makes of a generalization that
/// stood at position `at` of `cube`: after a success the cube shrinks to its
/// literals in the conflict cube and the position goes back to the first
/// literal not yet tried; else the literal at `at` is kept and the position
/// moves on.
pub open spec fn probe_step(cube: Seq<Lit>, at: int, keep: Set<u32>, d: DownResult) -> (
    Seq<Lit>,
    int,
    Set<u32>,
) {
    next_state(cube, at, keep, found_of(d))
}

/// The conflict cube that an attempt ended with, if it succeeded.
pub open spec fn found_of(d: DownResult) -> Option<Seq<Lit>> {
    match d {
        DownResult::Success(c) => Some(c@),
        _ => None,
    }
}

/// Where a generalization stands after an attempt at position `at` of
/// `cube`: after a success with the conflict cube `found` the cube shrinks
/// to its literals in it and the position goes back to the first literal not
/// yet tried; else the literal at `at` is kept and the position moves on.
pub open spec fn next_state(cube: Seq<Lit>, at: int, keep: Set<u32>, found: Option<Seq<Lit>>) -> (
    Seq<Lit>,
    int,
    Set<u32>,
) {
    match found {
        Some(c) => (restrict(cube, ids(c)), resume_at(cube, at, c), keep),
        None => (cube, at + 1, keep.insert(cube[at].0)),
    }
}

/// A predecessor may be treated as a counterexample to generalization:
/// fewer than three were blocked since the cube last shrank, the level below
/// is not level 0, and no initial state lies in the predecessor.
pub open spec fn ctg_open(model: &Model, frame: int, ctgs: int, pred: Seq<Lit>) -> bool {
    ctgs < MAX_CTGS && frame > 1 && !model.spec_cube_subsume_init(pred)
}

/// `cube` was asked about at level `frame`, its literals in descending
/// order of their scores, and found not blocked.
pub open spec fn no_ordered<S: Fn(SatQuery) -> SatAnswer, A: Fn(ActivityCall) -> Vec<u64>>(
    sat: &S,
    activity: &A,
    model: &Model,
    frame: int,
    cube: Seq<Lit>,
) -> bool {
    exists|n: BlockResultNo|
        #[trigger] answered_ordered(sat, activity, model, frame, cube, false, BlockResult::No(n))
}

/// The cube `c` was pushed up from level `frame`: it was found blocked at
/// every level from `frame` to `top`, and `top` is the topmost level `depth`
/// or `c` was found not blocked one level above `top`.
pub open spec fn pushed<S: Fn(SatQuery) -> SatAnswer>(
    sat: &S,
    model: &Model,
    c: Seq<Lit>,
    frame: int,
    top: int,
    depth: int,
) -> bool {
    &&& frame - 1 <= top <= depth
    &&& forall|i: int| frame <= i <= top ==> #[trigger] yes_at(sat, model, i, c)
    &&& top < depth ==> no_at(sat, model, top + 1, c)
}

/// How an attempt on the cube of `a` ends with `r`: with `IncludeInit`
/// where an initial state lies in the cube; else the cube is asked about at
/// level `frame`, and a "blocked" gives its conflict cube as success, while
/// a "not blocked" gives failure, where recursion is left only if the
/// predecessor lifted from the witness is not blocked as a counterexample to
/// generalization and the cube cannot shrink to its literals in it.
pub open spec fn round_end<S: Fn(SatQuery) -> SatAnswer, A: Fn(ActivityCall) -> Vec<u64>>(
    sat: &S,
    activity: &A,
    model: &Model,
    frame: int,
    level: nat,
    keep: Set<u32>,
    a: DownState,
    r: DownResult,
) -> bool {
    if model.spec_cube_subsume_init(a.cube) {
        r is IncludeInit
    } else {
        exists|res: BlockResult|
            #[trigger] answered_ordered(sat, activity, model, frame, a.cube, false, res)
                && match res {
                BlockResult::Yes(y) => r is Success && r->Success_0@ == conflict_of(model, y),
                BlockResult::No(no) => r is Fail && (level > 0 ==> exists|pred: Seq<Lit>|
                    #[trigger] lifted(sat, activity, model, no, pred) && (!ctg_open(
                        model,
                        frame,
                        a.ctgs,
                        pred,
                    ) || no_ordered(sat, activity, model, frame - 1, pred)) && spec_shrink(
                        a.cube,
                        ids(pred),
                        keep,
                    ) is None),
            }
    }
}

/// What a generalization of `cube` at level `frame` with `level` levels of
/// recursion makes of the levels `before`: the levels `after` and the result
/// `r`, as some run of it says. See [`mic_trace`].
pub open spec fn mic_run<S: Fn(SatQuery) -> SatAnswer, A: Fn(ActivityCall) -> Vec<u64>>(
    sat: &S,
    activity: &A,
    model: &Model,
    frame: int,
    level: nat,
    similar: bool,
    cube: Seq<Lit>,
    before: Seq<Seq<Lemma>>,
    after: Seq<Seq<Lemma>>,
    r: Seq<Lit>,
) -> bool
    decreases level, 6nat,
{
    exists|
        ordered: Seq<Lit>,
        cands: Seq<Seq<Lit>>,
        sim: Seq<DownResult>,
        slv: Seq<Seq<Seq<Lemma>>>,
        tr: Seq<MicState>,
        ds: Seq<DownResult>,
    |
        #![trigger mic_shape(cands, sim, slv, tr, ds), ranked_by(activity, cube, true, ordered)]
        mic_shape(cands, sim, slv, tr, ds) && mic_trace(
            sat,
            activity,
            model,
            frame,
            level,
            similar,
            cube,
            before,
            after,
            r,
            ordered,
            cands,
            sim,
            slv,
            tr,
            ds,
        )
}

/// The parts of a run of a generalization fit together in number: no more
/// stored cubes were tried than there are, the levels are given before and
/// after each of these, and there is a state before and after each attempt.
pub open spec fn mic_shape(
    cands: Seq<Seq<Lit>>,
    sim: Seq<DownResult>,
    slv: Seq<Seq<Seq<Lemma>>>,
    tr: Seq<MicState>,
    ds: Seq<DownResult>,
) -> bool {
    sim.len() <= cands.len() && slv.len() == sim.len() + 1 && tr.len() <= ds.len() + 1
}

/// There is a state before and after each round of an attempt.
pub open spec fn down_shape(rounds: Seq<DownState>, steps: Seq<bool>) -> bool {
    rounds.len() == steps.len() + 1
}

/// The literal `l` was tried and could not be dropped: at some state of
/// the run an attempt on the cube without it did not succeed, and that cube
/// lies between the result `r` and the cube `whole`.
pub open spec fn failed_on(
    tr: Seq<MicState>,
    ds: Seq<DownResult>,
    l: Lit,
    r: Seq<Lit>,
    whole: Seq<Lit>,
) -> bool {
    exists|k: int|
        0 <= k < ds.len() && !(#[trigger] ds[k] is Success) && 0 <= tr[k].at < tr[k].cube.len()
            && tr[k].cube[tr[k].at] == l && subset(r, tr[k].cube) && subset(tr[k].cube, whole)
}

/// A run of a generalization. The literals of `cube` are put in ascending
/// order of their scores: `ordered`. Where stored lemmas are tried first,
/// `cands` are the at most three best cubes that a lemma at `frame` or above
/// shares with `ordered`; they are tried in turn as they are, `sim` are the
/// outcomes and `slv` the levels before and after each, and the first
/// success is the result. Else `tr` are the states from attempt to attempt
/// and `ds` the outcomes of the attempts: each attempt is on the cube
/// without the literal at the position of the state, there are no more
/// attempts than `cube` has literals, the run ends when the position is past
/// the last literal, and every literal of the result was tried and could not
/// be dropped.
pub open spec fn mic_trace<S: Fn(SatQuery) -> SatAnswer, A: Fn(ActivityCall) -> Vec<u64>>(
    sat: &S,
    activity: &A,
    model: &Model,
    frame: int,
    level: nat,
    similar: bool,
    cube: Seq<Lit>,
    before: Seq<Seq<Lemma>>,
    after: Seq<Seq<Lemma>>,
    r: Seq<Lit>,
    ordered: Seq<Lit>,
    cands: Seq<Seq<Lit>>,
    sim: Seq<DownResult>,
    slv: Seq<Seq<Seq<Lemma>>>,
    tr: Seq<MicState>,
    ds: Seq<DownResult>,
) -> bool
    decreases level, 5nat,
{
    &&& ranked_by(activity, cube, true, ordered)
    &&& slv.len() == sim.len() + 1
    &&& slv[0] == before
    &&& if similar {
        top_similar(before, frame, ordered, cands) && sim.len() <= cands.len()
    } else {
        sim.len() == 0
    }
    &&& forall|x: int|
        0 <= x < sim.len() ==> down_run(
            sat,
            activity,
            model,
            frame,
            level,
            similar,
            cands[x],
            Set::<u32>::empty(),
            slv[x],
            slv[x + 1],
            #[trigger] sim[x],
        )
    &&& forall|x: int| 0 <= x < sim.len() - 1 ==> !(#[trigger] sim[x] is Success)
    &&& if sim.len() > 0 && sim.last() is Success {
        r == sim.last()->Success_0@ && after == slv.last()
    } else {
        &&& similar ==> sim.len() == cands.len()
        &&& tr.len() == ds.len() + 1
        &&& ds.len() <= cube.len()
        &&& tr[0] == (MicState {
            cube: ordered,
            at: 0,
            keep: Set::<u32>::empty(),
            levels: slv.last(),
        })
        &&& forall|k: int|
            0 <= k < ds.len() ==> probe_ok(
                sat,
                activity,
                model,
                frame,
                level,
                similar,
                tr[k],
                #[trigger] ds[k],
                tr[k + 1],
            )
        &&& tr.last().at == tr.last().cube.len()
        &&& r == tr.last().cube
        &&& after == tr.last().levels
        &&& forall|j: int| 0 <= j < r.len() ==> failed_on(tr, ds, #[trigger] r[j], r, ordered)
        &&& forall|k: int|
            0 <= k < tr.len() ==> (#[trigger] tr[k]).cube.no_duplicates() && subset(
                tr[k].cube,
                ordered,
            )
    }
}

/// One attempt of a generalization: from the state `a` the cube without
/// the literal at its position is attempted with the literals to keep, the
/// attempt ends with `d`, and `b` is the state that [`probe_step`] gives.
pub open spec fn probe_ok<S: Fn(SatQuery) -> SatAnswer, A: Fn(ActivityCall) -> Vec<u64>>(
    sat: &S,
    activity: &A,
    model: &Model,
    frame: int,
    level: nat,
    similar: bool,
    a: MicState,
    d: DownResult,
    b: MicState,
) -> bool
    decreases level, 4nat,
{
    &&& stepped(a, d, b)
    &&& !a.keep.contains(a.cube[a.at].0)
    &&& down_run(
        sat,
        activity,
        model,
        frame,
        level,
        similar,
        a.cube.remove(a.at),
        a.keep,
        a.levels,
        b.levels,
        d,
    )
}

/// The state `b` is what an attempt that ended with `d` makes of the state
/// `a`, and it has fewer literals left to try.
pub open spec fn stepped(a: MicState, d: DownResult, b: MicState) -> bool {
    &&& 0 <= a.at < a.cube.len()
    &&& (b.cube, b.at, b.keep) == probe_step(a.cube, a.at, a.keep, d)
    &&& 0 <= b.at <= b.cube.len()
    &&& b.cube.len() - b.at < a.cube.len() - a.at
}

/// The cube that a generalization ends with when it stands at position
/// `at` of `cube` with the codes `keep`, where `down` says for a cube and
/// codes to keep with which conflict cube the attempt on it succeeds, if it
/// does.
pub open spec fn run_from(
    cube: Seq<Lit>,
    at: int,
    keep: Set<u32>,
    down: spec_fn(Seq<Lit>, Set<u32>) -> Option<Seq<Lit>>,
) -> Seq<Lit>
    decreases cube.len() - at,
{
    if at < 0 || at >= cube.len() {
        cube
    } else {
        let next = next_state(cube, at, keep, down(cube.remove(at), keep));
        if 0 <= next.1 <= next.0.len() && next.0.len() - next.1 < cube.len() - at {
            run_from(next.0, next.1, next.2, down)
        } else {
            cube
        }
    }
}

/// A cube without one of its literals holds literals of the cube only,
/// each once if each was there once.
pub proof fn lemma_part(s: Seq<Lit>, at: int)
    requires
        0 <= at < s.len(),
    ensures
        subset(s.remove(at), s),
        s.no_duplicates() ==> s.remove(at).no_duplicates(),
{
    let c = s.remove(at);
    assert forall|k: int| 0 <= k < c.len() implies s.contains(#[trigger] c[k]) by {
        if k < at {
            assert(c[k] == s[k]);
        } else {
            assert(c[k] == s[k + 1]);
        }
    }
    if s.no_duplicates() {
        assert forall|x: int, y: int| 0 <= x < y < c.len() implies c[x] != c[y] by {
            let sx = if x < at {
                x
            } else {
                x + 1
            };
            let sy = if y < at {
                y
            } else {
                y + 1
            };
            assert(c[x] == s[sx] && c[y] == s[sy]);
        }
    }
}

/// Along a run whose attempts end as `down` says, the cube at the end is
/// what [`run_from`] gives for each state of the run.
pub proof fn lemma_run_from(
    tr: Seq<MicState>,
    ds: Seq<DownResult>,
    down: spec_fn(Seq<Lit>, Set<u32>) -> Option<Seq<Lit>>,
    k: int,
)
    requires
        0 <= k <= ds.len(),
        tr.len() == ds.len() + 1,
        forall|j: int| 0 <= j < ds.len() ==> stepped(tr[j], #[trigger] ds[j], tr[j + 1]),
        forall|j: int|
            0 <= j < ds.len() ==> found_of(#[trigger] ds[j]) == down(
                tr[j].cube.remove(tr[j].at),
                tr[j].keep,
            ),
        tr.last().at == tr.last().cube.len(),
    ensures
        run_from(tr[k].cube, tr[k].at, tr[k].keep, down) == tr.last().cube,
    decreases ds.len() - k,
{
    if k < ds.len() {
        lemma_run_from(tr, ds, down, k + 1);
        assert(stepped(tr[k], ds[k], tr[k + 1]));
    }
}

/// Without recursion an attempt is one round: it ends as [`round_end`]
/// says of the cube it was given, and the levels stay.
pub proof fn lemma_down_run_flat<S: Fn(SatQuery) -> SatAnswer, A: Fn(ActivityCall) -> Vec<u64>>(
    sat: &S,
    activity: &A,
    model: &Model,
    frame: int,
    similar: bool,
    cube: Seq<Lit>,
    keep: Set<u32>,
    before: Seq<Seq<Lemma>>,
    after: Seq<Seq<Lemma>>,
    r: DownResult,
)
    requires
        down_run(sat, activity, model, frame, 0, similar, cube, keep, before, after, r),
    ensures
        after == before,
        round_end(
            sat,
            activity,
            model,
            frame,
            0,
            keep,
            DownState { cube, ctgs: 0, levels: before },
            r,
        ),
{
    reveal_with_fuel(down_run, 3);
    reveal_with_fuel(down_trace, 3);
    reveal_with_fuel(round_step, 3);
    let (rounds, steps) = choose|rounds: Seq<DownState>, steps: Seq<bool>|
        #[trigger] down_shape(rounds, steps) && down_trace(
            sat,
            activity,
            model,
            frame,
            0,
            similar,
            cube,
            keep,
            before,
            after,
            r,
            rounds,
            steps,
        );
    if steps.len() > 0 {
        assert(round_step(
            sat,
            activity,
            model,
            frame,
            0,
            similar,
            keep,
            rounds[0],
            steps[0],
            rounds[1],
        ));
    }
}

/// The literal `l` of the result `r` of a generalization of `whole` was
/// tried and could not be dropped: there is a cube between `r` and `whole`
/// that holds `l` and in which, without `l`, an initial state lies, or
/// which, without `l`, was asked about at level `frame` and found not
/// blocked.
pub open spec fn tried<S: Fn(SatQuery) -> SatAnswer, A: Fn(ActivityCall) -> Vec<u64>>(
    sat: &S,
    activity: &A,
    model: &Model,
    frame: int,
    whole: Seq<Lit>,
    r: Seq<Lit>,
    l: Lit,
) -> bool {
    exists|s: Seq<Lit>, at: int|
        {
            &&& 0 <= at < s.len()
            &&& #[trigger] s[at] == l
            &&& subset(r, s)
            &&& subset(s, whole)
            &&& model.spec_cube_subsume_init(s.remove(at)) || no_ordered(
                sat,
                activity,
                model,
                frame,
                s.remove(at),
            )
        }
}

/// Without recursion, and where stored lemmas are not tried first, every
/// literal that a generalization returns was tried and could not be
/// dropped.
pub proof fn lemma_mic_tried<S: Fn(SatQuery) -> SatAnswer, A: Fn(ActivityCall) -> Vec<u64>>(
    sat: &S,
    activity: &A,
    model: &Model,
    frame: int,
    cube: Seq<Lit>,
    before: Seq<Seq<Lemma>>,
    after: Seq<Seq<Lemma>>,
    r: Seq<Lit>,
)
    requires
        mic_run(sat, activity, model, frame, 0, false, cube, before, after, r),
    ensures
        forall|j: int|
            0 <= j < r.len() ==> tried(sat, activity, model, frame, cube, r, #[trigger] r[j]),
{
    reveal_with_fuel(mic_run, 4);
    reveal_with_fuel(mic_trace, 4);
    reveal_with_fuel(probe_ok, 4);
    let (ordered, cands, sim, slv, tr, ds) = choose|
        ordered: Seq<Lit>,
        cands: Seq<Seq<Lit>>,
        sim: Seq<DownResult>,
        slv: Seq<Seq<Seq<Lemma>>>,
        tr: Seq<MicState>,
        ds: Seq<DownResult>,
    |
        #![trigger mic_shape(cands, sim, slv, tr, ds), ranked_by(activity, cube, true, ordered)]
        mic_shape(cands, sim, slv, tr, ds) && mic_trace(
            sat,
            activity,
            model,
            frame,
            0,
            false,
            cube,
            before,
            after,
            r,
            ordered,
            cands,
            sim,
            slv,
            tr,
            ds,
        );
    crate::activity::lemma_ranked(activity, cube, true, ordered);
    assert forall|j: int| 0 <= j < r.len() implies tried(
        sat,
        activity,
        model,
        frame,
        cube,
        r,
        #[trigger] r[j],
    ) by {
        assert(failed_on(tr, ds, r[j], r, ordered));
        let k = choose|k: int|
            0 <= k < ds.len() && !(#[trigger] ds[k] is Success) && 0 <= tr[k].at
                < tr[k].cube.len() && tr[k].cube[tr[k].at] == r[j] && subset(r, tr[k].cube)
                && subset(tr[k].cube, ordered);
        let s = tr[k].cube;
        let at = tr[k].at;
        assert(probe_ok(sat, activity, model, frame, 0, false, tr[k], ds[k], tr[k + 1]));
        lemma_down_run_flat(
            sat,
            activity,
            model,
            frame,
            false,
            s.remove(at),
            tr[k].keep,
            tr[k].levels,
            tr[k + 1].levels,
            ds[k],
        );
        lemma_subset_trans(s, ordered, cube);
        if !model.spec_cube_subsume_init(s.remove(at)) {
            let res = choose|res: BlockResult|
                #[trigger] answered_ordered(sat, activity, model, frame, s.remove(at), false, res)
                    && match res {
                    BlockResult::Yes(y) => ds[k] is Success,
                    BlockResult::No(no) => ds[k] is Fail,
                };
            assert(res is No);
            assert(res == BlockResult::No(res->No_0));
            assert(no_ordered(sat, activity, model, frame, s.remove(at)));
        }
        assert(s[at] == r[j]);
    }
}

/// The outcome of a generalization over the outcomes of its attempts:
/// where stored lemmas are not tried first and every attempt on a proper
/// part of the cube can only end as `down` says, the result is what
/// [`run_from`] gives for the cube in ascending order of its scores.
pub proof fn lemma_mic_outcome<S: Fn(SatQuery) -> SatAnswer, A: Fn(ActivityCall) -> Vec<u64>>(
    sat: &S,
    activity: &A,
    model: &Model,
    frame: int,
    level: nat,
    cube: Seq<Lit>,
    before: Seq<Seq<Lemma>>,
    after: Seq<Seq<Lemma>>,
    r: Seq<Lit>,
    down: spec_fn(Seq<Lit>, Set<u32>) -> Option<Seq<Lit>>,
)
    requires
        mic_run(sat, activity, model, frame, level, false, cube, before, after, r),
        forall|c: Seq<Lit>, keep: Set<u32>, lv0: Seq<Seq<Lemma>>, lv1: Seq<Seq<Lemma>>, d: DownResult|
            c.no_duplicates() && subset(c, cube) && c.len() < cube.len() && #[trigger] down_run(
                sat,
                activity,
                model,
                frame,
                level,
                false,
                c,
                keep,
                lv0,
                lv1,
                d,
            ) ==> found_of(d) == down(c, keep),
    ensures
        exists|ordered: Seq<Lit>|
            #[trigger] ranked_by(activity, cube, true, ordered) && r == run_from(
                ordered,
                0,
                Set::<u32>::empty(),
                down,
            ),
{
    reveal_with_fuel(mic_run, 4);
    reveal_with_fuel(mic_trace, 4);
    reveal_with_fuel(probe_ok, 4);
    let (ordered, cands, sim, slv, tr, ds) = choose|
        ordered: Seq<Lit>,
        cands: Seq<Seq<Lit>>,
        sim: Seq<DownResult>,
        slv: Seq<Seq<Seq<Lemma>>>,
        tr: Seq<MicState>,
        ds: Seq<DownResult>,
    |
        #![trigger mic_shape(cands, sim, slv, tr, ds), ranked_by(activity, cube, true, ordered)]
        mic_shape(cands, sim, slv, tr, ds) && mic_trace(
            sat,
            activity,
            model,
            frame,
            level,
            false,
            cube,
            before,
            after,
            r,
            ordered,
            cands,
            sim,
            slv,
            tr,
            ds,
        );
    crate::activity::lemma_ranked(activity, cube, true, ordered);
    assert forall|j: int| 0 <= j < ds.len() implies stepped(tr[j], #[trigger] ds[j], tr[j + 1])
        && found_of(ds[j]) == down(tr[j].cube.remove(tr[j].at), tr[j].keep) by {
        assert(probe_ok(sat, activity, model, frame, level, false, tr[j], ds[j], tr[j + 1]));
        let s = tr[j].cube;
        let c = s.remove(tr[j].at);
        assert(s.no_duplicates() && subset(s, ordered));
        lemma_subset_trans(s, ordered, cube);
        lemma_part(s, tr[j].at);
        lemma_subset_trans(c, s, cube);
        crate::cube::lemma_subset_len(s, ordered);
        assert(down_run(
            sat,
            activity,
            model,
            frame,
            level,
            false,
            tr[j].cube.remove(tr[j].at),
            tr[j].keep,
            tr[j].levels,
            tr[j + 1].levels,
            ds[j],
        ));
    }
    lemma_run_from(tr, ds, down, 0);
}

/// What an attempt on `cube` at level `frame` with the literals `keep` to
/// keep and `level` levels of recursion makes of the levels `before`: the
/// levels `after` and the outcome `r`, as some run of it says. See
/// [`down_trace`].
pub open spec fn down_run<S: Fn(SatQuery) -> SatAnswer, A: Fn(ActivityCall) -> Vec<u64>>(
    sat: &S,
    activity: &A,
    model: &Model,
    frame: int,
    level: nat,
    similar: bool,
    cube: Seq<Lit>,
    keep: Set<u32>,
    before: Seq<Seq<Lemma>>,
    after: Seq<Seq<Lemma>>,
    r: DownResult,
) -> bool
    decreases level, 3nat,
{
    exists|rounds: Seq<DownState>, steps: Seq<bool>|
        #[trigger] down_shape(rounds, steps) && down_trace(
            sat,
            activity,
            model,
            frame,
            level,
            similar,
            cube,
            keep,
            before,
            after,
            r,
            rounds,
            steps,
        )
}

/// A run of an attempt: `rounds` are the states from round to round,
/// starting with `cube`, and `steps` says of each round but the last whether
/// it blocked a counterexample to generalization or shrank the cube. Each
/// such round is as [`round_step`] says, and the last ends the attempt as
/// [`round_end`] says.
pub open spec fn down_trace<S: Fn(SatQuery) -> SatAnswer, A: Fn(ActivityCall) -> Vec<u64>>(
    sat: &S,
    activity: &A,
    model: &Model,
    frame: int,
    level: nat,
    similar: bool,
    cube: Seq<Lit>,
    keep: Set<u32>,
    before: Seq<Seq<Lemma>>,
    after: Seq<Seq<Lemma>>,
    r: DownResult,
    rounds: Seq<DownState>,
    steps: Seq<bool>,
) -> bool
    decreases level, 2nat,
{
    &&& rounds.len() == steps.len() + 1
    &&& rounds[0] == (DownState { cube, ctgs: 0, levels: before })
    &&& forall|j: int|
        0 <= j < steps.len() ==> round_step(
            sat,
            activity,
            model,
            frame,
            level,
            similar,
            keep,
            rounds[j],
            #[trigger] steps[j],
            rounds[j + 1],
        )
    &&& round_end(sat, activity, model, frame, level, keep, rounds.last(), r)
    &&& after == rounds.last().levels
}

/// A round of an attempt that does not end it. Recursion is left, no
/// initial state lies in the cube of `a`, the cube was asked about at level
/// `frame` and found not blocked, and a predecessor was lifted from the
/// witness. Where `ctg` holds, the predecessor was open to be treated as a
/// counterexample to generalization and was blocked as [`strengthened`]
/// says; the cube stays and the count goes up. Else the predecessor was not
/// open to that or was found not blocked one level below; the cube shrinks
/// to its literals in the predecessor, the count starts anew and the levels
/// stay.
pub open spec fn round_step<S: Fn(SatQuery) -> SatAnswer, A: Fn(ActivityCall) -> Vec<u64>>(
    sat: &S,
    activity: &A,
    model: &Model,
    frame: int,
    level: nat,
    similar: bool,
    keep: Set<u32>,
    a: DownState,
    ctg: bool,
    b: DownState,
) -> bool
    decreases level, 1nat,
{
    &&& level > 0
    &&& !model.spec_cube_subsume_init(a.cube)
    &&& exists|no: BlockResultNo, pred: Seq<Lit>|
        #![trigger lifted(sat, activity, model, no, pred)]
        {
            &&& answered_ordered(sat, activity, model, frame, a.cube, false, BlockResult::No(no))
            &&& lifted(sat, activity, model, no, pred)
            &&& if ctg {
                &&& ctg_open(model, frame, a.ctgs, pred)
                &&& b.cube == a.cube
                &&& b.ctgs == a.ctgs + 1
                &&& strengthened(
                    sat,
                    activity,
                    model,
                    frame,
                    level,
                    similar,
                    pred,
                    a.levels,
                    b.levels,
                )
            } else {
                &&& !ctg_open(model, frame, a.ctgs, pred) || no_ordered(
                    sat,
                    activity,
                    model,
                    frame - 1,
                    pred,
                )
                &&& spec_shrink(a.cube, ids(pred), keep) == Some(b.cube)
                &&& b.ctgs == 0
                &&& b.levels == a.levels
            }
        }
}

/// The predecessor `pred` was blocked as a counterexample to
/// generalization: it was asked about one level below `frame` and found
/// blocked; its conflict cube was pushed up from `frame` to a level `top`;
/// there it was generalized with one level of recursion less; and the cube
/// that came out was added as a lemma at `top`, which makes the levels
/// `after` of the levels `before`.
pub open spec fn strengthened<S: Fn(SatQuery) -> SatAnswer, A: Fn(ActivityCall) -> Vec<u64>>(
    sat: &S,
    activity: &A,
    model: &Model,
    frame: int,
    level: nat,
    similar: bool,
    pred: Seq<Lit>,
    before: Seq<Seq<Lemma>>,
    after: Seq<Seq<Lemma>>,
) -> bool
    decreases level, 0nat,
{
    level > 0 && exists|y: BlockResultYes, top: int, mid: Seq<Seq<Lemma>>, g: Seq<Lit>|
        #![trigger
            answered_ordered(sat, activity, model, frame - 1, pred, false, BlockResult::Yes(y)),
            added(mid, top, g, after)
        ]
        {
            &&& answered_ordered(sat, activity, model, frame - 1, pred, false, BlockResult::Yes(y))
            &&& pushed(sat, model, conflict_of(model, y), frame, top, before.len() - 1)
            &&& mic_run(
                sat,
                activity,
                model,
                top,
                (level - 1) as nat,
                similar,
                conflict_of(model, y),
                before,
                mid,
                g,
            )
            &&& added(mid, top, g, after)
        }
}

/// The literal with the code `c` was tried and could not be dropped.
pub open spec fn failed_code(tr: Seq<MicState>, ds: Seq<DownResult>, c: u32) -> bool {
    exists|k: int|
        0 <= k < ds.len() && !(#[trigger] ds[k] is Success) && 0 <= tr[k].at < tr[k].cube.len()
            && tr[k].cube[tr[k].at].0 == c
}

/// A run of an attempt shows what the attempt made.
pub proof fn lemma_down_run<S: Fn(SatQuery) -> SatAnswer, A: Fn(ActivityCall) -> Vec<u64>>(
    sat: &S,
    activity: &A,
    model: &Model,
    frame: int,
    level: nat,
    similar: bool,
    cube: Seq<Lit>,
    keep: Set<u32>,
    before: Seq<Seq<Lemma>>,
    after: Seq<Seq<Lemma>>,
    r: DownResult,
    rounds: Seq<DownState>,
    steps: Seq<bool>,
)
    requires
        down_trace(
            sat,
            activity,
            model,
            frame,
            level,
            similar,
            cube,
            keep,
            before,
            after,
            r,
            rounds,
            steps,
        ),
    ensures
        down_run(sat, activity, model, frame, level, similar, cube, keep, before, after, r),
{
    assert(down_shape(rounds, steps));
}

/// A run of a generalization shows what the generalization made.
pub proof fn lemma_mic_run<S: Fn(SatQuery) -> SatAnswer, A: Fn(ActivityCall) -> Vec<u64>>(
    sat: &S,
    activity: &A,
    model: &Model,
    frame: int,
    level: nat,
    similar: bool,
    cube: Seq<Lit>,
    before: Seq<Seq<Lemma>>,
    after: Seq<Seq<Lemma>>,
    r: Seq<Lit>,
    ordered: Seq<Lit>,
    cands: Seq<Seq<Lit>>,
    sim: Seq<DownResult>,
    slv: Seq<Seq<Seq<Lemma>>>,
    tr: Seq<MicState>,
    ds: Seq<DownResult>,
)
    requires
        mic_shape(cands, sim, slv, tr, ds),
        mic_trace(
            sat,
            activity,
            model,
            frame,
            level,
            similar,
            cube,
            before,
            after,
            r,
            ordered,
            cands,
            sim,
            slv,
            tr,
            ds,
        ),
    ensures
        mic_run(sat, activity, model, frame, level, similar, cube, before, after, r),
{
}

/// A counterexample to generalization that was found blocked one level
/// below, pushed up, generalized and added as a lemma was blocked as
/// [`strengthened`] says.
pub proof fn lemma_strengthened<S: Fn(SatQuery) -> SatAnswer, A: Fn(ActivityCall) -> Vec<u64>>(
    sat: &S,
    activity: &A,
    model: &Model,
    frame: int,
    level: nat,
    similar: bool,
    pred: Seq<Lit>,
    before: Seq<Seq<Lemma>>,
    after: Seq<Seq<Lemma>>,
    y: BlockResultYes,
    top: int,
    mid: Seq<Seq<Lemma>>,
    g: Seq<Lit>,
)
    requires
        level > 0,
        answered_ordered(sat, activity, model, frame - 1, pred, false, BlockResult::Yes(y)),
        pushed(sat, model, conflict_of(model, y), frame, top, before.len() - 1),
        mic_run(
            sat,
            activity,
            model,
            top,
            (level - 1) as nat,
            similar,
            conflict_of(model, y),
            before,
            mid,
            g,
        ),
        added(mid, top, g, after),
    ensures
        strengthened(sat, activity, model, frame, level, similar, pred, before, after),
{
}

impl Ic3 {
    /// Tries to find a part of `cube` that is blocked at level `frame`.
    /// The cube is asked about as long as no initial state lies in it. Where
    /// it is blocked, its conflict cube is the result. Where it is not and
    /// `level` is 0, the attempt fails. Else the predecessor found is a
    /// counterexample to generalization: while fewer than three were met
    /// since the cube last shrank, and the level below is not level 0, and
    /// the predecessor excludes the initial states and is blocked one level
    /// below, its conflict cube is pushed up as far as it stays blocked,
    /// generalized with one level of recursion less and added as a lemma,
    /// and the cube is asked about again. Otherwise the cube shrinks to its
    /// literals that hold in the predecessor, and the attempt fails where
    /// that loses a literal of `keep` or no literal at all.
    #[verifier::rlimit(80)]
    pub fn ctg_down<S: Fn(SatQuery) -> SatAnswer, A: Fn(ActivityCall) -> Vec<u64>>(
        &mut self,
        frame: usize,
        cube: &Vec<Lit>,
        keep: &HashSet<u32>,
        level: usize,
        sat: &S,
        activity: &A,
    ) -> (r: DownResult)
        requires
            old(self).wf(),
            1 <= frame < old(self).levels().len(),
            old(self).spec_model().is_state_cube(cube@),
            cube@.no_duplicates(),
            forall|q: SatQuery| call_requires(*sat, (q,)),
            forall|c: ActivityCall| call_requires(*activity, (c,)),
            forall|q: SatQuery, a: SatAnswer|
                call_ensures(*sat, (q,), a) && q.solver == SolverId::Lift ==> a is Unsat,
        ensures
            final(self).wf(),
            final(self).spec_model() == old(self).spec_model(),
            final(self).spec_similar() == old(self).spec_similar(),
            final(self).spec_statistic().grew_from(&old(self).spec_statistic()),
            final(self).levels().len() == old(self).levels().len(),
            final(self).spec_solvers().len() == old(self).spec_solvers().len(),
            down_run(
                sat,
                activity,
                &old(self).spec_model(),
                frame as int,
                level as nat,
                old(self).spec_similar(),
                cube@,
                keep@,
                old(self).levels(),
                final(self).levels(),
                r,
            ),
            r matches DownResult::Success(c) ==> subset(c@, cube@) && c@.no_duplicates()
                && !old(self).spec_model().spec_cube_subsume_init(c@) && found_blocked(
                sat,
                &old(self).spec_model(),
                frame as int,
                c@,
            ),
            old(self).spec_model().spec_cube_subsume_init(cube@) ==> r is IncludeInit
                && final(self).spec_frames() == old(self).spec_frames()
                && final(self).spec_solvers() == old(self).spec_solvers()
                && final(self).spec_lift() == old(self).spec_lift(),
            level == 0 ==> final(self).spec_frames() == old(self).spec_frames()
                && final(self).spec_lift() == old(self).spec_lift()
                && final(self).spec_statistic().mic_drop == old(self).spec_statistic().mic_drop
                && final(self).spec_statistic().num_down == crate::statistic::bump(
                old(self).spec_statistic().num_down,
            ),
            level == 0 && !old(self).spec_model().spec_cube_subsume_init(cube@)
                ==> final(self).spec_solvers()[frame - 1].spec_num_act() == crate::solver::next_usage(
                old(self).spec_solvers()[frame - 1].spec_num_act() as int,
            ) && forall|i: int|
                0 <= i < old(self).spec_solvers().len() && i != frame - 1 ==> (
                #[trigger] final(self).spec_solvers()[i]) == old(self).spec_solvers()[i],
        decreases level, 0int,
    {
        let ghost model = self.spec_model();
        let ghost n_levels = self.levels().len();
        let ghost n_solvers = self.spec_solvers().len();
        let ghost similar = self.spec_similar();
        let ghost levels0 = self.levels();
        let ghost lv = level as nat;
        let ghost fr = frame as int;
        let mut cur = copy(cube);
        let mut ctgs: usize = 0;
        crate::statistic::count(&mut self.statistic.num_down);
        let ghost mut first = true;
        let ghost mut rounds: Seq<DownState> = seq![
            (DownState { cube: cube@, ctgs: 0, levels: levels0 }),
        ];
        let ghost mut steps: Seq<bool> = Seq::empty();
        proof {
            lemma_subset_refl(cube@);
        }
        loop
            invariant
                first ==> cur@ == cube@ && self.spec_frames() == old(self).spec_frames()
                    && self.spec_solvers() == old(self).spec_solvers()
                    && self.spec_lift() == old(self).spec_lift()
                    && self.spec_statistic().mic_drop == old(self).spec_statistic().mic_drop
                    && self.spec_statistic().num_down == crate::statistic::bump(
                    old(self).spec_statistic().num_down,
                ),
                !first ==> level > 0 && !model.spec_cube_subsume_init(cube@),
                rounds.len() == steps.len() + 1,
                rounds[0] == (DownState { cube: cube@, ctgs: 0, levels: levels0 }),
                forall|j: int|
                    0 <= j < steps.len() ==> round_step(
                        sat,
                        activity,
                        &model,
                        fr,
                        lv,
                        similar,
                        keep@,
                        rounds[j],
                        #[trigger] steps[j],
                        rounds[j + 1],
                    ),
                rounds.last() == (DownState {
                    cube: cur@,
                    ctgs: ctgs as int,
                    levels: self.levels(),
                }),
                self.wf(),
                self.spec_model() == model,
                self.levels().len() == n_levels,
                self.spec_solvers().len() == n_solvers,
                self.spec_similar() == similar,
                self.spec_statistic().grew_from(&old(self).spec_statistic()),
                model == old(self).spec_model(),
                levels0 == old(self).levels(),
                lv == level as nat,
                fr == frame as int,
                n_levels == old(self).levels().len(),
                n_solvers == old(self).spec_solvers().len(),
                similar == old(self).spec_similar(),
                1 <= frame < n_levels,
                subset(cur@, cube@),
                cur@.no_duplicates(),
                model.is_state_cube(cur@),
                ctgs <= MAX_CTGS,
                forall|q: SatQuery| call_requires(*sat, (q,)),
                forall|c: ActivityCall| call_requires(*activity, (c,)),
                forall|q: SatQuery, a: SatAnswer|
                    call_ensures(*sat, (q,), a) && q.solver == SolverId::Lift ==> a is Unsat,
            decreases cur@.len(), MAX_CTGS - ctgs,
        {
            let ghost a = rounds.last();
            if self.model.cube_subsume_init(&cur) {
                let r = DownResult::IncludeInit;
                proof {
                    assert(round_end(sat, activity, &model, fr, lv, keep@, a, r));
                    lemma_down_run(
                        sat,
                        activity,
                        &model,
                        fr,
                        lv,
                        similar,
                        cube@,
                        keep@,
                        levels0,
                        self.levels(),
                        r,
                        rounds,
                        steps,
                    );
                }
                return r;
            }
            let ghost was_first = first;
            proof {
                first = false;
            }
            let ghost frames_r = self.spec_frames();
            let res = self.blocked_with_ordered(frame, &cur, false, sat, activity);
            let ghost gres = res;
            match res {
                BlockResult::Yes(y) => {
                    let c = self.blocked_conflict(&y);
                    proof {
                        lemma_permutation(y.cube@, cur@);
                        model.lemma_init_monotone(cur@, y.cube@);
                        lemma_subset_trans(c@, y.cube@, cur@);
                        lemma_subset_trans(c@, cur@, cube@);
                        assert(gres == BlockResult::Yes(y));
                    }
                    let r = DownResult::Success(c);
                    proof {
                        assert(round_end(sat, activity, &model, fr, lv, keep@, a, r));
                        lemma_down_run(
                            sat,
                            activity,
                            &model,
                            fr,
                            lv,
                            similar,
                            cube@,
                            keep@,
                            levels0,
                            self.levels(),
                            r,
                            rounds,
                            steps,
                        );
                    }
                    return r;
                },
                BlockResult::No(n) => {
                    let ghost gn = n;
                    proof {
                        assert(gres == BlockResult::No(gn));
                    }
                    if level == 0 {
                        let r = DownResult::Fail;
                        proof {
                            assert(round_end(sat, activity, &model, fr, lv, keep@, a, r));
                            lemma_down_run(
                                sat,
                                activity,
                                &model,
                                fr,
                                lv,
                                similar,
                                cube@,
                                keep@,
                                levels0,
                                self.levels(),
                                r,
                                rounds,
                                steps,
                            );
                        }
                        return r;
                    }
                    let pred = self.unblocked_model(n, sat, activity);
                    let mut strengthened = false;
                    if ctgs < MAX_CTGS && frame > 1 && !self.model.cube_subsume_init(&pred) {
                        let res2 = self.blocked_with_ordered(frame - 1, &pred, false, sat, activity);
                        let ghost gres2 = res2;
                        match res2 {
                            BlockResult::Yes(y2) => {
                                let conflict = self.blocked_conflict(&y2);
                                proof {
                                    assert(gres2 == BlockResult::Yes(y2));
                                    lemma_permutation(y2.cube@, pred@);
                                    model.lemma_init_monotone(pred@, y2.cube@);
                                    lemma_subset_trans(conflict@, y2.cube@, pred@);
                                    model.lemma_state_subset(conflict@, pred@);
                                }
                                let depth = self.depth();
                                let mut i: usize = frame;
                                let mut holds = true;
                                while i <= depth && holds
                                    invariant
                                        self.wf(),
                                        self.spec_model() == model,
                                        self.spec_frames() == frames_r,
                                        self.levels().len() == n_levels,
                                        self.spec_solvers().len() == n_solvers,
                                        self.spec_similar() == similar,
                                        self.spec_statistic().grew_from(
                                            &old(self).spec_statistic(),
                                        ),
                                        depth + 1 == n_levels,
                                        depth < usize::MAX,
                                        2 <= frame <= i <= depth + 1,
                                        model.is_state_cube(conflict@),
                                        !model.spec_cube_subsume_init(conflict@),
                                        forall|q: SatQuery| call_requires(*sat, (q,)),
                                        forall|i2: int|
                                            frame <= i2 < i ==> #[trigger] yes_at(
                                                sat,
                                                &model,
                                                i2,
                                                conflict@,
                                            ),
                                        !holds ==> i <= depth && no_at(
                                            sat,
                                            &model,
                                            i as int,
                                            conflict@,
                                        ),
                                    decreases
                                            depth + 1 - i + if holds {
                                                1int
                                            } else {
                                                0int
                                            },
                                {
                                    let res3 = self.blocked(i, &conflict, sat);
                                    let ghost g3 = res3;
                                    match res3 {
                                        BlockResult::No(n3) => {
                                            proof {
                                                assert(g3 == BlockResult::No(n3));
                                                assert(no_at(sat, &model, i as int, conflict@));
                                            }
                                            holds = false;
                                        },
                                        BlockResult::Yes(y3) => {
                                            proof {
                                                assert(g3 == BlockResult::Yes(y3));
                                                assert(yes_at(sat, &model, i as int, conflict@));
                                            }
                                            i = i + 1;
                                        },
                                    }
                                }
                                let top = i - 1;
                                let ghost gconf = conflict@;
                                proof {
                                    assert(gconf == conflict_of(&model, y2));
                                    assert(pushed(
                                        sat,
                                        &model,
                                        gconf,
                                        fr,
                                        top as int,
                                        a.levels.len() - 1,
                                    ));
                                }
                                let lemma_cube = self.mic(top, conflict, level - 1, sat, activity);
                                let ghost mid = self.levels();
                                let ghost gg = lemma_cube@;
                                proof {
                                    model.lemma_state_in_range(lemma_cube@);
                                    assert(mic_run(
                                        sat,
                                        activity,
                                        &model,
                                        top as int,
                                        (lv - 1) as nat,
                                        similar,
                                        conflict_of(&model, y2),
                                        a.levels,
                                        mid,
                                        gg,
                                    ));
                                }
                                self.add_cube(top, lemma_cube);
                                ctgs = ctgs + 1;
                                strengthened = true;
                                proof {
                                    let b = DownState {
                                        cube: cur@,
                                        ctgs: ctgs as int,
                                        levels: self.levels(),
                                    };
                                    lemma_strengthened(
                                        sat,
                                        activity,
                                        &model,
                                        fr,
                                        lv,
                                        similar,
                                        pred@,
                                        a.levels,
                                        b.levels,
                                        y2,
                                        top as int,
                                        mid,
                                        gg,
                                    );
                                    assert(round_step(
                                        sat,
                                        activity,
                                        &model,
                                        fr,
                                        lv,
                                        similar,
                                        keep@,
                                        a,
                                        true,
                                        b,
                                    ));
                                    rounds = rounds.push(b);
                                    steps = steps.push(true);
                                }
                            },
                            BlockResult::No(n2) => {
                                proof {
                                    assert(gres2 == BlockResult::No(n2));
                                    assert(no_ordered(sat, activity, &model, fr - 1, pred@));
                                }
                            },
                        }
                    }
                    if !strengthened {
                        proof {
                            assert(!ctg_open(&model, fr, a.ctgs, pred@) || no_ordered(
                                sat,
                                activity,
                                &model,
                                fr - 1,
                                pred@,
                            ));
                        }
                        ctgs = 0;
                        match shrink(&cur, &pred, keep) {
                            None => {
                                let r = DownResult::Fail;
                                proof {
                                    assert(round_end(sat, activity, &model, fr, lv, keep@, a, r));
                                    lemma_down_run(
                                        sat,
                                        activity,
                                        &model,
                                        fr,
                                        lv,
                                        similar,
                                        cube@,
                                        keep@,
                                        levels0,
                                        self.levels(),
                                        r,
                                        rounds,
                                        steps,
                                    );
                                }
                                return r;
                            },
                            Some(next) => {
                                proof {
                                    lemma_subset_trans(next@, cur@, cube@);
                                    model.lemma_state_subset(next@, cur@);
                                    let b = DownState {
                                        cube: next@,
                                        ctgs: 0,
                                        levels: self.levels(),
                                    };
                                    assert(round_step(
                                        sat,
                                        activity,
                                        &model,
                                        fr,
                                        lv,
                                        similar,
                                        keep@,
                                        a,
                                        false,
                                        b,
                                    ));
                                    rounds = rounds.push(b);
                                    steps = steps.push(false);
                                }
                                cur = next;
                            },
                        }
                    }
                },
            }
        }
    }

    /// Shrinks the cube `cube`, known to be blocked at level `frame`, to a
    /// part of it that is still blocked there. The literals are tried in
    /// ascending order of their scores: each in turn is dropped, and stays
    /// out, with whatever else the conflict cube leaves out, where the rest
    /// is found blocked, if need be after blocking up to three
    /// counterexamples to generalization with `level - 1` levels of
    /// recursion left. Where stored lemmas are to be tried first, the at most
    /// three best cubes that a lemma at `frame` or above shares with `cube`
    /// are tried as they are, and the first found blocked ends the search.
    /// The scoring policy is told the cube that comes out.
    pub fn mic<S: Fn(SatQuery) -> SatAnswer, A: Fn(ActivityCall) -> Vec<u64>>(
        &mut self,
        frame: usize,
        cube: Vec<Lit>,
        level: usize,
        sat: &S,
        activity: &A,
    ) -> (r: Vec<Lit>)
        requires
            old(self).wf(),
            1 <= frame < old(self).levels().len(),
            old(self).spec_model().is_state_cube(cube@),
            cube@.no_duplicates(),
            forall|q: SatQuery| call_requires(*sat, (q,)),
            forall|c: ActivityCall| call_requires(*activity, (c,)),
            forall|q: SatQuery, a: SatAnswer|
                call_ensures(*sat, (q,), a) && q.solver == SolverId::Lift ==> a is Unsat,
        ensures
            final(self).wf(),
            final(self).spec_model() == old(self).spec_model(),
            final(self).spec_similar() == old(self).spec_similar(),
            final(self).spec_statistic().grew_from(&old(self).spec_statistic()),
            final(self).levels().len() == old(self).levels().len(),
            final(self).spec_solvers().len() == old(self).spec_solvers().len(),
            mic_run(
                sat,
                activity,
                &old(self).spec_model(),
                frame as int,
                level as nat,
                old(self).spec_similar(),
                cube@,
                old(self).levels(),
                final(self).levels(),
                r@,
            ),
            bumped(activity, r@),
            level == 0 ==> final(self).spec_frames() == old(self).spec_frames()
                && final(self).spec_lift() == old(self).spec_lift(),
            level == 0 ==> final(self).spec_statistic().drops() <= old(self).spec_statistic().drops()
                + cube@.len(),
            subset(r@, cube@),
            r@.len() <= cube@.len(),
            r@.no_duplicates(),
            old(self).spec_model().is_state_cube(r@),
            !old(self).spec_model().spec_cube_subsume_init(cube@)
                ==> !old(self).spec_model().spec_cube_subsume_init(r@),
            r@.to_multiset() == cube@.to_multiset() || found_blocked(
                sat,
                &old(self).spec_model(),
                frame as int,
                r@,
            ),
        decreases level, 1int,
    {
        let ghost model = self.spec_model();
        let ghost n_levels = self.levels().len();
        let ghost n_solvers = self.spec_solvers().len();
        let ghost similar = self.spec_similar();
        let ghost levels0 = self.levels();
        let ghost lv = level as nat;
        let ghost fr = frame as int;
        let ghost cube0 = cube@;
        let ghost drops0 = self.spec_statistic().drops();
        let mut cur = cube;
        self.statistic.average_mic_cube_len.record(cur.len());
        crate::statistic::count(&mut self.statistic.num_mic);
        sort_by_activity(&mut cur, true, activity);
        let ghost ordered = cur@;
        let ghost mut cands_v: Seq<Seq<Lit>> = Seq::empty();
        let ghost mut sim: Seq<DownResult> = Seq::empty();
        let ghost mut slv: Seq<Seq<Seq<Lemma>>> = seq![levels0];
        proof {
            model.lemma_state_subset(cur@, cube0);
            if !model.spec_cube_subsume_init(cube0) {
                model.lemma_init_monotone(cube0, cur@);
            }
        }
        if self.similar {
            let cands = self.frames.similar(&cur, frame);
            let none: HashSet<u32> = HashSet::new();
            proof {
                cands_v = views(cands@);
                let levels = self.levels();
                assert(self.spec_frames().wf());
                assert forall|x: int| 0 <= x < cands@.len() implies subset(
                    (#[trigger] cands@[x])@,
                    cur@,
                ) && cands@[x]@.no_duplicates() by {
                    let s = views(cands@)[x];
                    assert(is_candidate(levels, frame as int, cur@, s));
                    let (a, b) = choose|a: int, b: int|
                        frame <= a < levels.len() && 0 <= b < levels[a].len() && s
                            == #[trigger] overlap(levels, a, b, cur@);
                    assert(level_ok(levels[a]));
                    let l = levels[a][b];
                    assert(l@.no_duplicates());
                    lemma_restrict(l@, ids(cur@));
                    assert forall|m: int| 0 <= m < s.len() implies cur@.contains(
                        #[trigger] s[m],
                    ) by {
                        assert(s.contains(s[m]));
                        assert(ids(cur@).contains(s[m].0));
                    }
                }
            }
            let mut k: usize = 0;
            while k < cands.len()
                invariant
                    k <= cands.len(),
                    cands_v == views(cands@),
                    none@ == Set::<u32>::empty(),
                    top_similar(levels0, fr, ordered, cands_v),
                    sim.len() == k,
                    slv.len() == sim.len() + 1,
                    slv[0] == levels0,
                    slv.last() == self.levels(),
                    forall|x: int|
                        0 <= x < sim.len() ==> down_run(
                            sat,
                            activity,
                            &model,
                            fr,
                            lv,
                            similar,
                            cands_v[x],
                            Set::<u32>::empty(),
                            slv[x],
                            slv[x + 1],
                            #[trigger] sim[x],
                        ),
                    forall|x: int| 0 <= x < sim.len() ==> !(#[trigger] sim[x] is Success),
                    level == 0 ==> self.spec_frames() == old(self).spec_frames()
                        && self.spec_lift() == old(self).spec_lift()
                        && self.spec_statistic().drops() == drops0,
                    self.wf(),
                    self.spec_model() == model,
                    self.levels().len() == n_levels,
                    self.spec_solvers().len() == n_solvers,
                    self.spec_similar() == similar,
                    self.spec_statistic().grew_from(&old(self).spec_statistic()),
                    model == old(self).spec_model(),
                    levels0 == old(self).levels(),
                    lv == level as nat,
                    fr == frame as int,
                    n_levels == old(self).levels().len(),
                    n_solvers == old(self).spec_solvers().len(),
                    similar == old(self).spec_similar(),
                    similar,
                    drops0 == old(self).spec_statistic().drops(),
                    1 <= frame < n_levels,
                    cube0 == cube@,
                    ordered == cur@,
                    ranked_by(activity, cube0, true, ordered),
                    model.is_state_cube(cube0),
                    subset(cur@, cube0),
                    cur@.len() == cube0.len(),
                    model.is_state_cube(cur@),
                    forall|x: int|
                        0 <= x < cands@.len() ==> subset((#[trigger] cands@[x])@, cur@)
                            && cands@[x]@.no_duplicates(),
                    forall|q: SatQuery| call_requires(*sat, (q,)),
                    forall|c: ActivityCall| call_requires(*activity, (c,)),
                    forall|q: SatQuery, a: SatAnswer|
                        call_ensures(*sat, (q,), a) && q.solver == SolverId::Lift ==> a is Unsat,
                decreases cands.len() - k,
            {
                proof {
                    model.lemma_state_subset(cands@[k as int]@, cur@);
                }
                let down = self.ctg_down(frame, &cands[k], &none, level, sat, activity);
                let ghost gdown = down;
                proof {
                    sim = sim.push(gdown);
                    slv = slv.push(self.levels());
                }
                match down {
                    DownResult::Success(found) => {
                        proof {
                            lemma_subset_trans(found@, cands@[k as int]@, cur@);
                            lemma_subset_trans(found@, cur@, cube0);
                            model.lemma_state_subset(found@, cube0);
                            crate::cube::lemma_subset_len(found@, cur@);
                            assert(gdown == DownResult::Success(found));
                            lemma_mic_run(
                                sat,
                                activity,
                                &model,
                                fr,
                                lv,
                                similar,
                                cube0,
                                levels0,
                                self.levels(),
                                found@,
                                ordered,
                                cands_v,
                                sim,
                                slv,
                                Seq::<MicState>::empty(),
                                Seq::<DownResult>::empty(),
                            );
                        }
                        bump_cube_activity(&found, activity);
                        return found;
                    },
                    _ => {},
                }
                k = k + 1;
            }
        }
        let mut keep: HashSet<u32> = HashSet::new();
        let mut i: usize = 0;
        let ghost mut tr: Seq<MicState> = seq![
            (MicState { cube: ordered, at: 0, keep: Set::<u32>::empty(), levels: self.levels() }),
        ];
        let ghost mut ds: Seq<DownResult> = Seq::empty();
        proof {
            lemma_subset_refl(ordered);
        }
        while i < cur.len()
            invariant
                i <= cur.len(),
                ranked_by(activity, cube0, true, ordered),
                ordered.len() == cube0.len(),
                slv.len() == sim.len() + 1,
                slv[0] == levels0,
                if similar {
                    top_similar(levels0, fr, ordered, cands_v) && sim.len() == cands_v.len()
                } else {
                    sim.len() == 0
                },
                forall|x: int|
                    0 <= x < sim.len() ==> down_run(
                        sat,
                        activity,
                        &model,
                        fr,
                        lv,
                        similar,
                        cands_v[x],
                        Set::<u32>::empty(),
                        slv[x],
                        slv[x + 1],
                        #[trigger] sim[x],
                    ),
                forall|x: int| 0 <= x < sim.len() ==> !(#[trigger] sim[x] is Success),
                tr.len() == ds.len() + 1,
                ds.len() + (cur@.len() - i) <= ordered.len(),
                tr[0] == (MicState {
                    cube: ordered,
                    at: 0,
                    keep: Set::<u32>::empty(),
                    levels: slv.last(),
                }),
                forall|k: int|
                    0 <= k < ds.len() ==> probe_ok(
                        sat,
                        activity,
                        &model,
                        fr,
                        lv,
                        similar,
                        tr[k],
                        #[trigger] ds[k],
                        tr[k + 1],
                    ),
                tr.last() == (MicState {
                    cube: cur@,
                    at: i as int,
                    keep: keep@,
                    levels: self.levels(),
                }),
                forall|k: int| 0 <= k < i ==> keep@.contains((#[trigger] cur@[k]).0),
                forall|k: int| i <= k < cur@.len() ==> !keep@.contains((#[trigger] cur@[k]).0),
                forall|c: u32| keep@.contains(c) ==> #[trigger] failed_code(tr, ds, c),
                forall|k: int|
                    0 <= k < tr.len() ==> subset(cur@, (#[trigger] tr[k]).cube) && subset(
                        tr[k].cube,
                        ordered,
                    ) && tr[k].cube.no_duplicates(),
                level == 0 ==> self.spec_frames() == old(self).spec_frames()
                    && self.spec_lift() == old(self).spec_lift()
                    && self.spec_statistic().drops() <= drops0 + ds.len(),
                self.wf(),
                self.spec_model() == model,
                self.levels().len() == n_levels,
                self.spec_solvers().len() == n_solvers,
                self.spec_similar() == similar,
                self.spec_statistic().grew_from(&old(self).spec_statistic()),
                model == old(self).spec_model(),
                levels0 == old(self).levels(),
                lv == level as nat,
                fr == frame as int,
                n_levels == old(self).levels().len(),
                n_solvers == old(self).spec_solvers().len(),
                similar == old(self).spec_similar(),
                drops0 == old(self).spec_statistic().drops(),
                1 <= frame < n_levels,
                cube0 == cube@,
                subset(cur@, cube0),
                cur@.len() <= cube0.len(),
                cur@.no_duplicates(),
                model.is_state_cube(cur@),
                !model.spec_cube_subsume_init(cube0) ==> !model.spec_cube_subsume_init(cur@),
                cur@.to_multiset() == cube0.to_multiset() || found_blocked(
                    sat,
                    &model,
                    frame as int,
                    cur@,
                ),
                forall|q: SatQuery| call_requires(*sat, (q,)),
                forall|c: ActivityCall| call_requires(*activity, (c,)),
                forall|q: SatQuery, a: SatAnswer|
                    call_ensures(*sat, (q,), a) && q.solver == SolverId::Lift ==> a is Unsat,
            decreases cur@.len() - i,
        {
            if keep.contains(&cur[i].0) {
                i = i + 1;
            } else {
                let ghost a = tr.last();
                let ghost before = cur@;
                let mut removed = copy(&cur);
                removed.remove(i);
                proof {
                    let c = cur@;
                    let r = removed@;
                    assert forall|k: int| 0 <= k < r.len() implies c.contains(#[trigger] r[k])
                        && r[k] != c[i as int] by {
                        if k < i {
                            assert(r[k] == c[k]);
                        } else {
                            assert(r[k] == c[k + 1]);
                        }
                    }
                    assert(r.no_duplicates()) by {
                        assert forall|x: int, y: int| 0 <= x < y < r.len() implies r[x] != r[y] by {
                            let cx = if x < i {
                                x
                            } else {
                                x + 1
                            };
                            let cy = if y < i {
                                y
                            } else {
                                y + 1
                            };
                            assert(r[x] == c[cx] && r[y] == c[cy]);
                        }
                    }
                    model.lemma_state_subset(r, c);
                }
                let down = self.ctg_down(frame, &removed, &keep, level, sat, activity);
                let ghost gdown = down;
                match down {
                    DownResult::Success(new_cube) => {
                        proof {
                            assert(gdown == DownResult::Success(new_cube));
                            model.lemma_state_in_range(before);
                            if new_cube@.contains(before[i as int]) {
                                let x = choose|x: int|
                                    0 <= x < new_cube@.len() && new_cube@[x] == before[i as int];
                                assert(removed@.contains(new_cube@[x]));
                            }
                        }
                        self.statistic.drop_result(true);
                        let r = self.handle_down_success(frame, cur, i, new_cube);
                        proof {
                            lemma_subset_trans(r.0@, before, cube0);
                            model.lemma_state_subset(r.0@, before);
                            // every literal of the conflict cube stays
                            assert(subset(new_cube@, r.0@)) by {
                                lemma_restrict(before, ids(new_cube@));
                                assert forall|m: int| 0 <= m < new_cube@.len() implies r.0@.contains(
                                    #[trigger] new_cube@[m],
                                ) by {
                                    let l = new_cube@[m];
                                    assert(removed@.contains(l));
                                    assert(before.contains(l));
                                    assert(new_cube@.contains(Lit(l.0)));
                                    assert(ids(new_cube@).contains(l.0));
                                }
                            }
                            model.lemma_init_monotone(new_cube@, r.0@);
                            assert(subset(r.0@, new_cube@)) by {
                                assert forall|m: int| 0 <= m < r.0@.len() implies new_cube@.contains(
                                    #[trigger] r.0@[m],
                                ) by {
                                    let l = r.0@[m];
                                    assert(r.0@.contains(l));
                                    assert(ids(new_cube@).contains(l.0));
                                    assert(Lit(l.0) == l);
                                }
                            }
                            lemma_found_blocked_same(sat, &model, frame as int, new_cube@, r.0@);
                            let b = MicState {
                                cube: r.0@,
                                at: r.1 as int,
                                keep: keep@,
                                levels: self.levels(),
                            };
                            assert(probe_ok(sat, activity, &model, fr, lv, similar, a, gdown, b));
                            // what stands before the new position was kept before
                            assert forall|k: int| 0 <= k < r.1 implies keep@.contains(
                                (#[trigger] r.0@[k]).0,
                            ) by {
                                let head = before.subrange(0, i as int);
                                assert(head.contains(r.0@[k]));
                                let m = choose|m: int| 0 <= m < head.len() && head[m] == r.0@[k];
                                assert(before[m] == r.0@[k]);
                            }
                            assert forall|k: int| r.1 <= k < r.0@.len() implies !keep@.contains(
                                (#[trigger] r.0@[k]).0,
                            ) by {
                                let tail = before.subrange(i + 1, before.len() as int);
                                assert(tail.contains(r.0@[k]));
                                let m = choose|m: int| 0 <= m < tail.len() && tail[m] == r.0@[k];
                                assert(before[i + 1 + m] == r.0@[k]);
                            }
                            let tr2 = tr.push(b);
                            let ds2 = ds.push(gdown);
                            assert forall|c: u32| keep@.contains(c) implies #[trigger] failed_code(
                                tr2,
                                ds2,
                                c,
                            ) by {
                                assert(failed_code(tr, ds, c));
                                let k = choose|k: int|
                                    0 <= k < ds.len() && !(#[trigger] ds[k] is Success) && 0
                                        <= tr[k].at < tr[k].cube.len() && tr[k].cube[tr[k].at].0
                                        == c;
                                assert(ds2[k] == ds[k] && tr2[k] == tr[k]);
                            }
                            assert forall|k: int| 0 <= k < tr2.len() implies subset(
                                r.0@,
                                (#[trigger] tr2[k]).cube,
                            ) && subset(tr2[k].cube, ordered) && tr2[k].cube.no_duplicates() by {
                                if k < tr.len() {
                                    assert(tr2[k] == tr[k]);
                                    lemma_subset_trans(r.0@, before, tr[k].cube);
                                } else {
                                    lemma_subset_refl(r.0@);
                                    assert(subset(before, tr[0].cube));
                                    lemma_subset_trans(r.0@, before, ordered);
                                }
                            }
                            tr = tr2;
                            ds = ds2;
                        }
                        cur = r.0;
                        i = r.1;
                    },
                    _ => {
                        self.statistic.drop_result(false);
                        keep.insert(cur[i].0);
                        proof {
                            let b = MicState {
                                cube: cur@,
                                at: i + 1,
                                keep: keep@,
                                levels: self.levels(),
                            };
                            assert(!(gdown is Success));
                            assert(probe_ok(sat, activity, &model, fr, lv, similar, a, gdown, b));
                            let tr2 = tr.push(b);
                            let ds2 = ds.push(gdown);
                            assert(ds2[ds.len() as int] == gdown && tr2[ds.len() as int] == a);
                            assert forall|c: u32| keep@.contains(c) implies #[trigger] failed_code(
                                tr2,
                                ds2,
                                c,
                            ) by {
                                if c == cur@[i as int].0 {
                                    assert(!(ds2[ds.len() as int] is Success));
                                } else {
                                    assert(failed_code(tr, ds, c));
                                    let k = choose|k: int|
                                        0 <= k < ds.len() && !(#[trigger] ds[k] is Success) && 0
                                            <= tr[k].at < tr[k].cube.len()
                                            && tr[k].cube[tr[k].at].0 == c;
                                    assert(ds2[k] == ds[k] && tr2[k] == tr[k]);
                                }
                            }
                            assert forall|k: int| 0 <= k < tr2.len() implies subset(
                                cur@,
                                (#[trigger] tr2[k]).cube,
                            ) && subset(tr2[k].cube, ordered) && tr2[k].cube.no_duplicates() by {
                                if k < tr.len() {
                                    assert(tr2[k] == tr[k]);
                                } else {
                                    lemma_subset_refl(cur@);
                                    assert(subset(cur@, tr[0].cube));
                                }
                            }
                            assert forall|k: int| i + 1 <= k < cur@.len() implies !keep@.contains(
                                (#[trigger] cur@[k]).0,
                            ) by {
                                assert(Lit(cur@[k].0) == cur@[k] && Lit(cur@[i as int].0)
                                    == cur@[i as int]);
                            }
                            tr = tr2;
                            ds = ds2;
                        }
                        i = i + 1;
                    },
                }
            }
        }
        proof {
            let r = cur@;
            assert forall|j: int| 0 <= j < r.len() implies failed_on(
                tr,
                ds,
                #[trigger] r[j],
                r,
                ordered,
            ) by {
                assert(keep@.contains(r[j].0));
                assert(failed_code(tr, ds, r[j].0));
                let k = choose|k: int|
                    0 <= k < ds.len() && !(#[trigger] ds[k] is Success) && 0 <= tr[k].at
                        < tr[k].cube.len() && tr[k].cube[tr[k].at].0 == r[j].0;
                assert(Lit(r[j].0) == r[j] && Lit(tr[k].cube[tr[k].at].0) == tr[k].cube[tr[k].at]);
                assert(subset(r, tr[k].cube) && subset(tr[k].cube, ordered));
            }
            lemma_mic_run(
                sat,
                activity,
                &model,
                fr,
                lv,
                similar,
                cube0,
                levels0,
                self.levels(),
                r,
                ordered,
                cands_v,
                sim,
                slv,
                tr,
                ds,
            );
        }
        bump_cube_activity(&cur, activity);
        cur
    }
}

} // verus!
