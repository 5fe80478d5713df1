//! Blocking queries: whether a cube can be reached in one step from a
//! level, the conflict cube where it cannot, and the shrunk predecessor
//! where it can.

use crate::activity::{ranked_by, sort_by_activity};
use crate::cube::{
    below, copy, id_set, ids, lemma_restrict, lemma_subset_trans, restrict, retain_in, same_lits,
    subset, views,
};
use crate::lift::{assignment, lemma_assignment, lift_effect, spec_assignment};
use crate::sat::ActivityCall;
use vstd::pervasive::unreached;
use crate::ic3::{holds_level, Ic3};
use crate::lit::Lit;
use crate::model::Model;
use crate::sat::{excludes, lemma_excludes_push, SatAnswer, SatQuery, SolverId};
use crate::lemma::Lemma;
use crate::lift::Lift;
use crate::solver::{block_effect, Ic3Solver};
use std::collections::HashSet;
use vstd::prelude::*;
use vstd::std_specs::hash::*;

verus! {

broadcast use group_hash_axioms;

/// A cube found blocked: no state that satisfies the clauses of the level
/// below leads into it in one step.
#[derive(Debug)]
pub struct BlockResultYes {
    /// The level whose solver was asked.
    pub solver: usize,
    /// The cube asked about, in the order in which it was asked.
    pub cube: Vec<Lit>,
    /// The next-state form of the cube, literal by literal.
    pub assumption: Vec<Lit>,
    /// The assumptions that took part in the refutation.
    pub core: Vec<Lit>,
}

/// A cube found not blocked: a state that satisfies the clauses of the
/// level below leads into it in one step.
#[derive(Debug)]
pub struct BlockResultNo {
    /// The level whose solver was asked.
    pub solver: usize,
    /// The next-state form of the cube, literal by literal.
    pub assumption: Vec<Lit>,
    /// The literals that hold in the witness found.
    pub model: Vec<Lit>,
}

/// The outcome of a blocking query.
#[derive(Debug)]
pub enum BlockResult {
    /// The cube is blocked.
    Yes(BlockResultYes),
    /// The cube is not blocked.
    No(BlockResultNo),
}

/// The outcome of a blocking query on `cube`, with next-state form `next`,
/// that the solver of level `solver` answered with `answer`.
pub open spec fn spec_block_result(
    solver: usize,
    cube: Seq<Lit>,
    next: Seq<Lit>,
    answer: SatAnswer,
    r: BlockResult,
) -> bool {
    match answer {
        SatAnswer::Unsat(core) => r matches BlockResult::Yes(y) && y.solver == solver && y.cube@
            == cube && y.assumption@ == next && y.core@ == core@,
        SatAnswer::Sat(model) => r matches BlockResult::No(n) && n.solver == solver
            && n.assumption@ == next && n.model@ == model@,
    }
}

/// The outcome of a blocking query on `cube`, with next-state form `next`,
/// that the solver of level `solver` answered with `answer`: blocked where
/// the answer is unsatisfiable, and not blocked, with the witness, where it
/// is satisfiable.
pub fn block_result(solver: usize, cube: Vec<Lit>, next: Vec<Lit>, answer: SatAnswer) -> (r:
    BlockResult)
    ensures
        spec_block_result(solver, cube@, next@, answer, r),
{
    match answer {
        SatAnswer::Unsat(core) => BlockResult::Yes(
            BlockResultYes { solver, cube, assumption: next, core },
        ),
        SatAnswer::Sat(model) => BlockResult::No(BlockResultNo { solver, assumption: next, model }),
    }
}

/// The literals of `cube` whose next-state form, at the same position of
/// `next`, is in `core`, and the literal `extra` wherever it stands; in
/// their order in `cube`.
pub open spec fn picked(cube: Seq<Lit>, next: Seq<Lit>, core: Set<u32>, extra: Option<Lit>) -> Seq<
    Lit,
>
    decreases cube.len(),
{
    if cube.len() == 0 || next.len() == 0 {
        Seq::empty()
    } else {
        let rest = picked(cube.drop_last(), next.drop_last(), core, extra);
        if core.contains(next.last().0) || extra == Some(cube.last()) {
            rest.push(cube.last())
        } else {
            rest
        }
    }
}

/// The first literal of `cube`, from position `i` on, that contradicts an
/// initial value.
pub open spec fn first_off_init(model: &Model, cube: Seq<Lit>, i: int) -> Option<Lit>
    decreases cube.len() - i,
{
    if i < 0 || i >= cube.len() {
        None
    } else if !model.agrees_with_init(cube[i]) {
        Some(cube[i])
    } else {
        first_off_init(model, cube, i + 1)
    }
}

/// The conflict cube of a blocked cube: its literals whose next-state
/// forms took part in the refutation. Where an initial state lies in that
/// cube, the first literal of the blocked cube that contradicts an initial
/// value is put back.
pub open spec fn spec_conflict(model: &Model, cube: Seq<Lit>, next: Seq<Lit>, core: Set<u32>) -> Seq<
    Lit,
> {
    let plain = picked(cube, next, core, None);
    if model.spec_cube_subsume_init(plain) {
        picked(cube, next, core, first_off_init(model, cube, 0))
    } else {
        plain
    }
}

/// The conflict cube of a cube found blocked.
pub open spec fn conflict_of(model: &Model, y: BlockResultYes) -> Seq<Lit> {
    spec_conflict(model, y.cube@, y.assumption@, ids(y.core@))
}

/// `q` is a blocking query on `cube` at level `frame`, made of the book
/// of the solver of the level below as [`block_effect`] says, with the
/// clause that excludes `cube` under a fresh activation literal; and `a` is
/// what the solver answered to it.
pub open spec fn asked<S: Fn(SatQuery) -> SatAnswer>(
    sat: &S,
    model: &Model,
    frame: int,
    cube: Seq<Lit>,
    q: SatQuery,
    a: SatAnswer,
) -> bool {
    &&& call_ensures(*sat, (q,), a)
    &&& exists|o: Ic3Solver, s: Ic3Solver, levels: Seq<Seq<Lemma>>|
        o.spec_frame() == frame - 1 && #[trigger] block_effect(
            &o,
            &s,
            levels,
            cube,
            model.spec_cube_next(cube),
            &q,
        )
}

/// `cube` was asked about at level `frame`, and `r` is the outcome that
/// the answer gives.
pub open spec fn answered<S: Fn(SatQuery) -> SatAnswer>(
    sat: &S,
    model: &Model,
    frame: int,
    cube: Seq<Lit>,
    r: BlockResult,
) -> bool {
    exists|q: SatQuery, a: SatAnswer|
        #[trigger] asked(sat, model, frame, cube, q, a) && spec_block_result(
            (frame - 1) as usize,
            cube,
            model.spec_cube_next(cube),
            a,
            r,
        )
}

/// `cube` was asked about at level `frame` with its literals in the order
/// of their scores, and `r` is the outcome that the answer gives.
pub open spec fn answered_ordered<S: Fn(SatQuery) -> SatAnswer, A: Fn(ActivityCall) -> Vec<u64>>(
    sat: &S,
    activity: &A,
    model: &Model,
    frame: int,
    cube: Seq<Lit>,
    ascending: bool,
    r: BlockResult,
) -> bool {
    exists|ordered: Seq<Lit>|
        #[trigger] ranked_by(activity, cube, ascending, ordered) && ordered.to_multiset()
            == cube.to_multiset() && answered(sat, model, frame, ordered, r)
}

/// `cube` was asked about at level `frame` and found blocked.
pub open spec fn yes_at<S: Fn(SatQuery) -> SatAnswer>(
    sat: &S,
    model: &Model,
    frame: int,
    cube: Seq<Lit>,
) -> bool {
    exists|y: BlockResultYes| #[trigger] answered(sat, model, frame, cube, BlockResult::Yes(y))
}

/// `cube` was asked about at level `frame` and found not blocked.
pub open spec fn no_at<S: Fn(SatQuery) -> SatAnswer>(
    sat: &S,
    model: &Model,
    frame: int,
    cube: Seq<Lit>,
) -> bool {
    exists|n: BlockResultNo| #[trigger] answered(sat, model, frame, cube, BlockResult::No(n))
}

/// `pred` is the predecessor that lifting made of the witness `no`: the
/// latch literals of the witness were put in descending order of their
/// scores and assumed after an activation literal and the input literals of
/// the witness, the answer was "unsatisfiable", and `pred` holds the latch
/// literals that took part in the refutation.
pub open spec fn lifted<S: Fn(SatQuery) -> SatAnswer, A: Fn(ActivityCall) -> Vec<u64>>(
    sat: &S,
    activity: &A,
    model: &Model,
    no: BlockResultNo,
    pred: Seq<Lit>,
) -> bool {
    exists|ordered: Seq<Lit>, q: SatQuery, core: Vec<Lit>|
        #![trigger call_ensures(*sat, (q,), SatAnswer::Unsat(core)), restrict(ordered, ids(core@))]
        {
            &&& ranked_by(
                activity,
                spec_assignment(model.spec_latchs(), ids(no.model@)),
                false,
                ordered,
            )
            &&& call_ensures(*sat, (q,), SatAnswer::Unsat(core))
            &&& exists|o: Lift, s: Lift|
                #[trigger] lift_effect(
                    &o,
                    &s,
                    no.assumption@,
                    spec_assignment(model.spec_inputs(), ids(no.model@)),
                    ordered,
                    &q,
                )
            &&& pred == restrict(ordered, ids(core@))
        }
}

/// The solver of the level below `frame` answered a blocking query with
/// "unsatisfiable", and `c` holds exactly the literals of the conflict cube
/// of that answer.
pub open spec fn found_blocked<S: Fn(SatQuery) -> SatAnswer>(
    sat: &S,
    model: &Model,
    frame: int,
    c: Seq<Lit>,
) -> bool {
    exists|cube: Seq<Lit>, y: BlockResultYes|
        #[trigger] answered(sat, model, frame, cube, BlockResult::Yes(y)) && same_lits(
            c,
            conflict_of(model, y),
        )
}

/// A cube with the literals of one found blocked counts as found blocked.
pub proof fn lemma_found_blocked_same<S: Fn(SatQuery) -> SatAnswer>(
    sat: &S,
    model: &Model,
    frame: int,
    c: Seq<Lit>,
    d: Seq<Lit>,
)
    requires
        found_blocked(sat, model, frame, c),
        same_lits(d, c),
    ensures
        found_blocked(sat, model, frame, d),
{
    let (cube, y) = choose|cube: Seq<Lit>, y: BlockResultYes|
        #[trigger] answered(sat, model, frame, cube, BlockResult::Yes(y)) && same_lits(
            c,
            conflict_of(model, y),
        );
    let k = conflict_of(model, y);
    lemma_subset_trans(d, c, k);
    lemma_subset_trans(k, c, d);
}

/// What [`picked`] picks are literals of the cube, each once if each was
/// there once, and the extra literal is among them if it is in the cube.
pub proof fn lemma_picked(cube: Seq<Lit>, next: Seq<Lit>, core: Set<u32>, extra: Option<Lit>)
    requires
        cube.len() == next.len(),
    ensures
        subset(picked(cube, next, core, extra), cube),
        picked(cube, next, core, extra).len() <= cube.len(),
        cube.no_duplicates() ==> picked(cube, next, core, extra).no_duplicates(),
        extra is Some && cube.contains(extra.unwrap()) ==> picked(
            cube,
            next,
            core,
            extra,
        ).contains(extra.unwrap()),
    decreases cube.len(),
{
    let r = picked(cube, next, core, extra);
    if cube.len() > 0 {
        let ch = cube.drop_last();
        let nh = next.drop_last();
        let rest = picked(ch, nh, core, extra);
        lemma_picked(ch, nh, core, extra);
        assert forall|i: int| 0 <= i < r.len() implies cube.contains(#[trigger] r[i]) by {
            if i < rest.len() {
                assert(r[i] == rest[i]);
                assert(ch.contains(rest[i]));
                let m = choose|m: int| 0 <= m < ch.len() && ch[m] == rest[i];
                assert(cube[m] == ch[m]);
            } else {
                assert(r[i] == cube[cube.len() - 1]);
            }
        }
        if cube.no_duplicates() {
            assert(ch.no_duplicates());
            assert forall|x: int, y: int| 0 <= x < y < r.len() implies r[x] != r[y] by {
                if y >= rest.len() {
                    assert(r[x] == rest[x]);
                    assert(ch.contains(rest[x]));
                    let m = choose|m: int| 0 <= m < ch.len() && ch[m] == rest[x];
                    assert(cube[m] != cube[cube.len() - 1]);
                }
            }
        }
        if let Some(l) = extra {
            if cube.contains(l) {
                let m = choose|m: int| 0 <= m < cube.len() && cube[m] == l;
                if m < ch.len() {
                    assert(ch[m] == l);
                    assert(rest.contains(l));
                    let x = choose|x: int| 0 <= x < rest.len() && rest[x] == l;
                    assert(r[x] == l);
                } else {
                    assert(r[r.len() - 1] == l);
                }
            }
        }
    }
}

/// A cube in which no initial state lies has a first literal that
/// contradicts an initial value.
pub proof fn lemma_first_off_init(model: &Model, cube: Seq<Lit>, i: int)
    requires
        0 <= i <= cube.len(),
        exists|k: int| i <= k < cube.len() && !model.agrees_with_init(#[trigger] cube[k]),
    ensures
        first_off_init(model, cube, i) matches Some(l) && cube.contains(l)
            && !model.agrees_with_init(l),
    decreases cube.len() - i,
{
    let k = choose|k: int| i <= k < cube.len() && !model.agrees_with_init(#[trigger] cube[k]);
    if model.agrees_with_init(cube[i]) {
        assert(k > i);
        lemma_first_off_init(model, cube, i + 1);
    }
}

/// The conflict cube holds literals of the blocked cube only, and no
/// initial state lies in it if none lies in the blocked cube.
pub proof fn lemma_conflict(model: &Model, cube: Seq<Lit>, next: Seq<Lit>, core: Set<u32>)
    requires
        cube.len() == next.len(),
    ensures
        subset(spec_conflict(model, cube, next, core), cube),
        spec_conflict(model, cube, next, core).len() <= cube.len(),
        cube.no_duplicates() ==> spec_conflict(model, cube, next, core).no_duplicates(),
        !model.spec_cube_subsume_init(cube) ==> !model.spec_cube_subsume_init(
            spec_conflict(model, cube, next, core),
        ),
{
    lemma_picked(cube, next, core, None);
    let extra = first_off_init(model, cube, 0);
    lemma_picked(cube, next, core, extra);
    if !model.spec_cube_subsume_init(cube) && model.spec_cube_subsume_init(
        picked(cube, next, core, None),
    ) {
        lemma_first_off_init(model, cube, 0);
        let r = picked(cube, next, core, extra);
        let l = extra.unwrap();
        let x = choose|x: int| 0 <= x < r.len() && r[x] == l;
        assert(!model.agrees_with_init(r[x]));
    }
}

/// The literals of `cube` whose next-state form is in `core`, and `extra`
/// wherever it stands.
fn pick(cube: &Vec<Lit>, next: &Vec<Lit>, core: &HashSet<u32>, extra: Option<Lit>) -> (r: Vec<Lit>)
    requires
        cube@.len() == next@.len(),
    ensures
        r@ == picked(cube@, next@, core@, extra),
{
    let mut r: Vec<Lit> = Vec::new();
    let mut i: usize = 0;
    assert(cube@.subrange(0, 0) =~= Seq::<Lit>::empty());
    while i < cube.len()
        invariant
            i <= cube.len(),
            cube@.len() == next@.len(),
            r@ == picked(cube@.subrange(0, i as int), next@.subrange(0, i as int), core@, extra),
        decreases cube.len() - i,
    {
        proof {
            let c = cube@.subrange(0, i + 1);
            let n = next@.subrange(0, i + 1);
            assert(c.drop_last() =~= cube@.subrange(0, i as int));
            assert(n.drop_last() =~= next@.subrange(0, i as int));
            assert(c.last() == cube@[i as int]);
            assert(n.last() == next@[i as int]);
        }
        let is_extra = match extra {
            Some(l) => l == cube[i],
            None => false,
        };
        if core.contains(&next[i].0) || is_extra {
            r.push(cube[i]);
        }
        i = i + 1;
    }
    proof {
        assert(cube@.subrange(0, cube@.len() as int) =~= cube@);
        assert(next@.subrange(0, next@.len() as int) =~= next@);
    }
    r
}

/// The first literal of `cube` that contradicts an initial value.
fn find_off_init(model: &Model, cube: &Vec<Lit>) -> (r: Option<Lit>)
    ensures
        r == first_off_init(model, cube@, 0),
{
    let mut i: usize = 0;
    while i < cube.len()
        invariant
            i <= cube.len(),
            first_off_init(model, cube@, 0) == first_off_init(model, cube@, i as int),
        decreases cube.len() - i,
    {
        let l = cube[i];
        let off = match model.init_of(l.var()) {
            Some(v) => v != l.polarity(),
            None => false,
        };
        if off {
            return Some(l);
        }
        i = i + 1;
    }
    None
}

/// The conflict cube of a cube found blocked: the part of it that the
/// refutation used, with one literal that contradicts an initial value put
/// back where an initial state would lie in that part.
pub fn conflict_cube(model: &Model, block: &BlockResultYes) -> (r: Vec<Lit>)
    requires
        block.cube@.len() == block.assumption@.len(),
    ensures
        r@ == spec_conflict(model, block.cube@, block.assumption@, ids(block.core@)),
        subset(r@, block.cube@),
        r@.len() <= block.cube@.len(),
        block.cube@.no_duplicates() ==> r@.no_duplicates(),
        !model.spec_cube_subsume_init(block.cube@) ==> !model.spec_cube_subsume_init(r@),
{
    proof {
        lemma_conflict(model, block.cube@, block.assumption@, ids(block.core@));
    }
    let core = id_set(&block.core);
    let plain = pick(&block.cube, &block.assumption, &core, None);
    if model.cube_subsume_init(&plain) {
        let extra = find_off_init(model, &block.cube);
        pick(&block.cube, &block.assumption, &core, extra)
    } else {
        plain
    }
}

impl Ic3 {
    /// Asks whether `cube` is blocked at level `frame`: whether no state
    /// that satisfies the clauses of level `frame - 1` and lies outside
    /// `cube` leads into `cube` in one step. The solver of level
    /// `frame - 1` is used once more, and rebuilt first where that is due.
    pub fn blocked<S: Fn(SatQuery) -> SatAnswer>(&mut self, frame: usize, cube: &Vec<Lit>, sat: &S) -> (r:
        BlockResult)
        requires
            old(self).wf(),
            1 <= frame <= old(self).levels().len(),
            old(self).spec_model().is_state_cube(cube@),
            !old(self).spec_model().spec_cube_subsume_init(cube@),
            forall|q: SatQuery| call_requires(*sat, (q,)),
        ensures
            final(self).wf(),
            final(self).spec_model() == old(self).spec_model(),
            final(self).spec_similar() == old(self).spec_similar(),
            final(self).spec_statistic().after_block(
                &old(self).spec_statistic(),
                old(self).spec_solvers()[frame - 1].spec_num_act() + 1 > crate::model::RESTART_THRESHOLD,
            ),
            final(self).spec_frames() == old(self).spec_frames(),
            final(self).spec_lift() == old(self).spec_lift(),
            final(self).spec_solvers().len() == old(self).spec_solvers().len(),
            forall|i: int|
                0 <= i < old(self).spec_solvers().len() && i != frame - 1 ==> (
                #[trigger] final(self).spec_solvers()[i]) == old(self).spec_solvers()[i],
            exists|q: SatQuery, a: SatAnswer|
                {
                    &&& #[trigger] call_ensures(*sat, (q,), a)
                    &&& block_effect(
                        &old(self).spec_solvers()[frame - 1],
                        &final(self).spec_solvers()[frame - 1],
                        old(self).levels(),
                        cube@,
                        old(self).spec_model().spec_cube_next(cube@),
                        &q,
                    )
                    &&& spec_block_result(
                        (frame - 1) as usize,
                        cube@,
                        old(self).spec_model().spec_cube_next(cube@),
                        a,
                        r,
                    )
                },
            answered(sat, &old(self).spec_model(), frame as int, cube@, r),
            final(self).spec_solvers()[frame - 1].spec_num_act() == crate::solver::next_usage(
                old(self).spec_solvers()[frame - 1].spec_num_act() as int,
            ),
            r matches BlockResult::Yes(y) ==> y.cube@ == cube@ && y.assumption@.len()
                == cube@.len() && found_blocked(
                sat,
                &old(self).spec_model(),
                frame as int,
                spec_conflict(&old(self).spec_model(), y.cube@, y.assumption@, ids(y.core@)),
            ),
            r matches BlockResult::No(n) ==> old(self).spec_model().in_range(n.assumption@),
    {
        let ghost levels = self.levels();
        let ghost solvers0 = self.spec_solvers();
        let ghost model = self.spec_model();
        let idx = frame - 1;
        let next = self.model.cube_next(cube);
        proof {
            model.lemma_state_in_range(cube@);
            model.lemma_next_in_range(cube@);
            assert(solvers0[idx as int].wf());
        }
        let rebuilt = self.solvers[idx].touch(&self.frames);
        crate::statistic::count(&mut self.statistic.num_sat_inductive);
        if rebuilt {
            crate::statistic::count(&mut self.statistic.num_solver_restart);
        }
        let ghost mid = self.spec_solvers()[idx as int];
        let q = self.solvers[idx].block_query(cube, &next);
        let ghost mid2 = self.spec_solvers()[idx as int];
        let act = q.assumptions[q.assumptions.len() - 1];
        let ghost gq = q;
        let answer = sat(q);
        let ghost ga = answer;
        assert(act == mid.next_act());
        self.solvers[idx].release(act);
        proof {
            let solvers = self.spec_solvers();
            let s = solvers[idx as int];
            let o = solvers0[idx as int];
            assert(solvers =~= solvers0.update(idx as int, s));
            assert(s.spec_pending() =~= seq![seq![act.not()]]);
            assert(rebuilt == (o.spec_num_act() + 1 > crate::model::RESTART_THRESHOLD));
            if rebuilt {
                assert(mid.rebuilt_from(&o, levels));
            }
            assert(block_effect(&o, &s, levels, cube@, next@, &gq));
            // the solver still excludes every lemma it has to hold
            assert forall|f: int, k: int|
                0 <= f < levels.len() && 0 <= k < levels[f].len() && holds_level(
                    idx as int,
                    f,
                ) implies excludes(s.asserted(), (#[trigger] levels[f][k])@) by {
                let c = levels[f][k]@;
                if rebuilt {
                    assert(excludes(mid.asserted(), c));
                } else {
                    assert(excludes(o.asserted(), levels[f][k]@));
                    assert(mid.asserted() == o.asserted());
                }
                let guard = crate::cube::negated(cube@).push(mid.next_act().not());
                lemma_excludes_push(mid.asserted(), guard, c);
                lemma_excludes_push(mid.asserted().push(guard), seq![act.not()], c);
            }
            assert forall|f: int, k: int, i: int|
                0 <= f < levels.len() && 0 <= k < levels[f].len() && 0 <= i < solvers.len()
                    && holds_level(i, f) implies excludes(
                (#[trigger] solvers[i]).asserted(),
                (#[trigger] levels[f][k])@,
            ) by {
                if i != idx {
                    assert(solvers[i] == solvers0[i]);
                }
            }
        }
        let r = block_result(idx, copy(cube), next, answer);
        proof {
            assert(solvers0[idx as int].spec_frame() == idx);
            assert(asked(sat, &model, frame as int, cube@, gq, ga));
            assert(answered(sat, &model, frame as int, cube@, r));
            if r is Yes {
                let y = r->Yes_0;
                crate::cube::lemma_subset_refl(conflict_of(&model, y));
                assert(r == BlockResult::Yes(y));
                assert(found_blocked(sat, &model, frame as int, conflict_of(&model, y)));
            }
        }
        r
    }

    /// Asks whether no state satisfies the clauses of level `frame` and
    /// lies in `cube`.
    pub fn sat_contained<S: Fn(SatQuery) -> SatAnswer>(
        &mut self,
        frame: usize,
        cube: &Vec<Lit>,
        sat: &S,
    ) -> (r: bool)
        requires
            old(self).wf(),
            frame < old(self).levels().len(),
            forall|q: SatQuery| call_requires(*sat, (q,)),
        ensures
            final(self).wf(),
            final(self).spec_model() == old(self).spec_model(),
            final(self).spec_similar() == old(self).spec_similar(),
            final(self).spec_statistic() == old(self).spec_statistic(),
            final(self).spec_frames() == old(self).spec_frames(),
            final(self).spec_lift() == old(self).spec_lift(),
            final(self).spec_solvers().len() == old(self).spec_solvers().len(),
            forall|i: int|
                0 <= i < old(self).spec_solvers().len() && i != frame ==> (
                #[trigger] final(self).spec_solvers()[i]) == old(self).spec_solvers()[i],
            ({
                let s = final(self).spec_solvers()[frame as int];
                let o = old(self).spec_solvers()[frame as int];
                &&& s.same_counters_but_rebuild(&o)
                &&& s.asserted() == o.asserted()
                &&& s.spec_temporary() == o.spec_temporary()
                &&& s.spec_pending().len() == 0
                &&& !s.needs_rebuild()
            }),
            exists|q: SatQuery, a: SatAnswer|
                {
                    &&& #[trigger] call_ensures(*sat, (q,), a)
                    &&& q.solver == SolverId::Frame(frame)
                    &&& q.rebuild == old(self).spec_solvers()[frame as int].needs_rebuild()
                    &&& views(q.clauses@) == old(self).spec_solvers()[frame as int].spec_pending()
                    &&& q.assumptions@ == cube@
                    &&& r == (a is Unsat)
                },
    {
        let ghost levels = self.levels();
        let ghost solvers0 = self.spec_solvers();
        assert(solvers0[frame as int].wf());
        let q = self.solvers[frame].plain_query(cube);
        let ghost gq = q;
        let answer = sat(q);
        proof {
            let solvers = self.spec_solvers();
            assert(solvers =~= solvers0.update(frame as int, solvers[frame as int]));
            assert forall|f: int, k: int, i: int|
                0 <= f < levels.len() && 0 <= k < levels[f].len() && 0 <= i < solvers.len()
                    && holds_level(i, f) implies excludes(
                (#[trigger] solvers[i]).asserted(),
                (#[trigger] levels[f][k])@,
            ) by {
                assert(excludes(solvers0[i].asserted(), levels[f][k]@));
            }
        }
        match answer {
            SatAnswer::Unsat(_) => true,
            SatAnswer::Sat(_) => false,
        }
    }

    /// The conflict cube of a cube found blocked. See [`conflict_cube`].
    pub fn blocked_conflict(&self, block: &BlockResultYes) -> (r: Vec<Lit>)
        requires
            block.cube@.len() == block.assumption@.len(),
        ensures
            r@ == spec_conflict(
                &self.spec_model(),
                block.cube@,
                block.assumption@,
                ids(block.core@),
            ),
            subset(r@, block.cube@),
            r@.len() <= block.cube@.len(),
            block.cube@.no_duplicates() ==> r@.no_duplicates(),
            !self.spec_model().spec_cube_subsume_init(block.cube@)
                ==> !self.spec_model().spec_cube_subsume_init(r@),
    {
        conflict_cube(&self.model, block)
    }
}

impl Ic3 {
    /// Asks whether `cube` is blocked at level `frame`, with the literals
    /// of `cube` put in the order of their scores first: the lowest first if
    /// `ascending`, the highest first if not. The order decides which
    /// literals the conflict or the witness is likely to hold.
    pub fn blocked_with_ordered<S: Fn(SatQuery) -> SatAnswer, A: Fn(ActivityCall) -> Vec<u64>>(
        &mut self,
        frame: usize,
        cube: &Vec<Lit>,
        ascending: bool,
        sat: &S,
        activity: &A,
    ) -> (r: BlockResult)
        requires
            old(self).wf(),
            1 <= frame <= old(self).levels().len(),
            old(self).spec_model().is_state_cube(cube@),
            !old(self).spec_model().spec_cube_subsume_init(cube@),
            forall|q: SatQuery| call_requires(*sat, (q,)),
            forall|c: ActivityCall| call_requires(*activity, (c,)),
        ensures
            final(self).wf(),
            final(self).spec_model() == old(self).spec_model(),
            final(self).spec_similar() == old(self).spec_similar(),
            final(self).spec_statistic().after_block(
                &old(self).spec_statistic(),
                old(self).spec_solvers()[frame - 1].spec_num_act() + 1 > crate::model::RESTART_THRESHOLD,
            ),
            final(self).spec_frames() == old(self).spec_frames(),
            final(self).spec_lift() == old(self).spec_lift(),
            final(self).spec_solvers().len() == old(self).spec_solvers().len(),
            forall|i: int|
                0 <= i < old(self).spec_solvers().len() && i != frame - 1 ==> (
                #[trigger] final(self).spec_solvers()[i]) == old(self).spec_solvers()[i],
            exists|ordered: Seq<Lit>, q: SatQuery, a: SatAnswer|
                {
                    &&& ranked_by(activity, cube@, ascending, ordered)
                    &&& ordered.to_multiset() == cube@.to_multiset()
                    &&& #[trigger] call_ensures(*sat, (q,), a)
                    &&& block_effect(
                        &old(self).spec_solvers()[frame - 1],
                        &final(self).spec_solvers()[frame - 1],
                        old(self).levels(),
                        ordered,
                        old(self).spec_model().spec_cube_next(ordered),
                        &q,
                    )
                    &&& #[trigger] spec_block_result(
                        (frame - 1) as usize,
                        ordered,
                        old(self).spec_model().spec_cube_next(ordered),
                        a,
                        r,
                    )
                },
            answered_ordered(
                sat,
                activity,
                &old(self).spec_model(),
                frame as int,
                cube@,
                ascending,
                r,
            ),
            final(self).spec_solvers()[frame - 1].spec_num_act() == crate::solver::next_usage(
                old(self).spec_solvers()[frame - 1].spec_num_act() as int,
            ),
            r matches BlockResult::Yes(y) ==> y.cube@.to_multiset() == cube@.to_multiset()
                && y.assumption@.len() == y.cube@.len() && found_blocked(
                sat,
                &old(self).spec_model(),
                frame as int,
                spec_conflict(&old(self).spec_model(), y.cube@, y.assumption@, ids(y.core@)),
            ),
            r matches BlockResult::No(n) ==> old(self).spec_model().in_range(n.assumption@),
    {
        let mut ordered = copy(cube);
        sort_by_activity(&mut ordered, ascending, activity);
        proof {
            let model = self.spec_model();
            model.lemma_state_subset(ordered@, cube@);
            model.lemma_init_monotone(cube@, ordered@);
        }
        self.blocked(frame, &ordered, sat)
    }

    /// The cube of latch literals that the witness of a cube found not
    /// blocked gives, shrunk to a part of it that with the witness's inputs
    /// still forces the step into the cube.
    pub fn minimal_predecessor<S: Fn(SatQuery) -> SatAnswer, A: Fn(ActivityCall) -> Vec<u64>>(
        &mut self,
        unblock: BlockResultNo,
        sat: &S,
        activity: &A,
    ) -> (r: Vec<Lit>)
        requires
            old(self).wf(),
            old(self).spec_model().in_range(unblock.assumption@),
            forall|q: SatQuery| call_requires(*sat, (q,)),
            forall|c: ActivityCall| call_requires(*activity, (c,)),
            forall|q: SatQuery, a: SatAnswer|
                call_ensures(*sat, (q,), a) && q.solver == SolverId::Lift ==> a is Unsat,
        ensures
            final(self).wf(),
            final(self).spec_model() == old(self).spec_model(),
            final(self).spec_similar() == old(self).spec_similar(),
            final(self).spec_statistic() == old(self).spec_statistic(),
            final(self).spec_frames() == old(self).spec_frames(),
            final(self).spec_solvers() == old(self).spec_solvers(),
            final(self).spec_model().is_state_cube(r@),
            r@.no_duplicates(),
            subset(
                r@,
                spec_assignment(old(self).spec_model().spec_latchs(), ids(unblock.model@)),
            ),
            lifted(sat, activity, &old(self).spec_model(), unblock, r@),
            exists|ordered: Seq<Lit>, q: SatQuery, core: Vec<Lit>|
                {
                    &&& ranked_by(
                        activity,
                        spec_assignment(old(self).spec_model().spec_latchs(), ids(unblock.model@)),
                        false,
                        ordered,
                    )
                    &&& #[trigger] call_ensures(*sat, (q,), SatAnswer::Unsat(core))
                    &&& lift_effect(
                        &old(self).spec_lift(),
                        &final(self).spec_lift(),
                        unblock.assumption@,
                        spec_assignment(old(self).spec_model().spec_inputs(), ids(unblock.model@)),
                        ordered,
                        &q,
                    )
                    &&& r@ == #[trigger] restrict(ordered, ids(core@))
                },
    {
        let ghost model = self.spec_model();
        let ghost lift0 = self.spec_lift();
        let rebuilt = self.lift.touch();
        let ghost mid = self.spec_lift();
        let holds = id_set(&unblock.model);
        let inputs = assignment(self.model.inputs(), &holds);
        let mut latchs = assignment(self.model.latchs(), &holds);
        let ghost plain = latchs@;
        proof {
            lemma_assignment(model.spec_latchs(), holds@);
            assert(model.is_state_cube(plain)) by {
                assert forall|i: int| 0 <= i < plain.len() implies model.is_state_lit(
                    #[trigger] plain[i],
                ) by {
                    let v = plain[i].var();
                    assert(model.spec_latchs().contains(v));
                    let m = choose|m: int|
                        0 <= m < model.spec_latchs().len() && model.spec_latchs()[m] == v;
                    assert(model.next_of(model.spec_latchs()[m]) is Some);
                }
            }
        }
        sort_by_activity(&mut latchs, false, activity);
        let q = self.lift.query(&unblock.assumption, &inputs, &latchs);
        let act = q.assumptions[0];
        let ghost gq = q;
        let answer = sat(q);
        assert(act == mid.next_act());
        self.lift.release(act);
        proof {
            assert(self.spec_lift().spec_pending() =~= seq![seq![act.not()]]);
            if rebuilt {
                assert(mid.asserted() =~= Seq::<Seq<Lit>>::empty());
                assert(mid.spec_pending() =~= Seq::<Seq<Lit>>::empty());
            }
            assert(lift_effect(&lift0, &self.spec_lift(), unblock.assumption@, inputs@, latchs@, &gq));
        }
        match answer {
            SatAnswer::Unsat(core) => {
                let keep = id_set(&core);
                let r = retain_in(&latchs, &keep);
                proof {
                    lemma_restrict(latchs@, keep@);
                    lemma_subset_trans(r@, latchs@, plain);
                    model.lemma_state_subset(r@, plain);
                    assert(call_ensures(*sat, (gq,), SatAnswer::Unsat(core)));
                }
                r
            },
            SatAnswer::Sat(_) => unreached(),
        }
    }

    /// The predecessor cube that the witness of a cube found not blocked
    /// gives. See [`Ic3::minimal_predecessor`].
    pub fn unblocked_model<S: Fn(SatQuery) -> SatAnswer, A: Fn(ActivityCall) -> Vec<u64>>(
        &mut self,
        unblock: BlockResultNo,
        sat: &S,
        activity: &A,
    ) -> (r: Vec<Lit>)
        requires
            old(self).wf(),
            old(self).spec_model().in_range(unblock.assumption@),
            forall|q: SatQuery| call_requires(*sat, (q,)),
            forall|c: ActivityCall| call_requires(*activity, (c,)),
            forall|q: SatQuery, a: SatAnswer|
                call_ensures(*sat, (q,), a) && q.solver == SolverId::Lift ==> a is Unsat,
        ensures
            final(self).wf(),
            final(self).spec_model() == old(self).spec_model(),
            final(self).spec_similar() == old(self).spec_similar(),
            final(self).spec_statistic() == old(self).spec_statistic(),
            final(self).spec_frames() == old(self).spec_frames(),
            final(self).spec_solvers() == old(self).spec_solvers(),
            final(self).spec_model().is_state_cube(r@),
            r@.no_duplicates(),
            subset(
                r@,
                spec_assignment(old(self).spec_model().spec_latchs(), ids(unblock.model@)),
            ),
            lifted(sat, activity, &old(self).spec_model(), unblock, r@),
            exists|ordered: Seq<Lit>, q: SatQuery, core: Vec<Lit>|
                {
                    &&& ranked_by(
                        activity,
                        spec_assignment(old(self).spec_model().spec_latchs(), ids(unblock.model@)),
                        false,
                        ordered,
                    )
                    &&& #[trigger] call_ensures(*sat, (q,), SatAnswer::Unsat(core))
                    &&& lift_effect(
                        &old(self).spec_lift(),
                        &final(self).spec_lift(),
                        unblock.assumption@,
                        spec_assignment(old(self).spec_model().spec_inputs(), ids(unblock.model@)),
                        ordered,
                        &q,
                    )
                    &&& r@ == #[trigger] restrict(ordered, ids(core@))
                },
    {
        self.minimal_predecessor(unblock, sat, activity)
    }
}

} // verus!
