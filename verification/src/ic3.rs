//! The engine: what it holds, what holds of it between any two calls, and
//! how lemmas are added to it.

use crate::cube::{
    below, lemma_negated, lemma_permutation, lemma_same_lits, lemma_subset_refl, negate, negated,
    sorted, subsumes,
};
use crate::frames::{
    defer_level, lemma_defer_level, lemma_survivors, level_ok, level_subsumes, survivors,
    trivially_contained, Frames,
};
use crate::lemma::Lemma;
use crate::lift::Lift;
use crate::lit::Lit;
use crate::model::Model;
use crate::sat::{
    excludes, in_cube, lemma_excluded_unsat, lemma_excludes_monotone, lemma_excludes_push, sat_all,
};
use crate::solver::{frames_below, unpruned, Ic3Solver};
use crate::statistic::Statistic;
use vstd::prelude::*;

pub mod blocking;
pub mod generalize;

verus! {

/// The solver of level `i` has to exclude the lemmas of level `f`: every
/// level from 1 on holds the lemmas of the levels above it too, and level 0
/// holds its own.
pub open spec fn holds_level(i: int, f: int) -> bool {
    (1 <= i <= f) || (i == 0 && f == 0)
}

/// No stored lemma leaves an initial state in its cube.
pub open spec fn no_init(model: &Model, levels: Seq<Seq<Lemma>>) -> bool {
    forall|i: int, k: int|
        0 <= i < levels.len() && 0 <= k < levels[i].len() ==> !model.spec_cube_subsume_init(
            (#[trigger] levels[i][k])@,
        )
}

/// Each stored lemma is excluded by the clauses asserted in the solver of
/// every level that has to hold it.
pub open spec fn cumulative(levels: Seq<Seq<Lemma>>, solvers: Seq<Ic3Solver>) -> bool {
    forall|f: int, k: int, i: int|
        0 <= f < levels.len() && 0 <= k < levels[f].len() && 0 <= i < solvers.len()
            && holds_level(i, f) ==> excludes(
            (#[trigger] solvers[i]).asserted(),
            (#[trigger] levels[f][k])@,
        )
}

/// `l` is the lemma of the cube `cube`: the same literals in ascending
/// order, with its signature.
pub open spec fn is_lemma_of(l: &Lemma, cube: Seq<Lit>) -> bool {
    l.wf() && l@.to_multiset() == cube.to_multiset()
}

/// The levels after the lemma `lem` was added at level `frame`: at level 0
/// it is stored as it is; above, nothing changes where a lemma at `frame`
/// or higher subsumes it, and else it is stored at `frame` and the lemmas
/// it subsumes leave the levels from 1 to `frame`.
pub open spec fn stored(levels: Seq<Seq<Lemma>>, frame: int, lem: &Lemma) -> Seq<Seq<Lemma>> {
    if frame == 0 {
        levels.update(0, levels[0].push(*lem))
    } else if trivially_contained(levels, frame, lem) {
        levels
    } else {
        Seq::new(
            levels.len(),
            |i: int|
                if 1 <= i < frame {
                    survivors(levels[i], lem)
                } else if i == frame {
                    survivors(levels[i], lem).push(*lem)
                } else {
                    levels[i]
                },
        )
    }
}

/// `after` are the levels `before` with the lemma of `cube` added at
/// level `frame`.
pub open spec fn added(
    before: Seq<Seq<Lemma>>,
    frame: int,
    cube: Seq<Lit>,
    after: Seq<Seq<Lemma>>,
) -> bool {
    exists|lem: Lemma| is_lemma_of(&lem, cube) && after == #[trigger] stored(before, frame, &lem)
}

/// The lowest level whose solver gets the clause of `lem` when it is
/// added at `frame`, or one above `frame` where none gets it.
pub open spec fn first_asserted(levels: Seq<Seq<Lemma>>, frame: int, lem: &Lemma) -> int {
    if frame == 0 {
        0
    } else if trivially_contained(levels, frame, lem) {
        frame + 1
    } else {
        defer_level(levels, frame, lem)
    }
}

/// The cubes of the lemmas of a level.
pub open spec fn lemma_views(level: Seq<Lemma>) -> Seq<Seq<Lit>> {
    Seq::new(level.len(), |k: int| level[k]@)
}

/// The cubes that level 0 starts with, for the first `n` latches: for each
/// latch with an initial value, the literal that contradicts it.
pub open spec fn init_cubes(model: &Model, n: int) -> Seq<Seq<Lit>>
    decreases n,
{
    if n <= 0 {
        Seq::empty()
    } else {
        let rest = init_cubes(model, n - 1);
        let v = model.spec_latchs()[n - 1];
        match model.init_value(v) {
            Some(b) => rest.push(seq![Lit::spec_new(v, !b)]),
            None => rest,
        }
    }
}

/// The engine: the transition system, the trace of frames, and the books
/// of the SAT instance of each level and of the one that shrinks
/// predecessors.
pub struct Ic3 {
    model: Model,
    frames: Frames,
    solvers: Vec<Ic3Solver>,
    lift: Lift,
    statistic: Statistic,
    similar: bool,
}

impl Ic3 {
    /// The transition system.
    pub closed spec fn spec_model(&self) -> Model {
        self.model
    }

    /// The trace of frames.
    pub closed spec fn spec_frames(&self) -> Frames {
        self.frames
    }

    /// The book of the SAT instance of each level.
    pub closed spec fn spec_solvers(&self) -> Seq<Ic3Solver> {
        self.solvers@
    }

    /// The book of the SAT instance that shrinks predecessors.
    pub closed spec fn spec_lift(&self) -> Lift {
        self.lift
    }

    /// The counters of the work done.
    pub closed spec fn spec_statistic(&self) -> Statistic {
        self.statistic
    }

    /// Whether generalization first tries what stored lemmas share with
    /// the cube.
    pub closed spec fn spec_similar(&self) -> bool {
        self.similar
    }

    /// The lemmas of each level.
    pub open spec fn levels(&self) -> Seq<Seq<Lemma>> {
        self.spec_frames().levels()
    }

    /// The parts are well formed and fit together: one solver for each
    /// level, all over the variables of the model; every stored lemma is
    /// over these variables, leaves no initial state in its cube, and is
    /// excluded by the solver of each level that has to hold it.
    pub open spec fn wf(&self) -> bool {
        let model = self.spec_model();
        let levels = self.levels();
        let solvers = self.spec_solvers();
        &&& model.wf()
        &&& self.spec_frames().wf()
        &&& solvers.len() == levels.len()
        &&& self.spec_lift().wf()
        &&& self.spec_lift().spec_base() == model.spec_num_var()
        &&& forall|i: int|
            0 <= i < solvers.len() ==> (#[trigger] solvers[i]).wf() && solvers[i].spec_frame() == i
                && solvers[i].spec_base() == model.spec_num_var()
        &&& frames_below(levels, model.spec_num_var() as int)
        &&& no_init(&model, levels)
        &&& cumulative(levels, solvers)
    }

    /// The engine for `model`, with level 0 alone: it holds, for each
    /// latch with an initial value, the lemma that forbids the other value,
    /// and its solver has the clauses of these lemmas to hand over.
    pub fn new(model: Model, case: &str) -> (r: Ic3)
        requires
            model.wf(),
        ensures
            r.wf(),
            r.spec_statistic().is_fresh(),
            r.spec_statistic().spec_case() == crate::statistic::base_name(case@),
            r.spec_model() == model,
            r.levels().len() == 1,
            r.spec_frames().spec_early() == 1,
            lemma_views(r.levels()[0]) == init_cubes(&model, model.spec_latchs().len() as int),
            r.spec_solvers()[0].asserted() == crate::solver::clauses_of(
                init_cubes(&model, model.spec_latchs().len() as int),
            ),
            r.spec_solvers()[0].spec_temporary().len() == 0,
            r.spec_solvers()[0].spec_num_act() == 0,
            r.spec_solvers()[0].needs_rebuild(),
            r.spec_lift().asserted().len() == 0,
            r.spec_lift().spec_num_act() == 0,
            r.spec_lift().needs_rebuild(),
            !r.spec_similar(),
    {
        let lift = Lift::new(&model);
        let mut ic3 = Ic3 {
            model,
            frames: Frames::new(),
            solvers: Vec::new(),
            lift,
            statistic: Statistic::new(case),
            similar: false,
        };
        proof {
            assert(ic3.levels().len() == 0);
        }
        ic3.new_frame();
        let n = ic3.model.latchs().len();
        let mut i: usize = 0;
        proof {
            assert(lemma_views(ic3.levels()[0]) =~= init_cubes(&model, 0));
            assert(ic3.spec_solvers()[0] == ic3.spec_solvers().last());
            assert(ic3.spec_solvers()[0].asserted() =~= crate::solver::clauses_of(
                init_cubes(&model, 0),
            ));
        }
        while i < n
            invariant
                i <= n,
                n == model.spec_latchs().len(),
                ic3.wf(),
                ic3.spec_model() == model,
                ic3.levels().len() == 1,
                ic3.spec_frames().spec_early() == 1,
                lemma_views(ic3.levels()[0]) == init_cubes(&model, i as int),
                ic3.spec_solvers()[0].asserted() == crate::solver::clauses_of(
                    init_cubes(&model, i as int),
                ),
                ic3.spec_solvers()[0].spec_temporary().len() == 0,
                ic3.spec_solvers()[0].spec_num_act() == 0,
                ic3.spec_solvers()[0].needs_rebuild(),
                ic3.spec_lift().asserted().len() == 0,
                ic3.spec_lift().spec_num_act() == 0,
                ic3.spec_lift().needs_rebuild(),
                !ic3.spec_similar(),
                ic3.spec_statistic().is_fresh(),
                ic3.spec_statistic().spec_case() == crate::statistic::base_name(case@),
            decreases n - i,
        {
            let v = ic3.model.latchs()[i];
            let ghost before = ic3.levels()[0];
            let ghost s0 = ic3.spec_solvers()[0];
            match ic3.model.init_of(v) {
                Some(b) => {
                    let l = Lit::new(v, !b);
                    let mut cube: Vec<Lit> = Vec::new();
                    cube.push(l);
                    proof {
                        assert(cube@ =~= seq![l]);
                        assert(!model.agrees_with_init(cube@[0]));
                    }
                    let lemma = Lemma::new(cube);
                    let ghost lem = lemma;
                    proof {
                        lemma_permutation(lem@, seq![l]);
                        assert(seq![l].contains(lem@[0]));
                        assert(lem@ =~= seq![l]);
                        crate::lit::lemma_lit_parts(l);
                    }
                    ic3.store_first(lemma);
                    proof {
                        let cubes = init_cubes(&model, i as int);
                        assert(lemma_views(ic3.levels()[0]) =~= cubes.push(seq![l]));
                        assert(crate::solver::clauses_of(cubes.push(seq![l]))
                            =~= crate::solver::clauses_of(cubes).push(negated(seq![l])));
                        s0.spec_temporary().lemma_filter_len(
                            |t: Seq<Lit>| !subsumes(lem@, t),
                        );
                    }
                },
                None => {},
            }
            i = i + 1;
        }
        ic3
    }

    /// Sets whether generalization first tries what stored lemmas share
    /// with the cube.
    pub fn set_similar(&mut self, on: bool)
        ensures
            final(self).spec_similar() == on,
            final(self).spec_model() == old(self).spec_model(),
            final(self).spec_statistic() == old(self).spec_statistic(),
            final(self).spec_frames() == old(self).spec_frames(),
            final(self).spec_solvers() == old(self).spec_solvers(),
            final(self).spec_lift() == old(self).spec_lift(),
    {
        self.similar = on;
    }

    /// The transition system.
    pub fn model(&self) -> (m: &Model)
        ensures
            *m == self.spec_model(),
    {
        &self.model
    }

    /// The trace of frames.
    pub fn frames(&self) -> (f: &Frames)
        ensures
            *f == self.spec_frames(),
    {
        &self.frames
    }

    /// The book of the SAT instance of level `i`.
    pub fn solver(&self, i: usize) -> (s: &Ic3Solver)
        requires
            i < self.spec_solvers().len(),
        ensures
            *s == self.spec_solvers()[i as int],
    {
        &self.solvers[i]
    }

    /// The counters of the work done.
    pub fn statistic(&self) -> (s: &Statistic)
        ensures
            *s == self.spec_statistic(),
    {
        &self.statistic
    }

    /// The book of the SAT instance that shrinks predecessors.
    pub fn lift(&self) -> (l: &Lift)
        ensures
            *l == self.spec_lift(),
    {
        &self.lift
    }

    /// The index of the topmost level.
    pub fn depth(&self) -> (d: usize)
        requires
            self.levels().len() >= 1,
        ensures
            d == self.levels().len() - 1,
            d < usize::MAX,
    {
        self.frames.len() - 1
    }

    /// Extends the trace by one empty level with a solver of its own.
    pub fn new_frame(&mut self)
        requires
            old(self).wf(),
        ensures
            final(self).wf(),
            final(self).spec_model() == old(self).spec_model(),
            final(self).spec_similar() == old(self).spec_similar(),
            final(self).spec_statistic() == old(self).spec_statistic(),
            final(self).spec_lift() == old(self).spec_lift(),
            final(self).levels() == old(self).levels().push(Seq::empty()),
            final(self).spec_frames().spec_early() == old(self).spec_frames().spec_early(),
            final(self).spec_solvers().len() == old(self).spec_solvers().len() + 1,
            forall|i: int|
                0 <= i < old(self).spec_solvers().len() ==> final(self).spec_solvers()[i]
                    == old(self).spec_solvers()[i],
            final(self).spec_solvers().last().asserted().len() == 0,
            final(self).spec_solvers().last().spec_temporary().len() == 0,
            final(self).spec_solvers().last().spec_num_act() == 0,
            final(self).spec_solvers().last().needs_rebuild(),
    {
        let n = self.solvers.len();
        self.frames.new_frame();
        let s = Ic3Solver::new(n, &self.model);
        self.solvers.push(s);
        proof {
            let levels = self.levels();
            let before = old(self).levels();
            let solvers = self.spec_solvers();
            assert forall|i: int| 0 <= i < levels.len() implies level_ok(#[trigger] levels[i]) by {
                if i < before.len() {
                    assert(levels[i] == before[i]);
                    assert(level_ok(before[i]));
                }
            }
            assert forall|i: int, k: int|
                0 <= i < levels.len() && 0 <= k < levels[i].len() implies below(
                (#[trigger] levels[i][k])@,
                self.spec_model().spec_num_var() as int,
            ) && !self.spec_model().spec_cube_subsume_init(levels[i][k]@) by {
                assert(levels[i][k] == before[i][k]);
            }
            assert forall|f: int, k: int, i: int|
                0 <= f < levels.len() && 0 <= k < levels[f].len() && 0 <= i < solvers.len()
                    && holds_level(i, f) implies excludes(
                (#[trigger] solvers[i]).asserted(),
                (#[trigger] levels[f][k])@,
            ) by {
                assert(levels[f][k] == before[f][k]);
                assert(solvers[i] == old(self).spec_solvers()[i]);
            }
        }
    }

    /// Stores `lemma` at level 0, the only one, and asserts its clause in
    /// the solver of that level.
    fn store_first(&mut self, lemma: Lemma)
        requires
            old(self).wf(),
            old(self).levels().len() == 1,
            lemma.wf(),
            lemma@.no_duplicates(),
            old(self).spec_model().in_range(lemma@),
            !old(self).spec_model().spec_cube_subsume_init(lemma@),
        ensures
            final(self).wf(),
            final(self).spec_model() == old(self).spec_model(),
            final(self).spec_similar() == old(self).spec_similar(),
            final(self).spec_statistic() == old(self).spec_statistic(),
            final(self).spec_lift() == old(self).spec_lift(),
            final(self).spec_solvers().len() == 1,
            final(self).levels() == old(self).levels().update(
                0,
                old(self).levels()[0].push(lemma),
            ),
            final(self).spec_frames().spec_early() == old(self).spec_frames().spec_early(),
            final(self).spec_solvers()[0].same_counters(&old(self).spec_solvers()[0]),
            final(self).spec_solvers()[0].asserted() == old(self).spec_solvers()[0].asserted().push(
                negated(lemma@),
            ),
            final(self).spec_solvers()[0].spec_pending()
                == old(self).spec_solvers()[0].spec_pending().push(negated(lemma@)),
            final(self).spec_solvers()[0].spec_temporary() == unpruned(
                old(self).spec_solvers()[0].spec_temporary(),
                lemma@,
            ),
    {
        let ghost model = self.spec_model();
        let ghost levels0 = self.levels();
        let ghost solvers0 = self.spec_solvers();
        let ghost nv = model.spec_num_var() as int;
        let ghost lem = lemma;
        proof {
            lemma_negated(lem@, nv);
            assert(solvers0[0].wf());
        }
        let clause = negate(lemma.cube());
        self.solvers[0].add_clause(&clause);
        self.frames.push(0, lemma);
        proof {
            let levels = self.levels();
            let solvers = self.spec_solvers();
            assert(solvers =~= solvers0.update(0, solvers[0]));
            assert(level_ok(levels[0])) by {
                assert(level_ok(levels0[0]));
            }
            assert forall|i: int, k: int|
                0 <= i < levels.len() && 0 <= k < levels[i].len() implies below(
                (#[trigger] levels[i][k])@,
                nv,
            ) && !model.spec_cube_subsume_init(levels[i][k]@) by {
                if k < levels0[0].len() {
                    assert(levels[i][k] == levels0[i][k]);
                }
            }
            lemma_subset_refl(negated(lem@));
            lemma_excludes_push(solvers0[0].asserted(), negated(lem@), lem@);
            assert forall|f: int, k: int, i: int|
                0 <= f < levels.len() && 0 <= k < levels[f].len() && 0 <= i < solvers.len()
                    && holds_level(i, f) implies excludes(
                (#[trigger] solvers[i]).asserted(),
                (#[trigger] levels[f][k])@,
            ) by {
                if k < levels0[0].len() {
                    assert(levels[f][k] == levels0[f][k]);
                    assert(excludes(solvers0[i].asserted(), levels0[f][k]@));
                    lemma_excludes_push(solvers0[0].asserted(), negated(lem@), levels0[f][k]@);
                }
            }
        }
    }

    /// Adds the cube as a lemma at level `frame`: stores it there, drops
    /// the lemmas that it subsumes at the levels from 1 to `frame`, and
    /// asserts its clause in the solvers of the levels that do not hold a
    /// lemma subsuming it. Nothing happens where a lemma at `frame` or above
    /// subsumes it already. At level 0, which then is the only one, the
    /// lemma is stored and asserted as it is.
    pub fn add_cube(&mut self, frame: usize, cube: Vec<Lit>)
        requires
            old(self).wf(),
            frame < old(self).levels().len(),
            frame == 0 ==> old(self).levels().len() == 1,
            cube@.no_duplicates(),
            old(self).spec_model().in_range(cube@),
            !old(self).spec_model().spec_cube_subsume_init(cube@),
        ensures
            final(self).wf(),
            final(self).spec_model() == old(self).spec_model(),
            final(self).spec_similar() == old(self).spec_similar(),
            final(self).spec_statistic() == old(self).spec_statistic(),
            final(self).spec_lift() == old(self).spec_lift(),
            final(self).spec_solvers().len() == old(self).spec_solvers().len(),
            final(self).levels().len() == old(self).levels().len(),
            added(old(self).levels(), frame as int, cube@, final(self).levels()),
            no_init(&final(self).spec_model(), final(self).levels()),
            exists|lem: Lemma|
                {
                    let begin = first_asserted(old(self).levels(), frame as int, &lem);
                    &&& is_lemma_of(&lem, cube@)
                    &&& #[trigger] stored(old(self).levels(), frame as int, &lem) == final(self).levels()
                    &&& final(self).spec_frames().spec_early() == if begin
                        < old(self).spec_frames().spec_early() && 1 <= begin <= frame {
                        begin as usize
                    } else {
                        old(self).spec_frames().spec_early()
                    }
                    &&& forall|i: int|
                        0 <= i < old(self).spec_solvers().len() && !(begin <= i <= frame) ==> (
                        #[trigger] final(self).spec_solvers()[i]) == old(self).spec_solvers()[i]
                    &&& forall|i: int|
                        begin <= i <= frame ==> {
                            let s = #[trigger] final(self).spec_solvers()[i];
                            let o = old(self).spec_solvers()[i];
                            &&& s.same_counters(&o)
                            &&& s.asserted() == o.asserted().push(negated(lem@))
                            &&& s.spec_pending() == o.spec_pending().push(negated(lem@))
                            &&& s.spec_temporary() == unpruned(o.spec_temporary(), lem@)
                        }
                },
            forall|i: int|
                holds_level(i, frame as int) ==> excludes(
                    (#[trigger] final(self).spec_solvers()[i]).asserted(),
                    cube@,
                ),
            forall|other: Lemma|
                subsumes(cube@, other@) ==> #[trigger] trivially_contained(
                    final(self).levels(),
                    frame as int,
                    &other,
                ),
    {
        let ghost model = self.spec_model();
        let ghost levels0 = self.levels();
        let ghost solvers0 = self.spec_solvers();
        let ghost nv = model.spec_num_var() as int;
        let lemma = Lemma::new(cube);
        let ghost lem = lemma;
        proof {
            lemma_permutation(lem@, cube@);
            lemma_same_lits(lem@, cube@, cube@, nv);
            model.lemma_init_monotone(cube@, lem@);
            lemma_negated(lem@, nv);
            assert(negated(negated(lem@)) == lem@);
        }
        if frame == 0 {
            self.store_first(lemma);
            proof {
                let levels = self.levels();
                let solvers = self.spec_solvers();
                assert(levels == stored(levels0, 0, &lem));
                lemma_subset_refl(negated(lem@));
                lemma_excludes_push(solvers0[0].asserted(), negated(lem@), lem@);
                lemma_excludes_monotone(solvers[0].asserted(), lem@, cube@);
                assert forall|other: Lemma| subsumes(cube@, other@) implies #[trigger]
                    trivially_contained(levels, 0, &other) by {
                    crate::cube::lemma_subset_trans(lem@, cube@, other@);
                    assert(levels[0][levels0[0].len() as int] == lem);
                    assert(lem.spec_subsume(&other));
                    assert(level_subsumes(levels[0], &other));
                }
            }
            return ;
        }
        if self.frames.trivial_contained(frame, &lemma) {
            proof {
                let j = choose|j: int|
                    frame <= j < levels0.len() && level_subsumes(#[trigger] levels0[j], &lem);
                let k = choose|k: int|
                    0 <= k < levels0[j].len() && (#[trigger] levels0[j][k]).spec_subsume(&lem);
                let l = levels0[j][k];
                crate::cube::lemma_subset_trans(l@, lem@, cube@);
                assert forall|i: int| holds_level(i, frame as int) implies excludes(
                    (#[trigger] solvers0[i]).asserted(),
                    cube@,
                ) by {
                    assert(holds_level(i, j));
                    assert(excludes(solvers0[i].asserted(), levels0[j][k]@));
                    lemma_excludes_monotone(solvers0[i].asserted(), l@, cube@);
                }
                assert forall|other: Lemma| subsumes(cube@, other@) implies #[trigger]
                    trivially_contained(levels0, frame as int, &other) by {
                    crate::cube::lemma_subset_trans(l@, cube@, other@);
                    assert(levels0[j][k].spec_subsume(&other));
                    assert(level_subsumes(levels0[j], &other));
                }
                assert(stored(levels0, frame as int, &lem) == levels0);
            }
            return ;
        }
        let clause = negate(lemma.cube());
        let begin = self.frames.insert(frame, lemma);
        let ghost levels = self.levels();
        proof {
            lemma_defer_level(levels0, frame as int, &lem);
            assert(levels =~= stored(levels0, frame as int, &lem));
        }
        let n = self.solvers.len();
        let mut i: usize = begin;
        while i <= frame
            invariant
                begin <= i <= frame + 1,
                frame < n,
                n == solvers0.len(),
                self.spec_solvers().len() == n,
                self.spec_model() == model,
                self.spec_similar() == old(self).spec_similar(),
                self.spec_statistic() == old(self).spec_statistic(),
                self.spec_lift() == old(self).spec_lift(),
                self.levels() == levels,
                self.spec_frames().spec_early() == if old(self).spec_frames().spec_early()
                    < begin {
                    old(self).spec_frames().spec_early()
                } else {
                    begin
                },
                clause@ == negated(lem@),
                negated(negated(lem@)) == lem@,
                below(clause@, nv),
                forall|j: int|
                    0 <= j < n ==> (#[trigger] solvers0[j]).wf() && solvers0[j].spec_base() == nv,
                forall|j: int|
                    0 <= j < n && !(begin <= j < i) ==> (#[trigger] self.spec_solvers()[j])
                        == solvers0[j],
                forall|j: int|
                    begin <= j < i ==> {
                        let s = #[trigger] self.spec_solvers()[j];
                        let o = solvers0[j];
                        &&& s.wf()
                        &&& s.same_counters(&o)
                        &&& s.asserted() == o.asserted().push(negated(lem@))
                        &&& s.spec_pending() == o.spec_pending().push(negated(lem@))
                        &&& s.spec_temporary() == unpruned(o.spec_temporary(), lem@)
                    },
            decreases frame + 1 - i,
        {
            let ghost cur = self.spec_solvers();
            assert(cur[i as int] == solvers0[i as int]);
            self.solvers[i].add_clause(&clause);
            proof {
                assert(self.spec_solvers() =~= cur.update(i as int, self.spec_solvers()[i as int]));
            }
            i = i + 1;
        }
        proof {
            let solvers = self.spec_solvers();
            let b = begin as int;
            assert forall|j: int| 0 <= j < solvers.len() implies (#[trigger] solvers[j]).wf()
                && solvers[j].spec_frame() == j && solvers[j].spec_base() == nv by {
                if b <= j <= frame {
                    assert(solvers[j].same_counters(&solvers0[j]));
                }
            }
            // what stays was there before, and the new lemma is fine
            assert forall|f: int, k: int| 0 <= f < levels.len() && 0 <= k < levels[f].len()
                && !(f == frame && k == levels[f].len() - 1) implies exists|m: int|
                0 <= m < levels0[f].len() && levels0[f][m] == #[trigger] levels[f][k] by {
                if 1 <= f <= frame {
                    lemma_survivors(levels0[f], &lem);
                    let sv = survivors(levels0[f], &lem);
                    assert(levels[f][k] == sv[k]);
                    assert(levels0[f].contains(sv[k]));
                } else {
                    assert(levels[f][k] == levels0[f][k]);
                }
            }
            assert(levels[frame as int][levels[frame as int].len() - 1] == lem);
            assert forall|f: int, k: int|
                0 <= f < levels.len() && 0 <= k < levels[f].len() implies below(
                (#[trigger] levels[f][k])@,
                nv,
            ) && !model.spec_cube_subsume_init(levels[f][k]@) by {
                if !(f == frame && k == levels[f].len() - 1) {
                    let m = choose|m: int| 0 <= m < levels0[f].len() && levels0[f][m] == levels[f][k];
                    assert(below(levels0[f][m]@, nv));
                }
            }
            // every solver holds what it held, and more
            assert forall|j: int, c: Seq<Lit>|
                0 <= j < solvers.len() && #[trigger] excludes(
                    solvers0[j].asserted(),
                    c,
                ) implies excludes(solvers[j].asserted(), c) by {
                if b <= j <= frame {
                    lemma_excludes_push(solvers0[j].asserted(), negated(lem@), c);
                }
            }
            // the new lemma is excluded at every level up to its own
            assert forall|j: int| 1 <= j <= frame implies excludes(
                (#[trigger] solvers[j]).asserted(),
                lem@,
            ) by {
                if j >= b {
                    lemma_subset_refl(negated(lem@));
                    lemma_excludes_push(solvers0[j].asserted(), negated(lem@), lem@);
                } else {
                    let lv = levels0[b - 1];
                    assert(level_subsumes(lv, &lem));
                    let m = choose|m: int| 0 <= m < lv.len() && (#[trigger] lv[m]).spec_subsume(&lem);
                    assert(holds_level(j, b - 1));
                    assert(excludes(solvers0[j].asserted(), levels0[b - 1][m]@));
                    lemma_excludes_monotone(solvers0[j].asserted(), lv[m]@, lem@);
                }
            }
            assert forall|f: int, k: int, j: int|
                0 <= f < levels.len() && 0 <= k < levels[f].len() && 0 <= j < solvers.len()
                    && holds_level(j, f) implies excludes(
                (#[trigger] solvers[j]).asserted(),
                (#[trigger] levels[f][k])@,
            ) by {
                if !(f == frame && k == levels[f].len() - 1) {
                    let m = choose|m: int| 0 <= m < levels0[f].len() && levels0[f][m] == levels[f][k];
                    assert(excludes(solvers0[j].asserted(), levels0[f][m]@));
                }
            }
            assert forall|j: int| holds_level(j, frame as int) implies excludes(
                (#[trigger] solvers[j]).asserted(),
                cube@,
            ) by {
                lemma_excludes_monotone(solvers[j].asserted(), lem@, cube@);
            }
            assert forall|other: Lemma| subsumes(cube@, other@) implies #[trigger]
                trivially_contained(levels, frame as int, &other) by {
                crate::cube::lemma_subset_trans(lem@, cube@, other@);
                assert(lem.spec_subsume(&other));
                assert(level_subsumes(levels[frame as int], &other));
            }
            assert(first_asserted(levels0, frame as int, &lem) == b);
        }
    }

    /// Asserts the clause that excludes `cube` for the time being in the
    /// solvers of the levels from 1 to `frame`. A solver in which a
    /// temporary cube already subsumes `cube` stays as it is.
    pub fn add_temporary(&mut self, frame: usize, cube: &Vec<Lit>)
        requires
            old(self).wf(),
            frame < old(self).levels().len(),
            old(self).spec_model().in_range(cube@),
        ensures
            final(self).wf(),
            final(self).spec_model() == old(self).spec_model(),
            final(self).spec_similar() == old(self).spec_similar(),
            final(self).spec_statistic() == old(self).spec_statistic(),
            final(self).spec_frames() == old(self).spec_frames(),
            final(self).spec_lift() == old(self).spec_lift(),
            final(self).spec_solvers().len() == old(self).spec_solvers().len(),
            forall|i: int|
                0 <= i < old(self).spec_solvers().len() && !(1 <= i <= frame) ==> (
                #[trigger] final(self).spec_solvers()[i]) == old(self).spec_solvers()[i],
            forall|i: int|
                1 <= i <= frame ==> {
                    let s = #[trigger] final(self).spec_solvers()[i];
                    let o = old(self).spec_solvers()[i];
                    &&& s.same_counters(&o)
                    &&& crate::solver::covered_by(o.spec_temporary(), cube@) ==> s.asserted()
                        == o.asserted() && s.spec_temporary() == o.spec_temporary()
                    &&& !crate::solver::covered_by(o.spec_temporary(), cube@) ==> s.asserted()
                        == o.asserted().push(negated(cube@)) && s.spec_temporary().len() > 0
                        && s.spec_temporary().drop_last() == unpruned(o.spec_temporary(), cube@)
                        && sorted(s.spec_temporary().last())
                        && s.spec_temporary().last().to_multiset() == cube@.to_multiset()
                },
    {
        let ghost model = self.spec_model();
        let ghost levels = self.levels();
        let ghost solvers0 = self.spec_solvers();
        let ghost nv = model.spec_num_var() as int;
        let clause = negate(cube);
        proof {
            lemma_negated(cube@, nv);
            assert(negated(negated(cube@)) == cube@);
        }
        let n = self.solvers.len();
        let mut i: usize = 1;
        while i <= frame
            invariant
                1 <= i <= frame + 1,
                frame < n,
                n == solvers0.len(),
                self.spec_solvers().len() == n,
                self.spec_model() == model,
                self.spec_similar() == old(self).spec_similar(),
                self.spec_statistic() == old(self).spec_statistic(),
                self.spec_frames() == old(self).spec_frames(),
                self.spec_lift() == old(self).spec_lift(),
                clause@ == negated(cube@),
                negated(negated(cube@)) == cube@,
                below(clause@, nv),
                forall|j: int|
                    0 <= j < n ==> (#[trigger] solvers0[j]).wf() && solvers0[j].spec_base() == nv,
                forall|j: int|
                    0 <= j < n && !(1 <= j < i) ==> (#[trigger] self.spec_solvers()[j])
                        == solvers0[j],
                forall|j: int|
                    1 <= j < i ==> {
                        let s = #[trigger] self.spec_solvers()[j];
                        let o = solvers0[j];
                        &&& s.wf()
                        &&& s.same_counters(&o)
                        &&& crate::solver::covered_by(o.spec_temporary(), cube@) ==> s.asserted()
                            == o.asserted() && s.spec_temporary() == o.spec_temporary()
                        &&& !crate::solver::covered_by(o.spec_temporary(), cube@) ==> s.asserted()
                            == o.asserted().push(negated(cube@)) && s.spec_temporary().len() > 0
                            && s.spec_temporary().drop_last() == unpruned(o.spec_temporary(), cube@)
                            && sorted(s.spec_temporary().last())
                            && s.spec_temporary().last().to_multiset() == cube@.to_multiset()
                    },
            decreases frame + 1 - i,
        {
            let ghost cur = self.spec_solvers();
            assert(cur[i as int] == solvers0[i as int]);
            self.solvers[i].add_temporary_clause(&clause);
            proof {
                assert(self.spec_solvers() =~= cur.update(i as int, self.spec_solvers()[i as int]));
            }
            i = i + 1;
        }
        proof {
            let solvers = self.spec_solvers();
            assert forall|j: int| 0 <= j < solvers.len() implies (#[trigger] solvers[j]).wf()
                && solvers[j].spec_frame() == j && solvers[j].spec_base() == nv by {
                if 1 <= j <= frame {
                    assert(solvers[j].same_counters(&solvers0[j]));
                }
            }
            assert forall|f: int, k: int, j: int|
                0 <= f < levels.len() && 0 <= k < levels[f].len() && 0 <= j < solvers.len()
                    && holds_level(j, f) implies excludes(
                (#[trigger] solvers[j]).asserted(),
                (#[trigger] levels[f][k])@,
            ) by {
                assert(excludes(solvers0[j].asserted(), levels[f][k]@));
                if 1 <= j <= frame {
                    lemma_excludes_push(solvers0[j].asserted(), negated(cube@), levels[f][k]@);
                }
            }
        }
    }

    /// The frames are cumulative: no state in the cube of a lemma stored at
    /// level `f` satisfies the clauses asserted in the solver of a level
    /// from 1 to `f`.
    pub proof fn lemma_frames_cumulative(&self, f: int, k: int, i: int, state: Set<u32>)
        requires
            self.wf(),
            0 <= f < self.levels().len(),
            0 <= k < self.levels()[f].len(),
            1 <= i <= f,
            in_cube(state, self.levels()[f][k]@),
        ensures
            !sat_all(state, self.spec_solvers()[i].asserted()),
    {
        assert(holds_level(i, f));
        assert(excludes(self.spec_solvers()[i].asserted(), self.levels()[f][k]@));
        lemma_excluded_unsat(self.spec_solvers()[i].asserted(), self.levels()[f][k]@, state);
    }

    /// No stored lemma leaves an initial state in its cube, and none of
    /// them is subsumed by the cube of the initial values.
    pub proof fn lemma_stored_excludes_init(&self, f: int, k: int)
        requires
            self.wf(),
            0 <= f < self.levels().len(),
            0 <= k < self.levels()[f].len(),
        ensures
            !self.spec_model().spec_cube_subsume_init(self.levels()[f][k]@),
            exists|i: int|
                0 <= i < self.levels()[f][k]@.len() && !self.spec_model().agrees_with_init(
                    #[trigger] self.levels()[f][k]@[i],
                ),
    {
    }
}

} // verus!
