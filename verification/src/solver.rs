//! The book of the SAT instance of one level of the trace.

use crate::cube::{
    all_below, below, copy, lemma_filter_no_duplicates, lemma_negated, lemma_permutation,
    lemma_same_lits, negate, negated, ordered_subsume, sort, sorted, subsumes, subsumption_free,
    views,
};
use crate::cube::lemma_subset_refl;
use crate::frames::Frames;
use crate::lemma::Lemma;
use crate::lit::{Lit, Var, MAX_VAR};
use crate::model::{Model, ACT_ROOM, RESTART_THRESHOLD};
use crate::sat::{excludes, lemma_excludes_push, SatQuery, SolverId};
use vstd::prelude::*;

verus! {

/// The temporary cubes that the cube `c` does not make redundant.
pub open spec fn unpruned(ts: Seq<Seq<Lit>>, c: Seq<Lit>) -> Seq<Seq<Lit>> {
    ts.filter(|t: Seq<Lit>| !subsumes(c, t))
}

/// Some cube of the list subsumes `c`.
pub open spec fn covered_by(ts: Seq<Seq<Lit>>, c: Seq<Lit>) -> bool {
    exists|k: int| 0 <= k < ts.len() && subsumes(#[trigger] ts[k], c)
}

/// The clauses of a list of cubes: each cube negated.
pub open spec fn clauses_of(cubes: Seq<Seq<Lit>>) -> Seq<Seq<Lit>> {
    Seq::new(cubes.len(), |k: int| negated(cubes[k]))
}

/// The clauses of the first `k` lemmas of a level.
pub open spec fn level_clauses(level: Seq<Lemma>, k: int) -> Seq<Seq<Lit>> {
    Seq::new(k as nat, |b: int| negated(level[b]@))
}

/// The clauses of the lemmas of the levels from `from` up to, not
/// including, `to`, level by level.
pub open spec fn replay(levels: Seq<Seq<Lemma>>, from: int, to: int) -> Seq<Seq<Lit>>
    decreases to - from,
{
    if to <= from {
        Seq::empty()
    } else {
        replay(levels, from, to - 1) + level_clauses(levels[to - 1], levels[to - 1].len() as int)
    }
}

/// Every stored lemma is over variables with an index under `n`.
pub open spec fn frames_below(levels: Seq<Seq<Lemma>>, n: int) -> bool {
    forall|i: int, k: int|
        0 <= i < levels.len() && 0 <= k < levels[i].len() ==> below(
            (#[trigger] levels[i][k])@,
            n,
        )
}

/// The levels whose lemmas the instance of level `frame` holds: level 0
/// alone for the first, and every level from `frame` on for the others.
pub open spec fn slice_of(frame: int, len: int) -> (int, int) {
    if frame == 0 {
        (0, 1)
    } else {
        (frame, len)
    }
}

/// What a blocking query on `cube`, with next-state form `next`, makes of
/// the book `o` of a solver: the book `s` and the query `q`. The usage
/// goes up by one; where that exceeds the threshold the instance is rebuilt
/// first. A fresh activation literal guards the clause that excludes
/// `cube`; the query hands over that clause after all clauses not yet
/// handed over, and assumes `next` and the activation literal. Afterwards
/// the unit clause that disables the activation literal waits to be handed
/// over. The temporary cubes stay as they are.
pub open spec fn block_effect(
    o: &Ic3Solver,
    s: &Ic3Solver,
    levels: Seq<Seq<Lemma>>,
    cube: Seq<Lit>,
    next: Seq<Lit>,
    q: &SatQuery,
) -> bool {
    let rebuilt = o.spec_num_act() + 1 > RESTART_THRESHOLD;
    let (from, to) = slice_of(o.spec_frame() as int, levels.len() as int);
    let start_var = if rebuilt {
        o.spec_base()
    } else {
        o.spec_next_var()
    };
    let act = Lit::spec_new(Var(start_var), true);
    let guard = negated(cube).push(act.not());
    let handed = if rebuilt {
        replay(levels, from, to) + clauses_of(o.spec_temporary())
    } else {
        o.spec_pending()
    };
    let log = if rebuilt {
        handed
    } else {
        o.asserted()
    };
    &&& s.spec_frame() == o.spec_frame()
    &&& s.spec_base() == o.spec_base()
    &&& s.spec_num_act() == if rebuilt {
        0
    } else {
        o.spec_num_act() + 1
    }
    &&& s.spec_next_var() == start_var + 1
    &&& !s.needs_rebuild()
    &&& s.asserted() == log.push(guard).push(seq![act.not()])
    &&& s.spec_pending() == seq![seq![act.not()]]
    &&& s.spec_temporary() == o.spec_temporary()
    &&& q.solver == SolverId::Frame(o.spec_frame())
    &&& q.rebuild == (rebuilt || o.needs_rebuild())
    &&& views(q.clauses@) == handed.push(guard)
    &&& q.assumptions@ == next.push(act)
}

/// The usage of an instance after one more query: one more, or zero where
/// the instance is rebuilt for it.
pub open spec fn next_usage(u: int) -> int {
    if u + 1 > RESTART_THRESHOLD {
        0
    } else {
        u + 1
    }
}

/// The usage of an instance that stood at `u` after `n` more queries.
pub open spec fn usage_after(u: int, n: nat) -> int
    decreases n,
{
    if n == 0 {
        u
    } else {
        next_usage(usage_after(u, (n - 1) as nat))
    }
}

/// The number of rebuilds that `n` queries cause on an instance whose
/// usage stood at `u`.
pub open spec fn rebuilds(u: int, n: nat) -> int
    decreases n,
{
    if n == 0 {
        0
    } else {
        rebuilds(u, (n - 1) as nat) + if usage_after(u, (n - 1) as nat) + 1 > RESTART_THRESHOLD {
            1int
        } else {
            0int
        }
    }
}

/// An instance is rebuilt once for each time its usage passes the
/// threshold, and no more often: after `n` queries the usage and the number
/// of rebuilds are remainder and quotient of the queries counted so far by
/// the length of a period, which is one more than the threshold.
pub proof fn lemma_rebuild_period(u: int, n: nat)
    requires
        0 <= u <= RESTART_THRESHOLD,
    ensures
        usage_after(u, n) == (u + n) % (RESTART_THRESHOLD + 1),
        rebuilds(u, n) == (u + n) / (RESTART_THRESHOLD + 1),
    decreases n,
{
    if n > 0 {
        lemma_rebuild_period(u, (n - 1) as nat);
    }
}

/// The book that the engine keeps of the SAT instance of one level: how
/// often it was used since it was last rebuilt, which variable is the next
/// free one, the clauses asserted but not yet handed over, and the cubes
/// whose clauses were asserted for the time being only.
pub struct Ic3Solver {
    frame: usize,
    base_var: u32,
    num_act: usize,
    next_var: u32,
    rebuild: bool,
    pending: Vec<Vec<Lit>>,
    temporary: Vec<Vec<Lit>>,
    sent: Ghost<Seq<Seq<Lit>>>,
}

impl Ic3Solver {
    /// The level this instance belongs to.
    pub closed spec fn spec_frame(&self) -> usize {
        self.frame
    }

    /// The number of variables of the transition relation.
    pub closed spec fn spec_base(&self) -> u32 {
        self.base_var
    }

    /// The number of activation literals used since the last rebuild.
    pub closed spec fn spec_num_act(&self) -> usize {
        self.num_act
    }

    /// The first variable that no clause of the instance mentions.
    pub closed spec fn spec_next_var(&self) -> u32 {
        self.next_var
    }

    /// Whether the next query starts from a fresh instance.
    pub closed spec fn needs_rebuild(&self) -> bool {
        self.rebuild
    }

    /// The clauses asserted since the last query.
    pub closed spec fn spec_pending(&self) -> Seq<Seq<Lit>> {
        views(self.pending@)
    }

    /// Every clause asserted since the instance was last rebuilt, beyond
    /// the transition relation.
    pub closed spec fn asserted(&self) -> Seq<Seq<Lit>> {
        self.sent@ + views(self.pending@)
    }

    /// The cubes whose clauses are asserted for the time being only.
    pub closed spec fn spec_temporary(&self) -> Seq<Seq<Lit>> {
        views(self.temporary@)
    }

    /// The counters are within their bounds, no clause mentions a variable
    /// that is still free, and the temporary cubes are in ascending order,
    /// over variables of the model, with none subsuming another.
    pub open spec fn wf(&self) -> bool {
        &&& self.spec_num_act() <= RESTART_THRESHOLD
        &&& 1 <= self.spec_base()
        &&& self.spec_base() + ACT_ROOM <= MAX_VAR
        &&& self.spec_base() <= self.spec_next_var() <= self.spec_base() + self.spec_num_act() + 1
        &&& all_below(self.asserted(), self.spec_next_var() as int)
        &&& all_below(self.spec_temporary(), self.spec_base() as int)
        &&& forall|k: int|
            0 <= k < self.spec_temporary().len() ==> sorted(#[trigger] self.spec_temporary()[k])
        &&& subsumption_free(self.spec_temporary())
    }

    /// `self` is what a rebuild makes of `old`: the counters start anew,
    /// the clauses of the lemmas that belong to the level and then those of
    /// the temporary cubes are to be handed over, and the temporary cubes
    /// stay as they are.
    pub open spec fn rebuilt_from(&self, old: &Ic3Solver, levels: Seq<Seq<Lemma>>) -> bool {
        let (from, to) = slice_of(old.spec_frame() as int, levels.len() as int);
        &&& self.spec_frame() == old.spec_frame()
        &&& self.spec_base() == old.spec_base()
        &&& self.spec_num_act() == 0
        &&& self.spec_next_var() == old.spec_base()
        &&& self.needs_rebuild()
        &&& self.spec_pending() == self.asserted()
        &&& self.asserted() == replay(levels, from, to) + clauses_of(old.spec_temporary())
        &&& self.spec_temporary() == old.spec_temporary()
        &&& forall|a: int, b: int|
            from <= a < to && 0 <= b < levels[a].len() ==> excludes(
                self.asserted(),
                (#[trigger] levels[a][b])@,
            )
    }

    /// The activation literal that the next blocking query uses.
    pub open spec fn next_act(&self) -> Lit {
        Lit::spec_new(Var(self.spec_next_var()), true)
    }

    /// Everything but the asserted clauses and the temporary cubes is as in
    /// `other`.
    pub open spec fn same_counters(&self, other: &Ic3Solver) -> bool {
        &&& self.spec_frame() == other.spec_frame()
        &&& self.spec_base() == other.spec_base()
        &&& self.spec_num_act() == other.spec_num_act()
        &&& self.spec_next_var() == other.spec_next_var()
        &&& self.needs_rebuild() == other.needs_rebuild()
    }

    /// Level, base, usage and next free variable are as in `other`.
    pub open spec fn same_counters_but_rebuild(&self, other: &Ic3Solver) -> bool {
        &&& self.spec_frame() == other.spec_frame()
        &&& self.spec_base() == other.spec_base()
        &&& self.spec_num_act() == other.spec_num_act()
        &&& self.spec_next_var() == other.spec_next_var()
    }

    /// The book of a fresh instance for level `frame`.
    pub fn new(frame: usize, model: &Model) -> (r: Ic3Solver)
        requires
            model.wf(),
        ensures
            r.wf(),
            r.spec_frame() == frame,
            r.spec_base() == model.spec_num_var(),
            r.spec_num_act() == 0,
            r.spec_next_var() == model.spec_num_var(),
            r.needs_rebuild(),
            r.asserted().len() == 0,
            r.spec_temporary().len() == 0,
    {
        let n = model.num_var();
        Ic3Solver {
            frame,
            base_var: n,
            num_act: 0,
            next_var: n,
            rebuild: true,
            pending: Vec::new(),
            temporary: Vec::new(),
            sent: Ghost(Seq::empty()),
        }
    }

    /// The level this instance belongs to.
    pub fn frame(&self) -> (f: usize)
        ensures
            f == self.spec_frame(),
    {
        self.frame
    }

    /// The number of activation literals used since the last rebuild.
    pub fn num_act(&self) -> (n: usize)
        ensures
            n == self.spec_num_act(),
    {
        self.num_act
    }

    /// The temporary cubes.
    pub fn temporary(&self) -> (t: &Vec<Vec<Lit>>)
        ensures
            views(t@) == self.spec_temporary(),
    {
        &self.temporary
    }

    /// The clauses asserted since the last query.
    pub fn pending(&self) -> (p: &Vec<Vec<Lit>>)
        ensures
            views(p@) == self.spec_pending(),
    {
        &self.pending
    }

    /// Drops the temporary cubes that `cube` subsumes.
    fn prune(&mut self, cube: &Vec<Lit>)
        requires
            old(self).wf(),
            sorted(cube@),
        ensures
            final(self).wf(),
            final(self).same_counters(old(self)),
            final(self).asserted() == old(self).asserted(),
            final(self).spec_pending() == old(self).spec_pending(),
            final(self).spec_temporary() == unpruned(old(self).spec_temporary(), cube@),
    {
        let ghost before = self.spec_temporary();
        let ghost pred = |t: Seq<Lit>| !subsumes(cube@, t);
        let mut all: Vec<Vec<Lit>> = Vec::new();
        std::mem::swap(&mut all, &mut self.temporary);
        let ghost olds = all@;
        assert(views(olds) == before);
        let mut kept: Vec<Vec<Lit>> = Vec::new();
        assert(before.subrange(0, 0) =~= Seq::<Seq<Lit>>::empty());
        assert(views(kept@) =~= Seq::<Seq<Lit>>::empty());
        for t in it: all
            invariant
                it.seq() == olds,
                views(olds) == before,
                sorted(cube@),
                forall|k: int| 0 <= k < before.len() ==> sorted(#[trigger] before[k]),
                pred == (|t: Seq<Lit>| !subsumes(cube@, t)),
                views(kept@) == before.subrange(0, it.index() as int).filter(pred),
        {
            proof {
                let head = before.subrange(0, it.index() as int);
                assert(before[it.index() as int] == t@);
                assert(before.subrange(0, it.index() + 1) =~= head.push(t@));
                head.lemma_filter_push(t@, pred);
                assert(sorted(before[it.index() as int]));
            }
            let ghost prev = views(kept@);
            if !ordered_subsume(cube, &t) {
                kept.push(t);
                assert(views(kept@) =~= prev.push(t@));
            }
        }
        proof {
            assert(before.subrange(0, before.len() as int) =~= before);
        }
        self.temporary = kept;
        proof {
            let after = self.spec_temporary();
            assert(after == before.filter(pred));
            lemma_filter_no_duplicates(before, pred);
            assert forall|k: int| 0 <= k < after.len() implies before.contains(
                #[trigger] after[k],
            ) by {
                assert(after.contains(after[k]));
                before.lemma_filter_contains_rev(pred, after[k]);
            }
            assert forall|k: int| 0 <= k < after.len() implies sorted(#[trigger] after[k])
                && below(after[k], self.spec_base() as int) by {
                let m = choose|m: int| 0 <= m < before.len() && before[m] == after[k];
                assert(sorted(before[m]));
                assert(below(before[m], self.spec_base() as int));
            }
            assert forall|a: int, b: int|
                0 <= a < after.len() && 0 <= b < after.len() && a != b implies !subsumes(
                #[trigger] after[a],
                #[trigger] after[b],
            ) by {
                let x = choose|x: int| 0 <= x < before.len() && before[x] == after[a];
                let y = choose|y: int| 0 <= y < before.len() && before[y] == after[b];
                assert(after[a] != after[b]);
                assert(x != y);
            }
        }
    }

    /// Asserts a clause for good. The temporary cubes that the cube of the
    /// clause subsumes are dropped: they have become redundant.
    pub fn add_clause(&mut self, clause: &Vec<Lit>)
        requires
            old(self).wf(),
            below(clause@, old(self).spec_base() as int),
        ensures
            final(self).wf(),
            final(self).same_counters(old(self)),
            final(self).asserted() == old(self).asserted().push(clause@),
            final(self).spec_pending() == old(self).spec_pending().push(clause@),
            final(self).spec_temporary() == unpruned(
                old(self).spec_temporary(),
                negated(clause@),
            ),
    {
        let mut cube = negate(clause);
        sort(&mut cube);
        proof {
            let c = negated(clause@);
            assert((|t: Seq<Lit>| !subsumes(cube@, t)) =~= (|t: Seq<Lit>| !subsumes(c, t))) by {
                assert forall|t: Seq<Lit>| subsumes(cube@, t) == subsumes(c, t) by {
                    lemma_same_lits(cube@, c, t, 0);
                }
            }
        }
        self.prune(&cube);
        let ghost mid = views(self.pending@);
        self.pending.push(copy(clause));
        proof {
            assert(views(self.pending@) =~= mid.push(clause@));
            assert(self.asserted() =~= old(self).asserted().push(clause@));
            assert forall|j: int| 0 <= j < self.asserted().len() implies below(
                #[trigger] self.asserted()[j],
                self.spec_next_var() as int,
            ) by {
                if j < old(self).asserted().len() {
                    assert(self.asserted()[j] == old(self).asserted()[j]);
                }
            }
        }
    }

    /// Asserts a clause for the time being. Nothing happens where a
    /// temporary cube already subsumes the cube of the clause; else the
    /// temporary cubes that it subsumes leave and it joins them, so that
    /// none of them subsumes another.
    pub fn add_temporary_clause(&mut self, clause: &Vec<Lit>)
        requires
            old(self).wf(),
            below(clause@, old(self).spec_base() as int),
        ensures
            final(self).wf(),
            final(self).same_counters(old(self)),
            covered_by(old(self).spec_temporary(), negated(clause@)) ==> {
                &&& final(self).asserted() == old(self).asserted()
                &&& final(self).spec_pending() == old(self).spec_pending()
                &&& final(self).spec_temporary() == old(self).spec_temporary()
            },
            !covered_by(old(self).spec_temporary(), negated(clause@)) ==> {
                &&& final(self).asserted() == old(self).asserted().push(clause@)
                &&& final(self).spec_pending() == old(self).spec_pending().push(clause@)
                &&& final(self).spec_temporary().len() > 0
                &&& final(self).spec_temporary().drop_last() == unpruned(
                    old(self).spec_temporary(),
                    negated(clause@),
                )
                &&& sorted(final(self).spec_temporary().last())
                &&& final(self).spec_temporary().last().to_multiset() == negated(
                    clause@,
                ).to_multiset()
            },
    {
        let ghost c = negated(clause@);
        let ghost before = self.spec_temporary();
        let mut cube = negate(clause);
        sort(&mut cube);
        proof {
            lemma_negated(clause@, self.spec_base() as int);
            lemma_same_lits(cube@, c, c, self.spec_base() as int);
            assert((|t: Seq<Lit>| !subsumes(cube@, t)) =~= (|t: Seq<Lit>| !subsumes(c, t))) by {
                assert forall|t: Seq<Lit>| subsumes(cube@, t) == subsumes(c, t) by {
                    lemma_same_lits(cube@, c, t, 0);
                }
            }
            assert forall|t: Seq<Lit>| subsumes(t, cube@) == subsumes(t, c) by {
                lemma_same_lits(cube@, c, t, 0);
            }
        }
        let mut k: usize = 0;
        while k < self.temporary.len()
            invariant
                k <= self.temporary.len(),
                self.wf(),
                *self == *old(self),
                before == self.spec_temporary(),
                c == negated(clause@),
                sorted(cube@),
                forall|t: Seq<Lit>| subsumes(t, cube@) == subsumes(t, c),
                forall|m: int| 0 <= m < k ==> !subsumes(#[trigger] before[m], c),
            decreases self.temporary.len() - k,
        {
            assert(before[k as int] == self.temporary@[k as int]@);
            assert(sorted(before[k as int]));
            if ordered_subsume(&self.temporary[k], &cube) {
                assert(subsumes(before[k as int], c));
                assert(covered_by(before, c));
                return ;
            }
            k = k + 1;
        }
        assert(!covered_by(before, c));
        self.prune(&cube);
        let ghost kept = self.spec_temporary();
        let ghost cv = cube@;
        self.temporary.push(cube);
        let ghost mid = views(self.pending@);
        self.pending.push(copy(clause));
        proof {
            let after = self.spec_temporary();
            assert(after =~= kept.push(cv));
            assert(after.drop_last() =~= kept);
            assert(views(self.pending@) =~= mid.push(clause@));
            assert(self.asserted() =~= old(self).asserted().push(clause@));
            assert forall|j: int| 0 <= j < self.asserted().len() implies below(
                #[trigger] self.asserted()[j],
                self.spec_next_var() as int,
            ) by {
                if j < old(self).asserted().len() {
                    assert(self.asserted()[j] == old(self).asserted()[j]);
                }
            }
            let pred = |t: Seq<Lit>| !subsumes(c, t);
            assert forall|m: int| 0 <= m < kept.len() implies before.contains(#[trigger] kept[m])
                && !subsumes(c, kept[m]) by {
                assert(kept.contains(kept[m]));
                before.lemma_filter_contains_rev(pred, kept[m]);
                before.lemma_filter_pred(pred, m);
            }
            assert forall|m: int| 0 <= m < kept.len() implies !subsumes(#[trigger] kept[m], cv)
                && !subsumes(cv, kept[m]) && kept[m] != cv by {
                let x = choose|x: int| 0 <= x < before.len() && before[x] == kept[m];
                assert(!subsumes(before[x], c));
                lemma_same_lits(cv, c, kept[m], 0);
                if kept[m] == cv {
                    crate::cube::lemma_subset_refl(cv);
                }
            }
            assert(after.no_duplicates());
            assert forall|a: int, b: int|
                0 <= a < after.len() && 0 <= b < after.len() && a != b implies !subsumes(
                #[trigger] after[a],
                #[trigger] after[b],
            ) by {
                if a < kept.len() && b < kept.len() {
                    assert(after[a] == kept[a] && after[b] == kept[b]);
                } else if a < kept.len() {
                    assert(after[a] == kept[a]);
                } else {
                    assert(after[b] == kept[b]);
                }
            }
            assert forall|m: int| 0 <= m < after.len() implies sorted(#[trigger] after[m])
                && below(after[m], self.spec_base() as int) by {
                if m < kept.len() {
                    assert(after[m] == kept[m]);
                }
            }
            lemma_permutation(cv, c);
        }
    }

    /// Starts the instance anew: the next query begins with a fresh
    /// instance, to which the clauses of the lemmas that belong to this
    /// level are handed first and then those of the temporary cubes, which
    /// stay as they are.
    pub fn reset(&mut self, frames: &Frames)
        requires
            old(self).wf(),
            frames.wf(),
            frames_below(frames.levels(), old(self).spec_base() as int),
            old(self).spec_frame() < frames.levels().len(),
        ensures
            final(self).wf(),
            final(self).rebuilt_from(old(self), frames.levels()),
    {
        let ghost temps = self.spec_temporary();
        let ghost levels = frames.levels();
        let ghost base = self.spec_base() as int;
        let mut all: Vec<Vec<Lit>> = Vec::new();
        std::mem::swap(&mut all, &mut self.temporary);
        let ghost olds = all@;
        self.pending = Vec::new();
        self.sent = Ghost(Seq::empty());
        self.num_act = 0;
        self.next_var = self.base_var;
        self.rebuild = true;
        let len = frames.len();
        let from: usize = self.frame;
        let to: usize = if self.frame == 0 {
            1
        } else {
            len
        };
        proof {
            assert(views(self.pending@) =~= Seq::<Seq<Lit>>::empty());
            assert(views(self.temporary@) =~= Seq::<Seq<Lit>>::empty());
            assert(self.asserted() =~= replay(levels, from as int, from as int));
        }
        let mut i: usize = from;
        while i < to
            invariant
                from <= i <= to <= levels.len(),
                levels == frames.levels(),
                frames.wf(),
                frames_below(levels, base),
                self.wf(),
                self.spec_frame() == old(self).spec_frame(),
                self.spec_base() == base,
                self.spec_num_act() == 0,
                self.spec_next_var() == base,
                self.needs_rebuild(),
                self.spec_temporary().len() == 0,
                self.spec_pending() == self.asserted(),
                self.asserted() == replay(levels, from as int, i as int),
                forall|a: int, b: int|
                    from <= a < i && 0 <= b < levels[a].len() ==> excludes(
                        self.asserted(),
                        (#[trigger] levels[a][b])@,
                    ),
            decreases to - i,
        {
            let level = frames.level(i);
            proof {
                assert(level_clauses(levels[i as int], 0) =~= Seq::<Seq<Lit>>::empty());
                assert(self.asserted() =~= replay(levels, from as int, i as int) + level_clauses(
                    levels[i as int],
                    0,
                ));
            }
            let mut k: usize = 0;
            while k < level.len()
                invariant
                    from <= i < to <= levels.len(),
                    k <= level.len(),
                    level@ == levels[i as int],
                    frames_below(levels, base),
                    self.wf(),
                    self.spec_frame() == old(self).spec_frame(),
                    self.spec_base() == base,
                    self.spec_num_act() == 0,
                    self.spec_next_var() == base,
                    self.needs_rebuild(),
                    self.spec_temporary().len() == 0,
                    self.spec_pending() == self.asserted(),
                    self.asserted() == replay(levels, from as int, i as int) + level_clauses(
                        levels[i as int],
                        k as int,
                    ),
                    forall|a: int, b: int|
                        from <= a <= i && 0 <= b < levels[a].len() && (a < i || b < k)
                            ==> excludes(self.asserted(), (#[trigger] levels[a][b])@),
                decreases level.len() - k,
            {
                let ghost lem = levels[i as int][k as int];
                let ghost prev = self.asserted();
                let ghost pt = self.spec_temporary();
                assert(below(lem@, base));
                let cl = negate(level[k].cube());
                proof {
                    lemma_negated(lem@, base);
                }
                self.add_clause(&cl);
                proof {
                    let cur = self.asserted();
                    pt.lemma_filter_len(|t: Seq<Lit>| !subsumes(negated(cl@), t));
                    assert(level_clauses(levels[i as int], k + 1) =~= level_clauses(
                        levels[i as int],
                        k as int,
                    ).push(negated(lem@)));
                    assert(cur =~= replay(levels, from as int, i as int) + level_clauses(
                        levels[i as int],
                        k + 1,
                    ));
                    assert forall|a: int, b: int|
                        from <= a <= i && 0 <= b < levels[a].len() && (a < i || b < k + 1)
                        implies excludes(cur, (#[trigger] levels[a][b])@) by {
                        lemma_excludes_push(prev, negated(lem@), levels[a][b]@);
                        if a == i && b == k {
                            lemma_subset_refl(negated(lem@));
                        }
                    }
                }
                k = k + 1;
            }
            proof {
                assert(replay(levels, from as int, i + 1) =~= replay(levels, from as int, i as int)
                    + level_clauses(levels[i as int], levels[i as int].len() as int));
            }
            i = i + 1;
        }
        let ghost stored = replay(levels, from as int, to as int);
        proof {
            assert(temps.subrange(0, 0) =~= Seq::<Seq<Lit>>::empty());
            assert(views(self.temporary@) =~= temps.subrange(0, 0));
            assert(clauses_of(temps.subrange(0, 0)) =~= Seq::<Seq<Lit>>::empty());
            assert(views(self.pending@) =~= stored + clauses_of(temps.subrange(0, 0)));
        }
        for t in it: all
            invariant
                it.seq() == olds,
                views(olds) == temps,
                self.sent@.len() == 0,
                self.spec_temporary() == temps.subrange(0, it.index() as int),
                views(self.pending@) == stored + clauses_of(temps.subrange(0, it.index() as int)),
                self.spec_frame() == old(self).spec_frame(),
                self.spec_base() == base,
                self.spec_num_act() == 0,
                self.spec_next_var() == base,
                self.needs_rebuild(),
        {
            let ghost pv = views(self.pending@);
            let ghost tv = self.spec_temporary();
            let ghost head = temps.subrange(0, it.index() as int);
            assert(temps[it.index() as int] == t@);
            self.pending.push(negate(&t));
            self.temporary.push(t);
            proof {
                let next = temps.subrange(0, it.index() + 1);
                assert(next =~= head.push(t@));
                assert(self.spec_temporary() =~= tv.push(t@));
                assert(views(self.pending@) =~= pv.push(negated(t@)));
                assert(clauses_of(next) =~= clauses_of(head).push(negated(t@)));
                assert(stored + clauses_of(next) =~= (stored + clauses_of(head)).push(negated(t@)));
            }
        }
        proof {
            assert(temps.subrange(0, temps.len() as int) =~= temps);
            let log = self.asserted();
            assert(log =~= stored + clauses_of(temps));
            assert forall|j: int| 0 <= j < log.len() implies below(#[trigger] log[j], base) by {
                if j < stored.len() {
                    assert(log[j] == stored[j]);
                } else {
                    let m = j - stored.len();
                    assert(log[j] == negated(temps[m]));
                    assert(below(temps[m], base));
                    lemma_negated(temps[m], base);
                }
            }
            assert forall|a: int, b: int|
                from <= a < to && 0 <= b < levels[a].len() implies excludes(
                log,
                (#[trigger] levels[a][b])@,
            ) by {
                let c = levels[a][b]@;
                assert(excludes(stored, c));
                let j = choose|j: int| 0 <= j < stored.len() && crate::cube::subset(
                    #[trigger] stored[j],
                    negated(c),
                );
                assert(log[j] == stored[j]);
            }
        }
    }

    /// Counts one more use of the instance, and starts it anew where that
    /// is one use more than the threshold allows between two rebuilds.
    /// Returns whether it did.
    pub fn touch(&mut self, frames: &Frames) -> (rebuilt: bool)
        requires
            old(self).wf(),
            frames.wf(),
            frames_below(frames.levels(), old(self).spec_base() as int),
            old(self).spec_frame() < frames.levels().len(),
        ensures
            final(self).wf(),
            rebuilt == (old(self).spec_num_act() + 1 > RESTART_THRESHOLD),
            final(self).spec_num_act() == next_usage(old(self).spec_num_act() as int),
            final(self).spec_next_var() <= final(self).spec_base() + final(self).spec_num_act(),
            rebuilt ==> final(self).rebuilt_from(old(self), frames.levels()),
            !rebuilt ==> {
                &&& final(self).spec_num_act() == old(self).spec_num_act() + 1
                &&& final(self).spec_frame() == old(self).spec_frame()
                &&& final(self).spec_base() == old(self).spec_base()
                &&& final(self).spec_next_var() == old(self).spec_next_var()
                &&& final(self).needs_rebuild() == old(self).needs_rebuild()
                &&& final(self).asserted() == old(self).asserted()
                &&& final(self).spec_pending() == old(self).spec_pending()
                &&& final(self).spec_temporary() == old(self).spec_temporary()
            },
    {
        if self.num_act + 1 > RESTART_THRESHOLD {
            self.reset(frames);
            true
        } else {
            self.num_act = self.num_act + 1;
            false
        }
    }

    /// Prepares the query that asks whether the cube `cube`, whose
    /// next-state form is `next`, can be reached in one step from a state
    /// outside it that satisfies the clauses of this instance. A fresh
    /// activation literal guards the clause that excludes `cube`, and is
    /// assumed together with `next`. The query carries every clause
    /// asserted since the last one.
    pub fn block_query(&mut self, cube: &Vec<Lit>, next: &Vec<Lit>) -> (q: SatQuery)
        requires
            old(self).wf(),
            old(self).spec_next_var() <= old(self).spec_base() + old(self).spec_num_act(),
            below(cube@, old(self).spec_base() as int),
            below(next@, old(self).spec_base() as int),
        ensures
            final(self).wf(),
            final(self).spec_frame() == old(self).spec_frame(),
            final(self).spec_base() == old(self).spec_base(),
            final(self).spec_num_act() == old(self).spec_num_act(),
            final(self).spec_temporary() == old(self).spec_temporary(),
            final(self).spec_next_var() == old(self).spec_next_var() + 1,
            !final(self).needs_rebuild(),
            final(self).spec_pending().len() == 0,
            final(self).asserted() == old(self).asserted().push(
                negated(cube@).push(old(self).next_act().not()),
            ),
            q.solver == SolverId::Frame(old(self).spec_frame()),
            q.rebuild == old(self).needs_rebuild(),
            views(q.clauses@) == old(self).spec_pending().push(
                negated(cube@).push(old(self).next_act().not()),
            ),
            q.assumptions@ == next@.push(old(self).next_act()),
            old(self).next_act().var() == Var(old(self).spec_next_var()),
    {
        let act = Lit::new(Var(self.next_var), true);
        self.next_var = self.next_var + 1;
        let mut clause = negate(cube);
        clause.push(act.not());
        let ghost cl = clause@;
        let ghost pv = views(self.pending@);
        self.pending.push(clause);
        let mut clauses: Vec<Vec<Lit>> = Vec::new();
        std::mem::swap(&mut clauses, &mut self.pending);
        proof {
            assert(views(clauses@) =~= pv.push(cl));
            assert(views(self.pending@) =~= Seq::<Seq<Lit>>::empty());
        }
        self.sent = Ghost(self.sent@ + views(clauses@));
        let rebuild = self.rebuild;
        self.rebuild = false;
        let mut assumptions = copy(next);
        assumptions.push(act);
        proof {
            let n = self.spec_next_var() as int;
            assert(self.asserted() =~= old(self).asserted().push(cl));
            lemma_negated(cube@, old(self).spec_base() as int);
            crate::lit::lemma_not(act);
            assert(below(cl, n)) by {
                assert forall|i: int| 0 <= i < cl.len() implies (#[trigger] cl[i]).var().0 < n by {
                    if i < cube@.len() {
                        assert(cl[i] == negated(cube@)[i]);
                    }
                }
            }
            assert forall|j: int| 0 <= j < self.asserted().len() implies below(
                #[trigger] self.asserted()[j],
                n,
            ) by {
                if j < old(self).asserted().len() {
                    let c = old(self).asserted()[j];
                    assert(self.asserted()[j] == c);
                    assert(below(c, old(self).spec_next_var() as int));
                    assert forall|i: int| 0 <= i < c.len() implies (#[trigger] c[i]).var().0
                        < n by {}
                }
            }
        }
        SatQuery { solver: SolverId::Frame(self.frame), rebuild, clauses, assumptions }
    }

    /// Prepares the query that asks whether some state satisfies the
    /// clauses of this instance and the literals of `assumptions`. The
    /// query carries every clause asserted since the last one.
    pub fn plain_query(&mut self, assumptions: &Vec<Lit>) -> (q: SatQuery)
        requires
            old(self).wf(),
        ensures
            final(self).wf(),
            final(self).same_counters_but_rebuild(old(self)),
            final(self).spec_temporary() == old(self).spec_temporary(),
            !final(self).needs_rebuild(),
            final(self).spec_pending().len() == 0,
            final(self).asserted() == old(self).asserted(),
            q.solver == SolverId::Frame(old(self).spec_frame()),
            q.rebuild == old(self).needs_rebuild(),
            views(q.clauses@) == old(self).spec_pending(),
            q.assumptions@ == assumptions@,
    {
        let mut clauses: Vec<Vec<Lit>> = Vec::new();
        std::mem::swap(&mut clauses, &mut self.pending);
        proof {
            assert(views(self.pending@) =~= Seq::<Seq<Lit>>::empty());
        }
        self.sent = Ghost(self.sent@ + views(clauses@));
        let rebuild = self.rebuild;
        self.rebuild = false;
        proof {
            assert(self.asserted() =~= old(self).asserted());
        }
        SatQuery {
            solver: SolverId::Frame(self.frame),
            rebuild,
            clauses,
            assumptions: copy(assumptions),
        }
    }

    /// Disables the activation literal `act` for good: asserts the unit
    /// clause of its negation.
    pub fn release(&mut self, act: Lit)
        requires
            old(self).wf(),
            act.var().0 < old(self).spec_next_var(),
        ensures
            final(self).wf(),
            final(self).same_counters(old(self)),
            final(self).spec_temporary() == old(self).spec_temporary(),
            final(self).asserted() == old(self).asserted().push(seq![act.not()]),
            final(self).spec_pending() == old(self).spec_pending().push(seq![act.not()]),
    {
        let mut unit: Vec<Lit> = Vec::new();
        unit.push(act.not());
        let ghost pv = views(self.pending@);
        let ghost cl = unit@;
        self.pending.push(unit);
        proof {
            assert(cl =~= seq![act.not()]);
            assert(views(self.pending@) =~= pv.push(cl));
            assert(self.asserted() =~= old(self).asserted().push(cl));
            crate::lit::lemma_not(act);
            assert forall|j: int| 0 <= j < self.asserted().len() implies below(
                #[trigger] self.asserted()[j],
                self.spec_next_var() as int,
            ) by {
                if j < old(self).asserted().len() {
                    assert(self.asserted()[j] == old(self).asserted()[j]);
                }
            }
        }
    }
}

} // verus!
