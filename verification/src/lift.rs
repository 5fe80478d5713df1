//! The book of the SAT instance that shrinks predecessors, and the
//! reading of assignments.

use crate::cube::{all_below, below, lemma_negated, negate, negated, views};
use crate::lit::{lemma_not, Lit, Var, MAX_VAR};
use crate::model::{Model, ACT_ROOM, RESTART_THRESHOLD};
use crate::sat::{SatQuery, SolverId};
use std::collections::HashSet;
use vstd::prelude::*;
use vstd::std_specs::hash::*;

verus! {

broadcast use group_hash_axioms;

/// The literals that an assignment, given by the codes of the literals
/// that hold in it, gives to the variables `vars`, in their order. A
/// variable of which it holds neither literal is left out.
pub open spec fn spec_assignment(vars: Seq<Var>, holds: Set<u32>) -> Seq<Lit>
    decreases vars.len(),
{
    if vars.len() == 0 {
        Seq::empty()
    } else {
        let rest = spec_assignment(vars.drop_last(), holds);
        let l = vars.last().spec_lit();
        if holds.contains(l.0) {
            rest.push(l)
        } else if holds.contains(l.not().0) {
            rest.push(l.not())
        } else {
            rest
        }
    }
}

/// Every literal of an assignment is one of a variable asked for and
/// holds in the assignment, and no variable occurs twice if none was asked
/// for twice.
pub proof fn lemma_assignment(vars: Seq<Var>, holds: Set<u32>)
    requires
        forall|i: int| 0 <= i < vars.len() ==> (#[trigger] vars[i]).0 <= MAX_VAR,
    ensures
        spec_assignment(vars, holds).len() <= vars.len(),
        forall|k: int|
            0 <= k < spec_assignment(vars, holds).len() ==> vars.contains(
                (#[trigger] spec_assignment(vars, holds)[k]).var(),
            ) && holds.contains(spec_assignment(vars, holds)[k].0),
        vars.no_duplicates() ==> spec_assignment(vars, holds).no_duplicates(),
    decreases vars.len(),
{
    let r = spec_assignment(vars, holds);
    if vars.len() > 0 {
        let head = vars.drop_last();
        let rest = spec_assignment(head, holds);
        lemma_assignment(head, holds);
        let v = vars.last();
        let l = v.spec_lit();
        lemma_not(l);
        assert(l.var() == v);
        assert forall|k: int| 0 <= k < r.len() implies vars.contains((#[trigger] r[k]).var())
            && holds.contains(r[k].0) by {
            if k < rest.len() {
                assert(r[k] == rest[k]);
                let m = choose|m: int| 0 <= m < head.len() && head[m] == rest[k].var();
                assert(vars[m] == head[m]);
            } else {
                assert(vars[vars.len() - 1] == v);
            }
        }
        if vars.no_duplicates() {
            assert(head.no_duplicates());
            assert forall|x: int, y: int| 0 <= x < y < r.len() implies r[x] != r[y] by {
                if y >= rest.len() {
                    assert(r[x] == rest[x]);
                    let m = choose|m: int| 0 <= m < head.len() && head[m] == rest[x].var();
                    assert(vars[m] != vars[vars.len() - 1]);
                }
            }
        }
    }
}

/// The literals that the assignment `holds` gives to the variables
/// `vars`.
pub fn assignment(vars: &Vec<Var>, holds: &HashSet<u32>) -> (r: Vec<Lit>)
    requires
        forall|i: int| 0 <= i < vars@.len() ==> (#[trigger] vars@[i]).0 <= MAX_VAR,
    ensures
        r@ == spec_assignment(vars@, holds@),
{
    let mut r: Vec<Lit> = Vec::new();
    let mut i: usize = 0;
    assert(vars@.subrange(0, 0) =~= Seq::<Var>::empty());
    while i < vars.len()
        invariant
            i <= vars.len(),
            forall|k: int| 0 <= k < vars@.len() ==> (#[trigger] vars@[k]).0 <= MAX_VAR,
            r@ == spec_assignment(vars@.subrange(0, i as int), holds@),
        decreases vars.len() - i,
    {
        proof {
            let next = vars@.subrange(0, i + 1);
            assert(next.drop_last() =~= vars@.subrange(0, i as int));
            assert(next.last() == vars@[i as int]);
        }
        let l = vars[i].lit();
        if holds.contains(&l.0) {
            r.push(l);
        } else if holds.contains(&l.not().0) {
            r.push(l.not());
        }
        i = i + 1;
    }
    assert(vars@.subrange(0, vars@.len() as int) =~= vars@);
    r
}

/// What a query that shrinks a predecessor makes of the book `o` of the
/// instance: the book `s` and the query `q`. The usage goes up by one;
/// where that exceeds the threshold the instance is rebuilt first. A fresh
/// activation literal guards the clause that excludes `successor`; the
/// query hands over that clause after all clauses not yet handed over, and
/// assumes the activation literal, then `inputs`, then `latchs`.
/// Afterwards the unit clause that disables the activation literal waits to
/// be handed over.
pub open spec fn lift_effect(
    o: &Lift,
    s: &Lift,
    successor: Seq<Lit>,
    inputs: Seq<Lit>,
    latchs: Seq<Lit>,
    q: &SatQuery,
) -> bool {
    let rebuilt = o.spec_num_act() + 1 > RESTART_THRESHOLD;
    let start_var = if rebuilt {
        o.spec_base()
    } else {
        o.spec_next_var()
    };
    let act = Lit::spec_new(Var(start_var), true);
    let guard = negated(successor).push(act.not());
    let handed = if rebuilt {
        Seq::<Seq<Lit>>::empty()
    } else {
        o.spec_pending()
    };
    let log = if rebuilt {
        Seq::<Seq<Lit>>::empty()
    } else {
        o.asserted()
    };
    &&& s.spec_base() == o.spec_base()
    &&& s.spec_num_act() == if rebuilt {
        0
    } else {
        o.spec_num_act() + 1
    }
    &&& s.spec_next_var() == start_var + 1
    &&& !s.needs_rebuild()
    &&& s.asserted() == log.push(guard).push(seq![act.not()])
    &&& s.spec_pending() == seq![seq![act.not()]]
    &&& q.solver == SolverId::Lift
    &&& q.rebuild == (rebuilt || o.needs_rebuild())
    &&& views(q.clauses@) == handed.push(guard)
    &&& q.assumptions@ == seq![act] + inputs + latchs
}

/// The book that the engine keeps of the SAT instance that shrinks
/// predecessors. The instance holds the transition relation and the clauses
/// of its own queries, and is rebuilt now and then.
pub struct Lift {
    base_var: u32,
    num_act: usize,
    next_var: u32,
    rebuild: bool,
    pending: Vec<Vec<Lit>>,
    sent: Ghost<Seq<Seq<Lit>>>,
}

impl Lift {
    /// The number of variables of the transition relation.
    pub closed spec fn spec_base(&self) -> u32 {
        self.base_var
    }

    /// The number of activation literals used since the last rebuild.
    pub closed spec fn spec_num_act(&self) -> usize {
        self.num_act
    }

    /// The first variable that no clause of the instance mentions.
    pub closed spec fn spec_next_var(&self) -> u32 {
        self.next_var
    }

    /// Whether the next query starts from a fresh instance.
    pub closed spec fn needs_rebuild(&self) -> bool {
        self.rebuild
    }

    /// The clauses asserted since the last query.
    pub closed spec fn spec_pending(&self) -> Seq<Seq<Lit>> {
        views(self.pending@)
    }

    /// Every clause asserted since the instance was last rebuilt, beyond
    /// the transition relation.
    pub closed spec fn asserted(&self) -> Seq<Seq<Lit>> {
        self.sent@ + views(self.pending@)
    }

    /// The counters are within their bounds and no clause mentions a
    /// variable that is still free.
    pub open spec fn wf(&self) -> bool {
        &&& self.spec_num_act() <= RESTART_THRESHOLD
        &&& 1 <= self.spec_base()
        &&& self.spec_base() + ACT_ROOM <= MAX_VAR
        &&& self.spec_base() <= self.spec_next_var() <= self.spec_base() + self.spec_num_act() + 1
        &&& all_below(self.asserted(), self.spec_next_var() as int)
    }

    /// The activation literal that the next query uses.
    pub open spec fn next_act(&self) -> Lit {
        Lit::spec_new(Var(self.spec_next_var()), true)
    }

    /// The book of a fresh instance.
    pub fn new(model: &Model) -> (r: Lift)
        requires
            model.wf(),
        ensures
            r.wf(),
            r.spec_base() == model.spec_num_var(),
            r.spec_num_act() == 0,
            r.spec_next_var() == model.spec_num_var(),
            r.needs_rebuild(),
            r.asserted().len() == 0,
    {
        let n = model.num_var();
        Lift {
            base_var: n,
            num_act: 0,
            next_var: n,
            rebuild: true,
            pending: Vec::new(),
            sent: Ghost(Seq::empty()),
        }
    }

    /// The number of activation literals used since the last rebuild.
    pub fn num_act(&self) -> (n: usize)
        ensures
            n == self.spec_num_act(),
    {
        self.num_act
    }

    /// Counts one more use of the instance, and starts it anew where that
    /// is one use more than the threshold allows between two rebuilds.
    /// Returns whether it did.
    pub fn touch(&mut self) -> (rebuilt: bool)
        requires
            old(self).wf(),
        ensures
            final(self).wf(),
            rebuilt == (old(self).spec_num_act() + 1 > RESTART_THRESHOLD),
            final(self).spec_num_act() == crate::solver::next_usage(
                old(self).spec_num_act() as int,
            ),
            final(self).spec_base() == old(self).spec_base(),
            final(self).spec_next_var() <= final(self).spec_base() + final(self).spec_num_act(),
            rebuilt ==> {
                &&& final(self).spec_num_act() == 0
                &&& final(self).spec_next_var() == old(self).spec_base()
                &&& final(self).needs_rebuild()
                &&& final(self).asserted().len() == 0
                &&& final(self).spec_pending().len() == 0
            },
            !rebuilt ==> {
                &&& final(self).spec_num_act() == old(self).spec_num_act() + 1
                &&& final(self).spec_next_var() == old(self).spec_next_var()
                &&& final(self).needs_rebuild() == old(self).needs_rebuild()
                &&& final(self).asserted() == old(self).asserted()
                &&& final(self).spec_pending() == old(self).spec_pending()
            },
    {
        if self.num_act + 1 > RESTART_THRESHOLD {
            self.num_act = 0;
            self.next_var = self.base_var;
            self.rebuild = true;
            self.pending = Vec::new();
            self.sent = Ghost(Seq::empty());
            true
        } else {
            self.num_act = self.num_act + 1;
            false
        }
    }

    /// Prepares the query that shrinks a predecessor: with the inputs fixed
    /// to `inputs` and the latches to `latchs`, no step leads outside the
    /// cube whose next-state form is `successor`. A fresh activation literal
    /// guards the clause that excludes `successor`, and is assumed first,
    /// then `inputs`, then `latchs`.
    pub fn query(&mut self, successor: &Vec<Lit>, inputs: &Vec<Lit>, latchs: &Vec<Lit>) -> (q:
        SatQuery)
        requires
            old(self).wf(),
            old(self).spec_next_var() <= old(self).spec_base() + old(self).spec_num_act(),
            below(successor@, old(self).spec_base() as int),
        ensures
            final(self).wf(),
            final(self).spec_base() == old(self).spec_base(),
            final(self).spec_num_act() == old(self).spec_num_act(),
            final(self).spec_next_var() == old(self).spec_next_var() + 1,
            !final(self).needs_rebuild(),
            final(self).spec_pending().len() == 0,
            final(self).asserted() == old(self).asserted().push(
                negated(successor@).push(old(self).next_act().not()),
            ),
            q.solver == SolverId::Lift,
            q.rebuild == old(self).needs_rebuild(),
            views(q.clauses@) == old(self).spec_pending().push(
                negated(successor@).push(old(self).next_act().not()),
            ),
            q.assumptions@ == seq![old(self).next_act()] + inputs@ + latchs@,
            old(self).next_act().var() == Var(old(self).spec_next_var()),
    {
        let act = Lit::new(Var(self.next_var), true);
        self.next_var = self.next_var + 1;
        let mut clause = negate(successor);
        clause.push(act.not());
        let ghost cl = clause@;
        let ghost pv = views(self.pending@);
        self.pending.push(clause);
        let mut clauses: Vec<Vec<Lit>> = Vec::new();
        std::mem::swap(&mut clauses, &mut self.pending);
        proof {
            assert(views(clauses@) =~= pv.push(cl));
            assert(views(self.pending@) =~= Seq::<Seq<Lit>>::empty());
        }
        self.sent = Ghost(self.sent@ + views(clauses@));
        let rebuild = self.rebuild;
        self.rebuild = false;
        let mut assumptions: Vec<Lit> = Vec::new();
        assumptions.push(act);
        let mut i: usize = 0;
        while i < inputs.len()
            invariant
                i <= inputs.len(),
                assumptions@ == seq![act] + inputs@.subrange(0, i as int),
            decreases inputs.len() - i,
        {
            assumptions.push(inputs[i]);
            assert(assumptions@ =~= seq![act] + inputs@.subrange(0, i + 1));
            i = i + 1;
        }
        assert(inputs@.subrange(0, inputs@.len() as int) =~= inputs@);
        let mut k: usize = 0;
        while k < latchs.len()
            invariant
                k <= latchs.len(),
                assumptions@ == seq![act] + inputs@ + latchs@.subrange(0, k as int),
            decreases latchs.len() - k,
        {
            assumptions.push(latchs[k]);
            assert(assumptions@ =~= seq![act] + inputs@ + latchs@.subrange(0, k + 1));
            k = k + 1;
        }
        assert(latchs@.subrange(0, latchs@.len() as int) =~= latchs@);
        proof {
            let n = self.spec_next_var() as int;
            assert(self.asserted() =~= old(self).asserted().push(cl));
            lemma_negated(successor@, old(self).spec_base() as int);
            lemma_not(act);
            assert(below(cl, n)) by {
                assert forall|i: int| 0 <= i < cl.len() implies (#[trigger] cl[i]).var().0 < n by {
                    if i < successor@.len() {
                        assert(cl[i] == negated(successor@)[i]);
                    }
                }
            }
            assert forall|j: int| 0 <= j < self.asserted().len() implies below(
                #[trigger] self.asserted()[j],
                n,
            ) by {
                if j < old(self).asserted().len() {
                    let c = old(self).asserted()[j];
                    assert(self.asserted()[j] == c);
                    assert(below(c, old(self).spec_next_var() as int));
                    assert forall|i: int| 0 <= i < c.len() implies (#[trigger] c[i]).var().0
                        < n by {}
                }
            }
        }
        SatQuery { solver: SolverId::Lift, rebuild, clauses, assumptions }
    }

    /// Disables the activation literal `act` for good: asserts the unit
    /// clause of its negation.
    pub fn release(&mut self, act: Lit)
        requires
            old(self).wf(),
            act.var().0 < old(self).spec_next_var(),
        ensures
            final(self).wf(),
            final(self).spec_base() == old(self).spec_base(),
            final(self).spec_num_act() == old(self).spec_num_act(),
            final(self).spec_next_var() == old(self).spec_next_var(),
            final(self).needs_rebuild() == old(self).needs_rebuild(),
            final(self).asserted() == old(self).asserted().push(seq![act.not()]),
            final(self).spec_pending() == old(self).spec_pending().push(seq![act.not()]),
    {
        let mut unit: Vec<Lit> = Vec::new();
        unit.push(act.not());
        let ghost pv = views(self.pending@);
        let ghost cl = unit@;
        self.pending.push(unit);
        proof {
            assert(cl =~= seq![act.not()]);
            assert(views(self.pending@) =~= pv.push(cl));
            assert(self.asserted() =~= old(self).asserted().push(cl));
            lemma_not(act);
            assert forall|j: int| 0 <= j < self.asserted().len() implies below(
                #[trigger] self.asserted()[j],
                self.spec_next_var() as int,
            ) by {
                if j < old(self).asserted().len() {
                    assert(self.asserted()[j] == old(self).asserted()[j]);
                }
            }
        }
    }
}

} // verus!
