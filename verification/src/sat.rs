//! What the engine and its collaborators say to each other, and what it
//! means for an assignment to satisfy clauses.

use crate::cube::{negated, subset};
use crate::lit::Lit;
use vstd::prelude::*;

verus! {

/// Which SAT instance a query is for.
#[derive(Clone, Copy, PartialEq, Eq, Structural, Debug)]
pub enum SolverId {
    /// The instance that holds the clauses of one level of the trace.
    Frame(usize),
    /// The instance that shrinks a predecessor; it holds the transition
    /// relation alone.
    Lift,
}

/// One call of an incremental SAT instance.
#[derive(Debug)]
pub struct SatQuery {
    /// The instance asked.
    pub solver: SolverId,
    /// Whether the instance is first replaced by a fresh one that holds the
    /// transition relation and nothing else.
    pub rebuild: bool,
    /// The clauses to assert for good before solving, in this order.
    pub clauses: Vec<Vec<Lit>>,
    /// The literals assumed for this call only.
    pub assumptions: Vec<Lit>,
}

/// What a SAT instance found.
#[derive(Debug)]
pub enum SatAnswer {
    /// Satisfiable: the literals that hold in the assignment found.
    Sat(Vec<Lit>),
    /// Unsatisfiable: the assumptions that took part in the refutation.
    Unsat(Vec<Lit>),
}

/// A request to the policy that scores literals.
#[derive(Debug)]
pub enum ActivityCall {
    /// Asks for the score of each of the literals, in their order.
    Rank(Vec<Lit>),
    /// Reports the literals of a cube that generalization ended with.
    Bump(Vec<Lit>),
}

/// An assignment, given by the set of the variables that are true in it,
/// makes `l` true.
pub open spec fn lit_true(s: Set<u32>, l: Lit) -> bool {
    s.contains(l.var().0) == l.polarity()
}

/// The state `s` lies in the cube `c`.
pub open spec fn in_cube(s: Set<u32>, c: Seq<Lit>) -> bool {
    forall|i: int| 0 <= i < c.len() ==> lit_true(s, #[trigger] c[i])
}

/// The assignment `s` satisfies the clause `cl`.
pub open spec fn sat_clause(s: Set<u32>, cl: Seq<Lit>) -> bool {
    exists|i: int| 0 <= i < cl.len() && lit_true(s, #[trigger] cl[i])
}

/// The assignment `s` satisfies every clause of `cls`.
pub open spec fn sat_all(s: Set<u32>, cls: Seq<Seq<Lit>>) -> bool {
    forall|j: int| 0 <= j < cls.len() ==> sat_clause(s, #[trigger] cls[j])
}

/// Some clause of `cls` holds only negations of literals of `c`.
pub open spec fn excludes(cls: Seq<Seq<Lit>>, c: Seq<Lit>) -> bool {
    exists|j: int| 0 <= j < cls.len() && subset(#[trigger] cls[j], negated(c))
}

/// No state of a cube satisfies a set of clauses that excludes the cube.
pub proof fn lemma_excluded_unsat(cls: Seq<Seq<Lit>>, c: Seq<Lit>, s: Set<u32>)
    requires
        excludes(cls, c),
        in_cube(s, c),
    ensures
        !sat_all(s, cls),
{
    let j = choose|j: int| 0 <= j < cls.len() && subset(#[trigger] cls[j], negated(c));
    let cl = cls[j];
    assert(!sat_clause(s, cl)) by {
        assert forall|i: int| 0 <= i < cl.len() implies !lit_true(s, #[trigger] cl[i]) by {
            assert(negated(c).contains(cl[i]));
            let m = choose|m: int| 0 <= m < negated(c).len() && negated(c)[m] == cl[i];
            assert(lit_true(s, c[m]));
            crate::lit::lemma_not(c[m]);
        }
    }
}

/// A cube with all literals of an excluded one is excluded too.
pub proof fn lemma_excludes_monotone(cls: Seq<Seq<Lit>>, a: Seq<Lit>, b: Seq<Lit>)
    requires
        excludes(cls, a),
        subset(a, b),
    ensures
        excludes(cls, b),
{
    let j = choose|j: int| 0 <= j < cls.len() && subset(#[trigger] cls[j], negated(a));
    assert(subset(negated(a), negated(b))) by {
        assert forall|i: int| 0 <= i < negated(a).len() implies negated(b).contains(
            #[trigger] negated(a)[i],
        ) by {
            assert(b.contains(a[i]));
            let m = choose|m: int| 0 <= m < b.len() && b[m] == a[i];
            assert(negated(b)[m] == negated(a)[i]);
        }
    }
    crate::cube::lemma_subset_trans(cls[j], negated(a), negated(b));
}

/// Clauses asserted later take nothing away.
pub proof fn lemma_excludes_push(cls: Seq<Seq<Lit>>, cl: Seq<Lit>, c: Seq<Lit>)
    ensures
        excludes(cls, c) ==> excludes(cls.push(cl), c),
        subset(cl, negated(c)) ==> excludes(cls.push(cl), c),
{
    let more = cls.push(cl);
    if excludes(cls, c) {
        let j = choose|j: int| 0 <= j < cls.len() && subset(#[trigger] cls[j], negated(c));
        assert(more[j] == cls[j]);
    }
    if subset(cl, negated(c)) {
        assert(more[cls.len() as int] == cl);
    }
}

} // verus!
