//! The transition system as the engine sees it.

use crate::cube::{below, subset};
use crate::lit::{Lit, Var, MAX_VAR};
use vstd::prelude::*;

verus! {

/// Number of queries after which a SAT instance is rebuilt from scratch.
pub const RESTART_THRESHOLD: usize = 300;

/// Room that a model leaves above its own variables for the activation
/// variables of one SAT instance between two rebuilds.
pub const ACT_ROOM: u32 = 302;

/// What the engine reads of a transition system: which variables are inputs
/// and latches, the initial value of each latch that has one, and the literal
/// that computes the next value of each latch.
#[derive(Debug)]
pub struct Model {
    num_var: u32,
    inputs: Vec<Var>,
    latchs: Vec<Var>,
    init: Vec<Option<bool>>,
    next: Vec<Option<Lit>>,
}

impl Model {
    /// The number of variables of the transition relation. Variable 0 is the
    /// constant.
    pub closed spec fn spec_num_var(&self) -> nat {
        self.num_var as nat
    }

    /// The input variables, in the order in which they were declared.
    pub closed spec fn spec_inputs(&self) -> Seq<Var> {
        self.inputs@
    }

    /// The latch variables, in the order in which they were declared.
    pub closed spec fn spec_latchs(&self) -> Seq<Var> {
        self.latchs@
    }

    /// The value that `v` has in every initial state, if it is fixed there.
    pub closed spec fn init_value(&self, v: Var) -> Option<bool> {
        if v.0 < self.init@.len() {
            self.init@[v.0 as int]
        } else {
            None
        }
    }

    /// The literal that holds now exactly when the latch `v` holds next.
    pub closed spec fn next_of(&self, v: Var) -> Option<Lit> {
        if v.0 < self.next@.len() {
            self.next@[v.0 as int]
        } else {
            None
        }
    }

    /// The model is consistent: every variable it names is one of its own,
    /// every latch has a next-state literal, and there is room left for
    /// activation variables.
    pub closed spec fn wf(&self) -> bool {
        &&& 1 <= self.num_var
        &&& self.num_var + ACT_ROOM <= MAX_VAR
        &&& self.init@.len() == self.num_var
        &&& self.next@.len() == self.num_var
        &&& self.latchs@.no_duplicates()
        &&& forall|i: int| 0 <= i < self.inputs@.len() ==> (#[trigger] self.inputs@[i]).0 < self.num_var
        &&& forall|i: int|
            0 <= i < self.latchs@.len() ==> (#[trigger] self.latchs@[i]).0 < self.num_var
                && self.next@[self.latchs@[i].0 as int] is Some
        &&& forall|v: int|
            0 <= v < self.next@.len() ==> match #[trigger] self.next@[v] {
                Some(l) => l.var().0 < self.num_var,
                None => true,
            }
    }

    /// `l` is a literal of a latch.
    pub open spec fn is_state_lit(&self, l: Lit) -> bool {
        self.next_of(l.var()) is Some
    }

    /// Every literal of `c` is one of a latch.
    pub open spec fn is_state_cube(&self, c: Seq<Lit>) -> bool {
        forall|i: int| 0 <= i < c.len() ==> self.is_state_lit(#[trigger] c[i])
    }

    /// Every literal of `c` is one of a variable of the model.
    pub open spec fn in_range(&self, c: Seq<Lit>) -> bool {
        below(c, self.spec_num_var() as int)
    }

    /// The literal that holds now exactly when the latch literal `l` holds
    /// after one step.
    pub open spec fn spec_lit_next(&self, l: Lit) -> Lit {
        let n = self.next_of(l.var()).unwrap();
        if l.polarity() {
            n
        } else {
            n.not()
        }
    }

    /// The cube that holds now exactly when `c` holds after one step.
    pub open spec fn spec_cube_next(&self, c: Seq<Lit>) -> Seq<Lit> {
        Seq::new(c.len(), |i: int| self.spec_lit_next(c[i]))
    }

    /// `l` has the value that its variable has initially, or its variable is
    /// free there.
    pub open spec fn agrees_with_init(&self, l: Lit) -> bool {
        match self.init_value(l.var()) {
            Some(v) => v == l.polarity(),
            None => true,
        }
    }

    /// Some initial state lies in `c`: no literal of `c` contradicts an
    /// initial value.
    pub open spec fn spec_cube_subsume_init(&self, c: Seq<Lit>) -> bool {
        forall|i: int| 0 <= i < c.len() ==> self.agrees_with_init(#[trigger] c[i])
    }

    /// A model with `num_var` variables, none of them yet an input or a
    /// latch; `None` where that is no number of variables a model can have.
    pub fn new(num_var: u32) -> (r: Option<Model>)
        ensures
            r is Some <==> 1 <= num_var && num_var + ACT_ROOM <= MAX_VAR,
            r matches Some(m) ==> {
                &&& m.wf()
                &&& m.spec_num_var() == num_var
                &&& m.spec_inputs().len() == 0
                &&& m.spec_latchs().len() == 0
                &&& forall|v: Var| m.init_value(v) is None && m.next_of(v) is None
            },
    {
        if num_var < 1 || num_var > MAX_VAR - ACT_ROOM {
            return None;
        }
        let mut init: Vec<Option<bool>> = Vec::new();
        let mut next: Vec<Option<Lit>> = Vec::new();
        let mut i: u32 = 0;
        while i < num_var
            invariant
                i <= num_var,
                init@.len() == i,
                next@.len() == i,
                forall|k: int| 0 <= k < i ==> init@[k] is None && next@[k] is None,
            decreases num_var - i,
        {
            init.push(None);
            next.push(None);
            i = i + 1;
        }
        Some(Model { num_var, inputs: Vec::new(), latchs: Vec::new(), init, next })
    }

    /// Declares `v` an input. Returns whether `v` is a variable of the model;
    /// if not, nothing changes.
    pub fn add_input(&mut self, v: Var) -> (ok: bool)
        requires
            old(self).wf(),
        ensures
            final(self).wf(),
            ok == (v.0 < old(self).spec_num_var()),
            final(self).spec_num_var() == old(self).spec_num_var(),
            final(self).spec_latchs() == old(self).spec_latchs(),
            final(self).spec_inputs() == if ok {
                old(self).spec_inputs().push(v)
            } else {
                old(self).spec_inputs()
            },
            forall|w: Var|
                final(self).init_value(w) == old(self).init_value(w) && final(self).next_of(w)
                    == old(self).next_of(w),
    {
        if v.0 >= self.num_var {
            return false;
        }
        self.inputs.push(v);
        true
    }

    /// Declares `v` a latch whose next value is that of `next` now, and whose
    /// initial value is `init` where that is given. Returns whether `v` and
    /// the variable of `next` are variables of the model and `v` is not a
    /// latch yet; if not, nothing changes.
    pub fn add_latch(&mut self, v: Var, next: Lit, init: Option<bool>) -> (ok: bool)
        requires
            old(self).wf(),
        ensures
            final(self).wf(),
            ok == (v.0 < old(self).spec_num_var() && next.var().0 < old(self).spec_num_var()
                && old(self).next_of(v) is None),
            final(self).spec_num_var() == old(self).spec_num_var(),
            final(self).spec_inputs() == old(self).spec_inputs(),
            final(self).spec_latchs() == if ok {
                old(self).spec_latchs().push(v)
            } else {
                old(self).spec_latchs()
            },
            forall|w: Var|
                final(self).init_value(w) == if ok && w == v {
                    init
                } else {
                    old(self).init_value(w)
                },
            forall|w: Var|
                final(self).next_of(w) == if ok && w == v {
                    Some(next)
                } else {
                    old(self).next_of(w)
                },
    {
        if v.0 >= self.num_var || next.var().0 >= self.num_var {
            return false;
        }
        let idx = v.0 as usize;
        if self.next[idx].is_some() {
            return false;
        }
        self.latchs.push(v);
        self.init[idx] = init;
        self.next[idx] = Some(next);
        proof {
            assert forall|i: int| 0 <= i < self.latchs@.len() implies (
            #[trigger] self.latchs@[i]).0 < self.num_var
                && self.next@[self.latchs@[i].0 as int] is Some by {
                if i < old(self).latchs@.len() {
                    assert(self.latchs@[i] == old(self).latchs@[i]);
                }
            }
        }
        true
    }

    /// The number of variables of the transition relation.
    pub fn num_var(&self) -> (n: u32)
        requires
            self.wf(),
        ensures
            n == self.spec_num_var(),
            1 <= n,
            n + ACT_ROOM <= MAX_VAR,
    {
        self.num_var
    }

    /// The input variables.
    pub fn inputs(&self) -> (r: &Vec<Var>)
        requires
            self.wf(),
        ensures
            r@ == self.spec_inputs(),
            forall|i: int| 0 <= i < r@.len() ==> (#[trigger] r@[i]).0 < self.spec_num_var(),
    {
        &self.inputs
    }

    /// The latch variables.
    pub fn latchs(&self) -> (r: &Vec<Var>)
        requires
            self.wf(),
        ensures
            r@ == self.spec_latchs(),
            r@.no_duplicates(),
            forall|i: int|
                0 <= i < r@.len() ==> (#[trigger] r@[i]).0 < self.spec_num_var() && self.next_of(
                    r@[i],
                ) is Some,
    {
        &self.latchs
    }

    /// The initial value of `v`, if it has one.
    pub fn init_of(&self, v: Var) -> (r: Option<bool>)
        ensures
            r == self.init_value(v),
    {
        let idx = v.0 as usize;
        if idx < self.init.len() {
            self.init[idx]
        } else {
            None
        }
    }

    /// The literal that holds now exactly when the latch literal `l` holds
    /// after one step.
    pub fn lit_next(&self, l: Lit) -> (r: Lit)
        requires
            self.wf(),
            self.is_state_lit(l),
        ensures
            r == self.spec_lit_next(l),
            r.var().0 < self.spec_num_var(),
    {
        let idx = l.var().0 as usize;
        let n = self.next[idx].unwrap();
        if l.polarity() {
            n
        } else {
            n.not()
        }
    }

    /// The cube that holds now exactly when `cube` holds after one step.
    pub fn cube_next(&self, cube: &Vec<Lit>) -> (r: Vec<Lit>)
        requires
            self.wf(),
            self.is_state_cube(cube@),
        ensures
            r@ == self.spec_cube_next(cube@),
            self.in_range(r@),
    {
        let mut r: Vec<Lit> = Vec::with_capacity(cube.len());
        let mut i: usize = 0;
        while i < cube.len()
            invariant
                i <= cube.len(),
                self.wf(),
                self.is_state_cube(cube@),
                r@.len() == i,
                forall|k: int| 0 <= k < i ==> r@[k] == self.spec_lit_next(cube@[k]),
                forall|k: int| 0 <= k < i ==> (#[trigger] r@[k]).var().0 < self.spec_num_var(),
            decreases cube.len() - i,
        {
            r.push(self.lit_next(cube[i]));
            i = i + 1;
        }
        assert(r@ =~= self.spec_cube_next(cube@));
        r
    }

    /// Whether some initial state lies in `cube`.
    pub fn cube_subsume_init(&self, cube: &Vec<Lit>) -> (r: bool)
        ensures
            r == self.spec_cube_subsume_init(cube@),
    {
        let mut i: usize = 0;
        while i < cube.len()
            invariant
                i <= cube.len(),
                forall|k: int| 0 <= k < i ==> self.agrees_with_init(#[trigger] cube@[k]),
            decreases cube.len() - i,
        {
            let l = cube[i];
            match self.init_of(l.var()) {
                Some(v) => {
                    if v != l.polarity() {
                        assert(!self.agrees_with_init(cube@[i as int]));
                        return false;
                    }
                },
                None => {},
            }
            i = i + 1;
        }
        true
    }

    /// Every latch literal is one of a variable of the model.
    pub proof fn lemma_state_in_range(&self, c: Seq<Lit>)
        requires
            self.wf(),
            self.is_state_cube(c),
        ensures
            self.in_range(c),
    {
        assert forall|i: int| 0 <= i < c.len() implies (#[trigger] c[i]).var().0
            < self.spec_num_var() by {
            assert(self.is_state_lit(c[i]));
        }
    }

    /// The next-state form of a cube of latch literals is over variables
    /// of the model, literal for literal.
    pub proof fn lemma_next_in_range(&self, c: Seq<Lit>)
        requires
            self.wf(),
            self.is_state_cube(c),
        ensures
            self.in_range(self.spec_cube_next(c)),
            self.spec_cube_next(c).len() == c.len(),
    {
        let n = self.spec_cube_next(c);
        assert forall|i: int| 0 <= i < n.len() implies (#[trigger] n[i]).var().0
            < self.spec_num_var() by {
            assert(self.is_state_lit(c[i]));
            let v = c[i].var().0 as int;
            assert(self.next@[v] is Some);
            crate::lit::lemma_not(self.next@[v].unwrap());
        }
    }

    /// A cube that holds all literals of one that excludes the initial
    /// states excludes them too.
    pub proof fn lemma_init_monotone(&self, a: Seq<Lit>, b: Seq<Lit>)
        requires
            subset(a, b),
            !self.spec_cube_subsume_init(a),
        ensures
            !self.spec_cube_subsume_init(b),
    {
        let i = choose|i: int| 0 <= i < a.len() && !self.agrees_with_init(#[trigger] a[i]);
        assert(b.contains(a[i]));
        let j = choose|j: int| 0 <= j < b.len() && b[j] == a[i];
        assert(!self.agrees_with_init(b[j]));
    }

    /// Parts of a cube of latch literals are cubes of latch literals.
    pub proof fn lemma_state_subset(&self, a: Seq<Lit>, b: Seq<Lit>)
        requires
            subset(a, b),
            self.is_state_cube(b),
        ensures
            self.is_state_cube(a),
    {
        assert forall|i: int| 0 <= i < a.len() implies self.is_state_lit(#[trigger] a[i]) by {
            assert(b.contains(a[i]));
            let j = choose|j: int| 0 <= j < b.len() && b[j] == a[i];
            assert(self.is_state_lit(b[j]));
        }
    }
}

} // verus!
