//! Lemmas: cubes in ascending order with a signature, and subsumption
//! among them.

use crate::cube::{ids, ordered_subsume, sort, sorted, subset};
use crate::lit::Lit;
use std::collections::HashSet;
use vstd::prelude::*;
use vstd::std_specs::cmp::PartialEqSpecImpl;
use vstd::std_specs::hash::*;

verus! {

broadcast use group_hash_axioms;

/// The signature of a cube: the union of the bits of its literals.
pub open spec fn signature(c: Seq<Lit>) -> u64
    decreases c.len(),
{
    if c.len() == 0 {
        0
    } else {
        signature(c.drop_last()) | c.last().sign_bit()
    }
}

/// A forbidden region of the state space: a cube kept in ascending order,
/// with a signature that allows a cheap first test for subsumption.
#[derive(Debug)]
pub struct Lemma {
    cube: Vec<Lit>,
    sign: u64,
}

impl View for Lemma {
    type V = Seq<Lit>;

    /// The literals of the lemma, in the order in which they are kept.
    closed spec fn view(&self) -> Seq<Lit> {
        self.cube@
    }
}

impl Lemma {
    /// The stored signature.
    pub closed spec fn spec_sign(&self) -> u64 {
        self.sign
    }

    /// The cube is in ascending order and the signature is that of the cube.
    pub open spec fn wf(&self) -> bool {
        &&& sorted(self@)
        &&& self.spec_sign() == signature(self@)
    }

    /// `self` is at least as general as `other`: it is not longer, and each
    /// of its literals is one of `other`.
    pub open spec fn spec_subsume(&self, other: &Lemma) -> bool {
        &&& self@.len() <= other@.len()
        &&& subset(self@, other@)
    }

    /// Whether the signature of `self` has no bit outside that of `other`.
    pub open spec fn sign_within(&self, other: &Lemma) -> bool {
        self.spec_sign() & other.spec_sign() == self.spec_sign()
    }

    /// The lemma that forbids `cube`.
    pub fn new(cube: Vec<Lit>) -> (r: Lemma)
        ensures
            r.wf(),
            r@.to_multiset() == cube@.to_multiset(),
            r@.len() == cube@.len(),
            crate::cube::same_lits(r@, cube@),
            cube@.no_duplicates() <==> r@.no_duplicates(),
    {
        let mut cube = cube;
        sort(&mut cube);
        let mut sign: u64 = 0;
        let mut i: usize = 0;
        assert(cube@.subrange(0, 0) =~= Seq::<Lit>::empty());
        while i < cube.len()
            invariant
                i <= cube.len(),
                sign == signature(cube@.subrange(0, i as int)),
            decreases cube.len() - i,
        {
            proof {
                let next = cube@.subrange(0, i + 1);
                assert(next.drop_last() =~= cube@.subrange(0, i as int));
                assert(next.last() == cube@[i as int]);
            }
            sign = sign | cube[i].sign_bit();
            i = i + 1;
        }
        proof {
            assert(cube@.subrange(0, cube@.len() as int) =~= cube@);
        }
        Lemma { cube, sign }
    }

    /// The literals of the lemma, in ascending order.
    pub fn cube(&self) -> (c: &Vec<Lit>)
        ensures
            c@ == self@,
    {
        &self.cube
    }

    /// The number of literals.
    pub fn len(&self) -> (n: usize)
        ensures
            n == self@.len(),
    {
        self.cube.len()
    }

    /// The signature of the lemma.
    pub fn sign(&self) -> (s: u64)
        ensures
            s == self.spec_sign(),
    {
        self.sign
    }

    /// A copy of the lemma.
    pub fn copy(&self) -> (r: Lemma)
        ensures
            r@ == self@,
            r.spec_sign() == self.spec_sign(),
    {
        let mut cube: Vec<Lit> = Vec::with_capacity(self.cube.len());
        let mut i: usize = 0;
        while i < self.cube.len()
            invariant
                i <= self.cube.len(),
                cube@ == self.cube@.subrange(0, i as int),
            decreases self.cube.len() - i,
        {
            cube.push(self.cube[i]);
            assert(cube@ =~= self.cube@.subrange(0, i + 1));
            i = i + 1;
        }
        assert(cube@ =~= self.cube@);
        Lemma { cube, sign: self.sign }
    }

    /// Whether `self` is at least as general as `other`.
    pub fn subsume(&self, other: &Lemma) -> (r: bool)
        requires
            self.wf(),
            other.wf(),
        ensures
            r == self.spec_subsume(other),
    {
        if self.cube.len() > other.cube.len() {
            return false;
        }
        if self.sign & other.sign != self.sign {
            proof {
                if subset(self@, other@) {
                    lemma_sign_filter(self@, other@);
                }
            }
            return false;
        }
        ordered_subsume(&self.cube, &other.cube)
    }

    /// Whether `self` is at least as general as `other`, where `other_lits`
    /// holds the codes of the literals of `other`.
    pub fn subsume_set(&self, other: &Lemma, other_lits: &HashSet<u32>) -> (r: bool)
        requires
            self.wf(),
            other.wf(),
        ensures
            r == (self@.len() <= other@.len() && self.sign_within(other) && forall|i: int|
                0 <= i < self@.len() ==> other_lits@.contains(#[trigger] self@[i].0)),
            other_lits@ == ids(other@) ==> r == self.spec_subsume(other),
    {
        proof {
            if subset(self@, other@) {
                lemma_sign_filter(self@, other@);
            }
            if other_lits@ == ids(other@) {
                assert forall|i: int| 0 <= i < self@.len() implies (other_lits@.contains(
                    self@[i].0,
                ) <==> other@.contains(#[trigger] self@[i])) by {}
            }
        }
        if self.cube.len() > other.cube.len() {
            return false;
        }
        if self.sign & other.sign != self.sign {
            return false;
        }
        let mut i: usize = 0;
        while i < self.cube.len()
            invariant
                i <= self.cube.len(),
                forall|k: int| 0 <= k < i ==> other_lits@.contains(#[trigger] self.cube@[k].0),
            decreases self.cube.len() - i,
        {
            if !other_lits.contains(&self.cube[i].0) {
                return false;
            }
            i = i + 1;
        }
        true
    }
}

impl Default for Lemma {
    /// The lemma of the empty cube.
    fn default() -> (r: Lemma)
        ensures
            r.wf(),
            r@.len() == 0,
    {
        Lemma { cube: Vec::new(), sign: 0 }
    }
}

impl PartialEq for Lemma {
    /// Two lemmas are equal when their cubes are.
    fn eq(&self, other: &Lemma) -> (r: bool) {
        if self.cube.len() != other.cube.len() {
            return false;
        }
        let mut i: usize = 0;
        while i < self.cube.len()
            invariant
                i <= self.cube.len(),
                self.cube.len() == other.cube.len(),
                forall|k: int| 0 <= k < i ==> self.cube@[k] == other.cube@[k],
            decreases self.cube.len() - i,
        {
            if self.cube[i] != other.cube[i] {
                return false;
            }
            i = i + 1;
        }
        assert(self.cube@ =~= other.cube@);
        true
    }
}

impl PartialEqSpecImpl for Lemma {
    /// Equality of lemmas is what [`Self::eq_spec`] says.
    open spec fn obeys_eq_spec() -> bool {
        true
    }

    /// Two lemmas are equal when they hold the same sequence of literals.
    open spec fn eq_spec(&self, other: &Lemma) -> bool {
        self@ == other@
    }
}

impl Eq for Lemma {

}

/// A cube's signature holds the bit of each of its literals.
pub proof fn lemma_sign_has_bit(c: Seq<Lit>, l: Lit)
    requires
        c.contains(l),
    ensures
        l.sign_bit() & signature(c) == l.sign_bit(),
    decreases c.len(),
{
    let head = c.drop_last();
    let x = signature(head);
    let y = c.last().sign_bit();
    let b = l.sign_bit();
    if c.last() == l {
        assert(b & (x | b) == b) by (bit_vector);
    } else {
        let k = choose|k: int| 0 <= k < c.len() && c[k] == l;
        assert(head[k] == l);
        lemma_sign_has_bit(head, l);
        assert(b & (x | y) == b) by (bit_vector)
            requires
                b & x == b,
        ;
    }
}

/// The signature is a sound filter: a cube whose literals all occur in
/// another has no signature bit that the other lacks.
pub proof fn lemma_sign_filter(a: Seq<Lit>, b: Seq<Lit>)
    requires
        subset(a, b),
    ensures
        signature(a) & signature(b) == signature(a),
    decreases a.len(),
{
    let s = signature(b);
    if a.len() == 0 {
        assert(0u64 & s == 0u64) by (bit_vector);
    } else {
        let head = a.drop_last();
        let x = signature(head);
        let y = a.last().sign_bit();
        assert(subset(head, b)) by {
            assert forall|i: int| 0 <= i < head.len() implies b.contains(#[trigger] head[i]) by {
                assert(head[i] == a[i]);
            }
        }
        lemma_sign_filter(head, b);
        assert(b.contains(a[a.len() - 1]));
        lemma_sign_has_bit(b, a.last());
        assert((x | y) & s == (x | y)) by (bit_vector)
            requires
                x & s == x,
                y & s == y,
        ;
    }
}

/// The signature test never rejects a lemma whose literals all occur in the
/// other one.
pub proof fn lemma_sign_sound(a: Lemma, b: Lemma)
    requires
        a.wf(),
        b.wf(),
        subset(a@, b@),
    ensures
        a.sign_within(&b),
{
    lemma_sign_filter(a@, b@);
}

/// Every lemma subsumes itself.
pub proof fn lemma_subsume_reflexive(a: Lemma)
    ensures
        a.spec_subsume(&a),
{
}

/// Two lemmas that subsume each other hold the same literals.
pub proof fn lemma_subsume_antisymmetric(a: Lemma, b: Lemma)
    requires
        a.spec_subsume(&b),
        b.spec_subsume(&a),
    ensures
        a@.to_set() == b@.to_set(),
        a@.len() == b@.len(),
{
    crate::cube::lemma_subset_sets(a@, b@);
    crate::cube::lemma_subset_sets(b@, a@);
    assert(a@.to_set() =~= b@.to_set());
}

} // verus!
