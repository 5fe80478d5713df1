//! Cubes: sequences of literals, their order, and the tests and
//! operations on them that the engine needs.

use crate::lit::{lemma_not, Lit};
use std::collections::HashSet;
use vstd::prelude::*;
use vstd::seq_lib::*;
use vstd::std_specs::hash::*;

verus! {

broadcast use group_hash_axioms;

/// The literals of `c` come in ascending order of their codes.
pub open spec fn sorted(c: Seq<Lit>) -> bool {
    forall|i: int, j: int| 0 <= i < j < c.len() ==> c[i].0 <= c[j].0
}

/// Every literal of `a` occurs in `b`.
pub open spec fn subset(a: Seq<Lit>, b: Seq<Lit>) -> bool {
    forall|i: int| 0 <= i < a.len() ==> b.contains(#[trigger] a[i])
}

/// `a` and `b` hold the same literals, in whatever order and number.
pub open spec fn same_lits(a: Seq<Lit>, b: Seq<Lit>) -> bool {
    subset(a, b) && subset(b, a)
}

/// The codes of the literals of `c`.
pub open spec fn ids(c: Seq<Lit>) -> Set<u32> {
    Set::new(|id: u32| c.contains(Lit(id)))
}

/// The clause that excludes the cube `c`: each literal negated.
pub open spec fn negated(c: Seq<Lit>) -> Seq<Lit> {
    Seq::new(c.len(), |i: int| c[i].not())
}

/// The cubes that a list of vectors holds.
pub open spec fn views(v: Seq<Vec<Lit>>) -> Seq<Seq<Lit>> {
    Seq::new(v.len(), |i: int| v[i]@)
}

/// `a` is at least as general as `b`: it is not longer, and each of its
/// literals is one of `b`.
pub open spec fn subsumes(a: Seq<Lit>, b: Seq<Lit>) -> bool {
    a.len() <= b.len() && subset(a, b)
}

/// Every literal of `c` is one of a variable with an index under `n`.
pub open spec fn below(c: Seq<Lit>, n: int) -> bool {
    forall|i: int| 0 <= i < c.len() ==> (#[trigger] c[i]).var().0 < n
}

/// Every literal of every clause of `cls` is one of a variable with an
/// index under `n`.
pub open spec fn all_below(cls: Seq<Seq<Lit>>, n: int) -> bool {
    forall|j: int| 0 <= j < cls.len() ==> below(#[trigger] cls[j], n)
}

/// No cube of the list occurs twice, and none subsumes another.
pub open spec fn subsumption_free(ts: Seq<Seq<Lit>>) -> bool {
    &&& ts.no_duplicates()
    &&& forall|a: int, b: int|
        0 <= a < ts.len() && 0 <= b < ts.len() && a != b ==> !subsumes(
            #[trigger] ts[a],
            #[trigger] ts[b],
        )
}

/// The literals of `c` that `keep` accepts, in their order in `c`.
pub open spec fn restrict(c: Seq<Lit>, keep: Set<u32>) -> Seq<Lit> {
    c.filter(|l: Lit| keep.contains(l.0))
}

/// Being a subset is transitive.
pub proof fn lemma_subset_trans(a: Seq<Lit>, b: Seq<Lit>, c: Seq<Lit>)
    requires
        subset(a, b),
        subset(b, c),
    ensures
        subset(a, c),
{
    assert forall|i: int| 0 <= i < a.len() implies c.contains(#[trigger] a[i]) by {
        assert(b.contains(a[i]));
        let j = choose|j: int| 0 <= j < b.len() && b[j] == a[i];
        assert(c.contains(b[j]));
    }
}

/// Every cube is a subset of itself.
pub proof fn lemma_subset_refl(a: Seq<Lit>)
    ensures
        subset(a, a),
{
}

/// A subset in the sense of [`subset`] is one of the sets of literals.
pub proof fn lemma_subset_sets(a: Seq<Lit>, b: Seq<Lit>)
    ensures
        subset(a, b) <==> a.to_set().subset_of(b.to_set()),
{
    broadcast use vstd::seq_lib::group_seq_properties;

    if subset(a, b) {
        assert forall|l: Lit| a.to_set().contains(l) implies b.to_set().contains(l) by {
            let i = choose|i: int| 0 <= i < a.len() && a[i] == l;
            assert(b.contains(a[i]));
        }
    }
    if a.to_set().subset_of(b.to_set()) {
        assert forall|i: int| 0 <= i < a.len() implies b.contains(#[trigger] a[i]) by {
            assert(a.to_set().contains(a[i]));
            assert(b.to_set().contains(a[i]));
        }
    }
}

/// What two cubes with the same multiset of literals have in common.
pub proof fn lemma_permutation(a: Seq<Lit>, b: Seq<Lit>)
    requires
        a.to_multiset() == b.to_multiset(),
    ensures
        a.len() == b.len(),
        same_lits(a, b),
        a.no_duplicates() <==> b.no_duplicates(),
{
    broadcast use to_multiset_len, to_multiset_contains;

    to_multiset_len(a);
    to_multiset_len(b);
    assert forall|i: int| 0 <= i < a.len() implies b.contains(#[trigger] a[i]) by {
        assert(a.contains(a[i]));
        assert(a.to_multiset().count(a[i]) > 0);
    }
    assert forall|i: int| 0 <= i < b.len() implies a.contains(#[trigger] b[i]) by {
        assert(b.contains(b[i]));
        assert(b.to_multiset().count(b[i]) > 0);
    }
    if a.no_duplicates() {
        a.lemma_multiset_has_no_duplicates();
        b.lemma_multiset_has_no_duplicates_conv();
    }
    if b.no_duplicates() {
        b.lemma_multiset_has_no_duplicates();
        a.lemma_multiset_has_no_duplicates_conv();
    }
}

/// Whether `l` occurs in `c`.
pub fn contains(c: &Vec<Lit>, l: Lit) -> (r: bool)
    ensures
        r == c@.contains(l),
{
    let mut i: usize = 0;
    while i < c.len()
        invariant
            i <= c.len(),
            forall|k: int| 0 <= k < i ==> c@[k] != l,
        decreases c.len() - i,
    {
        if c[i] == l {
            return true;
        }
        i = i + 1;
    }
    false
}

/// Puts the literals of `c` in ascending order of their codes. Literals that
/// occur several times keep their number.
pub fn sort(c: &mut Vec<Lit>)
    ensures
        sorted(final(c)@),
        final(c)@.to_multiset() == old(c)@.to_multiset(),
        final(c)@.len() == old(c)@.len(),
        same_lits(final(c)@, old(c)@),
        old(c)@.no_duplicates() <==> final(c)@.no_duplicates(),
{
    let mut out: Vec<Lit> = Vec::new();
    let mut i: usize = 0;
    assert(out@ =~= c@.subrange(0, 0));
    while i < c.len()
        invariant
            i <= c.len(),
            sorted(out@),
            out@.to_multiset() == c@.subrange(0, i as int).to_multiset(),
        decreases c.len() - i,
    {
        let l = c[i];
        let mut p: usize = 0;
        while p < out.len() && out[p].0 <= l.0
            invariant
                p <= out.len(),
                forall|k: int| 0 <= k < p ==> out@[k].0 <= l.0,
            decreases out.len() - p,
        {
            p = p + 1;
        }
        proof {
            let before = out@;
            let after = before.insert(p as int, l);
            assert(sorted(after)) by {
                assert forall|x: int, y: int| 0 <= x < y < after.len() implies after[x].0
                    <= after[y].0 by {
                    if y < p {
                    } else if y == p {
                    } else if x < p {
                        assert(after[y] == before[y - 1]);
                    } else if x == p {
                        assert(after[y] == before[y - 1]);
                    } else {
                        assert(after[x] == before[x - 1]);
                        assert(after[y] == before[y - 1]);
                    }
                }
            }
            to_multiset_insert(before, p as int, l);
            let head = c@.subrange(0, i as int);
            assert(c@.subrange(0, i + 1) =~= head.push(l));
            to_multiset_build(head, l);
        }
        out.insert(p, l);
        i = i + 1;
    }
    proof {
        assert(c@.subrange(0, c@.len() as int) =~= c@);
        lemma_permutation(out@, c@);
    }
    *c = out;
}

/// Whether every literal of `a` occurs in `b`, for cubes in ascending order,
/// where `a` is not the longer one.
pub fn ordered_subsume(a: &Vec<Lit>, b: &Vec<Lit>) -> (r: bool)
    requires
        sorted(a@),
        sorted(b@),
    ensures
        r == (a@.len() <= b@.len() && subset(a@, b@)),
{
    if a.len() > b.len() {
        return false;
    }
    let mut j: usize = 0;
    let mut i: usize = 0;
    while i < a.len()
        invariant
            i <= a.len(),
            j <= b.len(),
            sorted(a@),
            sorted(b@),
            forall|k: int| 0 <= k < i ==> b@.contains(#[trigger] a@[k]),
            i < a.len() ==> forall|m: int| 0 <= m < j ==> b@[m].0 < a@[i as int].0,
        decreases a.len() - i,
    {
        while j < b.len() && a[i].0 > b[j].0
            invariant
                i < a.len(),
                j <= b.len(),
                forall|m: int| 0 <= m < j ==> b@[m].0 < a@[i as int].0,
            decreases b.len() - j,
        {
            j = j + 1;
        }
        if j == b.len() || a[i] != b[j] {
            proof {
                let l = a@[i as int];
                assert(!b@.contains(l)) by {
                    assert forall|m: int| 0 <= m < b@.len() implies b@[m] != l by {
                        if m < j {
                        } else {
                            assert(b@[j as int].0 <= b@[m].0);
                        }
                    }
                }
            }
            return false;
        }
        i = i + 1;
    }
    true
}

/// The clause that excludes the cube `c`.
pub fn negate(c: &Vec<Lit>) -> (r: Vec<Lit>)
    ensures
        r@ == negated(c@),
{
    let mut r: Vec<Lit> = Vec::with_capacity(c.len());
    let mut i: usize = 0;
    while i < c.len()
        invariant
            i <= c.len(),
            r@.len() == i,
            forall|k: int| 0 <= k < i ==> r@[k] == c@[k].not(),
        decreases c.len() - i,
    {
        r.push(c[i].not());
        i = i + 1;
    }
    assert(r@ =~= negated(c@));
    r
}

/// The set of the codes of the literals of `c`, for fast membership tests.
pub fn id_set(c: &Vec<Lit>) -> (s: HashSet<u32>)
    ensures
        s@ == ids(c@),
{
    let mut s: HashSet<u32> = HashSet::with_capacity(c.len());
    let mut i: usize = 0;
    while i < c.len()
        invariant
            i <= c.len(),
            s@ == ids(c@.subrange(0, i as int)),
        decreases c.len() - i,
    {
        proof {
            let head = c@.subrange(0, i as int);
            let next = c@.subrange(0, i + 1);
            assert(next =~= head.push(c@[i as int]));
            assert(ids(next) =~= ids(head).insert(c@[i as int].0)) by {
                assert forall|id: u32| ids(next).contains(id) <==> ids(head).insert(
                    c@[i as int].0,
                ).contains(id) by {
                    if head.contains(Lit(id)) {
                        let k = choose|k: int| 0 <= k < head.len() && head[k] == Lit(id);
                        assert(next[k] == Lit(id));
                    }
                    if id == c@[i as int].0 {
                        assert(next[i as int] == Lit(id));
                    }
                    if next.contains(Lit(id)) {
                        let k = choose|k: int| 0 <= k < next.len() && next[k] == Lit(id);
                        if k < i {
                            assert(head[k] == Lit(id));
                        }
                    }
                }
            }
        }
        s.insert(c[i].0);
        i = i + 1;
    }
    proof {
        assert(c@.subrange(0, c@.len() as int) =~= c@);
    }
    s
}

/// The literals of `c` whose codes are in `keep`, in their order in `c`.
pub fn retain_in(c: &Vec<Lit>, keep: &HashSet<u32>) -> (r: Vec<Lit>)
    ensures
        r@ == restrict(c@, keep@),
{
    let mut r: Vec<Lit> = Vec::new();
    let mut i: usize = 0;
    let ghost pred = |l: Lit| keep@.contains(l.0);
    while i < c.len()
        invariant
            i <= c.len(),
            pred == (|l: Lit| keep@.contains(l.0)),
            r@ == c@.subrange(0, i as int).filter(pred),
        decreases c.len() - i,
    {
        proof {
            let head = c@.subrange(0, i as int);
            assert(c@.subrange(0, i + 1) =~= head.push(c@[i as int]));
            head.lemma_filter_push(c@[i as int], pred);
        }
        if keep.contains(&c[i].0) {
            r.push(c[i]);
        }
        i = i + 1;
    }
    proof {
        assert(c@.subrange(0, c@.len() as int) =~= c@);
    }
    r
}

/// What [`restrict`] keeps: exactly the literals of `c` that `keep` accepts,
/// none of them twice if none was there twice.
pub proof fn lemma_restrict(c: Seq<Lit>, keep: Set<u32>)
    ensures
        subset(restrict(c, keep), c),
        restrict(c, keep).len() <= c.len(),
        forall|l: Lit| restrict(c, keep).contains(l) <==> (c.contains(l) && keep.contains(l.0)),
        c.no_duplicates() ==> restrict(c, keep).no_duplicates(),
        sorted(c) ==> sorted(restrict(c, keep)),
    decreases c.len(),
{
    let pred = |l: Lit| keep.contains(l.0);
    let r = restrict(c, keep);
    c.lemma_filter_len(pred);
    if c.len() == 0 {
        reveal(Seq::filter);
        assert(r.len() == 0);
    } else {
        let head = c.drop_last();
        let last = c.last();
        lemma_restrict(head, keep);
        let rh = restrict(head, keep);
        assert(c =~= head.push(last));
        head.lemma_filter_push(last, pred);
        assert forall|l: Lit| r.contains(l) <==> (c.contains(l) && keep.contains(l.0)) by {
            if r.contains(l) {
                let k = choose|k: int| 0 <= k < r.len() && r[k] == l;
                if k < rh.len() {
                    assert(rh.contains(l));
                    assert(head.contains(l));
                    let m = choose|m: int| 0 <= m < head.len() && head[m] == l;
                    assert(c[m] == l);
                } else {
                    assert(l == last);
                    assert(c[c.len() - 1] == l);
                }
            }
            if c.contains(l) && keep.contains(l.0) {
                let m = choose|m: int| 0 <= m < c.len() && c[m] == l;
                if m < head.len() {
                    assert(head[m] == l);
                    assert(rh.contains(l));
                    let k = choose|k: int| 0 <= k < rh.len() && rh[k] == l;
                    assert(r[k] == l);
                } else {
                    assert(r[r.len() - 1] == l);
                }
            }
        }
        assert forall|i: int| 0 <= i < r.len() implies c.contains(#[trigger] r[i]) by {
            assert(r.contains(r[i]));
        }
        if c.no_duplicates() {
            assert(head.no_duplicates());
            if keep.contains(last.0) {
                assert(!rh.contains(last)) by {
                    if rh.contains(last) {
                        assert(head.contains(last));
                        let m = choose|m: int| 0 <= m < head.len() && head[m] == last;
                        assert(c[m] == c[c.len() - 1]);
                    }
                }
                assert forall|x: int, y: int| 0 <= x < y < r.len() implies r[x] != r[y] by {
                    if y == r.len() - 1 {
                        assert(rh.contains(rh[x]));
                    }
                }
            }
        }
        if sorted(c) {
            assert(sorted(head));
            if keep.contains(last.0) {
                assert forall|x: int, y: int| 0 <= x < y < r.len() implies r[x].0 <= r[y].0 by {
                    if y == r.len() - 1 {
                        assert(rh.contains(rh[x]));
                        assert(head.contains(rh[x]));
                        let m = choose|m: int| 0 <= m < head.len() && head[m] == rh[x];
                        assert(c[m].0 <= c[c.len() - 1].0);
                    }
                }
            }
        }
    }
}

/// `a` comes before `b` in the order of cubes, read from position `i` on:
/// at the first position where the two differ `a` has the smaller code, or
/// `a` ends there and `b` goes on.
pub open spec fn less_from(a: Seq<Lit>, b: Seq<Lit>, i: int) -> bool
    decreases a.len() - i,
{
    if i >= a.len() {
        i < b.len()
    } else if i >= b.len() {
        false
    } else if a[i].0 != b[i].0 {
        a[i].0 < b[i].0
    } else {
        less_from(a, b, i + 1)
    }
}

/// `a` comes before `b` in the order of cubes.
pub open spec fn cube_less(a: Seq<Lit>, b: Seq<Lit>) -> bool {
    less_from(a, b, 0)
}

/// `a` is the better candidate of the two: the longer one, or of two of the
/// same length the later one in the order of cubes.
pub open spec fn ranks_before(a: Seq<Lit>, b: Seq<Lit>) -> bool {
    a.len() > b.len() || (a.len() == b.len() && cube_less(b, a))
}

/// How two cubes stand to each other as candidates.
#[derive(Clone, Copy, PartialEq, Eq, Structural, Debug)]
pub enum Rank {
    /// The first is the better one.
    Before,
    /// The two are the same cube.
    Same,
    /// The second is the better one.
    After,
}

/// The order of cubes read from a position on is transitive.
proof fn lemma_less_from_trans(a: Seq<Lit>, b: Seq<Lit>, c: Seq<Lit>, i: int)
    requires
        0 <= i,
        less_from(a, b, i),
        less_from(b, c, i),
    ensures
        less_from(a, c, i),
    decreases a.len() - i,
{
    if i < a.len() && i < b.len() && i < c.len() && a[i].0 == b[i].0 && b[i].0 == c[i].0 {
        lemma_less_from_trans(a, b, c, i + 1);
    }
}

/// Of two cubes at most one comes before the other.
proof fn lemma_less_from_asym(a: Seq<Lit>, b: Seq<Lit>, i: int)
    requires
        0 <= i,
        less_from(a, b, i),
    ensures
        !less_from(b, a, i),
    decreases a.len() - i,
{
    if i < a.len() && i < b.len() && a[i].0 == b[i].0 {
        lemma_less_from_asym(a, b, i + 1);
    }
}

/// Two cubes that agree up to a position, neither of which comes before
/// the other from there on, are the same cube.
proof fn lemma_less_from_total(a: Seq<Lit>, b: Seq<Lit>, i: int)
    requires
        0 <= i <= a.len(),
        i <= b.len(),
        a.subrange(0, i) == b.subrange(0, i),
        !less_from(a, b, i),
        !less_from(b, a, i),
    ensures
        a == b,
    decreases a.len() - i,
{
    if i < a.len() && i < b.len() {
        assert(a[i].0 == b[i].0);
        assert(a.subrange(0, i + 1) =~= a.subrange(0, i).push(a[i]));
        assert(b.subrange(0, i + 1) =~= b.subrange(0, i).push(b[i]));
        lemma_less_from_total(a, b, i + 1);
    } else {
        assert(a.len() == b.len());
        assert(a =~= a.subrange(0, i));
        assert(b =~= b.subrange(0, i));
    }
}

/// The order of candidates is a strict total order on cubes.
pub proof fn lemma_ranks_order(a: Seq<Lit>, b: Seq<Lit>, c: Seq<Lit>)
    ensures
        !ranks_before(a, a),
        ranks_before(a, b) ==> !ranks_before(b, a),
        ranks_before(a, b) && ranks_before(b, c) ==> ranks_before(a, c),
        a == b || ranks_before(a, b) || ranks_before(b, a),
{
    if cube_less(a, a) {
        lemma_less_from_asym(a, a, 0);
    }
    if cube_less(b, a) {
        lemma_less_from_asym(b, a, 0);
    }
    if cube_less(b, a) && cube_less(c, b) {
        lemma_less_from_trans(c, b, a, 0);
    }
    if a.len() == b.len() && !cube_less(a, b) && !cube_less(b, a) {
        assert(a.subrange(0, 0) =~= b.subrange(0, 0));
        lemma_less_from_total(a, b, 0);
    }
}

/// Compares two cubes as candidates.
pub fn rank(a: &Vec<Lit>, b: &Vec<Lit>) -> (r: Rank)
    ensures
        r == Rank::Before <==> ranks_before(a@, b@),
        r == Rank::Same <==> a@ == b@,
        r == Rank::After <==> ranks_before(b@, a@),
{
    proof {
        lemma_ranks_order(a@, b@, a@);
        lemma_ranks_order(b@, a@, b@);
    }
    if a.len() > b.len() {
        return Rank::Before;
    }
    if a.len() < b.len() {
        return Rank::After;
    }
    let mut i: usize = 0;
    while i < a.len()
        invariant
            i <= a.len(),
            a.len() == b.len(),
            cube_less(a@, b@) == less_from(a@, b@, i as int),
            cube_less(b@, a@) == less_from(b@, a@, i as int),
        decreases a.len() - i,
    {
        if a[i].0 < b[i].0 {
            return Rank::After;
        }
        if a[i].0 > b[i].0 {
            return Rank::Before;
        }
        i = i + 1;
    }
    Rank::Same
}

/// A copy of the cube.
pub fn copy(c: &Vec<Lit>) -> (r: Vec<Lit>)
    ensures
        r@ == c@,
{
    let mut r: Vec<Lit> = Vec::with_capacity(c.len());
    let mut i: usize = 0;
    while i < c.len()
        invariant
            i <= c.len(),
            r@ == c@.subrange(0, i as int),
        decreases c.len() - i,
    {
        r.push(c[i]);
        assert(r@ =~= c@.subrange(0, i + 1));
        i = i + 1;
    }
    assert(r@ =~= c@);
    r
}

/// A cube without repeated literals whose literals all occur in another is
/// not the longer of the two.
pub proof fn lemma_subset_len(a: Seq<Lit>, b: Seq<Lit>)
    requires
        a.no_duplicates(),
        subset(a, b),
    ensures
        a.len() <= b.len(),
{
    lemma_subset_sets(a, b);
    a.unique_seq_to_set();
    b.lemma_cardinality_of_set();
    vstd::set_lib::lemma_len_subset(a.to_set(), b.to_set());
}

/// Filtering a sequence without repetitions leaves none.
pub proof fn lemma_filter_no_duplicates<A>(s: Seq<A>, pred: spec_fn(A) -> bool)
    requires
        s.no_duplicates(),
    ensures
        s.filter(pred).no_duplicates(),
    decreases s.len(),
{
    let r = s.filter(pred);
    if s.len() == 0 {
        s.lemma_filter_len(pred);
    } else {
        let head = s.drop_last();
        let last = s.last();
        lemma_filter_no_duplicates(head, pred);
        let rh = head.filter(pred);
        assert(s =~= head.push(last));
        head.lemma_filter_push(last, pred);
        if pred(last) {
            assert(!rh.contains(last)) by {
                if rh.contains(last) {
                    head.lemma_filter_contains_rev(pred, last);
                    let m = choose|m: int| 0 <= m < head.len() && head[m] == last;
                    assert(s[m] == s[s.len() - 1]);
                }
            }
            assert forall|x: int, y: int| 0 <= x < y < r.len() implies r[x] != r[y] by {
                if y == r.len() - 1 {
                    assert(rh.contains(rh[x]));
                }
            }
        }
    }
}

/// What holds of a cube holds of one with the same literals: which cubes
/// it subsumes, which subsume it, and which variables it stays under.
pub proof fn lemma_same_lits(a: Seq<Lit>, b: Seq<Lit>, t: Seq<Lit>, n: int)
    requires
        same_lits(a, b),
        a.len() == b.len(),
    ensures
        subsumes(a, t) == subsumes(b, t),
        subsumes(t, a) == subsumes(t, b),
        below(a, n) == below(b, n),
{
    if subset(a, t) {
        lemma_subset_trans(b, a, t);
    }
    if subset(b, t) {
        lemma_subset_trans(a, b, t);
    }
    if subset(t, a) {
        lemma_subset_trans(t, a, b);
    }
    if subset(t, b) {
        lemma_subset_trans(t, b, a);
    }
    if below(a, n) {
        assert forall|i: int| 0 <= i < b.len() implies (#[trigger] b[i]).var().0 < n by {
            assert(a.contains(b[i]));
            let m = choose|m: int| 0 <= m < a.len() && a[m] == b[i];
            assert(a[m].var().0 < n);
        }
    }
    if below(b, n) {
        assert forall|i: int| 0 <= i < a.len() implies (#[trigger] a[i]).var().0 < n by {
            assert(b.contains(a[i]));
            let m = choose|m: int| 0 <= m < b.len() && b[m] == a[i];
            assert(b[m].var().0 < n);
        }
    }
}

/// Negating every literal keeps the length and the variables, and undoes
/// itself.
pub proof fn lemma_negated(c: Seq<Lit>, n: int)
    ensures
        negated(c).len() == c.len(),
        negated(negated(c)) == c,
        below(negated(c), n) == below(c, n),
{
    assert(negated(negated(c)) =~= c) by {
        assert forall|i: int| 0 <= i < c.len() implies negated(negated(c))[i] == c[i] by {
            lemma_not(c[i]);
        }
    }
    if below(c, n) {
        assert forall|i: int| 0 <= i < c.len() implies (#[trigger] negated(c)[i]).var().0 < n by {
            lemma_not(c[i]);
            assert(c[i].var().0 < n);
        }
    }
    if below(negated(c), n) {
        assert forall|i: int| 0 <= i < c.len() implies (#[trigger] c[i]).var().0 < n by {
            lemma_not(c[i]);
            assert(negated(c)[i].var().0 < n);
        }
    }
}

} // verus!
