//! The order of literals by the scores that a scoring policy gives them.

use crate::cube::{copy, lemma_permutation, same_lits};
use crate::lit::Lit;
use crate::sat::ActivityCall;
use vstd::prelude::*;
use vstd::seq_lib::*;

verus! {

/// A literal with score `a` may stand before one with score `b`.
pub open spec fn spec_in_order(a: u64, b: u64, ascending: bool) -> bool {
    if ascending {
        a <= b
    } else {
        a >= b
    }
}

/// Whether a literal with score `a` may stand before one with score `b`.
#[verifier::when_used_as_spec(spec_in_order)]
pub fn in_order(a: u64, b: u64, ascending: bool) -> (r: bool)
    ensures
        r == spec_in_order(a, b, ascending),
{
    if ascending {
        a <= b
    } else {
        a >= b
    }
}

/// `idx` says where in `cube` each literal of `r` comes from: every
/// position once, the scores in order along `r`, and of two literals with
/// the same score the one first in `cube` first.
pub open spec fn arranged(
    r: Seq<Lit>,
    cube: Seq<Lit>,
    keys: Seq<u64>,
    ascending: bool,
    idx: Seq<int>,
) -> bool {
    &&& idx.len() == r.len()
    &&& r.len() == cube.len()
    &&& idx.no_duplicates()
    &&& forall|x: int|
        0 <= x < r.len() ==> 0 <= #[trigger] idx[x] < cube.len() && idx[x] < keys.len() && r[x]
            == cube[idx[x]]
    &&& forall|x: int, y: int|
        0 <= x < y < r.len() ==> spec_in_order(
            keys[#[trigger] idx[x]],
            keys[#[trigger] idx[y]],
            ascending,
        ) && (keys[idx[x]] == keys[idx[y]] ==> idx[x] < idx[y])
}

/// `r` is `cube` put in the order of the scores `keys`, literals with
/// equal scores in the order in which they stand in `cube`.
pub open spec fn ordered_by(r: Seq<Lit>, cube: Seq<Lit>, keys: Seq<u64>, ascending: bool) -> bool {
    exists|idx: Seq<int>| #[trigger] arranged(r, cube, keys, ascending, idx)
}

/// The literals of `cube` in the order of their scores `keys`, the lowest
/// first if `ascending` and the highest first if not. Literals with equal
/// scores keep their order.
pub fn sort_by_keys(cube: &Vec<Lit>, keys: &Vec<u64>, ascending: bool) -> (r: Vec<Lit>)
    requires
        keys@.len() == cube@.len(),
    ensures
        ordered_by(r@, cube@, keys@, ascending),
        r@.to_multiset() == cube@.to_multiset(),
        r@.len() == cube@.len(),
        same_lits(r@, cube@),
        cube@.no_duplicates() <==> r@.no_duplicates(),
{
    let mut out: Vec<Lit> = Vec::new();
    let mut ks: Vec<u64> = Vec::new();
    let ghost mut idx: Seq<int> = Seq::empty();
    let mut i: usize = 0;
    assert(out@ =~= cube@.subrange(0, 0));
    while i < cube.len()
        invariant
            i <= cube.len(),
            keys@.len() == cube@.len(),
            out@.len() == i,
            ks@.len() == i,
            idx.len() == i,
            idx.no_duplicates(),
            forall|x: int|
                0 <= x < i ==> 0 <= #[trigger] idx[x] < i && out@[x] == cube@[idx[x]] && ks@[x]
                    == keys@[idx[x]],
            forall|x: int, y: int|
                0 <= x < y < i ==> spec_in_order(
                    keys@[#[trigger] idx[x]],
                    keys@[#[trigger] idx[y]],
                    ascending,
                ) && (keys@[idx[x]] == keys@[idx[y]] ==> idx[x] < idx[y]),
            out@.to_multiset() == cube@.subrange(0, i as int).to_multiset(),
        decreases cube.len() - i,
    {
        let l = cube[i];
        let key = keys[i];
        let mut p: usize = 0;
        while p < ks.len() && in_order(ks[p], key, ascending)
            invariant
                p <= ks.len(),
                forall|k: int| 0 <= k < p ==> spec_in_order(ks@[k], key, ascending),
            decreases ks.len() - p,
        {
            p = p + 1;
        }
        proof {
            let ob = out@;
            let ib = idx;
            let ia = ib.insert(p as int, i as int);
            assert(ia.no_duplicates()) by {
                assert forall|x: int, y: int| 0 <= x < y < ia.len() implies ia[x] != ia[y] by {
                    let bx = if x < p {
                        x
                    } else {
                        x - 1
                    };
                    let by = if y < p {
                        y
                    } else {
                        y - 1
                    };
                    if x != p && y != p {
                        assert(ia[x] == ib[bx] && ia[y] == ib[by]);
                    } else if x == p {
                        assert(ia[y] == ib[by]);
                    } else {
                        assert(ia[x] == ib[bx]);
                    }
                }
            }
            assert forall|x: int, y: int| 0 <= x < y < ia.len() implies spec_in_order(
                keys@[#[trigger] ia[x]],
                keys@[#[trigger] ia[y]],
                ascending,
            ) && (keys@[ia[x]] == keys@[ia[y]] ==> ia[x] < ia[y]) by {
                let bx = if x < p {
                    x
                } else {
                    x - 1
                };
                let by = if y < p {
                    y
                } else {
                    y - 1
                };
                if x != p && y != p {
                    assert(ia[x] == ib[bx] && ia[y] == ib[by]);
                } else if x == p {
                    // what stands behind the new literal has a score out of order with its own
                    assert(ia[y] == ib[by]);
                    assert(ks@[by] == keys@[ib[by]]);
                    assert(ks@[p as int] == keys@[ib[p as int]]);
                    assert(!spec_in_order(ks@[p as int], key, ascending));
                    if by > p {
                        assert(spec_in_order(keys@[ib[p as int]], keys@[ib[by]], ascending));
                    }
                } else {
                    assert(ia[x] == ib[bx]);
                    assert(ks@[bx] == keys@[ib[bx]]);
                }
            }
            idx = ia;
            to_multiset_insert(ob, p as int, l);
            let head = cube@.subrange(0, i as int);
            assert(cube@.subrange(0, i + 1) =~= head.push(l));
            to_multiset_build(head, l);
        }
        out.insert(p, l);
        ks.insert(p, key);
        proof {
            assert forall|x: int| 0 <= x < i + 1 implies 0 <= #[trigger] idx[x] < i + 1 && out@[x]
                == cube@[idx[x]] && ks@[x] == keys@[idx[x]] by {}
        }
        i = i + 1;
    }
    proof {
        assert(cube@.subrange(0, cube@.len() as int) =~= cube@);
        lemma_permutation(out@, cube@);
        assert(arranged(out@, cube@, keys@, ascending, idx));
    }
    out
}

/// What the scoring policy made of a request to rank `cube`: `r` is
/// `cube` in the order of the scores it gave, or `cube` as it was where it
/// gave another number of scores than there are literals.
pub open spec fn ranked_by<A: Fn(ActivityCall) -> Vec<u64>>(
    activity: &A,
    cube: Seq<Lit>,
    ascending: bool,
    r: Seq<Lit>,
) -> bool {
    exists|call: ActivityCall, keys: Vec<u64>|
        {
            &&& #[trigger] call_ensures(*activity, (call,), keys)
            &&& call matches ActivityCall::Rank(c) && c@ == cube
            &&& if keys@.len() == cube.len() {
                ordered_by(r, cube, keys@, ascending)
            } else {
                r == cube
            }
        }
}

/// Puts the literals of `cube` in the order of the scores that the
/// scoring policy gives them now: the lowest first if `ascending`, the
/// highest first if not.
pub fn sort_by_activity<A: Fn(ActivityCall) -> Vec<u64>>(
    cube: &mut Vec<Lit>,
    ascending: bool,
    activity: &A,
)
    requires
        forall|c: ActivityCall| call_requires(*activity, (c,)),
    ensures
        ranked_by(activity, old(cube)@, ascending, final(cube)@),
        final(cube)@.to_multiset() == old(cube)@.to_multiset(),
        final(cube)@.len() == old(cube)@.len(),
        same_lits(final(cube)@, old(cube)@),
        old(cube)@.no_duplicates() <==> final(cube)@.no_duplicates(),
{
    let call = ActivityCall::Rank(copy(cube));
    let ghost gc = call;
    let keys = activity(call);
    proof {
        lemma_permutation(cube@, cube@);
    }
    if keys.len() == cube.len() {
        let out = sort_by_keys(cube, &keys, ascending);
        *cube = out;
    }
    assert(call_ensures(*activity, (gc,), keys));
}

/// What the scoring policy made of a request to rank a cube holds
/// literals of that cube only, and as many.
pub proof fn lemma_ranked<A: Fn(ActivityCall) -> Vec<u64>>(
    activity: &A,
    cube: Seq<Lit>,
    ascending: bool,
    r: Seq<Lit>,
)
    requires
        ranked_by(activity, cube, ascending, r),
    ensures
        r.len() == cube.len(),
        crate::cube::subset(r, cube),
        cube.no_duplicates() ==> r.no_duplicates(),
{
    let (call, keys) = choose|call: ActivityCall, keys: Vec<u64>|
        {
            &&& #[trigger] call_ensures(*activity, (call,), keys)
            &&& call matches ActivityCall::Rank(c) && c@ == cube
            &&& if keys@.len() == cube.len() {
                ordered_by(r, cube, keys@, ascending)
            } else {
                r == cube
            }
        };
    if keys@.len() == cube.len() {
        let idx = choose|idx: Seq<int>| #[trigger] arranged(r, cube, keys@, ascending, idx);
        assert forall|x: int| 0 <= x < r.len() implies cube.contains(#[trigger] r[x]) by {
            assert(cube[idx[x]] == r[x]);
        }
        if cube.no_duplicates() {
            assert forall|x: int, y: int| 0 <= x < y < r.len() implies r[x] != r[y] by {
                assert(cube[idx[x]] == r[x] && cube[idx[y]] == r[y]);
                assert(idx[x] != idx[y]);
            }
        }
    }
}

/// The scoring policy was told the literals of `cube` as those of a cube
/// that a generalization ended with.
pub open spec fn bumped<A: Fn(ActivityCall) -> Vec<u64>>(activity: &A, cube: Seq<Lit>) -> bool {
    exists|call: ActivityCall, ret: Vec<u64>|
        {
            &&& #[trigger] call_ensures(*activity, (call,), ret)
            &&& call matches ActivityCall::Bump(c) && c@ == cube
        }
}

/// Reports to the scoring policy the cube that a generalization ended
/// with.
pub fn bump_cube_activity<A: Fn(ActivityCall) -> Vec<u64>>(cube: &Vec<Lit>, activity: &A)
    requires
        forall|c: ActivityCall| call_requires(*activity, (c,)),
    ensures
        bumped(activity, cube@),
{
    let call = ActivityCall::Bump(copy(cube));
    let ghost gc = call;
    let ret = activity(call);
    assert(call_ensures(*activity, (gc,), ret));
}

} // verus!
