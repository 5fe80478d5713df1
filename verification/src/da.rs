//! The dump of stored lemmas as JSON text, and the choice of dumped cubes
//! that are worth a latch of their own.

use crate::cube::{copy, ordered_subsume, rank, sort, sorted, subsumes, views, Rank};
use crate::ic3::{lemma_views, Ic3};
use crate::lemma::Lemma;
use crate::lit::{Lit, Var};
use vstd::prelude::*;
use vstd::seq_lib::*;

verus! {

/// The error type of `serde_json`.
#[verifier::external_type_specification]
#[verifier::external_body]
pub struct ExJsonError(serde_json::Error);

/// The text that `serde_json::to_string` writes for a list of lists of
/// integers.
pub uninterp spec fn json_text(cubes: Seq<Seq<i32>>) -> Seq<char>;

/// The list of lists of integers that `serde_json::from_str` reads from a
/// text, where it reads one.
pub uninterp spec fn json_cubes(text: Seq<char>) -> Option<Seq<Seq<i32>>>;

/// The lists that a vector of vectors holds.
pub open spec fn lists(v: Seq<Vec<i32>>) -> Seq<Seq<i32>> {
    Seq::new(v.len(), |i: int| v[i]@)
}

/// Calls `serde_json::to_string` on a list of lists of integers. It gives
/// a text, the one named by [`json_text`]. That call is documented to fail
/// only where a value refuses to be written or a map has keys that are no
/// strings; lists and integers do neither, and the text is gathered in
/// memory, where writing does not fail.
#[verifier::external_body]
fn to_json(cubes: &Vec<Vec<i32>>) -> (r: Option<String>)
    ensures
        r is Some,
        r matches Some(s) ==> s@ == json_text(lists(cubes@)),
{
    serde_json::to_string(cubes).ok()
}

/// Calls `serde_json::from_str` for a list of lists of integers. What it
/// reads, or that it reads nothing, is what [`json_cubes`] names: the same
/// text is read the same way every time.
#[verifier::external_body]
fn from_json(text: &str) -> (r: Result<Vec<Vec<i32>>, serde_json::Error>)
    ensures
        match r {
            Ok(v) => json_cubes(text@) == Some(lists(v@)),
            Err(_) => json_cubes(text@) is None,
        },
{
    serde_json::from_str(text)
}

/// Why a text is not a dump of cubes.
#[derive(Clone, Copy, PartialEq, Eq, Structural, Debug)]
pub enum DaError {
    /// The text is not a JSON list of lists of integers.
    Json,
    /// An integer is the code of no literal.
    Code,
}

/// The signed integer that stands for a literal: the index of its
/// variable, negated for the negative literal.
pub open spec fn spec_code(l: Lit) -> i32 {
    if l.polarity() {
        l.var().0 as i32
    } else {
        (-(l.var().0 as int)) as i32
    }
}

/// The literal that a signed integer stands for: the positive literal of
/// the variable with that index for a positive integer, and the negative
/// literal of the variable with the index of its absolute value else. The
/// least integer stands for none.
pub open spec fn spec_from_code(v: i32) -> Option<Lit> {
    if v == i32::MIN {
        None
    } else if v > 0 {
        Some(Lit::spec_new(Var(v as u32), true))
    } else {
        Some(Lit::spec_new(Var((-(v as int)) as u32), false))
    }
}

/// The signed integer that stands for a literal.
#[verifier::when_used_as_spec(spec_code)]
pub fn code(l: Lit) -> (r: i32)
    ensures
        r == spec_code(l),
{
    let v = l.var().0 as i32;
    if l.polarity() {
        v
    } else {
        -v
    }
}

/// The literal that a signed integer stands for.
#[verifier::when_used_as_spec(spec_from_code)]
pub fn from_code(v: i32) -> (r: Option<Lit>)
    ensures
        r == spec_from_code(v),
{
    if v == i32::MIN {
        None
    } else if v > 0 {
        Some(Lit::new(Var(v as u32), true))
    } else {
        Some(Lit::new(Var((-v) as u32), false))
    }
}

/// Every literal but the positive one of the constant is read back from
/// its code.
pub proof fn lemma_code_round_trip(l: Lit)
    requires
        l != Lit(0),
    ensures
        spec_from_code(spec_code(l)) == Some(l),
{
    crate::lit::lemma_lit_parts(l);
}

/// The codes of the literals of a cube.
pub open spec fn cube_codes(c: Seq<Lit>) -> Seq<i32> {
    Seq::new(c.len(), |i: int| spec_code(c[i]))
}

/// The cubes that are long enough to be dumped: those with more than four
/// literals.
pub open spec fn long_cubes(cubes: Seq<Seq<Lit>>) -> Seq<Seq<Lit>> {
    cubes.filter(|c: Seq<Lit>| c.len() > 4)
}

/// The codes of each cube of a list.
pub open spec fn all_codes(cubes: Seq<Seq<Lit>>) -> Seq<Seq<i32>> {
    Seq::new(cubes.len(), |k: int| cube_codes(cubes[k]))
}

/// The cubes of the lemmas of the first `n` levels, level by level.
pub open spec fn level_cubes(levels: Seq<Seq<Lemma>>, n: int) -> Seq<Seq<Lit>>
    decreases n,
{
    if n <= 0 {
        Seq::empty()
    } else {
        level_cubes(levels, n - 1) + lemma_views(levels[n - 1])
    }
}

/// The cubes that a list of lists of codes stands for, where every code
/// stands for a literal.
pub open spec fn decoded(v: Seq<Seq<i32>>) -> Option<Seq<Seq<Lit>>> {
    if forall|k: int, i: int|
        0 <= k < v.len() && 0 <= i < v[k].len() ==> spec_from_code(#[trigger] v[k][i]) is Some {
        Some(Seq::new(v.len(), |k: int| Seq::new(v[k].len(), |i: int| spec_from_code(v[k][i]).unwrap())))
    } else {
        None
    }
}

/// The codes of the literals of `cube`.
fn encode(cube: &Vec<Lit>) -> (r: Vec<i32>)
    ensures
        r@ == cube_codes(cube@),
{
    let mut r: Vec<i32> = Vec::with_capacity(cube.len());
    let mut i: usize = 0;
    while i < cube.len()
        invariant
            i <= cube.len(),
            r@.len() == i,
            forall|k: int| 0 <= k < i ==> r@[k] == spec_code(cube@[k]),
        decreases cube.len() - i,
    {
        r.push(code(cube[i]));
        i = i + 1;
    }
    assert(r@ =~= cube_codes(cube@));
    r
}

/// The codes of the cubes of `cubes` that have more than four literals.
pub fn da_cubes(cubes: &Vec<Vec<Lit>>) -> (r: Vec<Vec<i32>>)
    ensures
        lists(r@) == all_codes(long_cubes(views(cubes@))),
{
    let mut r: Vec<Vec<i32>> = Vec::new();
    let mut k: usize = 0;
    let ghost pred = |c: Seq<Lit>| c.len() > 4;
    let ghost all = views(cubes@);
    assert(all.subrange(0, 0) =~= Seq::<Seq<Lit>>::empty());
    assert(lists(r@) =~= all_codes(all.subrange(0, 0).filter(pred))) by {
        all.subrange(0, 0).lemma_filter_len(pred);
    }
    while k < cubes.len()
        invariant
            k <= cubes.len(),
            all == views(cubes@),
            pred == (|c: Seq<Lit>| c.len() > 4),
            lists(r@) == all_codes(all.subrange(0, k as int).filter(pred)),
        decreases cubes.len() - k,
    {
        proof {
            let head = all.subrange(0, k as int);
            assert(all.subrange(0, k + 1) =~= head.push(all[k as int]));
            head.lemma_filter_push(all[k as int], pred);
        }
        let ghost before = lists(r@);
        if cubes[k].len() > 4 {
            r.push(encode(&cubes[k]));
            assert(lists(r@) =~= before.push(cube_codes(all[k as int])));
            assert(all_codes(all.subrange(0, k as int).filter(pred).push(all[k as int]))
                =~= all_codes(all.subrange(0, k as int).filter(pred)).push(
                cube_codes(all[k as int]),
            ));
        }
        k = k + 1;
    }
    assert(all.subrange(0, all.len() as int) =~= all);
    r
}

/// The cubes that a list of lists of codes stands for, or
/// [`DaError::Code`] where a code stands for no literal.
pub fn decode(v: &Vec<Vec<i32>>) -> (r: Result<Vec<Vec<Lit>>, DaError>)
    ensures
        match decoded(lists(v@)) {
            None => r == Err::<Vec<Vec<Lit>>, DaError>(DaError::Code),
            Some(cubes) => r matches Ok(c) && views(c@) == cubes,
        },
{
    let ghost lv = lists(v@);
    let mut out: Vec<Vec<Lit>> = Vec::with_capacity(v.len());
    let mut k: usize = 0;
    while k < v.len()
        invariant
            k <= v.len(),
            lv == lists(v@),
            out@.len() == k,
            forall|a: int, i: int|
                0 <= a < k && 0 <= i < lv[a].len() ==> spec_from_code(#[trigger] lv[a][i]) is Some,
            forall|a: int|
                0 <= a < k ==> (#[trigger] out@[a])@ == Seq::new(
                    lv[a].len(),
                    |i: int| spec_from_code(lv[a][i]).unwrap(),
                ),
        decreases v.len() - k,
    {
        let row = &v[k];
        assert(row@ == lv[k as int]);
        let mut cube: Vec<Lit> = Vec::with_capacity(row.len());
        let mut i: usize = 0;
        while i < row.len()
            invariant
                i <= row.len(),
                k < v.len(),
                lv == lists(v@),
                row@ == lv[k as int],
                cube@.len() == i,
                forall|j: int| 0 <= j < i ==> spec_from_code(#[trigger] row@[j]) is Some,
                forall|j: int| 0 <= j < i ==> cube@[j] == spec_from_code(row@[j]).unwrap(),
            decreases row.len() - i,
        {
            match from_code(row[i]) {
                Some(l) => cube.push(l),
                None => {
                    assert(spec_from_code(lv[k as int][i as int]) is None);
                    return Err(DaError::Code);
                },
            }
            i = i + 1;
        }
        assert(cube@ =~= Seq::new(
            lv[k as int].len(),
            |i: int| spec_from_code(lv[k as int][i]).unwrap(),
        ));
        out.push(cube);
        k = k + 1;
    }
    proof {
        let cubes = decoded(lv).unwrap();
        assert(views(out@) =~= cubes);
    }
    Ok(out)
}

/// The cubes that a text written by [`Ic3::save_da`] holds:
/// [`DaError::Json`] where the text is no JSON list of lists of integers,
/// and else what [`decode`] makes of the list.
pub fn read_da(text: &str) -> (r: Result<Vec<Vec<Lit>>, DaError>)
    ensures
        match json_cubes(text@) {
            None => r == Err::<Vec<Vec<Lit>>, DaError>(DaError::Json),
            Some(v) => match decoded(v) {
                None => r == Err::<Vec<Vec<Lit>>, DaError>(DaError::Code),
                Some(cubes) => r matches Ok(c) && views(c@) == cubes,
            },
        },
{
    match from_json(text) {
        Err(_) => Err(DaError::Json),
        Ok(v) => decode(&v),
    }
}

/// `x` is the cube `c` in ascending order.
pub open spec fn is_sorted_form(x: Seq<Lit>, c: Seq<Lit>) -> bool {
    sorted(x) && x.to_multiset() == c.to_multiset()
}

/// `x` is a cube of the list in ascending order.
pub open spec fn sorted_forms(cubes: Seq<Seq<Lit>>, x: Seq<Lit>) -> bool {
    exists|k: int| 0 <= k < cubes.len() && is_sorted_form(x, #[trigger] cubes[k])
}

/// `x` is a cube of the list, in ascending order, that subsumes another
/// cube of the list.
pub open spec fn selected(cubes: Seq<Seq<Lit>>, x: Seq<Lit>) -> bool {
    sorted_forms(cubes, x) && exists|d: Seq<Lit>|
        #[trigger] sorted_forms(cubes, d) && d != x && subsumes(x, d)
}

/// `x` subsumes a cube of the list other than itself.
pub open spec fn subsumes_another(list: Seq<Seq<Lit>>, x: Seq<Lit>) -> bool {
    exists|d: int| 0 <= d < list.len() && (#[trigger] list[d]) != x && subsumes(x, list[d])
}

/// Two sequences with the same elements in the same numbers have the same
/// length and the same members, and none of them twice in one if none in the
/// other.
pub proof fn lemma_same_multiset<A>(a: Seq<A>, b: Seq<A>)
    requires
        a.to_multiset() == b.to_multiset(),
    ensures
        a.len() == b.len(),
        forall|x: A| a.contains(x) <==> b.contains(x),
        a.no_duplicates() <==> b.no_duplicates(),
{
    to_multiset_len(a);
    to_multiset_len(b);
    assert forall|x: A| a.contains(x) <==> b.contains(x) by {
        to_multiset_contains(a, x);
        to_multiset_contains(b, x);
    }
    if a.no_duplicates() {
        a.lemma_multiset_has_no_duplicates();
        b.lemma_multiset_has_no_duplicates_conv();
    }
    if b.no_duplicates() {
        b.lemma_multiset_has_no_duplicates();
        a.lemma_multiset_has_no_duplicates_conv();
    }
}

/// A cube has one form in ascending order.
pub proof fn lemma_sorted_form_unique(x: Seq<Lit>, y: Seq<Lit>, c: Seq<Lit>)
    requires
        is_sorted_form(x, c),
        is_sorted_form(y, c),
    ensures
        x == y,
{
    let leq = |a: Lit, b: Lit| a.0 <= b.0;
    assert(vstd::relations::total_ordering(leq)) by {
        assert forall|a: Lit, b: Lit| #[trigger] leq(a, b) && #[trigger] leq(b, a) implies a
            == b by {
            assert(Lit(a.0) == a && Lit(b.0) == b);
        }
    }
    assert(vstd::relations::sorted_by(x, leq));
    assert(vstd::relations::sorted_by(y, leq));
    lemma_sorted_unique(x, y, leq);
}

/// Each cube in ascending order.
fn sorted_copies(cubes: &Vec<Vec<Lit>>) -> (r: Vec<Vec<Lit>>)
    ensures
        r@.len() == cubes@.len(),
        forall|k: int| 0 <= k < r@.len() ==> is_sorted_form((#[trigger] r@[k])@, cubes@[k]@),
{
    let mut r: Vec<Vec<Lit>> = Vec::with_capacity(cubes.len());
    let mut k: usize = 0;
    while k < cubes.len()
        invariant
            k <= cubes.len(),
            r@.len() == k,
            forall|m: int| 0 <= m < k ==> is_sorted_form((#[trigger] r@[m])@, cubes@[m]@),
        decreases cubes.len() - k,
    {
        let mut c = copy(&cubes[k]);
        sort(&mut c);
        r.push(c);
        k = k + 1;
    }
    r
}

/// Whether `c` is one of the cubes of `list`.
fn holds(list: &Vec<Vec<Lit>>, c: &Vec<Lit>) -> (r: bool)
    ensures
        r == views(list@).contains(c@),
{
    let mut k: usize = 0;
    while k < list.len()
        invariant
            k <= list.len(),
            forall|m: int| 0 <= m < k ==> views(list@)[m] != c@,
        decreases list.len() - k,
    {
        if rank(&list[k], c) == Rank::Same {
            assert(views(list@)[k as int] == c@);
            return true;
        }
        k = k + 1;
    }
    false
}

/// The cubes of the list, each once.
fn dedup(cubes: Vec<Vec<Lit>>) -> (r: Vec<Vec<Lit>>)
    ensures
        views(r@).no_duplicates(),
        forall|x: Seq<Lit>| views(r@).contains(x) <==> views(cubes@).contains(x),
{
    let ghost all = views(cubes@);
    let ghost olds = cubes@;
    let mut r: Vec<Vec<Lit>> = Vec::new();
    for c in it: cubes
        invariant
            it.seq() == olds,
            all == views(olds),
            views(r@).no_duplicates(),
            forall|x: Seq<Lit>|
                views(r@).contains(x) <==> all.subrange(0, it.index() as int).contains(x),
    {
        let ghost before = views(r@);
        let ghost head = all.subrange(0, it.index() as int);
        let ghost next = all.subrange(0, it.index() + 1);
        proof {
            assert(all[it.index() as int] == c@);
            assert(next =~= head.push(c@));
            assert forall|x: Seq<Lit>| next.contains(x) <==> (head.contains(x) || x == c@) by {
                if head.contains(x) {
                    let m = choose|m: int| 0 <= m < head.len() && head[m] == x;
                    assert(next[m] == x);
                }
                if x == c@ {
                    assert(next[head.len() as int] == x);
                }
            }
        }
        if !holds(&r, &c) {
            r.push(c);
            proof {
                let after = views(r@);
                assert(after =~= before.push(c@));
                assert forall|x: Seq<Lit>| after.contains(x) <==> (before.contains(x) || x
                    == c@) by {
                    if before.contains(x) {
                        let m = choose|m: int| 0 <= m < before.len() && before[m] == x;
                        assert(after[m] == x);
                    }
                    if x == c@ {
                        assert(after[before.len() as int] == x);
                    }
                }
            }
        }
    }
    proof {
        assert(all.subrange(0, all.len() as int) =~= all);
    }
    r
}

/// The cubes of the list, the shorter before the longer; cubes of one
/// length keep their order.
fn sort_by_len(cubes: Vec<Vec<Lit>>) -> (r: Vec<Vec<Lit>>)
    ensures
        views(r@).to_multiset() == views(cubes@).to_multiset(),
        forall|i: int, j: int| 0 <= i < j < r@.len() ==> r@[i]@.len() <= r@[j]@.len(),
{
    let ghost all = views(cubes@);
    let ghost olds = cubes@;
    let mut r: Vec<Vec<Lit>> = Vec::new();
    assert(views(r@) =~= all.subrange(0, 0));
    for c in it: cubes
        invariant
            it.seq() == olds,
            all == views(olds),
            views(r@).to_multiset() == all.subrange(0, it.index() as int).to_multiset(),
            forall|i: int, j: int| 0 <= i < j < r@.len() ==> r@[i]@.len() <= r@[j]@.len(),
    {
        let mut p: usize = 0;
        while p < r.len() && r[p].len() <= c.len()
            invariant
                p <= r.len(),
                forall|m: int| 0 <= m < p ==> r@[m]@.len() <= c@.len(),
            decreases r.len() - p,
        {
            p = p + 1;
        }
        let ghost before = views(r@);
        let ghost rb = r@;
        proof {
            let head = all.subrange(0, it.index() as int);
            assert(all[it.index() as int] == c@);
            assert(all.subrange(0, it.index() + 1) =~= head.push(c@));
            to_multiset_build(head, c@);
            to_multiset_insert(before, p as int, c@);
        }
        let ghost cv = c@;
        r.insert(p, c);
        proof {
            assert(views(r@) =~= before.insert(p as int, cv));
            assert forall|i: int, j: int| 0 <= i < j < r@.len() implies r@[i]@.len()
                <= r@[j]@.len() by {
                if j < p {
                } else if j == p {
                } else if i < p {
                    assert(r@[j] == rb[j - 1]);
                } else if i == p {
                    assert(r@[j] == rb[j - 1]);
                } else {
                    assert(r@[i] == rb[i - 1]);
                    assert(r@[j] == rb[j - 1]);
                }
            }
        }
    }
    proof {
        assert(all.subrange(0, all.len() as int) =~= all);
    }
    r
}

/// Whether `c` subsumes a cube of `list` other than itself.
fn subsumes_other(list: &Vec<Vec<Lit>>, c: &Vec<Lit>) -> (r: bool)
    requires
        sorted(c@),
        forall|k: int| 0 <= k < list@.len() ==> sorted(#[trigger] views(list@)[k]),
    ensures
        r == subsumes_another(views(list@), c@),
{
    let mut k: usize = 0;
    while k < list.len()
        invariant
            k <= list.len(),
            sorted(c@),
            forall|m: int| 0 <= m < list@.len() ==> sorted(#[trigger] views(list@)[m]),
            forall|m: int|
                0 <= m < k ==> !((#[trigger] views(list@)[m]) != c@ && subsumes(
                    c@,
                    views(list@)[m],
                )),
        decreases list.len() - k,
    {
        assert(views(list@)[k as int] == list@[k as int]@);
        if rank(&list[k], c) != Rank::Same && ordered_subsume(c, &list[k]) {
            return true;
        }
        k = k + 1;
    }
    false
}

/// The cubes of the list that are worth a latch of their own: each cube
/// in ascending order and once, the shorter before the longer, and of these
/// the ones that subsume another.
pub fn da_select(cubes: &Vec<Vec<Lit>>) -> (r: Vec<Vec<Lit>>)
    ensures
        views(r@).no_duplicates(),
        forall|i: int, j: int| 0 <= i < j < r@.len() ==> r@[i]@.len() <= r@[j]@.len(),
        forall|x: Seq<Lit>| views(r@).contains(x) <==> selected(views(cubes@), x),
{
    let ghost input = views(cubes@);
    let s1 = sorted_copies(cubes);
    let ghost v1 = views(s1@);
    proof {
        assert forall|x: Seq<Lit>| v1.contains(x) <==> sorted_forms(input, x) by {
            if v1.contains(x) {
                let k = choose|k: int| 0 <= k < v1.len() && v1[k] == x;
                assert(is_sorted_form(s1@[k]@, input[k]));
            }
            if sorted_forms(input, x) {
                let k = choose|k: int| 0 <= k < input.len() && is_sorted_form(x, #[trigger] input[k]);
                assert(is_sorted_form(s1@[k]@, cubes@[k]@));
                lemma_sorted_form_unique(x, v1[k], input[k]);
            }
        }
    }
    let s2 = dedup(s1);
    let ghost v2 = views(s2@);
    let s3 = sort_by_len(s2);
    let ghost v3 = views(s3@);
    proof {
        lemma_same_multiset(v3, v2);
        assert forall|k: int| 0 <= k < v3.len() implies sorted(#[trigger] v3[k]) by {
            assert(v3.contains(v3[k]));
            assert(sorted_forms(input, v3[k]));
        }
    }
    let mut out: Vec<Vec<Lit>> = Vec::new();
    let mut k: usize = 0;
    while k < s3.len()
        invariant
            k <= s3.len(),
            v3 == views(s3@),
            v3.no_duplicates(),
            forall|m: int| 0 <= m < v3.len() ==> sorted(#[trigger] v3[m]),
            forall|i: int, j: int| 0 <= i < j < s3@.len() ==> s3@[i]@.len() <= s3@[j]@.len(),
            forall|a: int|
                0 <= a < out@.len() ==> exists|m: int|
                    0 <= m < k && v3[m] == #[trigger] views(out@)[a],
            forall|m: int|
                0 <= m < k && subsumes_another(v3, #[trigger] v3[m]) ==> views(out@).contains(
                    v3[m],
                ),
            forall|a: int|
                0 <= a < out@.len() ==> subsumes_another(v3, #[trigger] views(out@)[a]),
            views(out@).no_duplicates(),
            forall|i: int, j: int| 0 <= i < j < out@.len() ==> out@[i]@.len() <= out@[j]@.len(),
        decreases s3.len() - k,
    {
        let ghost before = views(out@);
        let ghost ob = out@;
        assert(v3[k as int] == s3@[k as int]@);
        assert(sorted(v3[k as int]));
        if subsumes_other(&s3, &s3[k]) {
            out.push(copy(&s3[k]));
            proof {
                let after = views(out@);
                let x = v3[k as int];
                assert(after =~= before.push(x));
                assert forall|a: int| 0 <= a < out@.len() implies exists|m: int|
                    0 <= m < k + 1 && v3[m] == #[trigger] after[a] by {
                    if a < before.len() {
                        let m = choose|m: int| 0 <= m < k && v3[m] == before[a];
                        assert(v3[m] == after[a]);
                    } else {
                        assert(v3[k as int] == after[a]);
                    }
                }
                assert(!before.contains(x)) by {
                    if before.contains(x) {
                        let a = choose|a: int| 0 <= a < before.len() && before[a] == x;
                        let m = choose|m: int| 0 <= m < k && v3[m] == before[a];
                        assert(v3[m] == v3[k as int]);
                    }
                }
                assert forall|m: int|
                    0 <= m < k + 1 && subsumes_another(v3, #[trigger] v3[m]) implies after.contains(
                    v3[m],
                ) by {
                    if m < k {
                        assert(before.contains(v3[m]));
                        let a = choose|a: int| 0 <= a < before.len() && before[a] == v3[m];
                        assert(after[a] == v3[m]);
                    } else {
                        assert(after[before.len() as int] == x);
                    }
                }
                assert forall|i: int, j: int| 0 <= i < j < out@.len() implies out@[i]@.len()
                    <= out@[j]@.len() by {
                    if j == ob.len() {
                        let m = choose|m: int| 0 <= m < k && v3[m] == before[i];
                        assert(s3@[m]@.len() <= s3@[k as int]@.len());
                        assert(out@[i]@ == before[i]);
                    } else {
                        assert(out@[i] == ob[i] && out@[j] == ob[j]);
                    }
                }
                assert forall|a: int| 0 <= a < out@.len() implies subsumes_another(
                    v3,
                    #[trigger] after[a],
                ) by {
                    if a < before.len() {
                        assert(after[a] == before[a]);
                    }
                }
            }
        }
        k = k + 1;
    }
    proof {
        let res = views(out@);
        assert forall|x: Seq<Lit>| res.contains(x) <==> selected(input, x) by {
            if res.contains(x) {
                let a = choose|a: int| 0 <= a < res.len() && res[a] == x;
                let m = choose|m: int| 0 <= m < k && v3[m] == res[a];
                assert(v3.contains(v3[m]));
                assert(subsumes_another(v3, res[a]));
                let d = choose|d: int|
                    0 <= d < v3.len() && (#[trigger] v3[d]) != res[a] && subsumes(res[a], v3[d]);
                assert(v3.contains(v3[d]));
                assert(sorted_forms(input, v3[d]));
            }
            if selected(input, x) {
                let d = choose|d: Seq<Lit>|
                    #[trigger] sorted_forms(input, d) && d != x && subsumes(x, d);
                assert(v3.contains(x));
                assert(v3.contains(d));
                let m = choose|m: int| 0 <= m < v3.len() && v3[m] == x;
                let e = choose|e: int| 0 <= e < v3.len() && v3[e] == d;
                assert(v3[e] != v3[m] && subsumes(v3[m], v3[e]));
                assert(subsumes_another(v3, v3[m]));
            }
        }
    }
    out
}

impl Ic3 {
    /// The dump of the stored lemmas with more than four literals: a JSON
    /// list that holds, for each of them, the list of the codes of its
    /// literals in ascending order of the literals. There always is one:
    /// the lemmas are taken level by level from level 0 up, each level in
    /// the order in which it is kept, and writing their codes does not fail.
    pub fn save_da(&self) -> (r: Option<String>)
        ensures
            r is Some,
            r matches Some(s) ==> s@ == json_text(
                all_codes(long_cubes(level_cubes(self.levels(), self.levels().len() as int))),
            ),
    {
        let frames = self.frames();
        let ghost levels = self.levels();
        let mut cubes: Vec<Vec<Lit>> = Vec::new();
        let n = frames.len();
        let mut i: usize = 0;
        assert(views(cubes@) =~= level_cubes(levels, 0));
        while i < n
            invariant
                i <= n,
                n == levels.len(),
                levels == frames.levels(),
                views(cubes@) == level_cubes(levels, i as int),
            decreases n - i,
        {
            let level = frames.level(i);
            let ghost start = views(cubes@);
            let mut k: usize = 0;
            while k < level.len()
                invariant
                    k <= level.len(),
                    level@ == levels[i as int],
                    views(cubes@) == start + lemma_views(level@).subrange(0, k as int),
                decreases level.len() - k,
            {
                let ghost before = views(cubes@);
                cubes.push(crate::cube::copy(level[k].cube()));
                assert(views(cubes@) =~= before.push(level@[k as int]@));
                assert(lemma_views(level@).subrange(0, k + 1) =~= lemma_views(level@).subrange(
                    0,
                    k as int,
                ).push(level@[k as int]@));
                k = k + 1;
            }
            assert(lemma_views(level@).subrange(0, level@.len() as int) =~= lemma_views(level@));
            i = i + 1;
        }
        let codes = da_cubes(&cubes);
        to_json(&codes)
    }
}

} // verus!
