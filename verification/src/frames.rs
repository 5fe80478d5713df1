//! The frames of the trace: the lemmas of each level, the tests for
//! redundancy, and the insertion that keeps the levels free of subsumed
//! lemmas.

use crate::cube::{
    id_set, ids, lemma_ranks_order, lemma_restrict, lemma_subset_len, rank, ranks_before,
    restrict, retain_in, subset, views, Rank,
};
use crate::lemma::Lemma;
use crate::lit::Lit;
use std::collections::HashSet;
use vstd::prelude::*;
use vstd::std_specs::hash::*;

verus! {

broadcast use group_hash_axioms;

/// Every lemma of the level is well formed and holds no literal twice.
pub open spec fn level_ok(level: Seq<Lemma>) -> bool {
    forall|k: int| 0 <= k < level.len() ==> (#[trigger] level[k]).wf() && level[k]@.no_duplicates()
}

/// Some lemma of the level subsumes `lemma`.
pub open spec fn level_subsumes(level: Seq<Lemma>, lemma: &Lemma) -> bool {
    exists|k: int| 0 <= k < level.len() && (#[trigger] level[k]).spec_subsume(lemma)
}

/// Some lemma at level `frame` or above subsumes `lemma`.
pub open spec fn trivially_contained(levels: Seq<Seq<Lemma>>, frame: int, lemma: &Lemma) -> bool {
    exists|i: int| frame <= i < levels.len() && level_subsumes(#[trigger] levels[i], lemma)
}

/// The lowest level at which the clause of `lemma` still has to be asserted
/// when it is stored at `frame`: one above the highest level in `1..=frame`
/// that holds a lemma subsuming it, and 1 where there is none.
pub open spec fn defer_level(levels: Seq<Seq<Lemma>>, frame: int, lemma: &Lemma) -> int
    decreases frame,
{
    if frame <= 0 {
        1
    } else if level_subsumes(levels[frame], lemma) {
        frame + 1
    } else {
        defer_level(levels, frame - 1, lemma)
    }
}

/// The lemmas of a level that `lemma` does not make redundant.
pub open spec fn survivors(level: Seq<Lemma>, lemma: &Lemma) -> Seq<Lemma> {
    level.filter(|l: Lemma| !lemma.spec_subsume(&l))
}

/// Where the clause of a new lemma has to be asserted: at no level above
/// the one returned does a lemma subsume it, and at the level just below
/// one does, unless that is level 0.
pub proof fn lemma_defer_level(levels: Seq<Seq<Lemma>>, frame: int, lemma: &Lemma)
    requires
        0 <= frame < levels.len(),
    ensures
        1 <= defer_level(levels, frame, lemma) <= frame + 1,
        defer_level(levels, frame, lemma) > 1 ==> level_subsumes(
            levels[defer_level(levels, frame, lemma) - 1],
            lemma,
        ),
        forall|j: int|
            defer_level(levels, frame, lemma) <= j <= frame ==> !level_subsumes(
                #[trigger] levels[j],
                lemma,
            ),
    decreases frame,
{
    if frame > 0 && !level_subsumes(levels[frame], lemma) {
        lemma_defer_level(levels, frame - 1, lemma);
    }
}

/// The lemmas that stay at a level were there before, are not subsumed by
/// the new one, and are all of those.
pub proof fn lemma_survivors(level: Seq<Lemma>, lemma: &Lemma)
    ensures
        level_ok(level) ==> level_ok(survivors(level, lemma)),
        forall|k: int|
            0 <= k < survivors(level, lemma).len() ==> level.contains(
                #[trigger] survivors(level, lemma)[k],
            ) && !lemma.spec_subsume(&survivors(level, lemma)[k]),
        forall|m: int|
            0 <= m < level.len() && !lemma.spec_subsume(&level[m]) ==> survivors(
                level,
                lemma,
            ).contains(#[trigger] level[m]),
{
    let pred = |l: Lemma| !lemma.spec_subsume(&l);
    let s = level.filter(pred);
    assert forall|k: int| 0 <= k < s.len() implies level.contains(#[trigger] s[k])
        && !lemma.spec_subsume(&s[k]) by {
        assert(s.contains(s[k]));
        level.lemma_filter_contains_rev(pred, s[k]);
        level.lemma_filter_pred(pred, k);
    }
    assert forall|m: int| 0 <= m < level.len() && !lemma.spec_subsume(&level[m]) implies s.contains(
        #[trigger] level[m],
    ) by {
        level.lemma_filter_contains(pred, m);
    }
    if level_ok(level) {
        assert forall|k: int| 0 <= k < s.len() implies (#[trigger] s[k]).wf()
            && s[k]@.no_duplicates() by {
            assert(level.contains(s[k]));
            let m = choose|m: int| 0 <= m < level.len() && level[m] == s[k];
            assert(level[m].wf());
        }
    }
}

/// What a stored lemma has in common with `cube`.
pub open spec fn overlap(levels: Seq<Seq<Lemma>>, i: int, k: int, cube: Seq<Lit>) -> Seq<Lit> {
    restrict(levels[i][k]@, ids(cube))
}

/// `s` shares at least half of the literals of `cube` and is not of its size.
pub open spec fn is_similar(s: Seq<Lit>, cube: Seq<Lit>) -> bool {
    s.len() != cube.len() && 2 * s.len() >= cube.len()
}

/// `s` is what some lemma at level `from` or above has in common with
/// `cube`, and is similar to it.
pub open spec fn is_candidate(levels: Seq<Seq<Lemma>>, from: int, cube: Seq<Lit>, s: Seq<Lit>) -> bool {
    exists|i: int, k: int|
        from <= i < levels.len() && 0 <= k < levels[i].len() && s == #[trigger] overlap(
            levels,
            i,
            k,
            cube,
        ) && is_similar(s, cube)
}

/// Each cube of the list is a better candidate than those after it.
pub open spec fn descending(r: Seq<Seq<Lit>>) -> bool {
    forall|x: int, y: int| 0 <= x < y < r.len() ==> ranks_before(r[x], r[y])
}

/// The list of the three best accounts for `s`: it holds `s`, or it is full
/// and `s` is worse than all in it.
pub open spec fn covered(r: Seq<Seq<Lit>>, s: Seq<Lit>) -> bool {
    r.contains(s) || (r.len() == 3 && ranks_before(r[2], s))
}

/// `cands` are the at most three best of the cubes that a lemma at level
/// `from` or above shares with `cube` and that are similar to it, the best
/// first.
pub open spec fn top_similar(
    levels: Seq<Seq<Lemma>>,
    from: int,
    cube: Seq<Lit>,
    cands: Seq<Seq<Lit>>,
) -> bool {
    &&& cands.len() <= 3
    &&& descending(cands)
    &&& forall|x: int| 0 <= x < cands.len() ==> is_candidate(levels, from, cube, #[trigger] cands[x])
    &&& forall|s: Seq<Lit>| #[trigger] is_candidate(levels, from, cube, s) ==> covered(cands, s)
}

/// Puts `s` in its place among the at most three best candidates in `res`,
/// unless it is there already or is worse than three of them.
fn insert_top(res: &mut Vec<Vec<Lit>>, s: Vec<Lit>)
    requires
        descending(views(old(res)@)),
        old(res)@.len() <= 3,
    ensures
        descending(views(final(res)@)),
        final(res)@.len() <= 3,
        covered(views(final(res)@), s@),
        forall|t: Seq<Lit>| #[trigger]
            covered(views(old(res)@), t) ==> covered(views(final(res)@), t),
        forall|x: int|
            0 <= x < final(res)@.len() ==> (#[trigger] views(final(res)@)[x]) == s@ || views(
                old(res)@,
            ).contains(views(final(res)@)[x]),
{
    let ghost before = views(res@);
    let mut p: usize = 0;
    let mut stop = false;
    let mut dup = false;
    while p < res.len() && !stop
        invariant
            p <= res.len(),
            res@ == old(res)@,
            before == views(res@),
            forall|x: int| 0 <= x < p ==> ranks_before(#[trigger] before[x], s@),
            stop ==> p < res.len() && !ranks_before(before[p as int], s@),
            dup ==> stop && before[p as int] == s@,
            stop && !dup ==> before[p as int] != s@,
        decreases res.len() - p + if stop { 0int } else { 1int },
    {
        let r = rank(&res[p], &s);
        if r == Rank::Before {
            p = p + 1;
        } else {
            stop = true;
            dup = r == Rank::Same;
        }
    }
    if dup {
        assert(before.contains(s@));
        assert forall|x: int| 0 <= x < res@.len() implies before.contains(
            #[trigger] views(res@)[x],
        ) by {}
        return ;
    }
    if p >= 3 {
        assert forall|x: int| 0 <= x < res@.len() implies before.contains(
            #[trigger] views(res@)[x],
        ) by {}
        return ;
    }
    let ghost sv = s@;
    res.insert(p, s);
    let ghost mid = views(res@);
    proof {
        assert(mid =~= before.insert(p as int, sv));
        if p < before.len() {
            lemma_ranks_order(before[p as int], sv, sv);
        }
        assert forall|x: int, y: int| 0 <= x < y < mid.len() implies ranks_before(
            mid[x],
            mid[y],
        ) by {
            if y < p {
            } else if y == p {
            } else if x < p {
                lemma_ranks_order(before[x], sv, before[p as int]);
                if y - 1 > p {
                    lemma_ranks_order(before[x], before[p as int], before[y - 1]);
                }
            } else if x == p {
                if y - 1 > p {
                    lemma_ranks_order(sv, before[p as int], before[y - 1]);
                }
            } else {
            }
        }
    }
    if res.len() > 3 {
        res.truncate(3);
    }
    proof {
        let after = views(res@);
        assert(after =~= mid.subrange(0, after.len() as int));
        assert(after[p as int] == sv);
        assert forall|t: Seq<Lit>| #[trigger] covered(before, t) implies covered(after, t) by {
            if before.contains(t) {
                let x = choose|x: int| 0 <= x < before.len() && before[x] == t;
                let nx = if x < p {
                    x
                } else {
                    x + 1
                };
                assert(mid[nx] == t);
                if nx < after.len() {
                    assert(after[nx] == t);
                } else {
                    assert(ranks_before(mid[2], mid[nx]));
                }
            } else {
                // `before` was full and its last was better than `t`
                assert(ranks_before(mid[2], mid[3]));
                lemma_ranks_order(mid[2], mid[3], t);
            }
        }
        assert forall|x: int| 0 <= x < res@.len() implies (#[trigger] after[x]) == sv
            || before.contains(after[x]) by {
            if x < p {
                assert(after[x] == before[x]);
            } else if x > p {
                assert(after[x] == before[x - 1]);
            }
        }
    }
}

/// The frames of the trace: for each level the lemmas found for it, and the
/// lowest level touched since the last reset of that mark.
#[derive(Debug)]
pub struct Frames {
    frames: Vec<Vec<Lemma>>,
    early: usize,
}

impl Default for Frames {
    /// A trace without levels, with the mark of the lowest level touched
    /// at level 0.
    fn default() -> (r: Frames)
        ensures
            r.levels().len() == 0,
            r.spec_early() == 0,
            r.wf(),
    {
        Frames { frames: Vec::new(), early: 0 }
    }
}

impl Frames {
    /// The lemmas of each level, in the order in which they are kept.
    pub closed spec fn levels(&self) -> Seq<Seq<Lemma>> {
        Seq::new(self.frames@.len(), |i: int| self.frames@[i]@)
    }

    /// The lowest level touched since the mark was last reset.
    pub closed spec fn spec_early(&self) -> usize {
        self.early
    }

    /// Every stored lemma is well formed and holds no literal twice.
    pub open spec fn wf(&self) -> bool {
        forall|i: int| 0 <= i < self.levels().len() ==> level_ok(#[trigger] self.levels()[i])
    }

    /// A trace without levels.
    pub fn new() -> (r: Frames)
        ensures
            r.levels().len() == 0,
            r.spec_early() == 1,
            r.wf(),
    {
        Frames { frames: Vec::new(), early: 1 }
    }

    /// Extends the trace by one empty level.
    pub fn new_frame(&mut self)
        ensures
            final(self).levels() == old(self).levels().push(Seq::empty()),
            final(self).spec_early() == old(self).spec_early(),
    {
        self.frames.push(Vec::new());
        assert(self.levels() =~= old(self).levels().push(Seq::empty()));
    }

    /// The number of levels.
    pub fn len(&self) -> (n: usize)
        ensures
            n == self.levels().len(),
    {
        self.frames.len()
    }

    /// The lemmas stored at level `i`.
    pub fn level(&self, i: usize) -> (l: &Vec<Lemma>)
        requires
            i < self.levels().len(),
        ensures
            l@ == self.levels()[i as int],
    {
        &self.frames[i]
    }

    /// Whether some lemma stored at level `frame` or above subsumes `lemma`,
    /// so that `lemma` would add nothing there.
    pub fn trivial_contained(&self, frame: usize, lemma: &Lemma) -> (r: bool)
        requires
            self.wf(),
            lemma.wf(),
        ensures
            r == trivially_contained(self.levels(), frame as int, lemma),
    {
        let lit_set: HashSet<u32> = id_set(lemma.cube());
        let mut i: usize = frame;
        while i < self.frames.len()
            invariant
                frame <= i,
                self.wf(),
                lemma.wf(),
                lit_set@ == ids(lemma@),
                forall|j: int|
                    frame <= j < i && j < self.levels().len() ==> !level_subsumes(
                        #[trigger] self.levels()[j],
                        lemma,
                    ),
            decreases self.frames.len() - i,
        {
            let level = &self.frames[i];
            assert(level@ == self.levels()[i as int]);
            assert(level_ok(self.levels()[i as int]));
            let mut k: usize = 0;
            while k < level.len()
                invariant
                    k <= level.len(),
                    frame <= i < self.levels().len(),
                    level@ == self.levels()[i as int],
                    level_ok(level@),
                    lemma.wf(),
                    lit_set@ == ids(lemma@),
                    forall|m: int| 0 <= m < k ==> !(#[trigger] level@[m]).spec_subsume(lemma),
                decreases level.len() - k,
            {
                if level[k].subsume_set(lemma, &lit_set) {
                    assert(level_subsumes(self.levels()[i as int], lemma));
                    return true;
                }
                k = k + 1;
            }
            assert(!level_subsumes(self.levels()[i as int], lemma));
            i = i + 1;
        }
        false
    }

    /// The lowest level touched since the mark was last reset.
    pub fn early(&self) -> (e: usize)
        ensures
            e == self.spec_early(),
    {
        self.early
    }

    /// Resets the mark to the topmost level.
    pub fn reset_early(&mut self)
        requires
            old(self).levels().len() >= 1,
        ensures
            final(self).spec_early() == old(self).levels().len() - 1,
            final(self).levels() == old(self).levels(),
    {
        self.early = self.frames.len() - 1;
    }

    /// The at most three best cubes that a lemma stored at level `frame` or
    /// above shares with `cube`, the best first. A shared part counts when it
    /// has at least half as many literals as `cube` and not as many. Of two
    /// the longer is better, and of two of one length the later in the order
    /// of cubes.
    pub fn similar(&self, cube: &Vec<Lit>, frame: usize) -> (r: Vec<Vec<Lit>>)
        requires
            frame <= self.levels().len(),
        ensures
            top_similar(self.levels(), frame as int, cube@, views(r@)),
            r@.len() <= 3,
            descending(views(r@)),
            forall|x: int|
                0 <= x < r@.len() ==> is_candidate(
                    self.levels(),
                    frame as int,
                    cube@,
                    #[trigger] views(r@)[x],
                ),
            forall|s: Seq<Lit>| #[trigger]
                is_candidate(self.levels(), frame as int, cube@, s) ==> covered(views(r@), s),
            forall|x: int|
                0 <= x < r@.len() ==> 2 * (#[trigger] r@[x])@.len() >= cube@.len() && r@[x]@.len()
                    != cube@.len(),
            self.wf() ==> forall|x: int|
                0 <= x < r@.len() ==> (#[trigger] r@[x])@.len() < cube@.len(),
    {
        let cube_set: HashSet<u32> = id_set(cube);
        let mut res: Vec<Vec<Lit>> = Vec::new();
        let ghost levels = self.levels();
        let mut i: usize = frame;
        while i < self.frames.len()
            invariant
                frame <= i <= self.frames.len(),
                levels == self.levels(),
                cube_set@ == ids(cube@),
                res@.len() <= 3,
                descending(views(res@)),
                forall|x: int|
                    0 <= x < res@.len() ==> is_candidate(
                        levels,
                        frame as int,
                        cube@,
                        #[trigger] views(res@)[x],
                    ),
                forall|a: int, b: int|
                    frame <= a < i && 0 <= b < levels[a].len() && is_similar(
                        #[trigger] overlap(levels, a, b, cube@),
                        cube@,
                    ) ==> covered(views(res@), overlap(levels, a, b, cube@)),
            decreases self.frames.len() - i,
        {
            let level = &self.frames[i];
            assert(level@ == levels[i as int]);
            let mut k: usize = 0;
            while k < level.len()
                invariant
                    frame <= i < levels.len(),
                    k <= level.len(),
                    level@ == levels[i as int],
                    cube_set@ == ids(cube@),
                    res@.len() <= 3,
                    descending(views(res@)),
                    forall|x: int|
                        0 <= x < res@.len() ==> is_candidate(
                            levels,
                            frame as int,
                            cube@,
                            #[trigger] views(res@)[x],
                        ),
                    forall|a: int, b: int|
                        frame <= a < i && 0 <= b < levels[a].len() && is_similar(
                            #[trigger] overlap(levels, a, b, cube@),
                            cube@,
                        ) ==> covered(views(res@), overlap(levels, a, b, cube@)),
                    forall|b: int|
                        0 <= b < k && is_similar(
                            #[trigger] overlap(levels, i as int, b, cube@),
                            cube@,
                        ) ==> covered(views(res@), overlap(levels, i as int, b, cube@)),
                decreases level.len() - k,
            {
                let sec = retain_in(level[k].cube(), &cube_set);
                assert(sec@ == overlap(levels, i as int, k as int, cube@));
                if sec.len() != cube.len() && sec.len() >= cube.len() / 2 + cube.len() % 2 {
                    let ghost before = views(res@);
                    let ghost sv = sec@;
                    insert_top(&mut res, sec);
                    proof {
                        let after = views(res@);
                        assert forall|x: int| 0 <= x < res@.len() implies is_candidate(
                            levels,
                            frame as int,
                            cube@,
                            #[trigger] after[x],
                        ) by {
                            if after[x] != sv {
                                let y = choose|y: int| 0 <= y < before.len() && before[y] == after[x];
                                assert(is_candidate(levels, frame as int, cube@, before[y]));
                            }
                        }
                    }
                }
                k = k + 1;
            }
            i = i + 1;
        }
        proof {
            let out = views(res@);
            assert forall|s: Seq<Lit>| #[trigger]
                is_candidate(levels, frame as int, cube@, s) implies covered(out, s) by {
                let (a, b) = choose|a: int, b: int|
                    frame <= a < levels.len() && 0 <= b < levels[a].len() && s == #[trigger] overlap(
                        levels,
                        a,
                        b,
                        cube@,
                    ) && is_similar(s, cube@);
                assert(covered(out, overlap(levels, a, b, cube@)));
            }
            assert forall|x: int| 0 <= x < res@.len() implies 2 * (#[trigger] res@[x])@.len()
                >= cube@.len() && res@[x]@.len() != cube@.len() && (self.wf() ==> res@[x]@.len()
                < cube@.len()) by {
                let s = out[x];
                assert(is_candidate(levels, frame as int, cube@, s));
                let (a, b) = choose|a: int, b: int|
                    frame <= a < levels.len() && 0 <= b < levels[a].len() && s == #[trigger] overlap(
                        levels,
                        a,
                        b,
                        cube@,
                    ) && is_similar(s, cube@);
                if self.wf() {
                    assert(level_ok(levels[a]));
                    let l = levels[a][b];
                    assert(l@.no_duplicates());
                    lemma_restrict(l@, ids(cube@));
                    assert(subset(s, cube@)) by {
                        assert forall|m: int| 0 <= m < s.len() implies cube@.contains(
                            #[trigger] s[m],
                        ) by {
                            assert(s.contains(s[m]));
                            assert(ids(cube@).contains(s[m].0));
                        }
                    }
                    lemma_subset_len(s, cube@);
                }
            }
        }
        res
    }

    /// Stores `lemma` at level `frame`. At each level from 1 to `frame` the
    /// lemmas that `lemma` subsumes leave, and the mark of the lowest level
    /// touched is lowered to the level returned: the lowest one at which no
    /// lemma kept so far already implies the new one.
    pub fn insert(&mut self, frame: usize, lemma: Lemma) -> (begin: usize)
        requires
            old(self).wf(),
            lemma.wf(),
            lemma@.no_duplicates(),
            1 <= frame < old(self).levels().len(),
        ensures
            final(self).wf(),
            final(self).levels().len() == old(self).levels().len(),
            forall|i: int|
                0 <= i < old(self).levels().len() && !(1 <= i <= frame) ==> (
                #[trigger] final(self).levels()[i]) == old(self).levels()[i],
            forall|i: int|
                1 <= i < frame ==> (#[trigger] final(self).levels()[i]) == survivors(
                    old(self).levels()[i],
                    &lemma,
                ),
            final(self).levels()[frame as int] == survivors(
                old(self).levels()[frame as int],
                &lemma,
            ).push(lemma),
            begin == defer_level(old(self).levels(), frame as int, &lemma),
            1 <= begin <= frame + 1,
            final(self).spec_early() == if old(self).spec_early() < begin {
                old(self).spec_early()
            } else {
                begin
            },
    {
        let ghost before = self.levels();
        let ghost pred = |l: Lemma| !lemma.spec_subsume(&l);
        let n = self.frames.len();
        let mut begin: usize = 1;
        let mut i: usize = 1;
        while i <= frame
            invariant
                1 <= i <= frame + 1,
                frame < n,
                n == before.len(),
                self.levels().len() == before.len(),
                lemma.wf(),
                pred == (|l: Lemma| !lemma.spec_subsume(&l)),
                self.wf(),
                forall|j: int| 0 <= j < before.len() ==> level_ok(#[trigger] before[j]),
                forall|j: int|
                    0 <= j < before.len() && !(1 <= j < i) ==> (#[trigger] self.levels()[j])
                        == before[j],
                forall|j: int| 1 <= j < i ==> (#[trigger] self.levels()[j]) == before[j].filter(pred),
                begin == defer_level(before, i - 1, &lemma),
                1 <= begin <= i,
                self.spec_early() == old(self).spec_early(),
            decreases frame + 1 - i,
        {
            let ghost cur = self.levels();
            let mut cubes: Vec<Lemma> = Vec::new();
            std::mem::swap(&mut cubes, &mut self.frames[i]);
            let ghost level = cubes@;
            assert(level == cur[i as int]);
            assert(level == before[i as int]);
            assert(self.levels() =~= cur.update(i as int, Seq::empty()));
            let mut kept: Vec<Lemma> = Vec::new();
            let mut found = false;
            assert(level.subrange(0, 0) =~= Seq::<Lemma>::empty());
            for l in it: cubes
                invariant
                    it.seq() == level,
                    level_ok(level),
                    lemma.wf(),
                    pred == (|l: Lemma| !lemma.spec_subsume(&l)),
                    kept@ == level.subrange(0, it.index() as int).filter(pred),
                    found == exists|m: int|
                        0 <= m < it.index() && (#[trigger] level[m]).spec_subsume(&lemma),
            {
                proof {
                    let head = level.subrange(0, it.index() as int);
                    assert(level.subrange(0, it.index() + 1) =~= head.push(l));
                    head.lemma_filter_push(l, pred);
                    assert(l == level[it.index() as int]);
                    assert(l.wf());
                }
                if l.subsume(&lemma) {
                    found = true;
                }
                if !lemma.subsume(&l) {
                    kept.push(l);
                }
            }
            proof {
                assert(level.subrange(0, level.len() as int) =~= level);
                assert(kept@ == survivors(level, &lemma));
                assert(found == level_subsumes(level, &lemma));
                lemma_survivors(level, &lemma);
            }
            let ghost mid = self.levels();
            self.frames[i] = kept;
            proof {
                assert(self.levels() =~= mid.update(i as int, kept@));
            }
            if found {
                begin = i + 1;
            }
            i = i + 1;
        }
        let ghost mid = self.levels();
        let ghost lem = lemma;
        self.frames[frame].push(lemma);
        proof {
            assert(self.levels() =~= mid.update(frame as int, mid[frame as int].push(lem)));
            assert(level_ok(self.levels()[frame as int])) by {
                assert(level_ok(mid[frame as int]));
            }
            assert forall|j: int| 0 <= j < self.levels().len() implies level_ok(
                #[trigger] self.levels()[j],
            ) by {
                if j != frame {
                    assert(self.levels()[j] == mid[j]);
                }
            }
        }
        if begin < self.early {
            self.early = begin;
        }
        begin
    }

    /// Stores `lemma` at level `frame` as it is, with no look at the
    /// lemmas that are there.
    pub fn push(&mut self, frame: usize, lemma: Lemma)
        requires
            frame < old(self).levels().len(),
        ensures
            final(self).levels() == old(self).levels().update(
                frame as int,
                old(self).levels()[frame as int].push(lemma),
            ),
            final(self).spec_early() == old(self).spec_early(),
    {
        let ghost before = self.levels();
        self.frames[frame].push(lemma);
        assert(self.levels() =~= before.update(frame as int, before[frame as int].push(lemma)));
    }

    /// The number of lemmas stored at each level.
    pub fn statistic(&self) -> (r: Vec<usize>)
        ensures
            r@.len() == self.levels().len(),
            forall|i: int| 0 <= i < r@.len() ==> r@[i] == (#[trigger] self.levels()[i]).len(),
    {
        let mut r: Vec<usize> = Vec::with_capacity(self.frames.len());
        let mut i: usize = 0;
        while i < self.frames.len()
            invariant
                i <= self.frames.len(),
                r@.len() == i,
                forall|j: int| 0 <= j < i ==> r@[j] == (#[trigger] self.levels()[j]).len(),
            decreases self.frames.len() - i,
        {
            r.push(self.frames[i].len());
            i = i + 1;
        }
        r
    }
}

} // verus!
