use ric3::frames::Frames;
use ric3::lemma::Lemma;
use ric3::lit::{Lit, Var};
use std::collections::HashSet;

fn pos(v: u32) -> Lit {
    Lit::new(Var(v), true)
}

fn lemma(vars: &[u32]) -> Lemma {
    Lemma::new(vars.iter().map(|v| pos(*v)).collect())
}

fn cube(vars: &[u32]) -> Vec<Lit> {
    vars.iter().map(|v| pos(*v)).collect()
}

fn with_levels(n: usize) -> Frames {
    let mut f = Frames::new();
    for _ in 0..n {
        f.new_frame();
    }
    f
}

#[test]
fn new_frames_are_empty_with_early_one() {
    let f = Frames::new();
    assert_eq!(f.len(), 0);
    assert_eq!(f.early(), 1);
    let f = with_levels(3);
    assert_eq!(f.len(), 3);
    assert_eq!(f.statistic(), vec![0, 0, 0]);
    assert_eq!(f.early(), 1);
}

#[test]
fn superset_cube_is_trivially_contained() {
    let mut f = with_levels(2);
    f.insert(1, lemma(&[1, 2]));
    for extra in [3u32, 4, 9] {
        assert!(f.trivial_contained(1, &lemma(&[1, 2, extra])));
    }
    assert!(f.trivial_contained(1, &lemma(&[1, 2])));
    assert!(f.trivial_contained(0, &lemma(&[1, 2, 3])));
    assert!(!f.trivial_contained(2, &lemma(&[1, 2, 3])));
    assert!(!f.trivial_contained(1, &lemma(&[1, 3])));
    assert!(!f.trivial_contained(1, &lemma(&[1])));
    assert!(!f.trivial_contained(7, &lemma(&[1, 2, 3])));
}

#[test]
fn subsume_set_agrees_with_subsume() {
    let a = lemma(&[1, 2]);
    let b = lemma(&[1, 2, 3]);
    let set: HashSet<u32> = b.cube().iter().map(|l| l.0).collect();
    assert!(a.subsume_set(&b, &set));
    let c = lemma(&[1, 4]);
    assert!(!c.subsume_set(&b, &set));
    assert!(!b.subsume_set(&a, &set));
    // the set decides, not the cube of the other lemma
    let wrong: HashSet<u32> = HashSet::new();
    assert!(!a.subsume_set(&b, &wrong));
}

#[test]
fn insert_defers_above_a_subsuming_lemma() {
    let mut f = with_levels(4);
    assert_eq!(f.insert(1, lemma(&[1])), 1);
    f.reset_early();
    assert_eq!(f.early(), 3);
    // level 1 holds a lemma that subsumes the new one
    assert_eq!(f.insert(3, lemma(&[1, 2])), 2);
    assert_eq!(f.early(), 2);
    assert_eq!(f.statistic(), vec![0, 1, 0, 1]);
    // nothing below subsumes this one
    assert_eq!(f.insert(2, lemma(&[5])), 1);
    assert_eq!(f.early(), 1);
    assert_eq!(f.statistic(), vec![0, 1, 1, 1]);
}

#[test]
fn insert_drops_subsumed_lemmas_up_to_its_level() {
    let mut f = with_levels(4);
    f.insert(1, lemma(&[1, 2]));
    f.insert(1, lemma(&[3]));
    f.insert(2, lemma(&[1, 2, 3]));
    f.insert(3, lemma(&[1, 4]));
    assert_eq!(f.statistic(), vec![0, 2, 1, 1]);
    // [1] subsumes [1, 2] at level 1 and [1, 2, 3] at level 2; [1, 4]
    // at level 3 is above
    assert_eq!(f.insert(2, lemma(&[1])), 1);
    assert_eq!(f.statistic(), vec![0, 1, 1, 1]);
    assert_eq!(f.level(1)[0].cube(), &cube(&[3]));
    assert_eq!(f.level(2)[0].cube(), &cube(&[1]));
    assert_eq!(f.level(3)[0].cube(), &cube(&[1, 4]));
}

#[test]
fn equal_lemma_at_lower_level_is_replaced() {
    let mut f = with_levels(3);
    f.insert(1, lemma(&[1, 2]));
    // the same cube one level up: the old one leaves, and its clause
    // is already asserted at level 1
    assert_eq!(f.insert(2, lemma(&[2, 1])), 2);
    assert_eq!(f.statistic(), vec![0, 0, 1]);
}

#[test]
fn push_stores_as_it_is() {
    let mut f = with_levels(1);
    f.push(0, lemma(&[1]));
    f.push(0, lemma(&[1]));
    assert_eq!(f.statistic(), vec![2]);
    assert_eq!(f.early(), 1);
}

#[test]
fn reset_early_goes_to_top() {
    let mut f = with_levels(5);
    f.reset_early();
    assert_eq!(f.early(), 4);
    f.insert(2, lemma(&[1]));
    assert_eq!(f.early(), 1);
}

#[test]
fn similar_returns_shared_parts_best_first() {
    let mut f = with_levels(3);
    f.insert(1, lemma(&[1, 2, 3]));
    f.insert(1, lemma(&[2, 3, 4, 5]));
    f.insert(2, lemma(&[7, 8]));
    f.insert(2, lemma(&[2, 3, 9]));
    let c = cube(&[2, 3, 4, 6]);
    // shared parts: [2,3], [2,3,4], [], [2,3] again
    assert_eq!(f.similar(&c, 1), vec![cube(&[2, 3, 4]), cube(&[2, 3])]);
    assert_eq!(f.similar(&c, 2), vec![cube(&[2, 3])]);
    assert_eq!(f.similar(&c, 3), Vec::<Vec<Lit>>::new());
}

#[test]
fn similar_keeps_three_and_breaks_ties_by_order() {
    let mut f = with_levels(2);
    f.insert(1, lemma(&[1, 2, 10]));
    f.insert(1, lemma(&[1, 3, 11]));
    f.insert(1, lemma(&[2, 3, 12]));
    f.insert(1, lemma(&[1, 4, 13]));
    f.insert(1, lemma(&[1, 2, 3, 14]));
    let c = cube(&[1, 2, 3, 4]);
    // parts: [1,2] [1,3] [2,3] [1,4] [1,2,3]; of equal length the later
    // in the order of cubes comes first
    assert_eq!(
        f.similar(&c, 0),
        vec![cube(&[1, 2, 3]), cube(&[2, 3]), cube(&[1, 4])]
    );
}

#[test]
fn similar_bounds_on_size() {
    let mut f = with_levels(2);
    f.insert(1, lemma(&[1, 2, 3, 4, 5]));
    f.insert(1, lemma(&[1, 9]));
    f.insert(1, lemma(&[1, 2, 8]));
    let c = cube(&[1, 2, 3, 4, 5]);
    // the whole cube is left out, and so is a part under half of it
    let r = f.similar(&c, 1);
    assert!(r.is_empty());
    let c = cube(&[1, 2, 3]);
    let r = f.similar(&c, 1);
    assert_eq!(r, vec![cube(&[1, 2])]);
    for s in r.iter() {
        assert!(s.len() >= (c.len() + 1) / 2 && s.len() <= c.len() - 1);
    }
}
