use ric3::frames::Frames;
use ric3::lemma::Lemma;
use ric3::lift::{assignment, Lift};
use ric3::lit::{Lit, Var};
use ric3::model::Model;
use ric3::sat::SolverId;
use ric3::solver::Ic3Solver;
use std::collections::HashSet;

fn pos(v: u32) -> Lit {
    Lit::new(Var(v), true)
}

fn neg(v: u32) -> Lit {
    Lit::new(Var(v), false)
}

fn model() -> Model {
    let mut m = Model::new(10).unwrap();
    for v in 1..6u32 {
        assert!(m.add_latch(Var(v), pos(v), Some(false)));
    }
    m
}

#[test]
fn fresh_solver_book() {
    let s = Ic3Solver::new(3, &model());
    assert_eq!(s.frame(), 3);
    assert_eq!(s.num_act(), 0);
    assert!(s.pending().is_empty());
    assert!(s.temporary().is_empty());
}

#[test]
fn temporary_clauses_stay_subsumption_free() {
    let mut s = Ic3Solver::new(1, &model());
    // the clause !1 | !2 is the cube 1 & 2
    s.add_temporary_clause(&vec![neg(2), neg(1)]);
    assert_eq!(s.temporary(), &vec![vec![pos(1), pos(2)]]);
    assert_eq!(s.pending(), &vec![vec![neg(2), neg(1)]]);
    // subsumed by the one that is there: skipped
    s.add_temporary_clause(&vec![neg(1), neg(2), neg(3)]);
    assert_eq!(s.temporary().len(), 1);
    assert_eq!(s.pending().len(), 1);
    // unrelated: joins
    s.add_temporary_clause(&vec![neg(4), neg(3)]);
    assert_eq!(
        s.temporary(),
        &vec![vec![pos(1), pos(2)], vec![pos(3), pos(4)]]
    );
    // subsumes the first: replaces it
    s.add_temporary_clause(&vec![neg(1)]);
    assert_eq!(s.temporary(), &vec![vec![pos(3), pos(4)], vec![pos(1)]]);
    assert_eq!(s.pending().len(), 3);
}

#[test]
fn permanent_clause_prunes_temporaries() {
    let mut s = Ic3Solver::new(1, &model());
    s.add_temporary_clause(&vec![neg(1), neg(2)]);
    s.add_temporary_clause(&vec![neg(3), neg(4)]);
    s.add_clause(&vec![neg(3)]);
    assert_eq!(s.temporary(), &vec![vec![pos(1), pos(2)]]);
    assert_eq!(s.pending().len(), 3);
    assert_eq!(s.pending()[2], vec![neg(3)]);
    s.add_clause(&vec![neg(5), neg(1)]);
    assert_eq!(s.temporary().len(), 1);
}

#[test]
fn block_query_guards_the_cube_with_a_fresh_literal() {
    let m = model();
    let mut frames = Frames::new();
    frames.new_frame();
    frames.new_frame();
    let mut s = Ic3Solver::new(1, &m);
    s.add_clause(&vec![neg(5)]);
    assert!(!s.touch(&frames));
    assert_eq!(s.num_act(), 1);
    let cube = vec![pos(1), neg(2)];
    let next = m.cube_next(&cube);
    let q = s.block_query(&cube, &next);
    let act = Lit::new(Var(10), true);
    assert_eq!(q.solver, SolverId::Frame(1));
    assert!(q.rebuild);
    assert_eq!(
        q.clauses,
        vec![vec![neg(5)], vec![neg(1), pos(2), act.not()]]
    );
    assert_eq!(q.assumptions, vec![pos(1), neg(2), act]);
    assert!(s.pending().is_empty());
    s.release(act);
    assert_eq!(s.pending(), &vec![vec![act.not()]]);
    // the next query uses the next variable and starts no new instance
    assert!(!s.touch(&frames));
    let q = s.block_query(&cube, &next);
    let act2 = Lit::new(Var(11), true);
    assert!(!q.rebuild);
    assert_eq!(
        q.clauses,
        vec![vec![act.not()], vec![neg(1), pos(2), act2.not()]]
    );
    assert_eq!(q.assumptions, vec![pos(1), neg(2), act2]);
}

#[test]
fn plain_query_hands_over_what_is_pending() {
    let mut s = Ic3Solver::new(2, &model());
    s.add_clause(&vec![neg(1)]);
    let q = s.plain_query(&vec![pos(2)]);
    assert_eq!(q.solver, SolverId::Frame(2));
    assert!(q.rebuild);
    assert_eq!(q.clauses, vec![vec![neg(1)]]);
    assert_eq!(q.assumptions, vec![pos(2)]);
    let q = s.plain_query(&vec![pos(3)]);
    assert!(!q.rebuild);
    assert!(q.clauses.is_empty());
}

#[test]
fn reset_replays_the_lemmas_of_the_level_and_above_and_then_the_temporaries() {
    let m = model();
    let mut frames = Frames::new();
    for _ in 0..4 {
        frames.new_frame();
    }
    frames.push(0, Lemma::new(vec![pos(5)]));
    frames.insert(1, Lemma::new(vec![pos(1), pos(2)]));
    frames.insert(2, Lemma::new(vec![pos(3)]));
    frames.insert(3, Lemma::new(vec![pos(4), pos(2)]));
    let mut s = Ic3Solver::new(2, &m);
    s.add_temporary_clause(&vec![neg(1)]);
    s.add_temporary_clause(&vec![neg(5), neg(3)]);
    s.add_clause(&vec![neg(4)]);
    let _ = s.plain_query(&Vec::new());
    s.reset(&frames);
    assert_eq!(s.num_act(), 0);
    assert_eq!(s.frame(), 2);
    // first the lemmas of levels 2 and 3, then the temporaries
    assert_eq!(
        s.pending(),
        &vec![
            vec![neg(3)],
            vec![neg(2), neg(4)],
            vec![neg(1)],
            vec![neg(3), neg(5)],
        ]
    );
    // the temporaries stay as they are
    assert_eq!(s.temporary(), &vec![vec![pos(1)], vec![pos(3), pos(5)]]);
    let q = s.plain_query(&Vec::new());
    assert!(q.rebuild);
    assert_eq!(q.clauses.len(), 4);
}

#[test]
fn reset_of_level_zero_replays_level_zero_only() {
    let m = model();
    let mut frames = Frames::new();
    frames.new_frame();
    frames.new_frame();
    frames.push(0, Lemma::new(vec![pos(5)]));
    frames.insert(1, Lemma::new(vec![pos(1)]));
    let mut s = Ic3Solver::new(0, &m);
    s.reset(&frames);
    assert_eq!(s.pending(), &vec![vec![neg(5)]]);
}

#[test]
fn touch_rebuilds_after_the_threshold() {
    let m = model();
    let mut frames = Frames::new();
    frames.new_frame();
    frames.new_frame();
    frames.insert(1, Lemma::new(vec![pos(1)]));
    let mut s = Ic3Solver::new(1, &m);
    let cube = vec![pos(2)];
    let next = m.cube_next(&cube);
    for use_no in 1..=300usize {
        assert!(!s.touch(&frames));
        assert_eq!(s.num_act(), use_no);
        let q = s.block_query(&cube, &next);
        assert_eq!(q.assumptions[1], Lit::new(Var(9 + use_no as u32), true));
        assert_eq!(q.rebuild, use_no == 1);
        s.release(q.assumptions[1]);
    }
    assert!(s.touch(&frames));
    assert_eq!(s.num_act(), 0);
    let q = s.block_query(&cube, &next);
    assert!(q.rebuild);
    // the activation variables start anew
    assert_eq!(q.assumptions, vec![pos(2), Lit::new(Var(10), true)]);
    assert_eq!(
        q.clauses,
        vec![vec![neg(1)], vec![neg(2), Lit::new(Var(10), false)]]
    );
}

#[test]
fn assignment_reads_the_values_of_variables() {
    let holds: HashSet<u32> = [pos(1).0, neg(2).0, pos(4).0, neg(4).0].into_iter().collect();
    let vars = vec![Var(4), Var(3), Var(2), Var(1)];
    assert_eq!(assignment(&vars, &holds), vec![pos(4), neg(2), pos(1)]);
    assert_eq!(assignment(&Vec::new(), &holds), Vec::<Lit>::new());
}

#[test]
fn lift_query_assumes_activation_inputs_latches() {
    let m = model();
    let mut l = Lift::new(&m);
    assert!(!l.touch());
    assert_eq!(l.num_act(), 1);
    let q = l.query(&vec![pos(1), neg(3)], &vec![pos(7)], &vec![neg(2), pos(1)]);
    let act = Lit::new(Var(10), true);
    assert_eq!(q.solver, SolverId::Lift);
    assert!(q.rebuild);
    assert_eq!(q.clauses, vec![vec![neg(1), pos(3), act.not()]]);
    assert_eq!(q.assumptions, vec![act, pos(7), neg(2), pos(1)]);
    l.release(act);
    for _ in 2..=300 {
        assert!(!l.touch());
    }
    assert_eq!(l.num_act(), 300);
    assert!(l.touch());
    assert_eq!(l.num_act(), 0);
    let q = l.query(&vec![pos(1)], &Vec::new(), &Vec::new());
    assert!(q.rebuild);
    assert_eq!(q.clauses, vec![vec![neg(1), act.not()]]);
}
