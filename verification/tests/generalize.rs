use ric3::frames::Frames;
use ric3::ic3::generalize::{rewind, shrink, DownResult};
use ric3::ic3::Ic3;
use ric3::lemma::Lemma;
use ric3::lit::{Lit, Var};
use ric3::model::Model;
use ric3::sat::{ActivityCall, SatAnswer, SatQuery, SolverId};
use std::cell::RefCell;
use std::collections::HashSet;

fn cube(codes: &[u32]) -> Vec<Lit> {
    codes.iter().map(|c| Lit(*c)).collect()
}

fn keep(codes: &[u32]) -> HashSet<u32> {
    codes.iter().copied().collect()
}

#[test]
fn rewind_goes_on_at_first_untried_literal() {
    // 4 was dropped; the conflict cube left out 6 as well
    let (next, at) = rewind(&cube(&[2, 4, 6, 8]), 1, &cube(&[8, 2]));
    assert_eq!(next, cube(&[2, 8]));
    assert_eq!(at, 1);
    // a literal tried before did not survive either
    let (next, at) = rewind(&cube(&[2, 4, 6, 8]), 2, &cube(&[4, 8]));
    assert_eq!(next, cube(&[4, 8]));
    assert_eq!(at, 1);
    let (next, at) = rewind(&cube(&[2, 4, 6, 8]), 3, &cube(&[]));
    assert_eq!(next, cube(&[]));
    assert_eq!(at, 0);
    let (next, at) = rewind(&cube(&[2]), 0, &cube(&[]));
    assert_eq!(next, cube(&[]));
    assert_eq!(at, 0);
}

#[test]
fn shrink_keeps_what_holds_in_the_predecessor() {
    assert_eq!(
        shrink(&cube(&[2, 4, 6]), &cube(&[6, 10, 2]), &keep(&[])),
        Some(cube(&[2, 6]))
    );
    assert_eq!(
        shrink(&cube(&[2, 4, 6]), &cube(&[6, 10, 2]), &keep(&[2])),
        Some(cube(&[2, 6]))
    );
    // the literal to keep would be lost
    assert_eq!(shrink(&cube(&[2, 4, 6]), &cube(&[6, 10, 2]), &keep(&[4])), None);
    // nothing would be lost
    assert_eq!(shrink(&cube(&[2, 4]), &cube(&[4, 2, 8]), &keep(&[])), None);
    assert_eq!(shrink(&cube(&[]), &cube(&[4]), &keep(&[])), None);
    assert_eq!(shrink(&cube(&[2, 4]), &cube(&[]), &keep(&[])), Some(cube(&[])));
}

fn flat(call: ActivityCall) -> Vec<u64> {
    match call {
        ActivityCall::Rank(c) => vec![0; c.len()],
        ActivityCall::Bump(_) => Vec::new(),
    }
}

fn model() -> Model {
    let mut m = Model::new(5).unwrap();
    for v in 1..4u32 {
        assert!(m.add_latch(Var(v), Lit::new(Var(v), true), Some(false)));
    }
    m
}

#[test]
fn ctg_down_stops_at_a_cube_with_an_initial_state() {
    let never = |_q: SatQuery| -> SatAnswer { panic!("no query is due") };
    let mut ic3 = Ic3::new(model(), "m");
    ic3.new_frame();
    let c = vec![Lit::new(Var(1), false), Lit::new(Var(2), false)];
    let r = ic3.ctg_down(1, &c, &HashSet::new(), 3, &never, &flat);
    assert!(matches!(r, DownResult::IncludeInit));
    assert_eq!(ic3.statistic().num_down, 1);
    assert_eq!(ic3.solver(0).num_act(), 0);
}

#[test]
fn ctg_down_follows_the_answers() {
    // every latch keeps its value; the instance is played by hand
    let yes = |q: SatQuery| match q.solver {
        SolverId::Frame(_) => SatAnswer::Unsat(vec![q.assumptions[1]]),
        SolverId::Lift => SatAnswer::Unsat(q.assumptions),
    };
    let mut ic3 = Ic3::new(model(), "m");
    ic3.new_frame();
    let p = |v: u32| Lit::new(Var(v), true);
    let c = vec![p(1), p(2), p(3)];
    match ic3.ctg_down(1, &c, &HashSet::new(), 0, &yes, &flat) {
        DownResult::Success(found) => assert_eq!(found, vec![p(2)]),
        _ => panic!("the answer was unsatisfiable"),
    }
    let no = |q: SatQuery| match q.solver {
        SolverId::Frame(_) => SatAnswer::Sat(vec![p(1), p(3).not()]),
        SolverId::Lift => SatAnswer::Unsat(q.assumptions),
    };
    // without recursion a satisfiable answer ends the attempt
    assert!(matches!(
        ic3.ctg_down(1, &c, &HashSet::new(), 0, &no, &flat),
        DownResult::Fail
    ));
    // with it the cube shrinks to [1], which the witness still meets,
    // so that nothing more can be dropped
    assert!(matches!(
        ic3.ctg_down(1, &c, &HashSet::new(), 1, &no, &flat),
        DownResult::Fail
    ));
    assert_eq!(ic3.statistic().num_down, 3);
}

#[test]
fn defaults_and_copies() {
    let f = Frames::default();
    assert_eq!(f.len(), 0);
    assert_eq!(f.early(), 0);
    let e = Lemma::default();
    assert_eq!(e.len(), 0);
    assert_eq!(e.sign(), 0);
    let l = Lemma::new(cube(&[8, 2]));
    let c = l.copy();
    assert!(c == l);
    assert_eq!(c.cube(), &cube(&[2, 8]));
    assert_eq!(c.sign(), l.sign());
    assert!(l != Lemma::new(cube(&[2])));
    assert!(Lemma::new(cube(&[2, 8])) == l);
}

#[test]
fn ctg_down_without_recursion_asks_once_and_leaves_frames_alone() {
    let calls = RefCell::new(0usize);
    let p = |v: u32| Lit::new(Var(v), true);
    let no = |q: SatQuery| {
        *calls.borrow_mut() += 1;
        match q.solver {
            SolverId::Frame(_) => SatAnswer::Sat(vec![p(1)]),
            SolverId::Lift => SatAnswer::Unsat(q.assumptions),
        }
    };
    let mut ic3 = Ic3::new(model(), "m");
    ic3.new_frame();
    ic3.new_frame();
    ic3.add_cube(1, vec![p(3)]);
    let counts = ic3.frames().statistic();
    let c = vec![p(1), p(2)];
    assert!(matches!(
        ic3.ctg_down(2, &c, &HashSet::new(), 0, &no, &flat),
        DownResult::Fail
    ));
    assert_eq!(*calls.borrow(), 1);
    assert_eq!(ic3.frames().statistic(), counts);
    assert_eq!(ic3.solver(1).num_act(), 1);
    assert_eq!(ic3.solver(0).num_act(), 0);
    assert_eq!(ic3.lift().num_act(), 0);
}
