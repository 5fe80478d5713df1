use ric3::ic3::blocking::BlockResult;
use ric3::ic3::Ic3;
use ric3::lit::{Lit, Var};
use ric3::model::Model;
use ric3::sat::{ActivityCall, SatAnswer, SatQuery, SolverId};
use std::cell::RefCell;
use std::collections::HashMap;

/// A small backtracking solver over the clauses of one instance.
fn search(clauses: &[Vec<Lit>], assign: &mut Vec<Option<bool>>, var: usize) -> bool {
    for c in clauses {
        let mut open = false;
        let mut sat = false;
        for l in c {
            match assign[l.var().0 as usize] {
                Some(v) => {
                    if v == l.polarity() {
                        sat = true;
                    }
                }
                None => open = true,
            }
        }
        if !sat && !open {
            return false;
        }
    }
    if var == assign.len() {
        return true;
    }
    if assign[var].is_some() {
        return search(clauses, assign, var + 1);
    }
    for v in [false, true] {
        assign[var] = Some(v);
        if search(clauses, assign, var + 1) {
            return true;
        }
    }
    assign[var] = None;
    false
}

fn solve(clauses: &[Vec<Lit>], assumptions: &[Lit]) -> Option<Vec<Lit>> {
    let mut n = 1;
    for l in clauses.iter().flatten().chain(assumptions.iter()) {
        n = n.max(l.var().0 as usize + 1);
    }
    let mut assign = vec![None; n];
    for l in assumptions {
        let v = l.var().0 as usize;
        if assign[v] == Some(!l.polarity()) {
            return None;
        }
        assign[v] = Some(l.polarity());
    }
    if search(clauses, &mut assign, 0) {
        Some(
            (0..n)
                .map(|v| Lit::new(Var(v as u32), assign[v].unwrap()))
                .collect(),
        )
    } else {
        None
    }
}

/// The SAT instances that the engine talks to, with a count of rebuilds.
struct World {
    trans: Vec<Vec<Lit>>,
    instances: HashMap<Option<usize>, Vec<Vec<Lit>>>,
    rebuilds: HashMap<Option<usize>, usize>,
    queries: usize,
}

impl World {
    fn new(trans: Vec<Vec<Lit>>) -> Self {
        World {
            trans,
            instances: HashMap::new(),
            rebuilds: HashMap::new(),
            queries: 0,
        }
    }

    fn answer(&mut self, q: SatQuery) -> SatAnswer {
        self.queries += 1;
        let key = match q.solver {
            SolverId::Frame(i) => Some(i),
            SolverId::Lift => None,
        };
        if q.rebuild {
            self.instances.insert(key, self.trans.clone());
            *self.rebuilds.entry(key).or_insert(0) += 1;
        }
        let inst = self.instances.get_mut(&key).expect("instance was built");
        inst.extend(q.clauses);
        match solve(inst, &q.assumptions) {
            Some(model) => {
                assert!(key.is_some(), "lifting must be unsatisfiable");
                SatAnswer::Sat(model)
            }
            None => {
                // shrink the assumptions to a set that is still refuted
                let mut core = q.assumptions.clone();
                let mut i = 0;
                while i < core.len() {
                    let mut fewer = core.clone();
                    fewer.remove(i);
                    if solve(inst, &fewer).is_none() {
                        core = fewer;
                    } else {
                        i += 1;
                    }
                }
                SatAnswer::Unsat(core)
            }
        }
    }
}

fn flat(call: ActivityCall) -> Vec<u64> {
    match call {
        ActivityCall::Rank(c) => vec![0; c.len()],
        ActivityCall::Bump(_) => Vec::new(),
    }
}

fn a() -> Lit {
    Lit::new(Var(1), true)
}

fn b() -> Lit {
    Lit::new(Var(2), true)
}

/// Latches a and b with a' = b and b' = !a, both 0 at the start.
fn two_latches() -> Model {
    let mut m = Model::new(3).unwrap();
    assert!(m.add_latch(Var(1), b(), Some(false)));
    assert!(m.add_latch(Var(2), a().not(), Some(false)));
    m
}

#[test]
fn new_engine_holds_the_initial_lemmas() {
    let ic3 = Ic3::new(two_latches(), "cases/two_latches.aig");
    assert_eq!(ic3.frames().len(), 1);
    assert_eq!(ic3.frames().level(0).len(), 2);
    assert_eq!(ic3.frames().level(0)[0].cube(), &vec![a()]);
    assert_eq!(ic3.frames().level(0)[1].cube(), &vec![b()]);
    assert_eq!(ic3.solver(0).pending().len(), 2);
    assert_eq!(ic3.solver(0).pending()[0], vec![a().not()]);
    assert_eq!(ic3.depth(), 0);
}

#[test]
fn bad_cube_is_blocked_at_level_one() {
    let world = RefCell::new(World::new(Vec::new()));
    let sat = |q: SatQuery| world.borrow_mut().answer(q);
    let mut ic3 = Ic3::new(two_latches(), "cases/two_latches.aig");
    ic3.new_frame();
    let r = ic3.blocked(1, &vec![a(), b()], &sat);
    match r {
        BlockResult::Yes(y) => {
            assert_eq!(y.solver, 0);
            assert_eq!(y.cube, vec![a(), b()]);
            assert_eq!(y.assumption, vec![b(), a().not()]);
            assert_eq!(y.core, vec![b()]);
            assert_eq!(ic3.blocked_conflict(&y), vec![a()]);
        }
        BlockResult::No(_) => panic!("the successor of the initial state is not a and b"),
    }
    assert_eq!(ic3.solver(0).num_act(), 1);
}

#[test]
fn unblocked_cube_gives_a_minimal_predecessor() {
    let world = RefCell::new(World::new(Vec::new()));
    let sat = |q: SatQuery| world.borrow_mut().answer(q);
    let mut ic3 = Ic3::new(two_latches(), "cases/two_latches.aig");
    ic3.new_frame();
    let r = ic3.blocked(1, &vec![b()], &sat);
    match r {
        BlockResult::No(n) => {
            assert_eq!(n.assumption, vec![a().not()]);
            let pred = ic3.unblocked_model(n, &sat, &flat);
            assert_eq!(pred, vec![a().not()]);
        }
        BlockResult::Yes(_) => panic!("the initial state leads into b"),
    }
    assert_eq!(ic3.lift().num_act(), 1);
}

#[test]
fn mic_on_two_latch_system() {
    let world = RefCell::new(World::new(Vec::new()));
    let sat = |q: SatQuery| world.borrow_mut().answer(q);
    let mut ic3 = Ic3::new(two_latches(), "cases/two_latches.aig");
    ic3.new_frame();
    let cube = vec![a(), b()];
    let r = ic3.mic(1, cube.clone(), 1, &sat, &flat);
    assert_eq!(r, vec![a()]);
    assert!(r.len() <= 2);
    assert!(r.iter().all(|l| cube.contains(l)));
    assert!(!ic3.model().cube_subsume_init(&r));
    assert!(matches!(ic3.blocked(1, &r, &sat), BlockResult::Yes(_)));
    ic3.add_cube(1, r.clone());
    assert_eq!(ic3.frames().level(1).len(), 1);
    assert_eq!(ic3.frames().level(1)[0].cube(), &r);
}

#[test]
fn mic_with_similar_lemmas_tried_first() {
    let world = RefCell::new(World::new(Vec::new()));
    let sat = |q: SatQuery| world.borrow_mut().answer(q);
    let mut ic3 = Ic3::new(two_latches(), "cases/two_latches.aig");
    ic3.new_frame();
    ic3.add_cube(1, vec![a()]);
    ic3.set_similar(true);
    let r = ic3.mic(1, vec![a(), b()], 0, &sat, &flat);
    assert_eq!(r, vec![a()]);
}

#[test]
fn rebuild_once_per_threshold_crossing() {
    let world = RefCell::new(World::new(Vec::new()));
    let sat = |q: SatQuery| world.borrow_mut().answer(q);
    let mut ic3 = Ic3::new(two_latches(), "cases/two_latches.aig");
    ic3.new_frame();
    let cube = vec![a(), b()];
    let mut blocked_before = None;
    for call in 1..=700usize {
        let r = ic3.blocked(1, &cube, &sat);
        let yes = matches!(r, BlockResult::Yes(_));
        match blocked_before {
            None => blocked_before = Some(yes),
            Some(prev) => assert_eq!(prev, yes),
        }
        let rebuilds = world.borrow().rebuilds[&Some(0)];
        // the first query builds the instance; then one rebuild at each
        // crossing of the threshold
        assert_eq!(rebuilds, 1 + call / 301, "after call {}", call);
        assert_eq!(ic3.solver(0).num_act(), call % 301);
        assert_eq!(ic3.statistic().num_solver_restart, call / 301);
        assert_eq!(ic3.statistic().num_sat_inductive, call);
    }
}

#[test]
fn engine_counts_its_work() {
    let world = RefCell::new(World::new(Vec::new()));
    let sat = |q: SatQuery| world.borrow_mut().answer(q);
    let mut ic3 = Ic3::new(two_latches(), "cases/two_latches.aig");
    assert_eq!(ic3.statistic().case().0, "two_latches.aig");
    ic3.new_frame();
    let r = ic3.mic(1, vec![a(), b()], 1, &sat, &flat);
    assert_eq!(r, vec![a()]);
    let st = ic3.statistic();
    assert_eq!(st.num_mic, 1);
    assert_eq!(st.num_down, 2);
    assert_eq!(st.average_mic_cube_len.sum(), 2);
    assert_eq!(st.average_mic_cube_len.num(), 1);
    assert_eq!(st.mic_drop.successes(), 1);
    assert_eq!(st.mic_drop.failures(), 1);
    assert_eq!(st.num_sat_inductive, 2);
    assert_eq!(st.num_solver_restart, 0);
}

#[test]
fn sat_contained_asks_the_level_itself() {
    let world = RefCell::new(World::new(Vec::new()));
    let sat = |q: SatQuery| world.borrow_mut().answer(q);
    let mut ic3 = Ic3::new(two_latches(), "cases/two_latches.aig");
    ic3.new_frame();
    assert!(ic3.sat_contained(0, &vec![a()], &sat));
    assert!(!ic3.sat_contained(0, &vec![a().not()], &sat));
    assert!(!ic3.sat_contained(1, &vec![a(), b()], &sat));
    ic3.add_cube(1, vec![a(), b()]);
    assert!(ic3.sat_contained(1, &vec![a(), b()], &sat));
    assert!(!ic3.sat_contained(1, &vec![a()], &sat));
}

fn x() -> Lit {
    Lit::new(Var(1), true)
}

fn y() -> Lit {
    Lit::new(Var(2), true)
}

fn z() -> Lit {
    Lit::new(Var(3), true)
}

/// Latches x, y, z with x' = x, y' = x and z' = y, all 0 at the start.
fn chain() -> Model {
    let mut m = Model::new(4).unwrap();
    assert!(m.add_latch(Var(1), x(), Some(false)));
    assert!(m.add_latch(Var(2), x(), Some(false)));
    assert!(m.add_latch(Var(3), y(), Some(false)));
    m
}

#[test]
fn mic_without_recursion_keeps_what_it_cannot_drop() {
    let world = RefCell::new(World::new(Vec::new()));
    let sat = |q: SatQuery| world.borrow_mut().answer(q);
    let mut ic3 = Ic3::new(chain(), "chain");
    ic3.new_frame();
    ic3.new_frame();
    ic3.add_cube(1, vec![x()]);
    let r = ic3.mic(2, vec![y(), z()], 0, &sat, &flat);
    assert_eq!(r, vec![y()]);
    assert_eq!(ic3.frames().statistic(), vec![3, 1, 0]);
}

#[test]
fn mic_blocks_a_counterexample_to_generalization() {
    let world = RefCell::new(World::new(Vec::new()));
    let sat = |q: SatQuery| world.borrow_mut().answer(q);
    let mut ic3 = Ic3::new(chain(), "chain");
    ic3.new_frame();
    ic3.new_frame();
    ic3.add_cube(1, vec![x()]);
    let r = ic3.mic(2, vec![y(), z()], 1, &sat, &flat);
    // dropping y fails at first: the state with y alone leads into z;
    // that state is blocked one level below, its lemma goes to level 2,
    // and then z alone is blocked
    assert_eq!(r, vec![z()]);
    assert_eq!(ic3.frames().statistic(), vec![3, 1, 1]);
    assert_eq!(ic3.frames().level(2)[0].cube(), &vec![y()]);
    assert_eq!(ic3.statistic().num_mic, 2);
    assert!(matches!(ic3.blocked(2, &r, &sat), BlockResult::Yes(_)));
    // the cube that came out is asserted for the time being at levels 1 and 2
    assert_eq!(ic3.solver(1).temporary(), &vec![vec![z()]]);
    assert_eq!(ic3.solver(2).temporary(), &vec![vec![z()]]);
    assert!(ic3.solver(0).temporary().is_empty());
}

#[test]
fn add_cube_asserts_from_the_first_level_without_a_subsuming_lemma() {
    let mut ic3 = Ic3::new(chain(), "chain");
    for _ in 0..3 {
        ic3.new_frame();
    }
    ic3.add_cube(1, vec![x()]);
    assert_eq!(ic3.solver(1).pending(), &vec![vec![x().not()]]);
    assert!(ic3.solver(2).pending().is_empty());
    // subsumed by the lemma at level 1: asserted from level 2 on
    ic3.add_cube(3, vec![y(), x()]);
    assert_eq!(ic3.solver(1).pending().len(), 1);
    assert_eq!(ic3.solver(2).pending(), &vec![vec![x().not(), y().not()]]);
    assert_eq!(ic3.solver(3).pending(), &vec![vec![x().not(), y().not()]]);
    assert_eq!(ic3.frames().early(), 1);
    // already there at a higher level: nothing happens
    ic3.add_cube(2, vec![x(), y(), z()]);
    assert_eq!(ic3.frames().statistic(), vec![3, 1, 0, 1]);
    assert_eq!(ic3.solver(2).pending().len(), 1);
    assert!(ic3.frames().trivial_contained(1, &ric3::lemma::Lemma::new(vec![z(), y(), x()])));
}

#[test]
fn oracle_with_odd_answers_cannot_stall_generalization() {
    // an instance that always finds the whole cube in its witness
    let calls = RefCell::new(0usize);
    let sat = |q: SatQuery| {
        *calls.borrow_mut() += 1;
        match q.solver {
            SolverId::Lift => SatAnswer::Unsat(q.assumptions),
            SolverId::Frame(_) => SatAnswer::Sat(vec![x(), y(), z()]),
        }
    };
    let mut ic3 = Ic3::new(chain(), "chain");
    ic3.new_frame();
    ic3.new_frame();
    let r = ic3.mic(2, vec![x(), y(), z()], 3, &sat, &flat);
    assert_eq!(r, vec![x(), y(), z()]);
    assert!(*calls.borrow() < 100);
}

#[test]
fn added_cube_is_excluded_at_every_level_up_to_its_own() {
    let world = RefCell::new(World::new(Vec::new()));
    let sat = |q: SatQuery| world.borrow_mut().answer(q);
    let mut ic3 = Ic3::new(chain(), "chain");
    for _ in 0..4 {
        ic3.new_frame();
    }
    ic3.add_cube(1, vec![x()]);
    ic3.add_cube(3, vec![y(), x()]);
    ic3.add_cube(2, vec![z()]);
    for (f, c) in [(1usize, vec![x()]), (3, vec![x(), y()]), (2, vec![z()])] {
        for i in 1..=f {
            assert!(ic3.sat_contained(i, &c, &sat), "level {} of {}", i, f);
        }
    }
    // level 4 holds none of them
    assert!(!ic3.sat_contained(4, &vec![x(), y()], &sat));
    assert!(!ic3.sat_contained(3, &vec![z()], &sat));
}

#[test]
fn no_stored_lemma_holds_an_initial_state() {
    let world = RefCell::new(World::new(Vec::new()));
    let sat = |q: SatQuery| world.borrow_mut().answer(q);
    let mut ic3 = Ic3::new(chain(), "chain");
    ic3.new_frame();
    ic3.new_frame();
    ic3.add_cube(1, vec![x()]);
    let r = ic3.mic(2, vec![y(), z()], 2, &sat, &flat);
    ic3.add_cube(2, r);
    for level in 0..ic3.frames().len() {
        for lemma in ic3.frames().level(level).iter() {
            assert!(!ic3.model().cube_subsume_init(lemma.cube()));
        }
    }
}

#[test]
fn mic_without_recursion_leaves_frames_alone_and_reports_its_result() {
    let world = RefCell::new(World::new(Vec::new()));
    let sat = |q: SatQuery| world.borrow_mut().answer(q);
    let bumps = RefCell::new(Vec::new());
    let policy = |call: ActivityCall| match call {
        ActivityCall::Rank(c) => vec![0; c.len()],
        ActivityCall::Bump(c) => {
            bumps.borrow_mut().push(c);
            Vec::new()
        }
    };
    let mut ic3 = Ic3::new(chain(), "chain");
    ic3.new_frame();
    ic3.new_frame();
    ic3.add_cube(1, vec![x()]);
    ic3.add_cube(2, vec![x(), z()]);
    let counts = ic3.frames().statistic();
    let early = ic3.frames().early();
    let cube = vec![y(), z()];
    let r = ic3.mic(2, cube.clone(), 0, &sat, &policy);
    assert_eq!(r, vec![y()]);
    assert_eq!(ic3.frames().statistic(), counts);
    assert_eq!(ic3.frames().early(), early);
    assert_eq!(*bumps.borrow(), vec![r.clone()]);
    // one attempt for each literal at most
    let st = ic3.statistic();
    assert!(st.num_down <= cube.len());
    assert!(st.mic_drop.successes() + st.mic_drop.failures() <= cube.len());
    assert_eq!(st.num_down, 2);
}

#[test]
fn every_literal_that_mic_returns_was_tried() {
    // an instance that finds nothing blocked: every literal is tried once
    // and stays
    let asked = RefCell::new(Vec::new());
    let sat = |q: SatQuery| match q.solver {
        SolverId::Lift => SatAnswer::Unsat(q.assumptions),
        SolverId::Frame(_) => {
            asked.borrow_mut().push(q.assumptions.len() - 1);
            SatAnswer::Sat(Vec::new())
        }
    };
    let mut ic3 = Ic3::new(chain(), "chain");
    ic3.new_frame();
    let cube = vec![x(), y(), z()];
    let r = ic3.mic(1, cube.clone(), 0, &sat, &flat);
    assert_eq!(r, cube);
    // three attempts, each on the cube without one literal
    assert_eq!(*asked.borrow(), vec![2, 2, 2]);
    assert_eq!(ic3.statistic().mic_drop.failures(), 3);
    assert_eq!(ic3.statistic().mic_drop.successes(), 0);
}

#[test]
fn similar_lemmas_are_tried_before_any_literal_is_dropped() {
    let asked = RefCell::new(Vec::new());
    let sat = |q: SatQuery| match q.solver {
        SolverId::Lift => SatAnswer::Unsat(q.assumptions),
        SolverId::Frame(_) => {
            asked.borrow_mut().push(q.assumptions.len() - 1);
            SatAnswer::Sat(Vec::new())
        }
    };
    let mut ic3 = Ic3::new(chain(), "chain");
    ic3.new_frame();
    ic3.add_cube(1, vec![x(), y()]);
    ic3.set_similar(true);
    let r = ic3.mic(1, vec![x(), y(), z()], 0, &sat, &flat);
    assert_eq!(r, vec![x(), y(), z()]);
    // first the shared part [x, y] as it is, then the three attempts
    assert_eq!(*asked.borrow(), vec![2, 2, 2, 2]);
    assert_eq!(ic3.statistic().num_down, 4);
}
