use ric3::lit::{Lit, Var, MAX_VAR};
use ric3::model::{Model, ACT_ROOM, RESTART_THRESHOLD};

fn pos(v: u32) -> Lit {
    Lit::new(Var(v), true)
}

#[test]
fn model_size_limits() {
    assert!(Model::new(0).is_none());
    assert!(Model::new(1).is_some());
    assert!(Model::new(1000).is_some());
    assert!(Model::new(MAX_VAR - ACT_ROOM + 1).is_none());
    assert!(Model::new(MAX_VAR).is_none());
    assert!(Model::new(u32::MAX).is_none());
    assert_eq!(RESTART_THRESHOLD, 300);
}

#[test]
fn inputs_and_latches_must_be_variables_of_the_model() {
    let mut m = Model::new(4).unwrap();
    assert_eq!(m.num_var(), 4);
    assert!(m.add_input(Var(1)));
    assert!(!m.add_input(Var(4)));
    assert!(m.add_latch(Var(2), pos(1), Some(true)));
    assert!(!m.add_latch(Var(2), pos(1), None));
    assert!(!m.add_latch(Var(3), pos(4), None));
    assert!(!m.add_latch(Var(9), pos(1), None));
    assert!(m.add_latch(Var(3), pos(2).not(), None));
    assert_eq!(m.inputs(), &vec![Var(1)]);
    assert_eq!(m.latchs(), &vec![Var(2), Var(3)]);
    assert_eq!(m.init_of(Var(2)), Some(true));
    assert_eq!(m.init_of(Var(3)), None);
    assert_eq!(m.init_of(Var(1)), None);
    assert_eq!(m.init_of(Var(77)), None);
}

#[test]
fn next_state_literals() {
    let mut m = Model::new(4).unwrap();
    assert!(m.add_latch(Var(2), pos(1), Some(true)));
    assert!(m.add_latch(Var(3), pos(2).not(), None));
    assert_eq!(m.lit_next(pos(2)), pos(1));
    assert_eq!(m.lit_next(pos(2).not()), pos(1).not());
    assert_eq!(m.lit_next(pos(3)), pos(2).not());
    assert_eq!(m.lit_next(pos(3).not()), pos(2));
    assert_eq!(
        m.cube_next(&vec![pos(3).not(), pos(2)]),
        vec![pos(2), pos(1)]
    );
    assert_eq!(m.cube_next(&Vec::new()), Vec::<Lit>::new());
}

#[test]
fn cube_subsume_init_means_an_initial_state_lies_in_it() {
    let mut m = Model::new(4).unwrap();
    assert!(m.add_latch(Var(1), pos(1), Some(false)));
    assert!(m.add_latch(Var(2), pos(2), Some(true)));
    assert!(m.add_latch(Var(3), pos(3), None));
    assert!(m.cube_subsume_init(&vec![]));
    assert!(m.cube_subsume_init(&vec![pos(1).not(), pos(2)]));
    assert!(m.cube_subsume_init(&vec![pos(3)]));
    assert!(m.cube_subsume_init(&vec![pos(3).not(), pos(2)]));
    assert!(!m.cube_subsume_init(&vec![pos(1)]));
    assert!(!m.cube_subsume_init(&vec![pos(3), pos(2).not()]));
    assert!(m.cube_subsume_init(&vec![pos(100)]));
}
