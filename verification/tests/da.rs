use ric3::da::{code, da_cubes, da_select, decode, from_code, read_da, DaError};
use ric3::ic3::Ic3;
use ric3::lit::{Lit, Var, MAX_VAR};
use ric3::model::Model;

fn pos(v: u32) -> Lit {
    Lit::new(Var(v), true)
}

fn neg(v: u32) -> Lit {
    Lit::new(Var(v), false)
}

#[test]
fn codes_of_literals() {
    assert_eq!(code(pos(3)), 3);
    assert_eq!(code(neg(3)), -3);
    assert_eq!(code(pos(MAX_VAR)), i32::MAX);
    assert_eq!(code(neg(MAX_VAR)), -i32::MAX);
    assert_eq!(from_code(3), Some(pos(3)));
    assert_eq!(from_code(-3), Some(neg(3)));
    assert_eq!(from_code(0), Some(neg(0)));
    assert_eq!(from_code(i32::MIN), None);
    assert_eq!(from_code(i32::MAX), Some(pos(MAX_VAR)));
}

#[test]
fn da_cubes_keeps_cubes_of_more_than_four() {
    let cubes = vec![
        vec![pos(1), pos(2), pos(3), pos(4)],
        vec![pos(1), neg(2), pos(3), neg(4), pos(5)],
        vec![],
        vec![neg(9), pos(8), pos(7), pos(6), pos(5), pos(4)],
    ];
    assert_eq!(
        da_cubes(&cubes),
        vec![vec![1, -2, 3, -4, 5], vec![-9, 8, 7, 6, 5, 4]]
    );
}

#[test]
fn decode_rejects_the_least_integer() {
    assert_eq!(
        decode(&vec![vec![1, -2], vec![]]),
        Ok(vec![vec![pos(1), neg(2)], vec![]])
    );
    assert_eq!(decode(&vec![vec![1], vec![2, i32::MIN]]), Err(DaError::Code));
}

#[test]
fn read_da_parses_lists_of_lists() {
    assert_eq!(
        read_da("[[1,-2,3],[],[-7]]"),
        Ok(vec![vec![pos(1), neg(2), pos(3)], vec![], vec![neg(7)]])
    );
    assert_eq!(read_da("[]"), Ok(Vec::new()));
    assert_eq!(read_da("[[1,2"), Err(DaError::Json));
    assert_eq!(read_da("[1,2]"), Err(DaError::Json));
    assert_eq!(read_da("[[1.5]]"), Err(DaError::Json));
    assert_eq!(read_da("[[3000000000]]"), Err(DaError::Json));
    assert_eq!(read_da("[[-2147483648]]"), Err(DaError::Code));
}

#[test]
fn save_da_writes_long_lemmas_and_reads_back() {
    let mut m = Model::new(8).unwrap();
    for v in 1..7u32 {
        assert!(m.add_latch(Var(v), pos(v), Some(false)));
    }
    let mut ic3 = Ic3::new(m, "x");
    ic3.new_frame();
    ic3.new_frame();
    ic3.add_cube(1, vec![pos(5), pos(1), neg(3), pos(2), pos(4)]);
    ic3.add_cube(2, vec![pos(1), pos(6)]);
    ic3.add_cube(2, vec![pos(6), pos(5), pos(4), pos(3), pos(2), neg(1)]);
    let text = ic3.save_da().unwrap();
    assert_eq!(text, "[[1,2,-3,4,5],[-1,2,3,4,5,6]]");
    assert_eq!(
        read_da(&text),
        Ok(vec![
            vec![pos(1), pos(2), neg(3), pos(4), pos(5)],
            vec![neg(1), pos(2), pos(3), pos(4), pos(5), pos(6)],
        ])
    );
}

#[test]
fn da_select_keeps_cubes_that_subsume_another() {
    let v = |vars: &[u32]| -> Vec<Lit> { vars.iter().map(|x| pos(*x)).collect() };
    let cubes = vec![v(&[3, 1]), v(&[1, 3, 5]), v(&[1, 3]), v(&[7]), v(&[2, 4, 6, 8])];
    assert_eq!(da_select(&cubes), vec![v(&[1, 3])]);
    let cubes = vec![v(&[5, 3, 1]), v(&[3, 1]), v(&[1]), v(&[9, 1]), v(&[4])];
    assert_eq!(da_select(&cubes), vec![v(&[1]), v(&[1, 3])]);
    assert_eq!(da_select(&vec![v(&[1]), v(&[1])]), Vec::<Vec<Lit>>::new());
    assert_eq!(da_select(&Vec::new()), Vec::<Vec<Lit>>::new());
}

#[test]
fn save_da_always_gives_a_text() {
    let mut m = Model::new(4).unwrap();
    assert!(m.add_latch(Var(1), pos(1), Some(false)));
    let mut ic3 = Ic3::new(m, "x");
    // no lemma is long enough: the list is empty
    assert_eq!(ic3.save_da(), Some("[]".to_string()));
    ic3.new_frame();
    ic3.add_cube(1, vec![pos(1)]);
    assert_eq!(ic3.save_da(), Some("[]".to_string()));
}
