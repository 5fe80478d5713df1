use ric3::activity::{bump_cube_activity, in_order, sort_by_activity, sort_by_keys};
use ric3::lit::Lit;
use ric3::sat::ActivityCall;
use std::cell::RefCell;

fn cube(codes: &[u32]) -> Vec<Lit> {
    codes.iter().map(|c| Lit(*c)).collect()
}

#[test]
fn sort_by_keys_is_stable_both_ways() {
    let c = cube(&[10, 20, 30, 40, 50]);
    let keys = vec![3, 1, 3, 0, 1];
    assert_eq!(sort_by_keys(&c, &keys, true), cube(&[40, 20, 50, 10, 30]));
    assert_eq!(sort_by_keys(&c, &keys, false), cube(&[10, 30, 20, 50, 40]));
    assert_eq!(sort_by_keys(&Vec::new(), &Vec::new(), true), Vec::<Lit>::new());
}

#[test]
fn in_order_compares_scores() {
    assert!(in_order(1, 2, true));
    assert!(in_order(2, 2, true));
    assert!(!in_order(3, 2, true));
    assert!(in_order(3, 2, false));
    assert!(in_order(2, 2, false));
    assert!(!in_order(1, 2, false));
}

#[test]
fn sort_by_activity_asks_for_the_scores_of_the_cube() {
    let seen = RefCell::new(Vec::new());
    let policy = |call: ActivityCall| match call {
        ActivityCall::Rank(c) => {
            seen.borrow_mut().push(c.clone());
            c.iter().map(|l| (100 - l.0) as u64).collect()
        }
        ActivityCall::Bump(_) => Vec::new(),
    };
    let mut c = cube(&[4, 9, 2]);
    sort_by_activity(&mut c, true, &policy);
    assert_eq!(c, cube(&[9, 4, 2]));
    sort_by_activity(&mut c, false, &policy);
    assert_eq!(c, cube(&[2, 4, 9]));
    assert_eq!(seen.borrow().len(), 2);
    assert_eq!(seen.borrow()[0], cube(&[4, 9, 2]));
}

#[test]
fn sort_by_activity_keeps_order_on_wrong_number_of_scores() {
    let policy = |_call: ActivityCall| vec![1u64, 2];
    let mut c = cube(&[4, 9, 2]);
    sort_by_activity(&mut c, true, &policy);
    assert_eq!(c, cube(&[4, 9, 2]));
}

#[test]
fn bump_reports_the_cube() {
    let seen = RefCell::new(Vec::new());
    let policy = |call: ActivityCall| {
        if let ActivityCall::Bump(c) = call {
            seen.borrow_mut().push(c);
        }
        Vec::new()
    };
    bump_cube_activity(&cube(&[6, 3]), &policy);
    assert_eq!(*seen.borrow(), vec![cube(&[6, 3])]);
}
