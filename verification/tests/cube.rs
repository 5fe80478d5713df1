use ric3::cube::{contains, copy, id_set, negate, ordered_subsume, rank, retain_in, sort, Rank};
use ric3::lit::{Lit, Var, MAX_VAR};

fn cube(codes: &[u32]) -> Vec<Lit> {
    codes.iter().map(|c| Lit(*c)).collect()
}

#[test]
fn literal_parts() {
    let l = Lit::new(Var(5), false);
    assert_eq!(l, Lit(11));
    assert_eq!(l.var(), Var(5));
    assert!(!l.polarity());
    assert_eq!(l.not(), Lit(10));
    assert_eq!(l.not().not(), l);
    assert_eq!(Var(5).lit(), Lit(10));
    assert_eq!(Lit::new(Var(MAX_VAR), false), Lit(u32::MAX));
    assert_eq!(Lit(u32::MAX).var(), Var(MAX_VAR));
}

#[test]
fn literal_sign_bit_wraps_at_63() {
    assert_eq!(Lit(0).sign_bit(), 1);
    assert_eq!(Lit(62).sign_bit(), 1u64 << 62);
    assert_eq!(Lit(63).sign_bit(), 1);
    assert_eq!(Lit(64).sign_bit(), 2);
}

#[test]
fn sort_orders_by_code_and_keeps_repeats() {
    let mut c = cube(&[5, 2, 9, 2, 0]);
    sort(&mut c);
    assert_eq!(c, cube(&[0, 2, 2, 5, 9]));
    let mut e: Vec<Lit> = Vec::new();
    sort(&mut e);
    assert!(e.is_empty());
}

#[test]
fn ordered_subsume_is_subset_test() {
    assert!(ordered_subsume(&cube(&[1, 3]), &cube(&[1, 2, 3])));
    assert!(ordered_subsume(&cube(&[]), &cube(&[1])));
    assert!(ordered_subsume(&cube(&[1, 2, 3]), &cube(&[1, 2, 3])));
    assert!(!ordered_subsume(&cube(&[1, 4]), &cube(&[1, 2, 3])));
    assert!(!ordered_subsume(&cube(&[0]), &cube(&[1, 2, 3])));
    assert!(!ordered_subsume(&cube(&[1, 2, 3]), &cube(&[1, 2])));
    // not longer, and every literal present, though one twice
    assert!(ordered_subsume(&cube(&[2, 2]), &cube(&[1, 2])));
}

#[test]
fn negate_flips_each_literal() {
    assert_eq!(negate(&cube(&[4, 7, 0])), cube(&[5, 6, 1]));
}

#[test]
fn membership_helpers() {
    let c = cube(&[4, 7, 10]);
    assert!(contains(&c, Lit(7)));
    assert!(!contains(&c, Lit(6)));
    let s = id_set(&c);
    assert_eq!(s.len(), 3);
    assert!(s.contains(&10));
    assert_eq!(retain_in(&cube(&[10, 3, 4, 8]), &s), cube(&[10, 4]));
    assert_eq!(copy(&c), c);
}

#[test]
fn rank_prefers_longer_then_later() {
    assert_eq!(rank(&cube(&[1, 2, 3]), &cube(&[7, 8])), Rank::Before);
    assert_eq!(rank(&cube(&[7, 8]), &cube(&[1, 2, 3])), Rank::After);
    assert_eq!(rank(&cube(&[1, 5]), &cube(&[1, 3])), Rank::Before);
    assert_eq!(rank(&cube(&[1, 3]), &cube(&[1, 5])), Rank::After);
    assert_eq!(rank(&cube(&[1, 3]), &cube(&[1, 3])), Rank::Same);
    assert_eq!(rank(&cube(&[]), &cube(&[])), Rank::Same);
}
