use ric3::lemma::Lemma;
use ric3::lit::{Lit, Var};

fn lit(v: u32, positive: bool) -> Lit {
    Lit::new(Var(v), positive)
}

#[test]
fn lemma_new_sorts_the_cube() {
    let l = Lemma::new(vec![lit(3, true), lit(1, false), lit(2, true)]);
    assert_eq!(l.cube(), &vec![lit(1, false), lit(2, true), lit(3, true)]);
    assert_eq!(l.len(), 3);
}

#[test]
fn lemma_sign_is_union_of_bits() {
    let l = Lemma::new(vec![Lit(2), Lit(5), Lit(65)]);
    assert_eq!(l.sign(), (1u64 << 2) | (1u64 << 5) | (1u64 << (65 % 63)));
}

#[test]
fn subsume_smaller_in_larger() {
    let a = Lemma::new(vec![lit(1, true), lit(2, true)]);
    let b = Lemma::new(vec![lit(2, true), lit(3, false), lit(1, true)]);
    assert!(a.subsume(&b));
    assert!(!b.subsume(&a));
    assert!(a.subsume(&a));
}

#[test]
fn lemmas_that_subsume_each_other_hold_the_same_literals() {
    let a = Lemma::new(vec![lit(1, true), lit(2, false)]);
    let b = Lemma::new(vec![lit(2, false), lit(1, true)]);
    assert!(a.subsume(&b) && b.subsume(&a));
    assert_eq!(a.cube(), b.cube());
    assert!(a == b);
    let c = Lemma::new(vec![lit(1, true), lit(2, true)]);
    assert!(!(a.subsume(&c) && c.subsume(&a)));
}

#[test]
fn signature_never_rejects_a_subset() {
    let all: Vec<Lit> = (0..200u32).map(|c| Lit(c * 7 % 131)).collect();
    for n in 1..10usize {
        for start in 0..20usize {
            let big = Lemma::new(all[start..start + 2 * n].to_vec());
            let small = Lemma::new(all[start..start + 2 * n].iter().step_by(2).copied().collect());
            assert_eq!(small.sign() & big.sign(), small.sign());
            assert!(small.subsume(&big));
        }
    }
}

#[test]
fn signature_may_accept_what_the_exact_test_rejects() {
    // codes 1 and 64 share a bit of the signature
    let a = Lemma::new(vec![Lit(1)]);
    let b = Lemma::new(vec![Lit(64)]);
    assert_eq!(a.sign(), b.sign());
    assert_eq!(a.sign() & b.sign(), a.sign());
    assert!(!a.subsume(&b));
    assert!(!b.subsume(&a));
}
