use ric3::statistic::{Statistic, StatisticAverage, SuccessRate};

#[test]
fn success_rate_counts_each_outcome() {
    let mut r = SuccessRate::new();
    r.success();
    r.success();
    r.fail();
    r.statistic(true);
    r.statistic(false);
    r.statistic(false);
    assert_eq!(r.successes(), 3);
    assert_eq!(r.failures(), 3);
}

#[test]
fn statistic_names_case_by_file_name() {
    assert_eq!(Statistic::new("a/b/c.aig").case().0, "c.aig");
    assert_eq!(Statistic::new("c.aig").case().0, "c.aig");
    assert_eq!(Statistic::new("dir/").case().0, "");
    assert_eq!(Statistic::new("").case().0, "");
    assert_eq!(Statistic::new("/x").case().0, "x");
}

#[test]
fn statistic_starts_at_zero() {
    let s = Statistic::new("x");
    assert_eq!(s.num_mic, 0);
    assert_eq!(s.num_down, 0);
    assert_eq!(s.num_sat_inductive, 0);
    assert_eq!(s.num_solver_restart, 0);
    assert_eq!(s.mic_drop.successes(), 0);
    assert_eq!(s.mic_drop.failures(), 0);
}

#[test]
fn average_keeps_sum_and_number() {
    let mut a = StatisticAverage::new();
    a.add_assign(3);
    a.add_assign(5);
    assert!(a.record(4));
    assert_eq!(a.sum(), 12);
    assert_eq!(a.num(), 3);
}

#[test]
fn drop_result_counts_in_mic_drop() {
    let mut s = Statistic::new("x");
    s.drop_result(true);
    s.drop_result(false);
    s.drop_result(false);
    assert_eq!(s.mic_drop.successes(), 1);
    assert_eq!(s.mic_drop.failures(), 2);
}

#[test]
fn count_stops_at_the_limit() {
    let mut n = usize::MAX - 1;
    ric3::statistic::count(&mut n);
    assert_eq!(n, usize::MAX);
    ric3::statistic::count(&mut n);
    assert_eq!(n, usize::MAX);
}
