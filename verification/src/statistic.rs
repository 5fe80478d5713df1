//! Counters of the work of the engine.

use vstd::prelude::*;
use vstd::string::*;

verus! {

/// Tally of successful and failed attempts of some repeated operation.
#[derive(Debug)]
pub struct SuccessRate {
    succ: usize,
    fail: usize,
}

impl SuccessRate {
    /// Number of successes recorded so far.
    pub closed spec fn succ_count(&self) -> nat {
        self.succ as nat
    }

    /// Number of failures recorded so far.
    pub closed spec fn fail_count(&self) -> nat {
        self.fail as nat
    }

    /// A tally with nothing recorded.
    pub fn new() -> (r: Self)
        ensures
            r.succ_count() == 0,
            r.fail_count() == 0,
    {
        SuccessRate { succ: 0, fail: 0 }
    }

    /// Records one success.
    pub fn success(&mut self)
        requires
            old(self).succ_count() < usize::MAX,
        ensures
            final(self).succ_count() == old(self).succ_count() + 1,
            final(self).fail_count() == old(self).fail_count(),
    {
        self.succ = self.succ + 1;
    }

    /// Records one failure.
    pub fn fail(&mut self)
        requires
            old(self).fail_count() < usize::MAX,
        ensures
            final(self).fail_count() == old(self).fail_count() + 1,
            final(self).succ_count() == old(self).succ_count(),
    {
        self.fail = self.fail + 1;
    }

    /// Records one outcome: a success when `success` holds, a failure otherwise.
    pub fn statistic(&mut self, success: bool)
        requires
            success ==> old(self).succ_count() < usize::MAX,
            !success ==> old(self).fail_count() < usize::MAX,
        ensures
            final(self).succ_count() == old(self).succ_count() + if success { 1nat } else { 0nat },
            final(self).fail_count() == old(self).fail_count() + if success { 0nat } else { 1nat },
    {
        if success {
            self.success()
        } else {
            self.fail()
        }
    }

    /// The number of successes recorded so far.
    pub fn successes(&self) -> (n: usize)
        ensures
            n == self.succ_count(),
    {
        self.succ
    }

    /// The number of failures recorded so far.
    pub fn failures(&self) -> (n: usize)
        ensures
            n == self.fail_count(),
    {
        self.fail
    }
}

/// Name of the problem instance being solved.
#[derive(Debug)]
pub struct Case(pub String);

/// The value of a counter after one more event: one more, unless the
/// counter is at its limit.
pub open spec fn bump(n: usize) -> usize {
    if n < usize::MAX {
        (n + 1) as usize
    } else {
        n
    }
}

/// Counts one more event, unless the counter is at its limit.
pub fn count(n: &mut usize)
    ensures
        *final(n) == bump(*old(n)),
{
    if *n < usize::MAX {
        *n = *n + 1;
    }
}

/// Position of the last `/` in `s`, or -1 where there is none.
pub open spec fn last_slash(s: Seq<char>) -> int
    decreases s.len(),
{
    if s.len() == 0 {
        -1
    } else if s.last() == '/' {
        s.len() - 1
    } else {
        last_slash(s.drop_last())
    }
}

/// What follows the last `/` of `s`, or all of `s` where there is none.
pub open spec fn base_name(s: Seq<char>) -> Seq<char> {
    s.subrange(last_slash(s) + 1, s.len() as int)
}

/// The last `/` is a position of `s`, or -1.
pub proof fn lemma_last_slash(s: Seq<char>)
    ensures
        -1 <= last_slash(s) < s.len(),
        last_slash(s) >= 0 ==> s[last_slash(s)] == '/',
        forall|i: int| last_slash(s) < i < s.len() ==> s[i] != '/',
    decreases s.len(),
{
    if s.len() > 0 && s.last() != '/' {
        lemma_last_slash(s.drop_last());
        assert forall|i: int| last_slash(s) < i < s.len() implies s[i] != '/' by {
            if i < s.len() - 1 {
                assert(s.drop_last()[i] == s[i]);
            }
        }
    }
}

/// The sum and the number of the values recorded, from which their
/// average is had.
#[derive(Debug)]
pub struct StatisticAverage {
    sum: u64,
    num: usize,
}

impl StatisticAverage {
    /// The sum of the values recorded.
    pub closed spec fn spec_sum(&self) -> nat {
        self.sum as nat
    }

    /// The number of values recorded.
    pub closed spec fn spec_num(&self) -> nat {
        self.num as nat
    }

    /// Whether one more value `rhs` can be recorded without leaving the
    /// range of the counters.
    pub open spec fn has_room(&self, rhs: usize) -> bool {
        self.spec_sum() + rhs <= u64::MAX && self.spec_num() < usize::MAX
    }

    /// An average of no values.
    pub fn new() -> (r: Self)
        ensures
            r.spec_sum() == 0,
            r.spec_num() == 0,
    {
        StatisticAverage { sum: 0, num: 0 }
    }

    /// Records the value `rhs`.
    pub fn add_assign(&mut self, rhs: usize)
        requires
            old(self).has_room(rhs),
        ensures
            final(self).spec_sum() == old(self).spec_sum() + rhs,
            final(self).spec_num() == old(self).spec_num() + 1,
    {
        self.sum = self.sum + rhs as u64;
        self.num = self.num + 1;
    }

    /// Records the value `rhs` where there is room for it. Returns whether
    /// there was.
    pub fn record(&mut self, rhs: usize) -> (ok: bool)
        ensures
            ok == old(self).has_room(rhs),
            ok ==> final(self).spec_sum() == old(self).spec_sum() + rhs && final(self).spec_num()
                == old(self).spec_num() + 1,
            !ok ==> final(self).spec_sum() == old(self).spec_sum() && final(self).spec_num()
                == old(self).spec_num(),
    {
        if self.num < usize::MAX && rhs as u64 <= u64::MAX - self.sum {
            self.add_assign(rhs);
            true
        } else {
            false
        }
    }

    /// The sum of the values recorded.
    pub fn sum(&self) -> (s: u64)
        ensures
            s == self.spec_sum(),
    {
        self.sum
    }

    /// The number of values recorded.
    pub fn num(&self) -> (n: usize)
        ensures
            n == self.spec_num(),
    {
        self.num
    }
}

/// The counters that the engine keeps of its own work.
#[derive(Debug)]
pub struct Statistic {
    /// The case being solved.
    pub case: Case,
    /// Blocking queries made.
    pub num_sat_inductive: usize,
    /// Rebuilds of a SAT instance.
    pub num_solver_restart: usize,
    /// Cubes generalized.
    pub num_mic: usize,
    /// Lengths of the cubes generalized.
    pub average_mic_cube_len: StatisticAverage,
    /// Lengths of the cubes of proof obligations.
    pub average_po_cube_len: StatisticAverage,
    /// Attempts to drop a literal, by outcome.
    pub mic_drop: SuccessRate,
    /// Attempts to find a blocked part of a cube.
    pub num_down: usize,
    /// Free for experiments.
    pub test: SuccessRate,
    /// Free for experiments.
    pub test_a: SuccessRate,
}

impl Statistic {
    /// The name of the case.
    pub open spec fn spec_case(&self) -> Seq<char> {
        self.case.0@
    }

    /// Every counter is at zero.
    pub open spec fn is_fresh(&self) -> bool {
        &&& self.num_sat_inductive == 0
        &&& self.num_solver_restart == 0
        &&& self.num_mic == 0
        &&& self.num_down == 0
        &&& self.average_mic_cube_len.spec_sum() == 0
        &&& self.average_mic_cube_len.spec_num() == 0
        &&& self.average_po_cube_len.spec_sum() == 0
        &&& self.average_po_cube_len.spec_num() == 0
        &&& self.mic_drop.succ_count() == 0
        &&& self.mic_drop.fail_count() == 0
        &&& self.test.succ_count() == 0
        &&& self.test.fail_count() == 0
        &&& self.test_a.succ_count() == 0
        &&& self.test_a.fail_count() == 0
    }

    /// No counter of `self` is below that of `old`, and the case is the
    /// same.
    pub open spec fn grew_from(&self, old: &Statistic) -> bool {
        &&& self.spec_case() == old.spec_case()
        &&& self.num_sat_inductive >= old.num_sat_inductive
        &&& self.num_solver_restart >= old.num_solver_restart
        &&& self.num_mic >= old.num_mic
        &&& self.num_down >= old.num_down
        &&& self.average_mic_cube_len.spec_sum() >= old.average_mic_cube_len.spec_sum()
        &&& self.average_mic_cube_len.spec_num() >= old.average_mic_cube_len.spec_num()
        &&& self.average_po_cube_len == old.average_po_cube_len
        &&& self.mic_drop.succ_count() >= old.mic_drop.succ_count()
        &&& self.mic_drop.fail_count() >= old.mic_drop.fail_count()
        &&& self.test == old.test
        &&& self.test_a == old.test_a
    }

    /// The number of attempts to drop a literal recorded so far.
    pub open spec fn drops(&self) -> nat {
        self.mic_drop.succ_count() + self.mic_drop.fail_count()
    }

    /// `self` is `old` after one more blocking query, for which a SAT
    /// instance was rebuilt or not.
    pub open spec fn after_block(&self, old: &Statistic, rebuilt: bool) -> bool {
        &&& self.case == old.case
        &&& self.num_sat_inductive == bump(old.num_sat_inductive)
        &&& self.num_solver_restart == if rebuilt {
            bump(old.num_solver_restart)
        } else {
            old.num_solver_restart
        }
        &&& self.num_mic == old.num_mic
        &&& self.num_down == old.num_down
        &&& self.average_mic_cube_len == old.average_mic_cube_len
        &&& self.average_po_cube_len == old.average_po_cube_len
        &&& self.mic_drop == old.mic_drop
        &&& self.test == old.test
        &&& self.test_a == old.test_a
    }

    /// Fresh counters for the case at the path `case`: the case is named
    /// by what follows the last `/` of the path.
    pub fn new(case: &str) -> (r: Self)
        ensures
            r.spec_case() == base_name(case@),
            r.is_fresh(),
    {
        let n = case.unicode_len();
        let mut start: usize = 0;
        let mut i: usize = 0;
        assert(case@.subrange(0, 0) =~= Seq::<char>::empty());
        while i < n
            invariant
                i <= n,
                n == case@.len(),
                start == last_slash(case@.subrange(0, i as int)) + 1,
            decreases n - i,
        {
            let c = case.get_char(i);
            proof {
                let next = case@.subrange(0, i + 1);
                assert(next.drop_last() =~= case@.subrange(0, i as int));
                assert(next.last() == c);
            }
            if c == '/' {
                start = i + 1;
            }
            i = i + 1;
        }
        proof {
            assert(case@.subrange(0, n as int) =~= case@);
            lemma_last_slash(case@);
        }
        let name = case.substring_char(start, n).to_owned();
        Statistic {
            case: Case(name),
            num_sat_inductive: 0,
            num_solver_restart: 0,
            num_mic: 0,
            average_mic_cube_len: StatisticAverage::new(),
            average_po_cube_len: StatisticAverage::new(),
            mic_drop: SuccessRate::new(),
            num_down: 0,
            test: SuccessRate::new(),
            test_a: SuccessRate::new(),
        }
    }

    /// The name of the case.
    pub fn case(&self) -> (c: &Case)
        ensures
            c.0@ == self.spec_case(),
    {
        &self.case
    }

    /// Records the outcome of an attempt to drop a literal, unless the
    /// counter for that outcome is at its limit.
    pub fn drop_result(&mut self, success: bool)
        ensures
            final(self).grew_from(old(self)),
            final(self).num_sat_inductive == old(self).num_sat_inductive,
            final(self).num_solver_restart == old(self).num_solver_restart,
            final(self).num_mic == old(self).num_mic,
            final(self).num_down == old(self).num_down,
            final(self).average_mic_cube_len == old(self).average_mic_cube_len,
            final(self).mic_drop.succ_count() == if success && old(self).mic_drop.succ_count()
                < usize::MAX {
                old(self).mic_drop.succ_count() + 1
            } else {
                old(self).mic_drop.succ_count()
            },
            final(self).mic_drop.fail_count() == if !success && old(self).mic_drop.fail_count()
                < usize::MAX {
                old(self).mic_drop.fail_count() + 1
            } else {
                old(self).mic_drop.fail_count()
            },
    {
        if success {
            if self.mic_drop.successes() < usize::MAX {
                self.mic_drop.success();
            }
        } else {
            if self.mic_drop.failures() < usize::MAX {
                self.mic_drop.fail();
            }
        }
    }
}

} // verus!
