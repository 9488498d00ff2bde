//! Counters that describe the shape of one search run.

use crate::clockwise::closed_tours;
use crate::rules::{exhausted_paths, explored_paths, reached_paths, Outcome};
use std::time::SystemTime;
use vstd::prelude::*;

verus! {

/// Makes `std::time::SystemTime` known as an opaque type: an instant of the
/// system clock, of which nothing is said.
#[verifier::external_type_specification]
#[verifier::external_body]
pub struct ExSystemTime(SystemTime);

/// Reads the system clock through `SystemTime::now`. Nothing is claimed about
/// the instant that comes back.
#[verifier::external_body]
fn clock_now() -> SystemTime {
    SystemTime::now()
}

/// `count` raised by `steps`, stopping at the largest value a counter can hold.
pub open spec fn sat_add(count: i64, steps: nat) -> int {
    if count + steps > i64::MAX {
        i64::MAX as int
    } else {
        count + steps
    }
}

/// Raises a counter by one. A counter that has reached `i64::MAX` stays there.
pub fn count_up(count: i64) -> (raised: i64)
    ensures
        raised == sat_add(count, 1),
{
    if count < i64::MAX {
        count + 1
    } else {
        count
    }
}

/// Counters of one search run, together with the instant at which it began.
#[derive(Clone, Copy, Debug)]
pub struct Metrics {
    /// The instant at which the run began. The time elapsed since then is the
    /// duration of the run.
    pub run_duration: SystemTime,
    /// Entries into a vertex.
    pub check_counter: i64,
    /// Kept for complete paths that fail to close. The search never raises it.
    pub fail_counter_1: i64,
    /// Entries rejected because the boundary was used up too early.
    pub fail_counter_2: i64,
    /// Entries left after every neighbour was tried.
    pub fail_counter_3: i64,
    /// Kept for faults. The search never raises it.
    pub exception_counter: i64,
    /// Accepted tours.
    pub solutions_counter: i64,
}

impl Metrics {
    /// These metrics are the metrics `before` with the outcome `o` counted in:
    /// entries into `check_counter`, rejections for an exhausted boundary into
    /// `fail_counter_2`, backtracks into `fail_counter_3`, and accepted tours
    /// into `solutions_counter`. Nothing else differs.
    pub open spec fn tallied(self, before: Metrics, o: Outcome) -> bool {
        &&& self.run_duration == before.run_duration
        &&& self.check_counter == sat_add(before.check_counter, o.calls)
        &&& self.fail_counter_1 == before.fail_counter_1
        &&& self.fail_counter_2 == sat_add(before.fail_counter_2, o.rim_rejects)
        &&& self.fail_counter_3 == sat_add(before.fail_counter_3, o.backtracks)
        &&& self.exception_counter == before.exception_counter
        &&& self.solutions_counter == sat_add(before.solutions_counter, o.tours.len())
    }

    /// These metrics report the outcome `o` of a whole run: each counter
    /// holds its share of `o`, capped at `i64::MAX`, and the two counters that
    /// the search never touches are zero.
    pub open spec fn reports(self, o: Outcome) -> bool {
        &&& self.check_counter == sat_add(0, o.calls)
        &&& self.fail_counter_1 == 0
        &&& self.fail_counter_2 == sat_add(0, o.rim_rejects)
        &&& self.fail_counter_3 == sat_add(0, o.backtracks)
        &&& self.exception_counter == 0
        &&& self.solutions_counter == sat_add(0, o.tours.len())
    }

    /// These metrics count the paths of a whole search of the grid with `n`
    /// columns and `m` rows: the paths entered, those that used up the
    /// boundary, those from which every next step was tried, and the closed
    /// tours of the grid, each capped at `i64::MAX`. The two counters that
    /// the search never touches are zero.
    pub open spec fn counts_paths(self, n: int, m: int) -> bool {
        &&& self.check_counter == sat_add(0, reached_paths(n, m).len())
        &&& self.fail_counter_1 == 0
        &&& self.fail_counter_2 == sat_add(0, exhausted_paths(n, m).len())
        &&& self.fail_counter_3 == sat_add(0, explored_paths(n, m).len())
        &&& self.exception_counter == 0
        &&& self.solutions_counter == sat_add(0, closed_tours(n, m).len())
    }

    /// Both metrics hold the same counts.
    pub open spec fn same_counters(self, other: Metrics) -> bool {
        &&& self.check_counter == other.check_counter
        &&& self.fail_counter_1 == other.fail_counter_1
        &&& self.fail_counter_2 == other.fail_counter_2
        &&& self.fail_counter_3 == other.fail_counter_3
        &&& self.exception_counter == other.exception_counter
        &&& self.solutions_counter == other.solutions_counter
    }

    /// Every counter is zero.
    pub open spec fn is_fresh(self) -> bool {
        &&& self.check_counter == 0
        &&& self.fail_counter_1 == 0
        &&& self.fail_counter_2 == 0
        &&& self.fail_counter_3 == 0
        &&& self.exception_counter == 0
        &&& self.solutions_counter == 0
    }

    /// Fresh metrics: every counter is zero, and the run begins now.
    pub fn new() -> (metrics: Self)
        ensures
            metrics.is_fresh(),
    {
        Metrics {
            run_duration: clock_now(),
            check_counter: 0,
            fail_counter_1: 0,
            fail_counter_2: 0,
            fail_counter_3: 0,
            exception_counter: 0,
            solutions_counter: 0,
        }
    }
}

} // verus!
