//! Counters gathered while the simulation runs: vehicles through, transit
//! times and close calls.

use vstd::prelude::*;

verus! {

/// Keeps the pairs that were not already in violation.
pub open spec fn newly_violating(active: Seq<(u32, u32)>) -> spec_fn((u32, u32)) -> bool {
    |pair: (u32, u32)| !active.contains(pair)
}

/// The larger of a recorded extreme (0 when none) and `t`.
pub open spec fn raised_max(prev: Option<u64>, t: u64) -> u64 {
    match prev {
        Some(m) => if m >= t { m } else { t },
        None => t,
    }
}

/// The smaller of a recorded extreme (`u64::MAX` when none) and `t`.
pub open spec fn lowered_min(prev: Option<u64>, t: u64) -> u64 {
    match prev {
        Some(m) => if m <= t { m } else { t },
        None => t,
    }
}

/// New violations are counted pair by pair: an empty list holds none, and
/// one more pair adds one exactly when no active pair has both of its ids.
pub proof fn lemma_new_violations_counted_per_pair(
    active: Seq<(u32, u32)>,
    current: Seq<(u32, u32)>,
    pair: (u32, u32),
)
    ensures
        Seq::<(u32, u32)>::empty().filter(newly_violating(active)).len() == 0,
        current.push(pair).filter(newly_violating(active)).len() == current.filter(
            newly_violating(active),
        ).len() + if exists|k: int|
            0 <= k < active.len() && #[trigger] active[k].0 == pair.0 && active[k].1 == pair.1 {
            0int
        } else {
            1int
        },
{
    reveal(Seq::filter);
    assert(current.push(pair).drop_last() =~= current);
    assert(Seq::<(u32, u32)>::empty().filter(newly_violating(active)) =~= Seq::<(u32, u32)>::empty());
    if exists|k: int| 0 <= k < active.len() && #[trigger] active[k].0 == pair.0 && active[k].1 == pair.1 {
        let k = choose|k: int| 0 <= k < active.len() && #[trigger] active[k].0 == pair.0 && active[k].1 == pair.1;
        assert(active[k] == pair);
        assert(active.contains(pair));
    } else {
        assert forall|k: int| 0 <= k < active.len() implies active[k] != pair by {
            if active[k] == pair {
                assert(active[k].0 == pair.0 && active[k].1 == pair.1);
            }
        }
        assert(!active.contains(pair));
    }
}

/// Recording a transit of `t` ticks moves the extremes only as far as `t`:
/// the new shortest is the smaller of the old shortest and `t` (`t` itself
/// when none was recorded), and the new longest the larger.
pub proof fn lemma_record_exit_extremes(before: StatsAccumulator, after: StatsAccumulator, t: u64)
    requires
        after.max_transit == Some(raised_max(before.max_transit, t)),
        after.min_transit == Some(lowered_min(before.min_transit, t)),
    ensures
        after.min_transit matches Some(m) && m <= t && (m == t || before.min_transit == Some(m)),
        before.min_transit matches Some(o) ==> after.min_transit.unwrap() <= o,
        after.max_transit matches Some(m) && t <= m && (m == t || before.max_transit == Some(m)),
        before.max_transit matches Some(o) ==> o <= after.max_transit.unwrap(),
{
}

/// Counters of the simulation run.
pub struct StatsAccumulator {
    pub vehicles_passed: u32,
    /// Longest transit recorded so far, in ticks.
    pub max_transit: Option<u64>,
    /// Shortest transit recorded so far, in ticks.
    pub min_transit: Option<u64>,
    pub close_calls: u32,
    /// Pairs of vehicle ids in violation at the last update.
    pub active_violations: Vec<(u32, u32)>,
}

impl StatsAccumulator {
    /// Both transit extremes are known or neither is, and the shortest does
    /// not exceed the longest.
    pub open spec fn wf(&self) -> bool {
        match (self.min_transit, self.max_transit) {
            (Some(lo), Some(hi)) => lo <= hi,
            (None, None) => true,
            _ => false,
        }
    }

    /// Nothing recorded yet.
    pub fn new() -> (s: Self)
        ensures
            s.wf(),
            s.vehicles_passed == 0,
            s.close_calls == 0,
            s.max_transit is None,
            s.min_transit is None,
            s.active_violations@ == Seq::<(u32, u32)>::empty(),
    {
        StatsAccumulator {
            vehicles_passed: 0,
            max_transit: None,
            min_transit: None,
            close_calls: 0,
            active_violations: Vec::new(),
        }
    }

    /// Longest transit recorded so far, in ticks.
    pub fn max_transit(&self) -> (t: Option<u64>)
        ensures
            t == self.max_transit,
    {
        self.max_transit
    }

    /// Shortest transit recorded so far, in ticks.
    pub fn min_transit(&self) -> (t: Option<u64>)
        ensures
            t == self.min_transit,
    {
        self.min_transit
    }

    /// Call when a vehicle finishes crossing (gets exit_tick).
    pub fn record_exit(&mut self, transit_ticks: u64)
        requires
            old(self).vehicles_passed < u32::MAX,
        ensures
            final(self).vehicles_passed == old(self).vehicles_passed + 1,
            final(self).max_transit == Some(
                raised_max(old(self).max_transit, transit_ticks),
            ),
            final(self).min_transit == Some(
                lowered_min(old(self).min_transit, transit_ticks),
            ),
            final(self).close_calls == old(self).close_calls,
            final(self).active_violations@ == old(self).active_violations@,
            old(self).wf() ==> final(self).wf(),
            old(self).wf() ==> final(self).min_transit.unwrap() <= transit_ticks
                <= final(self).max_transit.unwrap(),
            final(self).min_transit.unwrap() <= transit_ticks,
            final(self).min_transit.unwrap() == transit_ticks || old(self).min_transit == final(self).min_transit,
            final(self).max_transit.unwrap() >= transit_ticks,
            final(self).max_transit.unwrap() == transit_ticks || old(self).max_transit == final(self).max_transit,
    {
        self.vehicles_passed = self.vehicles_passed + 1;
        let prev_max = match self.max_transit {
            Some(m) => m,
            None => 0,
        };
        let prev_min = match self.min_transit {
            Some(m) => m,
            None => u64::MAX,
        };
        self.max_transit = Some(
            if prev_max >= transit_ticks {
                prev_max
            } else {
                transit_ticks
            },
        );
        self.min_transit = Some(
            if prev_min <= transit_ticks {
                prev_min
            } else {
                transit_ticks
            },
        );
    }

    /// Number of pairs in `current` that were not in violation at the last update.
    pub fn count_new_violations(&self, current: &Vec<(u32, u32)>) -> (n: usize)
        ensures
            n == current@.filter(newly_violating(self.active_violations@)).len(),
    {
        let ghost pred = newly_violating(self.active_violations@);
        let mut n: usize = 0;
        let mut i: usize = 0;
        while i < current.len()
            invariant
                i <= current@.len(),
                pred == newly_violating(self.active_violations@),
                n == current@.take(i as int).filter(pred).len(),
            decreases current@.len() - i,
        {
            let pair = current[i];
            let mut seen = false;
            let mut j: usize = 0;
            while j < self.active_violations.len()
                invariant
                    j <= self.active_violations@.len(),
                    seen == exists|k: int| 0 <= k < j && self.active_violations@[k] == pair,
                decreases self.active_violations@.len() - j,
            {
                let (a, b) = self.active_violations[j];
                if a == pair.0 && b == pair.1 {
                    seen = true;
                }
                j = j + 1;
            }
            proof {
                reveal(Seq::filter);
                assert(current@.take(i + 1).drop_last() =~= current@.take(i as int));
                assert(current@.take(i + 1).last() == pair);
                if seen {
                    let k = choose|k: int|
                        0 <= k < self.active_violations@.len() && self.active_violations@[k] == pair;
                    assert(self.active_violations@.contains(pair));
                } else {
                    assert(!self.active_violations@.contains(pair));
                }
                current@.take(i as int).lemma_filter_len(pred);
            }
            if !seen {
                n = n + 1;
            }
            i = i + 1;
        }
        assert(current@.take(current@.len() as int) =~= current@);
        n
    }

    /// Call each tick with every pair of vehicles that violates the safety gap.
    /// Counts each NEW pair entering violation as one close-call event.
    pub fn update_violations(&mut self, current: Vec<(u32, u32)>)
        requires
            current@.no_duplicates(),
            old(self).close_calls + current@.filter(
                newly_violating(old(self).active_violations@),
            ).len() <= u32::MAX,
        ensures
            final(self).close_calls == old(self).close_calls + current@.filter(
                newly_violating(old(self).active_violations@),
            ).len(),
            final(self).active_violations@ == current@,
            final(self).vehicles_passed == old(self).vehicles_passed,
            final(self).max_transit == old(self).max_transit,
            final(self).min_transit == old(self).min_transit,
    {
        let fresh = self.count_new_violations(&current);
        self.close_calls = self.close_calls + fresh as u32;
        self.active_violations = current;
    }
}

} // verus!
