//! The search for the period of a sequence of nim-values.
//!
//! The values of an octal game are known to repeat for ever once a stretch
//! repeats that is long enough for the number of rules. The search proves
//! nothing else: it finds such a stretch among the values that were computed.
use crate::game::Game;
use crate::nimber::Nimber;
use vstd::prelude::*;

verus! {

/// How a search for the period ended.
#[derive(Copy, Clone, Debug, PartialEq, Eq, Structural)]
pub enum PeriodSearch {
    /// From the heap `start` on, the values repeat with this period.
    Found { start: usize, period: usize },
    /// No period is confirmed; the longest stretch that repeats with some period
    /// has this many heaps.
    NotFound { longest: usize },
}

/// The first heap of the stretch that ends before `s` and in which each value
/// comes again `p` heaps later: `s` moved towards 0 while the value before it
/// does so.
pub open spec fn run_start(g: Seq<Nimber>, p: int, s: int) -> int
    decreases s,
{
    if s > 0 && g[s - 1] == g[s - 1 + p] {
        run_start(g, p, s - 1)
    } else {
        s
    }
}

/// Among the first `n` values, those from `run_start` on repeat with the period
/// `p`, and `n` is large enough to confirm it for a game of `r` rules.
pub open spec fn confirms(g: Seq<Nimber>, n: int, r: int, p: int) -> bool {
    confirmed_from(n, r, p, run_start(g, p, n - p))
}

/// The length of the longest stretch that repeats, over the periods from 1 to
/// `p`.
pub open spec fn longest_run(g: Seq<Nimber>, n: int, p: int) -> int
    decreases p,
{
    if p <= 0 {
        0
    } else {
        let before = longest_run(g, n, p - 1);
        let here = n - p - run_start(g, p, n - p);
        if here > before {
            here
        } else {
            before
        }
    }
}

/// The stretch starts at a heap from 0 to `s`, each of its values comes again,
/// and the value before it does not.
pub proof fn lemma_run_start(g: Seq<Nimber>, p: int, s: int)
    requires
        0 <= s,
    ensures
        0 <= run_start(g, p, s) <= s,
        forall|k: int| run_start(g, p, s) <= k < s ==> #[trigger] g[k] == g[k + p],
        run_start(g, p, s) > 0 ==> g[run_start(g, p, s) - 1] != g[run_start(g, p, s) - 1 + p],
    decreases s,
{
    if s > 0 && g[s - 1] == g[s - 1 + p] {
        lemma_run_start(g, p, s - 1);
    }
}

/// A period above half the number of values is never confirmed, for a game that
/// has a rule.
pub proof fn lemma_long_period_unconfirmed(g: Seq<Nimber>, n: int, r: int, p: int)
    requires
        1 <= r,
        0 <= n,
        n / 2 < p <= n,
    ensures
        !confirms(g, n, r, p),
{
    lemma_run_start(g, p, n - p);
}

/// No stretch is longer than the values computed.
pub proof fn lemma_longest_run_bounds(g: Seq<Nimber>, n: int, p: int)
    requires
        0 <= p <= n,
    ensures
        0 <= longest_run(g, n, p) <= n,
    decreases p,
{
    if p > 0 {
        lemma_longest_run_bounds(g, n, p - 1);
        lemma_run_start(g, p, n - p);
    }
}

/// What a search that cannot read the values itself asks for or ends with.
#[derive(Copy, Clone, Debug, PartialEq, Eq, Structural)]
pub enum Probe {
    /// Whether the values of the heaps `left` and `right` are equal is to be
    /// told with the next step.
    Compare { left: usize, right: usize },
    /// From the heap `start` on, the values repeat with this period.
    Found { start: usize, period: usize },
    /// No period is confirmed; the longest stretch that repeats with some period
    /// has this many heaps.
    NotFound { longest: usize },
}

/// `last` values confirm the period `period` from the heap `start` on, for a
/// game of `rules` rules.
pub open spec fn confirmed_from(last: int, rules: int, period: int, start: int) -> bool {
    last >= 2 * start + 2 * period + rules - 1
}

/// Where the stretch of a period starts once the answer `equal` to the last
/// question is in: one heap earlier if the values were equal.
pub open spec fn moved_start(start: usize, equal: Option<bool>) -> usize {
    if equal == Some(true) && start > 0 {
        (start - 1) as usize
    } else {
        start
    }
}

/// The stretch of the period can still grow: the last answer, if there was one,
/// was that the values are equal, and there is a heap before the stretch.
pub open spec fn still_growing(start: usize, equal: Option<bool>) -> bool {
    equal != Some(false) && moved_start(start, equal) > 0
}

/// The question whether the stretch that starts at `start` can grow by a heap:
/// whether the value of the heap before it comes again `period` heaps later.
pub open spec fn question(start: int, period: int) -> Probe {
    Probe::Compare { left: (start - 1) as usize, right: (start - 1 + period) as usize }
}

/// The step of the search from the period `period`, whose stretch starts at
/// `start` so far, with `longest` the longest stretch of the periods before:
/// the period, the start and the longest stretch after the step, and what the
/// search asks for or ends with.
///
/// While the stretch can grow, the heap before it is compared with the heap one
/// period later. Else the stretch is done: where it confirms the period the
/// search has found it; where not, the search goes on to the next period and
/// asks for its first comparison, or ends without a period past half the values.
pub open spec fn probe_step(
    last: usize,
    rules: usize,
    period: usize,
    start: usize,
    longest: usize,
    equal: Option<bool>,
) -> (usize, usize, usize, Probe) {
    let begin = moved_start(start, equal);
    let run = (last - period - begin) as usize;
    let best = if run > longest {
        run
    } else {
        longest
    };
    if still_growing(start, equal) {
        (period, begin, longest, question(begin as int, period as int))
    } else if confirmed_from(last as int, rules as int, period as int, begin as int) {
        (period, begin, best, Probe::Found { start: begin, period })
    } else if period + 1 > last / 2 {
        (period, begin, best, Probe::NotFound { longest: best })
    } else {
        (
            (period + 1) as usize,
            (last - period - 1) as usize,
            best,
            question(last - period - 1, period + 1),
        )
    }
}

/// One step of the search for the least period that `last` values confirm, for
/// a searcher that fetches the values itself: `equal` is the answer to the
/// comparison that the step before asked for, and `None` at the first step.
pub fn period_probe(
    last: usize,
    rules: usize,
    period: usize,
    start: usize,
    longest: usize,
    equal: Option<bool>,
) -> (next: (usize, usize, usize, Probe))
    requires
        1 <= period <= last / 2,
        start <= last - period,
    ensures
        next == probe_step(last, rules, period, start, longest, equal),
        1 <= next.0 <= last / 2,
        next.1 <= last - next.0,
        next.3 matches Probe::Compare { left, right } ==> left < right < last && next.1 > 0,
{
    let moved = match equal {
        Some(true) => start > 0,
        _ => false,
    };
    let begin = if moved {
        start - 1
    } else {
        start
    };
    let growing = match equal {
        Some(false) => false,
        _ => begin > 0,
    };
    if growing {
        return (period, begin, longest, Probe::Compare { left: begin - 1, right: begin - 1 + period });
    }
    let run = last - period - begin;
    let best = if run > longest {
        run
    } else {
        longest
    };
    let covered = begin + period;
    let rest = last - covered;
    let confirmed = match covered.checked_add(rules) {
        Some(needed) => needed - 1 <= rest,
        None => false,
    };
    if confirmed {
        (period, begin, best, Probe::Found { start: begin, period })
    } else if period + 1 > last / 2 {
        (period, begin, best, Probe::NotFound { longest: best })
    } else {
        let next_start = last - period - 1;
        (
            period + 1,
            next_start,
            best,
            Probe::Compare { left: next_start - 1, right: next_start - 1 + (period + 1) },
        )
    }
}

/// The step of the search follows the values `g`, where the answer it is given
/// is the true one and the stretch so far belongs to the stretch of its period:
/// a question keeps it so, a period that is found is confirmed from the start
/// of its stretch, and a period that is left is not confirmed.
pub proof fn lemma_probe_follows_the_values(
    g: Seq<Nimber>,
    last: usize,
    rules: usize,
    period: usize,
    start: usize,
    longest: usize,
    equal: Option<bool>,
)
    requires
        1 <= period <= last / 2,
        start <= last - period,
        run_start(g, period as int, start as int) == run_start(
            g,
            period as int,
            last - period,
        ),
        equal matches Some(e) ==> start > 0 && e == (g[start - 1] == g[start - 1 + period]),
    ensures
        ({
            let next = probe_step(last, rules, period, start, longest, equal);
            let run = run_start(g, period as int, last - period);
            &&& next.3 is Compare && next.0 == period ==> run_start(
                g,
                period as int,
                next.1 as int,
            ) == run
            &&& next.3 is Compare && next.0 != period ==> {
                &&& !confirms(g, last as int, rules as int, period as int)
                &&& next.0 == period + 1
                &&& next.1 == last - next.0
                &&& next.2 == if last - period - run > longest {
                    last - period - run
                } else {
                    longest as int
                }
            }
            &&& next.3 matches Probe::Found { start: s, period: p } ==> {
                &&& p == period
                &&& s == run
                &&& confirms(g, last as int, rules as int, period as int)
            }
            &&& next.3 matches Probe::NotFound { longest: l } ==> {
                &&& !confirms(g, last as int, rules as int, period as int)
                &&& period == last / 2
                &&& l == if last - period - run > longest {
                    last - period - run
                } else {
                    longest as int
                }
            }
        }),
{
    lemma_run_start(g, period as int, last - period);
    lemma_run_start(g, period as int, start as int);
}

impl Game {
    /// Searches the first `n` values for the least period that they confirm.
    pub fn find_period(&self, n: usize) -> (found: PeriodSearch)
        requires
            n <= self.nimbers.g@.len(),
        ensures
            match found {
                PeriodSearch::Found { start, period } => {
                    &&& 1 <= period <= n / 2
                    &&& confirms(self.nimbers.g@, n as int, self.rules@.len() as int, period as int)
                    &&& start == run_start(self.nimbers.g@, period as int, n - period)
                    &&& forall|q: int|
                        1 <= q < period ==> !confirms(
                            self.nimbers.g@,
                            n as int,
                            self.rules@.len() as int,
                            q,
                        )
                },
                PeriodSearch::NotFound { longest } => {
                    &&& forall|q: int|
                        1 <= q <= n / 2 ==> !confirms(
                            self.nimbers.g@,
                            n as int,
                            self.rules@.len() as int,
                            q,
                        )
                    &&& longest == longest_run(self.nimbers.g@, n as int, (n / 2) as int)
                },
            },
    {
        let r = self.rules.len();
        let last = n / 2;
        let mut longest: usize = 0;
        let mut period: usize = 1;
        while period <= last
            invariant
                1 <= period <= last + 1,
                last == n / 2,
                n <= self.nimbers.g@.len(),
                r == self.rules@.len(),
                longest == longest_run(self.nimbers.g@, n as int, period - 1),
                forall|q: int|
                    1 <= q < period ==> !confirms(self.nimbers.g@, n as int, r as int, q),
            decreases last + 1 - period,
        {
            let mut start = n - period;
            while start > 0 && self.nimbers.g[start - 1] == self.nimbers.g[start - 1 + period]
                invariant
                    0 <= start <= n - period,
                    1 <= period <= n,
                    n <= self.nimbers.g@.len(),
                    run_start(self.nimbers.g@, period as int, start as int) == run_start(
                        self.nimbers.g@,
                        period as int,
                        n - period,
                    ),
                decreases start,
            {
                start = start - 1;
            }
            let run = n - period - start;
            if run > longest {
                longest = run;
            }
            let covered = start + period;
            let rest = n - covered;
            let confirmed = match covered.checked_add(r) {
                Some(needed) => needed - 1 <= rest,
                None => false,
            };
            if confirmed {
                return PeriodSearch::Found { start, period };
            }
            period = period + 1;
        }
        PeriodSearch::NotFound { longest }
    }

    /// Whether the first `n` values confirm a period.
    pub fn check_period(&self, n: usize) -> (found: bool)
        requires
            n <= self.nimbers.g@.len(),
        ensures
            found == exists|p: int|
                1 <= p <= n / 2 && #[trigger] confirms(
                    self.nimbers.g@,
                    n as int,
                    self.rules@.len() as int,
                    p,
                ),
    {
        match self.find_period(n) {
            PeriodSearch::Found { start: _, period } => {
                assert(confirms(self.nimbers.g@, n as int, self.rules@.len() as int,
                    period as int));
                true
            },
            PeriodSearch::NotFound { longest: _ } => false,
        }
    }
}

} // verus!
