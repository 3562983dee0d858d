//! What a run reports of itself, as values: the table of the counters, and
//! which reports are due at a heap.
use crate::game::Game;
use crate::pow2::{is_pow2, is_power_of_two};
use vstd::prelude::*;

verus! {

/// One line of the table of counters.
#[derive(Copy, Clone, Debug, PartialEq, Eq, Structural)]
pub struct Freq {
    /// The value.
    pub nimber: usize,
    /// How often it occurs among the heaps computed so far.
    pub frequency: usize,
    /// Whether it stands on the rare side of the split.
    pub rare: bool,
}

/// The reports that are due once a heap is computed.
#[derive(Copy, Clone, Debug, PartialEq, Eq, Structural)]
pub struct Reports {
    /// The line of figures, every 100000 heaps.
    pub stats: bool,
    /// The table of counters, at each power of two.
    pub freqs: bool,
    /// The share of the heaps that is done, in hundredths, at each hundredth of
    /// the way; at each thousandth where more than 2^30 heaps are to be
    /// computed.
    pub progress: Option<usize>,
}

/// The figures of one line of a run's report.
#[derive(Copy, Clone, Debug, PartialEq, Eq, Structural)]
pub struct StatsLine {
    /// The greatest number of splits that a proof of a common value has needed.
    pub prev_values: usize,
    /// The largest value met.
    pub largest_nimber: usize,
    /// The heap that last reached it.
    pub largest_nimber_index: usize,
    /// The number of heaps of rare value, the empty heap among them.
    pub rares: usize,
    /// The rare value found last.
    pub latest_rare: usize,
    /// The heap that has it.
    pub latest_rare_index: usize,
    /// The heap that the line is about.
    pub index: usize,
    /// Its value.
    pub value: usize,
}

/// The number of heaps between two reports of progress, of `max` heaps in all.
pub open spec fn progress_step(max: int) -> int {
    if max > 0x4000_0000 {
        max / 1000
    } else {
        max / 100
    }
}

/// The reports that are due at heap `n` of `max`.
pub open spec fn reports_due(n: usize, max: usize) -> Reports {
    Reports {
        stats: n % 100000 == 0,
        freqs: is_pow2(n),
        progress: if progress_step(max as int) > 0 && n as int % progress_step(max as int) == 0 {
            Some((n * 100 / max as int) as usize)
        } else {
            None
        },
    }
}

impl Game {
    /// The table of the counters: for each value that has one, how often it
    /// occurs and whether it is rare.
    pub fn dump_freqs(&self) -> (table: Vec<Freq>)
        requires
            self.stats.frequencies@.len() <= self.bits.rare@.len(),
        ensures
            table@.len() == self.stats.frequencies@.len(),
            forall|k: int|
                0 <= k < table@.len() ==> #[trigger] table@[k] == (Freq {
                    nimber: k as usize,
                    frequency: self.stats.frequencies@[k],
                    rare: self.bits.rare@[k],
                }),
    {
        let mut table: Vec<Freq> = Vec::new();
        let mut k: usize = 0;
        while k < self.stats.frequencies.len()
            invariant
                k <= self.stats.frequencies@.len(),
                self.stats.frequencies@.len() <= self.bits.rare@.len(),
                table@.len() == k,
                forall|j: int|
                    0 <= j < k ==> #[trigger] table@[j] == (Freq {
                        nimber: j as usize,
                        frequency: self.stats.frequencies@[j],
                        rare: self.bits.rare@[j],
                    }),
            decreases self.stats.frequencies@.len() - k,
        {
            table.push(
                Freq {
                    nimber: k,
                    frequency: self.stats.frequencies[k],
                    rare: self.bits.rare.get(k),
                },
            );
            k = k + 1;
        }
        table
    }

    /// The figures for the heap of `n` tokens, whose value the prefix holds.
    pub fn dump_stats(&self, n: usize) -> (line: StatsLine)
        requires
            n < self.nimbers.g@.len(),
            self.nimbers.rare@.len() < usize::MAX,
        ensures
            line == (StatsLine {
                prev_values: self.stats.prev_values,
                largest_nimber: self.stats.largest_nimber as usize,
                largest_nimber_index: self.stats.largest_nimber_index,
                rares: (self.nimbers.rare@.len() + 1) as usize,
                latest_rare: self.stats.latest_rare as usize,
                latest_rare_index: self.stats.latest_rare_index,
                index: n,
                value: self.nimbers.g@[n as int] as usize,
            }),
    {
        StatsLine {
            prev_values: self.stats.prev_values,
            largest_nimber: self.stats.largest_nimber as usize,
            largest_nimber_index: self.stats.largest_nimber_index,
            rares: self.nimbers.rare.len() + 1,
            latest_rare: self.stats.latest_rare as usize,
            latest_rare_index: self.stats.latest_rare_index,
            index: n,
            value: self.nimbers.g[n] as usize,
        }
    }

    /// The figures for the heap of `n` tokens, whose value the ring holds.
    pub fn dump_stats_back(&self, n: usize) -> (line: StatsLine)
        requires
            0 < self.nimbers.g_back@.len(),
            self.nimbers.rare@.len() < usize::MAX,
        ensures
            line == (StatsLine {
                prev_values: self.stats.prev_values,
                largest_nimber: self.stats.largest_nimber as usize,
                largest_nimber_index: self.stats.largest_nimber_index,
                rares: (self.nimbers.rare@.len() + 1) as usize,
                latest_rare: self.stats.latest_rare as usize,
                latest_rare_index: self.stats.latest_rare_index,
                index: n,
                value: self.nimbers.g_back@[n as int % self.nimbers.g_back@.len() as int] as usize,
            }),
    {
        StatsLine {
            prev_values: self.stats.prev_values,
            largest_nimber: self.stats.largest_nimber as usize,
            largest_nimber_index: self.stats.largest_nimber_index,
            rares: self.nimbers.rare.len() + 1,
            latest_rare: self.stats.latest_rare as usize,
            latest_rare_index: self.stats.latest_rare_index,
            index: n,
            value: self.nimbers.last(n) as usize,
        }
    }

    /// The reports that are due once the heap of `n` tokens is computed, while
    /// the prefix is filled.
    pub fn occasional_info(&self, n: usize) -> (due: Reports)
        requires
            n <= self.nimbers.g@.len(),
        ensures
            due == reports_due(n, self.nimbers.g@.len() as usize),
    {
        let max = self.nimbers.g.len();
        let inc = if max > 0x4000_0000 {
            max / 1000
        } else {
            max / 100
        };
        let progress = if inc > 0 && n % inc == 0 {
            let done: u128 = n as u128 * 100 / max as u128;
            Some(done as usize)
        } else {
            None
        };
        Reports { stats: n % 100000 == 0, freqs: is_power_of_two(n), progress }
    }

    /// The reports that are due once the heap of `n` tokens is computed, past the
    /// prefix: there is no end to measure progress against.
    pub fn occasional_info_back(&self, n: usize) -> (due: Reports)
        ensures
            due == (Reports { stats: n % 100000 == 0, freqs: is_pow2(n), progress: None }),
    {
        Reports { stats: n % 100000 == 0, freqs: is_power_of_two(n), progress: None }
    }
}

} // verus!
