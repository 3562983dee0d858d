//! A game in progress: its rules, the values computed so far, and what the
//! engine keeps to compute the next one.
use crate::bitset::{bin_len, cleared, Bin};
use crate::grundy::is_grundy_prefix;
use crate::nimber::Nimber;
use crate::nimbers::{unfilled, Nimbers};
use crate::partition::{is_rare_mask, marks};
use crate::rules::{is_rule_char, parsed_rules, rules_from_str, Rule, RulesError};
use crate::stats::{count_of, freq_len, Stats};
use crate::workers::current_workers;
use vstd::prelude::*;

verus! {

/// The bit sets of the engine.
pub struct Bits {
    /// The rare side of the split: bit `v` is set where the value `v` is rare.
    pub rare: Bin,
    /// The values that some move is known to reach, for the heap at hand.
    pub seen: Bin,
    /// One scratch set for each worker thread.
    pub partial: Vec<Bin>,
}

/// An octal game and the state of its computation.
pub struct Game {
    /// What may be left after taking `i` tokens, at index `i`.
    pub rules: Vec<Rule>,
    /// The values.
    pub nimbers: Nimbers,
    /// The figures on them.
    pub stats: Stats,
    /// The engine's bit sets.
    pub bits: Bits,
}

/// The heaps from 1 up to `n - 1` tokens whose value `rare` marks, each with
/// its value, by growing size.
pub open spec fn rare_index(g: Seq<Nimber>, rare: Seq<bool>, n: int) -> Seq<(usize, Nimber)>
    decreases n,
{
    if n <= 1 {
        Seq::empty()
    } else if marks(rare, g[n - 1] as usize) {
        rare_index(g, rare, n - 1).push(((n - 1) as usize, g[n - 1]))
    } else {
        rare_index(g, rare, n - 1)
    }
}

/// Each entry of the index names a heap below `n`, its value, and a value
/// that is rare; the heaps grow along the index.
pub proof fn lemma_rare_index_entries(g: Seq<Nimber>, rare: Seq<bool>, n: int)
    requires
        0 <= n <= g.len(),
        n <= usize::MAX,
    ensures
        rare_index(g, rare, n).len() <= n,
        forall|k: int|
            0 <= k < rare_index(g, rare, n).len() ==> {
                let e = #[trigger] rare_index(g, rare, n)[k];
                &&& 1 <= e.0 < n
                &&& e.1 == g[e.0 as int]
                &&& marks(rare, e.1 as usize)
            },
        forall|k: int, l: int|
            0 <= k < l < rare_index(g, rare, n).len() ==> (#[trigger] rare_index(g, rare, n)[k]).0
                < (#[trigger] rare_index(g, rare, n)[l]).0,
    decreases n,
{
    if n > 1 {
        lemma_rare_index_entries(g, rare, n - 1);
    }
}

/// Each heap from 1 up to `n - 1` whose value is rare stands in the index.
pub proof fn lemma_rare_index_has(g: Seq<Nimber>, rare: Seq<bool>, n: int, a: int)
    requires
        1 <= a < n <= g.len(),
        n <= usize::MAX,
        marks(rare, g[a] as usize),
    ensures
        exists|k: int|
            0 <= k < rare_index(g, rare, n).len() && (#[trigger] rare_index(g, rare, n)[k]).0 == a,
    decreases n,
{
    if a == n - 1 {
        let k = rare_index(g, rare, n).len() - 1;
        assert(rare_index(g, rare, n)[k].0 == a);
    } else {
        lemma_rare_index_has(g, rare, n - 1, a);
        let k = choose|k: int|
            0 <= k < rare_index(g, rare, n - 1).len() && (#[trigger] rare_index(
                g,
                rare,
                n - 1,
            )[k]).0 == a;
        assert(rare_index(g, rare, n)[k].0 == a);
    }
}

/// The index reads the values of the heaps below `n` alone.
pub proof fn lemma_rare_index_reads_prefix(
    g: Seq<Nimber>,
    h: Seq<Nimber>,
    rare: Seq<bool>,
    n: int,
)
    requires
        n <= g.len(),
        n <= h.len(),
        forall|k: int| 0 <= k < n ==> g[k] == h[k],
    ensures
        rare_index(g, rare, n) == rare_index(h, rare, n),
    decreases n,
{
    if n > 1 {
        lemma_rare_index_reads_prefix(g, h, rare, n - 1);
    }
}

impl Bits {
    /// Every set has the length that serves `largest`.
    pub open spec fn fits(&self, largest: Nimber) -> bool {
        &&& self.rare@.len() == bin_len(largest)
        &&& self.seen@.len() == bin_len(largest)
        &&& forall|k: int|
            0 <= k < self.partial@.len() ==> (#[trigger] self.partial@[k])@.len() == bin_len(
                largest,
            )
    }

    /// Cleared sets that serve the value 0, with one scratch set for each worker
    /// thread that there is.
    pub fn new() -> (b: Self)
        ensures
            b.rare@ == cleared(bin_len(0)),
            b.seen@ == cleared(bin_len(0)),
            forall|k: int| 0 <= k < b.partial@.len() ==> (#[trigger] b.partial@[k])@ == cleared(
                bin_len(0),
            ),
    {
        Bits::with_workers(0, current_workers())
    }

    /// Cleared sets that serve `largest_nimber`, with `workers` scratch sets.
    pub fn with_workers(largest_nimber: Nimber, workers: usize) -> (b: Self)
        ensures
            b.rare@ == cleared(bin_len(largest_nimber)),
            b.seen@ == cleared(bin_len(largest_nimber)),
            b.partial@.len() == workers,
            forall|k: int| 0 <= k < workers ==> (#[trigger] b.partial@[k])@ == cleared(
                bin_len(largest_nimber),
            ),
    {
        let mut partial: Vec<Bin> = Vec::new();
        let mut k: usize = 0;
        while k < workers
            invariant
                k <= workers,
                partial@.len() == k,
                forall|j: int| 0 <= j < k ==> (#[trigger] partial@[j])@ == cleared(
                    bin_len(largest_nimber),
                ),
            decreases workers - k,
        {
            partial.push(Bin::make(largest_nimber));
            k = k + 1;
        }
        Self { rare: Bin::make(largest_nimber), seen: Bin::make(largest_nimber), partial }
    }

    /// Replaces every set by a cleared one that serves `largest_nimber`, with one
    /// scratch set for each worker thread that there is.
    pub fn resize(&mut self, largest_nimber: Nimber)
        ensures
            final(self).rare@ == cleared(bin_len(largest_nimber)),
            final(self).seen@ == cleared(bin_len(largest_nimber)),
            forall|k: int|
                0 <= k < final(self).partial@.len() ==> (#[trigger] final(self).partial@[k])@
                    == cleared(bin_len(largest_nimber)),
    {
        *self = Bits::with_workers(largest_nimber, current_workers());
    }
}

impl Game {
    /// The heaps below `n` are computed, and everything that is derived from
    /// their values is up to date: no value exceeds the largest one, each
    /// counter holds how often its value occurs, the bit sets serve the largest
    /// value, the rare side obeys the rules of the split, and the index holds
    /// exactly the heaps of rare value.
    pub open spec fn ready(&self, n: int) -> bool {
        &&& 1 <= self.rules@.len() <= n <= self.nimbers.g@.len()
        &&& self.stats.frequencies@.len() == freq_len(self.stats.largest_nimber)
        &&& forall|k: int| 0 <= k < n ==> #[trigger] self.nimbers.g@[k] <= self.stats.largest_nimber
        &&& forall|v: int|
            0 <= v < self.stats.frequencies@.len() ==> #[trigger] self.stats.frequencies@[v]
                == count_of(self.nimbers.g@.take(n), v)
        &&& self.bits.fits(self.stats.largest_nimber)
        &&& is_rare_mask(self.bits.rare@, self.stats.frequencies@.len())
        &&& self.nimbers.rare@ == rare_index(self.nimbers.g@, self.bits.rare@, n)
    }

    /// The heaps below `n` hold their nim-values.
    pub open spec fn solved(&self, n: int) -> bool {
        is_grundy_prefix(self.rules@, self.nimbers.g@, n)
    }

    /// A game read from its digit string, with room for `max_full_memory` values
    /// and a ring of `max_tail_memory`, nothing computed.
    ///
    /// Fails where the string is no game.
    pub fn new(rules_str: &str, max_full_memory: usize, max_tail_memory: usize) -> (r: Result<
        Self,
        RulesError,
    >)
        ensures
            match r {
                Ok(game) => {
                    &&& forall|k: int|
                        0 <= k < rules_str@.len() ==> is_rule_char(#[trigger] rules_str@[k])
                    &&& game.rules@ == parsed_rules(rules_str@)
                    &&& game.nimbers.g@ == unfilled(max_full_memory as nat)
                    &&& game.nimbers.g_back@ == unfilled(max_tail_memory as nat)
                    &&& game.nimbers.rare@ == Seq::<(usize, Nimber)>::empty()
                    &&& game.stats.largest_nimber == 0
                    &&& game.stats.frequencies@ == Seq::<usize>::empty()
                    &&& game.stats.largest_nimber_index == 0
                    &&& game.stats.prev_values == 0
                    &&& game.stats.latest_rare == 0
                    &&& game.stats.latest_rare_index == 0
                    &&& game.bits.rare@ == cleared(bin_len(0))
                    &&& game.bits.seen@ == cleared(bin_len(0))
                    &&& game.bits.fits(0)
                },
                Err(RulesError::InvalidDigit(k)) => {
                    &&& k < rules_str@.len()
                    &&& !is_rule_char(rules_str@[k as int])
                    &&& forall|j: int| 0 <= j < k ==> is_rule_char(#[trigger] rules_str@[j])
                },
            },
    {
        match rules_from_str(rules_str) {
            Ok(rules) => Ok(
                Game {
                    rules,
                    nimbers: Nimbers::new(max_full_memory, max_tail_memory),
                    stats: Stats::new(),
                    bits: Bits::new(),
                },
            ),
            Err(e) => Err(e),
        }
    }
}

} // verus!
