//! The steps that carry a game from one heap to the next: the start, the
//! record of a new value, and the renewal of the split.
use crate::bitset::{bin_len, cleared};
use crate::game::{lemma_rare_index_reads_prefix, rare_index, Game};
use crate::grundy::{is_grundy_value, lemma_grundy_value_reads_prefix};
use crate::nimber::Nimber;
use crate::partition::{is_rare_mask, lemma_rare_mask_is_closed, rare_mask};
use crate::pow2::{
    is_pow2, is_power_of_two, lemma_npot_bounds, lemma_npot_is_pow2, lemma_npot_monotone,
    lemma_twice_npot, npot,
};
use crate::stats::{
    count_of, counted, freq_len, initial_largest, lemma_count_of_absent, lemma_count_of_bounds,
    lemma_max_nimber_bounds, resized,
};
use vstd::prelude::*;

verus! {

/// `freq` with one more occurrence of `v`.
pub open spec fn bumped(freq: Seq<usize>, v: int) -> Seq<usize> {
    freq.update(v, (freq[v] + 1) as usize)
}

/// The number of heaps that a renewal after heap `n` looks at, of `len` heaps in
/// all.
pub open spec fn renewed_upto(n: int, len: int) -> int {
    if n + 1 <= len {
        n + 1
    } else {
        len
    }
}

/// The counters for a largest value are a power of two that the bit sets hold.
pub proof fn lemma_freq_len(largest: Nimber)
    ensures
        is_pow2(freq_len(largest) as usize),
        largest < freq_len(largest) <= bin_len(largest),
        freq_len(largest) <= 0x2_0000,
        bin_len(largest) <= 0x4_0002,
        is_pow2((bin_len(largest) - 2) as usize),
        largest < bin_len(largest) - 2,
{
    lemma_npot_bounds(largest as nat);
    lemma_npot_bounds(largest as nat + 2);
    lemma_npot_is_pow2(largest as nat + 2);
    lemma_twice_npot(largest as nat);
}

/// While no value met so far reaches a quarter of what a nimber can hold, the
/// value of the next heap fits a nimber.
pub proof fn lemma_small_values_fit(game: Game, n: int, m: int)
    requires
        game.ready(n),
        game.stats.largest_nimber < 0x4000,
        is_grundy_value(game.rules@, game.nimbers.g@, n, m),
    ensures
        m <= Nimber::MAX,
{
    let largest = game.stats.largest_nimber;
    lemma_freq_len(largest);
    lemma_npot_bounds(largest as nat);
    let bound: usize = (2 * npot(largest as nat)) as usize;
    if m > bound {
        assert(crate::grundy::is_successor(game.rules@, game.nimbers.g@, n, bound as int));
        crate::grundy::lemma_successor_below(game.rules@, game.nimbers.g@, n, bound as int, bound);
    }
}

/// The counters of a game add up to the number of heaps that are computed.
pub proof fn lemma_counters_add_up_to_heaps(game: Game, n: int)
    requires
        game.ready(n),
    ensures
        crate::stats::total(game.stats.frequencies@) == n,
{
    let s = game.nimbers.g@.take(n);
    lemma_freq_len(game.stats.largest_nimber);
    assert forall|k: int| 0 <= k < s.len() implies #[trigger] s[k]
        < game.stats.frequencies@.len() by {
        assert(game.nimbers.g@[k] <= game.stats.largest_nimber);
    }
    crate::stats::lemma_counters_add_up(game.stats.frequencies@, s);
}

/// More counters are kept for a larger value.
pub proof fn lemma_freq_len_grows(a: Nimber, b: Nimber)
    requires
        a <= b,
    ensures
        freq_len(a) <= freq_len(b),
{
    lemma_npot_monotone(a as nat + 2, b as nat + 2);
}

impl Game {
    /// Renews what hangs on the largest value and on the counters, after the
    /// heaps up to `n` are computed: sizes the counters and the bit sets, takes
    /// the rare side that the counters lead to, and builds the index of the
    /// heaps of rare value anew.
    #[verifier::rlimit(50)]
    pub fn resize(&mut self, n: usize)
        requires
            n < usize::MAX,
            forall|k: int|
                0 <= k < renewed_upto(n as int, old(self).nimbers.g@.len() as int)
                    ==> #[trigger] old(self).nimbers.g@[k] <= old(self).stats.largest_nimber,
        ensures
            final(self).stats.frequencies@ == resized(
                old(self).stats.frequencies@,
                freq_len(old(self).stats.largest_nimber),
            ),
            final(self).bits.rare@ == rare_mask(
                final(self).stats.frequencies@,
                bin_len(old(self).stats.largest_nimber),
            ),
            is_rare_mask(final(self).bits.rare@, final(self).stats.frequencies@.len()),
            final(self).bits.fits(old(self).stats.largest_nimber),
            final(self).bits.seen@ == cleared(bin_len(old(self).stats.largest_nimber)),
            final(self).nimbers.rare@ == rare_index(
                old(self).nimbers.g@,
                final(self).bits.rare@,
                renewed_upto(n as int, old(self).nimbers.g@.len() as int),
            ),
            final(self).rules == old(self).rules,
            final(self).nimbers.g == old(self).nimbers.g,
            final(self).nimbers.g_back == old(self).nimbers.g_back,
            final(self).stats.largest_nimber == old(self).stats.largest_nimber,
            final(self).stats.largest_nimber_index == old(self).stats.largest_nimber_index,
            final(self).stats.prev_values == old(self).stats.prev_values,
            final(self).stats.latest_rare == old(self).stats.latest_rare,
            final(self).stats.latest_rare_index == old(self).stats.latest_rare_index,
    {
        let ghost largest = self.stats.largest_nimber;
        proof {
            lemma_freq_len(largest);
        }
        self.stats.resize_frequencies();
        self.bits.resize(self.stats.largest_nimber);
        proof {
            crate::pow2::lemma_npot_of_npot(largest as nat + 2);
        }
        self.bits.rare = self.stats.gen_rares();
        proof {
            lemma_rare_mask_is_closed(self.stats.frequencies@, bin_len(largest));
        }
        self.nimbers.rare.clear();
        let upto = if n + 1 <= self.nimbers.g.len() {
            n + 1
        } else {
            self.nimbers.g.len()
        };
        let mut i: usize = 1;
        while i < upto
            invariant
                1 <= i,
                i <= upto || i == 1,
                upto == renewed_upto(n as int, self.nimbers.g@.len() as int),
                largest == self.stats.largest_nimber,
                largest < bin_len(largest),
                self.bits.rare@.len() == bin_len(largest),
                forall|k: int| 0 <= k < upto ==> #[trigger] self.nimbers.g@[k] <= largest,
                self.nimbers.rare@ == rare_index(self.nimbers.g@, self.bits.rare@, i as int),
                self.rules == old(self).rules,
                self.nimbers.g == old(self).nimbers.g,
                self.nimbers.g_back == old(self).nimbers.g_back,
                self.stats.frequencies@ == resized(
                    old(self).stats.frequencies@,
                    freq_len(old(self).stats.largest_nimber),
                ),
                self.bits.rare@ == rare_mask(self.stats.frequencies@, bin_len(largest)),
                is_rare_mask(self.bits.rare@, self.stats.frequencies@.len()),
                self.bits.fits(largest),
                self.bits.seen@ == cleared(bin_len(largest)),
                self.stats.largest_nimber_index == old(self).stats.largest_nimber_index,
                self.stats.prev_values == old(self).stats.prev_values,
                self.stats.latest_rare == old(self).stats.latest_rare,
                self.stats.latest_rare_index == old(self).stats.latest_rare_index,
            decreases upto - i,
        {
            let v = self.nimbers.g[i];
            if self.bits.rare.get(v as usize) {
                self.nimbers.rare.push((i, v));
            }
            i = i + 1;
        }
        proof {
            if upto <= 1 {
                assert(self.nimbers.rare@ =~= rare_index(
                    self.nimbers.g@,
                    self.bits.rare@,
                    upto as int,
                ));
            }
        }
    }

    /// Starts a game: computes the heaps that hold fewer tokens than the game
    /// has rules, takes their largest value, counts them, and sets up the split
    /// and the index.
    #[verifier::rlimit(50)]
    pub fn init(&mut self)
        requires
            1 <= old(self).rules@.len() <= old(self).nimbers.g@.len(),
            old(self).rules@.len() <= 0x1_0000,
            old(self).stats.frequencies@.len() == 0,
        ensures
            final(self).ready(final(self).rules@.len() as int),
            final(self).solved(final(self).rules@.len() as int),
            final(self).rules == old(self).rules,
            final(self).nimbers.g@.len() == old(self).nimbers.g@.len(),
            forall|k: int|
                final(self).rules@.len() <= k < final(self).nimbers.g@.len()
                    ==> #[trigger] final(self).nimbers.g@[k] == old(self).nimbers.g@[k],
            final(self).nimbers.g_back == old(self).nimbers.g_back,
            final(self).stats.largest_nimber == initial_largest(
                final(self).nimbers.g@,
                final(self).rules@.len() as int,
            ),
            final(self).bits.rare@ == rare_mask(
                final(self).stats.frequencies@,
                bin_len(final(self).stats.largest_nimber),
            ),
            final(self).stats.largest_nimber_index == old(self).stats.largest_nimber_index,
            final(self).stats.prev_values == old(self).stats.prev_values,
            final(self).stats.latest_rare == old(self).stats.latest_rare,
            final(self).stats.latest_rare_index == old(self).stats.latest_rare_index,
    {
        self.initialize();
        let first_uninitialized = self.rules.len();
        let ghost g = self.nimbers.g@;
        let ghost largest = initial_largest(g, first_uninitialized as int);
        proof {
            lemma_freq_len(largest);
            let sized = resized(self.stats.frequencies@, freq_len(largest));
            assert forall|v: int| 0 <= v < freq_len(largest) implies #[trigger] sized[v]
                + count_of(g.take(first_uninitialized as int), v) <= usize::MAX by {
                lemma_count_of_bounds(g, v, first_uninitialized as int);
                lemma_count_of_bounds(g.take(first_uninitialized as int), v, 0);
            }
        }
        self.stats.initialize(&self.nimbers.g, first_uninitialized);
        proof {
            assert forall|k: int| 0 <= k < first_uninitialized implies #[trigger] g[k]
                <= largest by {
                if k >= 1 {
                    lemma_max_nimber_bounds(g.subrange(1, first_uninitialized as int), k - 1);
                }
            }
        }
        let ghost counters = self.stats.frequencies@;
        self.resize(first_uninitialized - 1);
        proof {
            assert(self.stats.frequencies@ =~= counters);
        }
    }

    /// Records `nim` as the value of the heap of `n` tokens, the first one that
    /// is not computed yet.
    ///
    /// A value above the largest one renews the split before it is counted; a
    /// rare value enters the index; a heap whose size is a power of two renews
    /// the split once the value is counted.
    #[verifier::rlimit(50)]
    pub fn set_next_g_n(&mut self, n: usize, nim: Nimber)
        requires
            old(self).ready(n as int),
            n < old(self).nimbers.g@.len(),
        ensures
            final(self).ready(n + 1),
            final(self).nimbers.g@ == old(self).nimbers.g@.update(n as int, nim),
            final(self).rules == old(self).rules,
            final(self).nimbers.g_back == old(self).nimbers.g_back,
            final(self).stats.largest_nimber == if nim > old(self).stats.largest_nimber {
                nim
            } else {
                old(self).stats.largest_nimber
            },
            final(self).stats.largest_nimber_index == if nim >= old(self).stats.largest_nimber {
                n
            } else {
                old(self).stats.largest_nimber_index
            },
            final(self).stats.frequencies@ == bumped(
                resized(old(self).stats.frequencies@, freq_len(final(self).stats.largest_nimber)),
                nim as int,
            ),
            final(self).bits.rare@ == if is_pow2(n) {
                rare_mask(final(self).stats.frequencies@, bin_len(final(self).stats.largest_nimber))
            } else if nim > old(self).stats.largest_nimber {
                rare_mask(resized(old(self).stats.frequencies@, freq_len(nim)), bin_len(nim))
            } else {
                old(self).bits.rare@
            },
            final(self).stats.prev_values == old(self).stats.prev_values,
            final(self).stats.latest_rare == old(self).stats.latest_rare,
            final(self).stats.latest_rare_index == old(self).stats.latest_rare_index,
    {
        let ghost g0 = self.nimbers.g@;
        let ghost f0 = self.stats.frequencies@;
        let ghost l0 = self.stats.largest_nimber;
        let ghost m0 = self.bits.rare@;
        let len = self.nimbers.g.len();
        assert(n < len <= usize::MAX);
        self.nimbers.g.set(n, nim);
        let ghost g1 = self.nimbers.g@;
        proof {
            lemma_freq_len(l0);
            lemma_rare_index_reads_prefix(g0, g1, m0, n as int);
            assert(g1.take(n as int) =~= g0.take(n as int));
            assert(g1.take(n + 1).drop_last() =~= g0.take(n as int));
        }
        if nim >= self.stats.largest_nimber {
            self.stats.largest_nimber_index = n;
        }
        let grew = nim > self.stats.largest_nimber;
        if grew {
            self.stats.largest_nimber = nim;
            self.resize(n);
        }
        let ghost l1 = self.stats.largest_nimber;
        let ghost f1 = self.stats.frequencies@;
        proof {
            lemma_freq_len(l1);
            lemma_freq_len_grows(l0, l1);
            assert(f1 =~= resized(f0, freq_len(l1)));
            assert forall|v: int| 0 <= v < f1.len() implies #[trigger] f1[v] == count_of(
                g0.take(n as int),
                v,
            ) by {
                if v >= f0.len() {
                    lemma_count_of_absent(g0.take(n as int), v);
                }
            }
            lemma_count_of_bounds(g0.take(n as int), nim as int, 0);
        }
        let c = self.stats.frequencies[nim as usize];
        self.stats.frequencies.set(nim as usize, c + 1);
        if !grew && self.bits.rare.get(nim as usize) {
            self.nimbers.rare.push((n, nim));
        }
        let ghost f2 = self.stats.frequencies@;
        proof {
            assert(f2 =~= bumped(f1, nim as int));
            assert forall|v: int| 0 <= v < f2.len() implies #[trigger] f2[v] == count_of(
                g1.take(n + 1),
                v,
            ) by {
                assert(f1[v] == count_of(g0.take(n as int), v));
            }
            assert(self.nimbers.rare@ == rare_index(g1, self.bits.rare@, n + 1));
        }
        if is_power_of_two(n) {
            self.resize(n);
            proof {
                assert(self.stats.frequencies@ =~= f2);
            }
        }
    }

    /// Computes the value of the heap of `n` tokens by the plain scan, and
    /// records it.
    pub fn calc_naive(&mut self, n: usize)
        requires
            old(self).ready(n as int),
            n < old(self).nimbers.g@.len(),
            forall|m: int|
                is_grundy_value(old(self).rules@, old(self).nimbers.g@, n as int, m) ==> m
                    <= Nimber::MAX,
        ensures
            final(self).ready(n + 1),
            is_grundy_value(
                old(self).rules@,
                old(self).nimbers.g@,
                n as int,
                final(self).nimbers.g@[n as int] as int,
            ),
            final(self).nimbers.g@ == old(self).nimbers.g@.update(
                n as int,
                final(self).nimbers.g@[n as int],
            ),
            old(self).solved(n as int) ==> final(self).solved(n + 1),
            final(self).rules == old(self).rules,
            final(self).nimbers.g_back == old(self).nimbers.g_back,
    {
        proof {
            crate::scan::lemma_ready_can_mark(*self, n as int);
        }
        let nim = self.naive(n);
        self.set_next_g_n(n, nim);
        proof {
            self.lemma_solved_extends(*old(self), n as int);
        }
    }

    /// A game whose next heap got its nim-value is solved one heap further.
    pub proof fn lemma_solved_extends(self, before: Game, n: int)
        requires
            0 <= n < before.nimbers.g@.len(),
            1 <= n,
            self.rules == before.rules,
            self.nimbers.g@ == before.nimbers.g@.update(n, self.nimbers.g@[n]),
            is_grundy_value(before.rules@, before.nimbers.g@, n, self.nimbers.g@[n] as int),
        ensures
            before.solved(n) ==> self.solved(n + 1),
    {
        if before.solved(n) {
            let g0 = before.nimbers.g@;
            let g1 = self.nimbers.g@;
            assert forall|k: int| 1 <= k < n + 1 implies is_grundy_value(
                self.rules@,
                g1,
                k,
                #[trigger] g1[k] as int,
            ) by {
                lemma_grundy_value_reads_prefix(self.rules@, g0, g1, k, g1[k] as int);
            }
        }
    }
}

} // verus!
