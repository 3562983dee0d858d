//! What is known of the values computed so far: the largest one, how often each
//! occurs, and from that the rare side of the split.
use crate::bitset::{bin_len, cleared, Bin};
use crate::nimber::Nimber;
use crate::partition::{grown, most_frequent_free, rare_mask, rare_partition, with_common};
use crate::pow2::{lemma_npot_bounds, next_power_of_two, npot};
use vstd::prelude::*;

verus! {

/// Figures kept while the values are computed.
pub struct Stats {
    /// No value computed so far is greater.
    pub largest_nimber: Nimber,
    /// How often each value occurs among the heaps computed so far.
    pub frequencies: Vec<usize>,
    /// The heap that last reached the largest value.
    pub largest_nimber_index: usize,
    /// The greatest number of splits that a proof of a common value has needed.
    pub prev_values: usize,
    /// The rare value found last.
    pub latest_rare: Nimber,
    /// The heap that has it.
    pub latest_rare_index: usize,
}

/// The greatest value in `s`; 0 where `s` is empty.
pub open spec fn max_nimber(s: Seq<Nimber>) -> Nimber
    decreases s.len(),
{
    if s.len() == 0 {
        0
    } else if s.last() > max_nimber(s.drop_last()) {
        s.last()
    } else {
        max_nimber(s.drop_last())
    }
}

/// The largest value to start from, given the first `first_uninitialized`
/// values of `g`: the greatest of them but the one of the empty heap, and 2
/// where there is no other.
pub open spec fn initial_largest(g: Seq<Nimber>, first_uninitialized: int) -> Nimber {
    if first_uninitialized == 1 {
        2
    } else {
        max_nimber(g.subrange(1, first_uninitialized))
    }
}

/// How often `v` occurs in `s`.
pub open spec fn count_of(s: Seq<Nimber>, v: int) -> nat
    decreases s.len(),
{
    if s.len() == 0 {
        0
    } else {
        count_of(s.drop_last(), v) + if s.last() == v {
            1nat
        } else {
            0nat
        }
    }
}

/// The number of counters kept while no value exceeds `largest`.
pub open spec fn freq_len(largest: Nimber) -> nat {
    npot(largest as nat + 2)
}

/// `freq` cut or extended by zeros to `len` counters.
pub open spec fn resized(freq: Seq<usize>, len: nat) -> Seq<usize> {
    if len <= freq.len() {
        freq.take(len as int)
    } else {
        freq + Seq::new((len - freq.len()) as nat, |i: int| 0usize)
    }
}

/// `freq` after each value of `g` has been counted.
pub open spec fn counted(freq: Seq<usize>, g: Seq<Nimber>) -> Seq<usize> {
    Seq::new(freq.len(), |v: int| (freq[v] + count_of(g, v)) as usize)
}

/// Every value of `s` is at most `max_nimber(s)`.
pub proof fn lemma_max_nimber_bounds(s: Seq<Nimber>, k: int)
    requires
        0 <= k < s.len(),
    ensures
        s[k] <= max_nimber(s),
    decreases s.len(),
{
    if k < s.len() - 1 {
        lemma_max_nimber_bounds(s.drop_last(), k);
    }
}

/// A value occurs at most as often as there are values, and in a prefix at most
/// as often as in the whole.
pub proof fn lemma_count_of_bounds(s: Seq<Nimber>, v: int, k: int)
    requires
        0 <= k <= s.len(),
    ensures
        count_of(s.take(k), v) <= count_of(s, v) <= s.len(),
    decreases s.len(),
{
    if s.len() == 0 {
        assert(s.take(k) =~= s);
    } else if k == s.len() {
        assert(s.take(k) =~= s);
        lemma_count_of_bounds(s.drop_last(), v, k - 1);
    } else {
        lemma_count_of_bounds(s.drop_last(), v, k);
        assert(s.drop_last().take(k) =~= s.take(k));
    }
}

/// A value that does not occur counts zero.
pub proof fn lemma_count_of_absent(s: Seq<Nimber>, v: int)
    requires
        forall|k: int| 0 <= k < s.len() ==> s[k] != v,
    ensures
        count_of(s, v) == 0,
    decreases s.len(),
{
    if s.len() > 0 {
        lemma_count_of_absent(s.drop_last(), v);
    }
}

/// The sum of the counters.
pub open spec fn total(freq: Seq<usize>) -> int
    decreases freq.len(),
{
    if freq.len() == 0 {
        0
    } else {
        total(freq.drop_last()) + freq.last()
    }
}

/// A counter that changes changes the sum by as much.
pub proof fn lemma_total_update(freq: Seq<usize>, i: int, c: usize)
    requires
        0 <= i < freq.len(),
    ensures
        total(freq.update(i, c)) == total(freq) - freq[i] + c,
    decreases freq.len(),
{
    if i == freq.len() - 1 {
        assert(freq.update(i, c).drop_last() =~= freq.drop_last());
    } else {
        lemma_total_update(freq.drop_last(), i, c);
        assert(freq.update(i, c).drop_last() =~= freq.drop_last().update(i, c));
    }
}

/// Counters that hold how often each value occurs among values that all have a
/// counter add up to the number of the values.
pub proof fn lemma_counters_add_up(freq: Seq<usize>, s: Seq<Nimber>)
    requires
        forall|v: int| 0 <= v < freq.len() ==> #[trigger] freq[v] == count_of(s, v),
        forall|k: int| 0 <= k < s.len() ==> #[trigger] s[k] < freq.len(),
    ensures
        total(freq) == s.len(),
    decreases s.len(), freq.len(),
{
    if s.len() == 0 {
        if freq.len() > 0 {
            let shorter = freq.drop_last();
            assert forall|v: int| 0 <= v < shorter.len() implies #[trigger] shorter[v]
                == count_of(s, v) by {
                assert(shorter[v] == freq[v]);
            }
            lemma_counters_add_up(shorter, s);
        }
    } else {
        let last = s.last() as int;
        let rest = s.drop_last();
        assert(freq[last] == count_of(s, last));
        let fewer = freq.update(last, (freq[last] - 1) as usize);
        assert forall|v: int| 0 <= v < fewer.len() implies #[trigger] fewer[v] == count_of(
            rest,
            v,
        ) by {
            assert(freq[v] == count_of(s, v));
        }
        assert forall|k: int| 0 <= k < rest.len() implies #[trigger] rest[k] < fewer.len() by {
            assert(rest[k] == s[k]);
        }
        lemma_counters_add_up(fewer, rest);
        lemma_total_update(freq, last, (freq[last] - 1) as usize);
    }
}

impl Stats {
    /// Nothing seen yet.
    pub fn new() -> (s: Self)
        ensures
            s.largest_nimber == 0,
            s.frequencies@ == Seq::<usize>::empty(),
            s.largest_nimber_index == 0,
            s.prev_values == 0,
            s.latest_rare == 0,
            s.latest_rare_index == 0,
    {
        Self {
            largest_nimber: 0,
            frequencies: Vec::new(),
            largest_nimber_index: 0,
            prev_values: 0,
            latest_rare: 0,
            latest_rare_index: 0,
        }
    }

    /// Takes the largest value, sizes the counters for it and counts the first
    /// `first_uninitialized` values of `front`.
    pub fn initialize(&mut self, front: &Vec<Nimber>, first_uninitialized: usize)
        requires
            1 <= first_uninitialized <= front@.len(),
            front@[0] < freq_len(initial_largest(front@, first_uninitialized as int)),
            forall|v: int|
                0 <= v < freq_len(initial_largest(front@, first_uninitialized as int))
                    ==> #[trigger] resized(
                    old(self).frequencies@,
                    freq_len(initial_largest(front@, first_uninitialized as int)),
                )[v] + count_of(front@.take(first_uninitialized as int), v) <= usize::MAX,
        ensures
            final(self).largest_nimber == initial_largest(front@, first_uninitialized as int),
            final(self).frequencies@ == counted(
                resized(old(self).frequencies@, freq_len(final(self).largest_nimber)),
                front@.take(first_uninitialized as int),
            ),
            final(self).largest_nimber_index == old(self).largest_nimber_index,
            final(self).prev_values == old(self).prev_values,
            final(self).latest_rare == old(self).latest_rare,
            final(self).latest_rare_index == old(self).latest_rare_index,
    {
        self.set_largest_nimber(front, first_uninitialized);
        self.resize_frequencies();
        proof {
            let largest = self.largest_nimber;
            lemma_npot_bounds(largest as nat + 2);
            assert forall|n: int| 0 <= n < first_uninitialized implies front@[n] < freq_len(
                largest,
            ) by {
                if n >= 1 {
                    lemma_max_nimber_bounds(front@.subrange(1, first_uninitialized as int), n - 1);
                }
            }
            let sized = resized(old(self).frequencies@, freq_len(largest));
            assert(self.frequencies@ == sized);
            assert forall|v: int| 0 <= v < self.frequencies@.len() implies self.frequencies@[v]
                + count_of(front@.take(first_uninitialized as int), v) <= usize::MAX by {
                assert(sized[v] + count_of(front@.take(first_uninitialized as int), v)
                    <= usize::MAX);
            }
        }
        self.initialize_frequencies(front, first_uninitialized);
    }

    /// Sizes the counters for the largest value: cuts them, or extends them by
    /// zeros.
    pub fn resize_frequencies(&mut self)
        ensures
            final(self).frequencies@ == resized(
                old(self).frequencies@,
                freq_len(old(self).largest_nimber),
            ),
            final(self).largest_nimber == old(self).largest_nimber,
            final(self).largest_nimber_index == old(self).largest_nimber_index,
            final(self).prev_values == old(self).prev_values,
            final(self).latest_rare == old(self).latest_rare,
            final(self).latest_rare_index == old(self).latest_rare_index,
    {
        proof {
            lemma_npot_bounds(self.largest_nimber as nat + 2);
        }
        let len = next_power_of_two(self.largest_nimber as usize + 2);
        self.frequencies.resize(len, 0);
        assert(self.frequencies@ =~= resized(
            old(self).frequencies@,
            freq_len(old(self).largest_nimber),
        ));
    }

    /// Takes as the largest value the greatest of `g[1..first_uninitialized]`,
    /// and 2 where that range is empty.
    pub fn set_largest_nimber(&mut self, g: &Vec<Nimber>, first_uninitialized: usize)
        requires
            1 <= first_uninitialized <= g@.len(),
        ensures
            final(self).largest_nimber == initial_largest(g@, first_uninitialized as int),
            final(self).frequencies == old(self).frequencies,
            final(self).largest_nimber_index == old(self).largest_nimber_index,
            final(self).prev_values == old(self).prev_values,
            final(self).latest_rare == old(self).latest_rare,
            final(self).latest_rare_index == old(self).latest_rare_index,
    {
        if first_uninitialized == 1 {
            self.largest_nimber = 2;
        } else {
            let mut largest: Nimber = 0;
            let mut k: usize = 1;
            while k < first_uninitialized
                invariant
                    1 <= k <= first_uninitialized <= g@.len(),
                    largest == max_nimber(g@.subrange(1, k as int)),
                decreases first_uninitialized - k,
            {
                assert(g@.subrange(1, k + 1).drop_last() =~= g@.subrange(1, k as int));
                if g[k] > largest {
                    largest = g[k];
                }
                k = k + 1;
            }
            self.largest_nimber = largest;
        }
    }

    /// Counts the first `first_uninitialized` values of `g`.
    pub fn initialize_frequencies(&mut self, g: &Vec<Nimber>, first_uninitialized: usize)
        requires
            first_uninitialized <= g@.len(),
            forall|n: int| 0 <= n < first_uninitialized ==> g@[n] < old(self).frequencies@.len(),
            forall|v: int|
                0 <= v < old(self).frequencies@.len() ==> old(self).frequencies@[v] + count_of(
                    g@.take(first_uninitialized as int),
                    v,
                ) <= usize::MAX,
        ensures
            final(self).frequencies@ == counted(
                old(self).frequencies@,
                g@.take(first_uninitialized as int),
            ),
            final(self).largest_nimber == old(self).largest_nimber,
            final(self).largest_nimber_index == old(self).largest_nimber_index,
            final(self).prev_values == old(self).prev_values,
            final(self).latest_rare == old(self).latest_rare,
            final(self).latest_rare_index == old(self).latest_rare_index,
    {
        let ghost before = self.frequencies@;
        let ghost all = g@.take(first_uninitialized as int);
        let mut n: usize = 0;
        assert(self.frequencies@ =~= counted(before, g@.take(0)));
        while n < first_uninitialized
            invariant
                n <= first_uninitialized <= g@.len(),
                all == g@.take(first_uninitialized as int),
                before == old(self).frequencies@,
                forall|k: int| 0 <= k < first_uninitialized ==> g@[k] < before.len(),
                forall|v: int| 0 <= v < before.len() ==> before[v] + count_of(all, v) <= usize::MAX,
                self.frequencies@ == counted(before, g@.take(n as int)),
                self.largest_nimber == old(self).largest_nimber,
                self.largest_nimber_index == old(self).largest_nimber_index,
                self.prev_values == old(self).prev_values,
                self.latest_rare == old(self).latest_rare,
                self.latest_rare_index == old(self).latest_rare_index,
            decreases first_uninitialized - n,
        {
            let v = g[n] as usize;
            proof {
                assert(g@.take(n + 1).drop_last() =~= g@.take(n as int));
                assert(all.take(n + 1) =~= g@.take(n + 1));
                lemma_count_of_bounds(all, v as int, n + 1);
            }
            let c = self.frequencies[v];
            self.frequencies.set(v, c + 1);
            assert(self.frequencies@ =~= counted(before, g@.take(n + 1)));
            n = n + 1;
        }
    }

    /// The rare side of the split that the counters lead to, as a bit set that
    /// serves the largest value. A rare value that the bit set has no place for
    /// is left out.
    #[verifier::rlimit(50)]
    pub fn gen_rares(&self) -> (rares: Bin)
        requires
            npot(self.frequencies@.len()) <= usize::MAX,
        ensures
            rares@ == rare_mask(self.frequencies@, bin_len(self.largest_nimber)),
    {
        proof {
            lemma_npot_bounds(self.largest_nimber as nat);
            lemma_npot_bounds(self.frequencies@.len());
        }
        let limit = self.frequencies.len();
        let domain = next_power_of_two(limit);
        let mut rares = Bin::make(self.largest_nimber);
        rares.set_bit(0);
        let mut rare: Vec<bool> = vec![false; domain];
        let mut common: Vec<bool> = vec![false; domain];
        rare.set(0, true);
        assert(rare@ =~= cleared(domain as nat).update(0, true));
        assert(common@ =~= cleared(domain as nat));
        let mut round: usize = 0;
        while round < limit
            invariant
                round <= limit,
                limit == self.frequencies@.len(),
                limit <= domain,
                rare@.len() == domain,
                common@.len() == domain,
                grown(self.frequencies@, rare@, common@, (limit - round) as nat) == rare_partition(
                    self.frequencies@,
                ),
            decreases limit - round,
        {
            let mut found = false;
            let mut best: usize = 0;
            let mut y: usize = 0;
            while y < limit
                invariant
                    y <= limit,
                    limit == self.frequencies@.len(),
                    limit <= domain,
                    rare@.len() == domain,
                    common@.len() == domain,
                    found ==> best < y,
                    most_frequent_free(self.frequencies@, rare@, common@, y as int) == if found {
                        best as int
                    } else {
                        -1
                    },
                decreases limit - y,
            {
                if !rare[y] && !common[y] && (!found || self.frequencies[y]
                    > self.frequencies[best]) {
                    found = true;
                    best = y;
                }
                y = y + 1;
            }
            if !found {
                round = limit;
            } else {
                let mut next_rare: Vec<bool> = Vec::new();
                let mut next_common: Vec<bool> = Vec::new();
                let ghost next = with_common(rare@, common@, best);
                let mut z: usize = 0;
                while z < domain
                    invariant
                        z <= domain,
                        rare@.len() == domain,
                        common@.len() == domain,
                        next == with_common(rare@, common@, best),
                        next_rare@ == next.0.take(z as int),
                        next_common@ == next.1.take(z as int),
                    decreases domain - z,
                {
                    let other = z ^ best;
                    next_rare.push(rare[z] || (other < domain && common[other]));
                    next_common.push(common[z] || (other < domain && rare[other]));
                    assert(next_rare@ =~= next.0.take(z + 1));
                    assert(next_common@ =~= next.1.take(z + 1));
                    z = z + 1;
                }
                assert(next_rare@ =~= next.0);
                assert(next_common@ =~= next.1);
                rare = next_rare;
                common = next_common;
                round = round + 1;
            }
        }
        let reach = if domain < rares.len() {
            domain
        } else {
            rares.len()
        };
        let mut x: usize = 1;
        while x < reach
            invariant
                1 <= x,
                x <= reach || reach == 0,
                reach <= rare@.len(),
                reach <= rares@.len(),
                reach == rare@.len() || reach == rares@.len(),
                rares@.len() == bin_len(self.largest_nimber),
                forall|i: int|
                    0 <= i < rares@.len() ==> (#[trigger] rares@[i] <==> (i == 0 || (i < x
                        && rare@[i]))),
            decreases reach - x,
        {
            if rare[x] {
                rares.set_bit(x);
            }
            x = x + 1;
        }
        assert(rares@ =~= rare_mask(self.frequencies@, bin_len(self.largest_nimber)));
        rares
    }
}

} // verus!
