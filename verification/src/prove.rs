//! The last phases of the fast computation: the least common value that is not
//! marked is the candidate, and the pairs of heaps are walked only until every
//! rare value below the candidate is met.
use crate::bitset::{
    lemma_unset_count_only, lemma_unset_count_positive, lemma_unset_count_single,
    lemma_unset_count_update, unset_count,
};
use crate::drive::lemma_freq_len;
use crate::game::{lemma_rare_index_entries, lemma_rare_index_has, rare_index, Game};
use crate::grundy::{
    is_grundy_value, is_successor, lemma_nimber_xor_below, lemma_successor_below, may_clear,
    may_split, may_take, split_value,
};
use crate::nimber::Nimber;
use crate::parallel::{clear_all, scratch_bit};
use crate::partition::{is_rare_mask, marks};
use crate::rules::Rule;
use crate::sieve::{may_halve, rare_pair, rare_pair_before, with_rare_pairs, with_taken};
use vstd::prelude::*;

verus! {

/// Taking `i` tokens from a heap of `n` may leave a heap of `a` tokens beside
/// another one, whichever of the two is the smaller.
pub open spec fn may_pair(rules: Seq<Rule>, n: int, i: int, a: int) -> bool {
    1 <= i < rules.len() && rules[i].divide && 1 <= a && a + i < n
}

/// What the marks hold when the first phases are done: only values that a move
/// from `n` reaches, among them every value of a single heap and every value
/// of a pair in which a heap of rare value takes part.
pub open spec fn sieved(
    rules: Seq<Rule>,
    g: Seq<Nimber>,
    rare: Seq<bool>,
    n: int,
    seen: Seq<bool>,
) -> bool {
    &&& forall|s: int| 0 <= s < seen.len() && #[trigger] seen[s] ==> is_successor(rules, g, n, s)
    &&& forall|i: int| #[trigger]
        may_take(rules, n, i) ==> g[n - i] < seen.len() && seen[g[n - i] as int]
    &&& forall|i: int, a: int| #[trigger]
        may_pair(rules, n, i, a) && marks(rare, g[a] as usize) ==> split_value(g, a, n - i - a)
            < seen.len() && seen[split_value(g, a, n - i - a) as int]
}

pub proof fn lemma_xor_commutes(a: Nimber, b: Nimber)
    ensures
        a ^ b == b ^ a,
        a ^ a == 0,
{
    assert(a ^ b == b ^ a) by (bit_vector);
    assert(a ^ a == 0) by (bit_vector);
}

/// The value of a pair of heaps that a move may leave is reached, whichever of
/// the two is named.
pub proof fn lemma_pair_is_successor(rules: Seq<Rule>, g: Seq<Nimber>, n: int, i: int, a: int)
    requires
        may_pair(rules, n, i, a),
    ensures
        is_successor(rules, g, n, split_value(g, a, n - i - a) as int),
{
    let b = n - i - a;
    lemma_xor_commutes(g[a], g[b]);
    if a <= b {
        assert(may_split(rules, n, i, a) && split_value(g, a, n - i - a) == split_value(g, a, b));
    } else {
        assert(may_split(rules, n, i, b) && split_value(g, b, n - i - b) == split_value(g, a, b));
    }
}

/// The marks of the first three phases are sieved.
#[verifier::rlimit(50)]
pub proof fn lemma_phases_sieve(
    rules: Seq<Rule>,
    g: Seq<Nimber>,
    rare: Seq<bool>,
    n: int,
    cleared: Seq<bool>,
    bound: usize,
)
    requires
        1 <= rules.len() <= n <= g.len(),
        n <= usize::MAX,
        crate::pow2::is_pow2(bound),
        bound <= cleared.len(),
        forall|k: int| 0 <= k < n ==> #[trigger] g[k] < bound,
        forall|s: int| 0 <= s < cleared.len() ==> !cleared[s],
    ensures
        sieved(
            rules,
            g,
            rare,
            n,
            with_rare_pairs(
                if may_halve(rules, n) {
                    with_taken(cleared, rules, g, n).update(0, true)
                } else {
                    with_taken(cleared, rules, g, n)
                },
                rules,
                g,
                rare_index(g, rare, n),
                n,
            ),
        ),
{
    let index = rare_index(g, rare, n);
    let one = with_taken(cleared, rules, g, n);
    let two = if may_halve(rules, n) {
        one.update(0, true)
    } else {
        one
    };
    let three = with_rare_pairs(two, rules, g, index, n);
    lemma_rare_index_entries(g, rare, n);
    assert forall|s: int| 0 <= s < three.len() && #[trigger] three[s] implies is_successor(
        rules,
        g,
        n,
        s,
    ) by {
        if rare_pair_before(rules, g, index, n, rules.len() as int, 0, s) {
            let (i, k) = choose|i: int, k: int| #[trigger]
                rare_pair(rules, g, index, n, i, k, s) && (i < rules.len() || (i == rules.len()
                    && k < 0));
            let e = index[k];
            assert(may_pair(rules, n, i, e.0 as int));
            lemma_pair_is_successor(rules, g, n, i, e.0 as int);
        } else if one[s] {
            let i = choose|i: int| #[trigger]
                may_take(rules, n, i) && i < rules.len() && g[n - i] == s;
            assert(may_take(rules, n, i) && g[n - i] == s);
        } else {
            let i = choose|i: int|
                1 <= i < rules.len() && i < n && (#[trigger] rules[i]).divide && (n - i) % 2 == 0;
            let j = (n - i) / 2;
            lemma_xor_commutes(g[j], g[j]);
            assert(may_split(rules, n, i, j) && split_value(g, j, n - i - j) == 0);
        }
    }
    assert forall|i: int| #[trigger] may_take(rules, n, i) implies g[n - i] < three.len()
        && three[g[n - i] as int] by {
        assert(may_take(rules, n, i) && i < rules.len() && g[n - i] == g[n - i] as int);
        assert(one[g[n - i] as int]);
    }
    assert forall|i: int, a: int| #[trigger]
        may_pair(rules, n, i, a) && marks(rare, g[a] as usize) implies split_value(
        g,
        a,
        n - i - a,
    ) < three.len() && three[split_value(g, a, n - i - a) as int] by {
        lemma_rare_index_has(g, rare, n, a);
        let k = choose|k: int| 0 <= k < index.len() && (#[trigger] index[k]).0 == a;
        let s = split_value(g, a, n - i - a);
        lemma_nimber_xor_below(g[a], g[n - i - a], bound);
        assert(rare_pair(rules, g, index, n, i, k, s as int) && (i < rules.len() || (i
            == rules.len() && k < 0)));
    }
}

/// Once the first phases are done, a value that a move reaches and that is
/// not marked is rare.
#[verifier::rlimit(50)]
pub proof fn lemma_unmarked_successor_is_rare(
    rules: Seq<Rule>,
    g: Seq<Nimber>,
    rare: Seq<bool>,
    limit: nat,
    n: int,
    seen: Seq<bool>,
    s: int,
)
    requires
        1 <= rules.len() <= n <= g.len(),
        sieved(rules, g, rare, n, seen),
        is_rare_mask(rare, limit),
        forall|k: int| 0 <= k < n ==> #[trigger] g[k] < limit,
        is_successor(rules, g, n, s),
        0 <= s < seen.len(),
        !seen[s],
    ensures
        marks(rare, s as usize),
{
    if may_clear(rules, n) && s == 0 {
    } else if exists|i: int| #[trigger] may_take(rules, n, i) && g[n - i] == s {
        let i = choose|i: int| #[trigger] may_take(rules, n, i) && g[n - i] == s;
        assert(seen[g[n - i] as int]);
    } else {
        let (i, j) = choose|i: int, j: int| #[trigger]
            may_split(rules, n, i, j) && split_value(g, j, n - i - j) == s;
        let b = n - i - j;
        lemma_xor_commutes(g[j], g[b]);
        if marks(rare, g[j] as usize) {
            assert(may_pair(rules, n, i, j));
            assert(seen[split_value(g, j, n - i - j) as int]);
        } else if marks(rare, g[b] as usize) {
            assert(may_pair(rules, n, i, b));
            assert(seen[split_value(g, b, n - i - b) as int]);
        } else {
            let x = g[j] as usize;
            let y = g[b] as usize;
            crate::grundy::lemma_xor_widens(g[j], g[b]);
            assert(marks(rare, x ^ y));
        }
    }
}

/// Once every value below the candidate is met, the candidate is the nim-value;
/// and it is not the last index of the marks, which no move reaches.
pub proof fn lemma_candidate_wins(
    rules: Seq<Rule>,
    g: Seq<Nimber>,
    n: int,
    mex: Seq<bool>,
    candidate: int,
    bound: usize,
)
    requires
        0 <= n <= g.len(),
        0 <= candidate,
        mex.len() == candidate + 1,
        !mex[candidate],
        unset_count(mex) == 1,
        forall|u: int| 0 <= u < candidate && #[trigger] mex[u] ==> is_successor(rules, g, n, u),
        !is_successor(rules, g, n, candidate),
        crate::pow2::is_pow2(bound),
        forall|k: int| 0 <= k < n ==> #[trigger] g[k] < bound,
    ensures
        is_grundy_value(rules, g, n, candidate),
        candidate <= bound,
{
    lemma_unset_count_single(mex, candidate);
    assert forall|k: int| 0 <= k < candidate implies is_successor(rules, g, n, k) by {
        assert(mex[k]);
    }
    if candidate > bound {
        lemma_successor_below(rules, g, n, bound as int, bound);
    }
}

/// The plain scan and the fast computation give a heap the same value.
pub proof fn lemma_naive_and_rc_agree(game: Game, n: int, by_naive: Nimber, by_rc: Nimber)
    requires
        is_grundy_value(game.rules@, game.nimbers.g@, n, by_naive as int),
        is_grundy_value(game.rules@, game.nimbers.g@, n, by_rc as int),
    ensures
        by_naive == by_rc,
{
    crate::grundy::lemma_grundy_value_unique(
        game.rules@,
        game.nimbers.g@,
        n,
        by_naive as int,
        by_rc as int,
    );
}

/// Two games with the same rules and the same values of the heaps below `n`
/// give the heap of `n` tokens the same value, whatever else they differ in:
/// the number of their worker threads, their counters, their split.
pub proof fn lemma_value_is_independent_of_workers(
    one: Game,
    other: Game,
    n: int,
    value: Nimber,
    other_value: Nimber,
)
    requires
        0 <= n <= one.nimbers.g@.len(),
        n <= other.nimbers.g@.len(),
        one.rules@ == other.rules@,
        forall|k: int| 0 <= k < n ==> one.nimbers.g@[k] == other.nimbers.g@[k],
        is_grundy_value(one.rules@, one.nimbers.g@, n, value as int),
        is_grundy_value(other.rules@, other.nimbers.g@, n, other_value as int),
    ensures
        value == other_value,
{
    crate::grundy::lemma_grundy_value_reads_prefix(
        one.rules@,
        one.nimbers.g@,
        other.nimbers.g@,
        n,
        value as int,
    );
    crate::grundy::lemma_grundy_value_unique(
        other.rules@,
        other.nimbers.g@,
        n,
        value as int,
        other_value as int,
    );
}

/// Two games with the same rules whose heaps below `n` hold their nim-values hold
/// the same values there, however they were computed.
pub proof fn lemma_solved_is_unique(one: Game, other: Game, n: int)
    requires
        one.rules@ == other.rules@,
        one.solved(n),
        other.solved(n),
    ensures
        forall|k: int| 0 <= k < n ==> one.nimbers.g@[k] == other.nimbers.g@[k],
    decreases n,
{
    if n > 0 {
        lemma_solved_is_unique(one, other, n - 1);
        if n > 1 {
            let k = n - 1;
            crate::grundy::lemma_grundy_value_reads_prefix(
                one.rules@,
                one.nimbers.g@,
                other.nimbers.g@,
                k,
                one.nimbers.g@[k] as int,
            );
            crate::grundy::lemma_grundy_value_unique(
                other.rules@,
                other.nimbers.g@,
                k,
                one.nimbers.g@[k] as int,
                other.nimbers.g@[k] as int,
            );
        }
    }
}

impl Game {
    /// The nim-value of a heap of `n` tokens, once the first phases have marked
    /// what they reach.
    ///
    /// The candidate is the least value that is neither marked nor rare. It is
    /// the nim-value unless a rare value below it is reached by no move: the
    /// pairs of heaps are walked until each of those rare values is met, or to
    /// the end, and then the least value that was not met is the nim-value,
    /// and is kept as the latest rare one.
    #[verifier::rlimit(50)]
    pub fn prove(&mut self, n: usize) -> (nim: Nimber)
        requires
            old(self).ready(n as int),
            sieved(
                old(self).rules@,
                old(self).nimbers.g@,
                old(self).bits.rare@,
                n as int,
                old(self).bits.seen@,
            ),
            forall|m: int|
                is_grundy_value(old(self).rules@, old(self).nimbers.g@, n as int, m) ==> m
                    <= Nimber::MAX,
        ensures
            is_grundy_value(old(self).rules@, old(self).nimbers.g@, n as int, nim as int),
            final(self).rules == old(self).rules,
            final(self).nimbers == old(self).nimbers,
            final(self).bits == old(self).bits,
            final(self).stats.largest_nimber == old(self).stats.largest_nimber,
            final(self).stats.frequencies == old(self).stats.frequencies,
            final(self).stats.largest_nimber_index == old(self).stats.largest_nimber_index,
            final(self).stats.prev_values >= old(self).stats.prev_values,
            final(self).stats.latest_rare == if marks(old(self).bits.rare@, nim as usize) {
                nim
            } else {
                old(self).stats.latest_rare
            },
            final(self).stats.latest_rare_index == if marks(old(self).bits.rare@, nim as usize) {
                n
            } else {
                old(self).stats.latest_rare_index
            },
    {
        let ghost rules = self.rules@;
        let ghost g = self.nimbers.g@;
        let ghost rare = self.bits.rare@;
        let ghost seen = self.bits.seen@;
        let ghost limit = self.stats.frequencies@.len();
        let ghost found = exists|j: int| 0 <= j < rare.len() && !seen[j] && !rare[j];
        proof {
            lemma_freq_len(self.stats.largest_nimber);
        }
        let ghost bound: usize = (seen.len() - 2) as usize;
        let first_common = self.bits.seen.find_first_unset_also_unset_in(&self.bits.rare);
        proof {
            if seen[first_common as int] {
                lemma_successor_below(rules, g, n as int, first_common as int, bound);
            }
            if is_successor(rules, g, n as int, first_common as int) {
                if found {
                    lemma_unmarked_successor_is_rare(
                        rules,
                        g,
                        rare,
                        limit,
                        n as int,
                        seen,
                        first_common as int,
                    );
                } else {
                    lemma_successor_below(rules, g, n as int, first_common as int, bound);
                }
            }
        }
        let mut mex = self.bits.seen.copy_up_to_inclusive(first_common + 1);
        proof {
            lemma_unset_count_positive(mex@, first_common as int);
        }
        let mut remaining_unset = mex.count_unset() - 1;
        let r = self.rules.len();
        let mut i: usize = 1;
        while i < r
            invariant
                1 <= i,
                r == rules.len(),
                r <= n <= g.len(),
                rules == self.rules@,
                g == self.nimbers.g@,
                rare == self.bits.rare@,
                seen == self.bits.seen@,
                seen.len() == rare.len(),
                bound == seen.len() - 2,
                crate::pow2::is_pow2(bound),
                forall|k: int| 0 <= k < n ==> #[trigger] g[k] < bound,
                sieved(rules, g, rare, n as int, seen),
                first_common < seen.len(),
                found ==> !marks(rare, first_common),
                !found ==> first_common == seen.len() - 1,
                !is_successor(rules, g, n as int, first_common as int),
                forall|m: int| is_grundy_value(rules, g, n as int, m) ==> m <= Nimber::MAX,
                mex@.len() == first_common + 1,
                !mex@[first_common as int],
                forall|u: int| 0 <= u < first_common && seen[u] ==> mex@[u],
                forall|u: int|
                    0 <= u < first_common && #[trigger] mex@[u] ==> is_successor(
                        rules,
                        g,
                        n as int,
                        u,
                    ),
                remaining_unset + 1 == unset_count(mex@),
                forall|a: int, b: int| #[trigger]
                    may_split(rules, n as int, a, b) && a < i && split_value(g, b, n - a - b)
                        < first_common ==> mex@[split_value(g, b, n - a - b) as int],
                self.rules == old(self).rules,
                self.nimbers == old(self).nimbers,
                self.bits == old(self).bits,
                self.stats == old(self).stats,
            decreases r - i,
        {
            if remaining_unset == 0 {
                proof {
                    lemma_candidate_wins(rules, g, n as int, mex@, first_common as int, bound);
                }
                return first_common as Nimber;
            }
            if self.rules[i].divide {
                let half = (n - i) / 2;
                let mut j: usize = 1;
                while j <= half
                    invariant
                        1 <= j <= half + 1,
                        half == (n - i) / 2,
                        1 <= i < r,
                        rules[i as int].divide,
                        r == rules.len(),
                        r <= n <= g.len(),
                        rules == self.rules@,
                        g == self.nimbers.g@,
                        rare == self.bits.rare@,
                        seen == self.bits.seen@,
                        seen.len() == rare.len(),
                        bound == seen.len() - 2,
                        crate::pow2::is_pow2(bound),
                        forall|k: int| 0 <= k < n ==> #[trigger] g[k] < bound,
                        first_common < seen.len(),
                        found ==> !marks(rare, first_common),
                        !found ==> first_common == seen.len() - 1,
                        !is_successor(rules, g, n as int, first_common as int),
                        forall|m: int| is_grundy_value(rules, g, n as int, m) ==> m <= Nimber::MAX,
                        mex@.len() == first_common + 1,
                        !mex@[first_common as int],
                        forall|u: int| 0 <= u < first_common && seen[u] ==> mex@[u],
                        forall|u: int|
                            0 <= u < first_common && #[trigger] mex@[u] ==> is_successor(
                                rules,
                                g,
                                n as int,
                                u,
                            ),
                        remaining_unset + 1 == unset_count(mex@),
                        remaining_unset > 0,
                        forall|a: int, b: int| #[trigger]
                            may_split(rules, n as int, a, b) && (a < i || (a == i && b < j))
                                && split_value(g, b, n - a - b) < first_common ==> mex@[split_value(
                                g,
                                b,
                                n - a - b,
                            ) as int],
                        self.rules == old(self).rules,
                        self.nimbers == old(self).nimbers,
                        self.bits == old(self).bits,
                        self.stats == old(self).stats,
                    decreases half + 1 - j,
                {
                    let a = self.nimbers.g[j];
                    let b = self.nimbers.g[n - i - j];
                    let loc = (a ^ b) as usize;
                    assert(may_split(rules, n as int, i as int, j as int) && split_value(
                        g,
                        j as int,
                        n - i - j,
                    ) == loc);
                    if loc < first_common && !mex.get(loc) {
                        proof {
                            lemma_unset_count_update(mex@, loc as int);
                        }
                        mex.set_bit(loc);
                        remaining_unset = remaining_unset - 1;
                        if remaining_unset == 0 {
                            proof {
                                lemma_candidate_wins(
                                    rules,
                                    g,
                                    n as int,
                                    mex@,
                                    first_common as int,
                                    bound,
                                );
                            }
                            if j > self.stats.prev_values {
                                self.stats.prev_values = j;
                            }
                            return first_common as Nimber;
                        }
                    }
                    j = j + 1;
                }
            }
            i = i + 1;
        }
        if remaining_unset == 0 {
            proof {
                lemma_candidate_wins(rules, g, n as int, mex@, first_common as int, bound);
            }
            return first_common as Nimber;
        }
        let lowest = mex.lowest_unset();
        proof {
            if lowest == first_common {
                lemma_unset_count_only(mex@, first_common as int);
            }
            if is_successor(rules, g, n as int, lowest as int) {
                if exists|a: int| #[trigger] may_take(rules, n as int, a) && g[n - a] == lowest {
                    let a = choose|a: int| #[trigger]
                        may_take(rules, n as int, a) && g[n - a] == lowest;
                    assert(seen[g[n - a] as int]);
                } else {
                    let (a, b) = choose|a: int, b: int| #[trigger]
                        may_split(rules, n as int, a, b) && split_value(g, b, n - a - b) == lowest;
                    assert(mex@[split_value(g, b, n - a - b) as int]);
                }
            }
            assert forall|k: int| 0 <= k < lowest implies is_successor(rules, g, n as int, k) by {
                assert(mex@[k]);
            }
            assert(is_grundy_value(rules, g, n as int, lowest as int));
            assert(lowest < first_common);
            assert(!seen[lowest as int]);
            if !marks(rare, lowest) {
                assert(seen[lowest as int] || rare[lowest as int]);
            }
        }
        let nim = lowest as Nimber;
        self.stats.latest_rare = nim;
        self.stats.latest_rare_index = n;
        nim
    }

    /// The nim-value of a heap of `n` tokens by the fast computation, which is
    /// that of the plain scan.
    ///
    /// The moves that leave one heap are marked, then the pairs in which a heap
    /// of rare value takes part; what is still missing can only be the value of
    /// two heaps of common value, which is rare. With more than one scratch
    /// set the work is shared out among the worker threads; the value is the
    /// same.
    #[verifier::rlimit(50)]
    pub fn rc(&mut self, n: usize) -> (nim: Nimber)
        requires
            old(self).ready(n as int),
            forall|m: int|
                is_grundy_value(old(self).rules@, old(self).nimbers.g@, n as int, m) ==> m
                    <= Nimber::MAX,
        ensures
            is_grundy_value(old(self).rules@, old(self).nimbers.g@, n as int, nim as int),
            final(self).ready(n as int),
            final(self).rules == old(self).rules,
            final(self).nimbers == old(self).nimbers,
            final(self).bits.rare == old(self).bits.rare,
            final(self).stats.largest_nimber == old(self).stats.largest_nimber,
            final(self).stats.frequencies == old(self).stats.frequencies,
            final(self).stats.largest_nimber_index == old(self).stats.largest_nimber_index,
            final(self).stats.prev_values >= old(self).stats.prev_values,
            final(self).stats.latest_rare == if marks(old(self).bits.rare@, nim as usize) {
                nim
            } else {
                old(self).stats.latest_rare
            },
            final(self).stats.latest_rare_index == if marks(old(self).bits.rare@, nim as usize) {
                n
            } else {
                old(self).stats.latest_rare_index
            },
    {
        let ghost rules = self.rules@;
        let ghost g = self.nimbers.g@;
        let ghost rare = self.bits.rare@;
        let ghost bound: usize = (self.bits.seen@.len() - 2) as usize;
        proof {
            lemma_freq_len(self.stats.largest_nimber);
            lemma_rare_index_entries(g, rare, n as int);
        }
        self.bits.seen.zero_bits();
        clear_all(&mut self.bits.partial);
        let ghost zero = self.bits.seen@;
        self.set_seen_bits_from_some_moves(n);
        self.set_0th_bit_if_can_be_divided_in_half(n);
        proof {
            assert(crate::pow2::is_pow2(bound) && bound <= self.bits.seen@.len());
            assert forall|k: int| 0 <= k < self.nimbers.rare@.len() implies (
            #[trigger] self.nimbers.rare@[k]).1 < bound by {
                let e = rare_index(g, rare, n as int)[k];
                assert(e.1 == g[e.0 as int]);
            }
        }
        if self.bits.partial.len() <= 1 {
            self.iterate_over_r_xor_c(n);
            proof {
                lemma_phases_sieve(rules, g, rare, n as int, zero, bound);
            }
            self.prove(n)
        } else {
            proof {
                assert forall|k: int, u: int|
                    0 <= k < self.bits.partial@.len() && 0 <= u < self.bits.seen@.len()
                        && #[trigger] scratch_bit(self.bits.partial@, k,
                            u) implies self.bits.seen@[u] by {
                    assert(!self.bits.partial@[k]@[u]);
                }
            }
            self.iterate_over_r_xor_c_mt(n);
            proof {
                lemma_phases_sieve(rules, g, rare, n as int, zero, bound);
            }
            self.prove_mt(n)
        }
    }

    /// Computes the values of the heaps of the prefix, one after the other, from
    /// a game that is new; returns how many heaps are computed.
    ///
    /// That is all of them, unless the next value might not fit a nimber: the
    /// computation stops before a heap of more tokens than a nimber can count
    /// once a value has reached a quarter of what a nimber can hold. Nothing is
    /// computed for a game without a rule, or with more rules than the prefix
    /// has heaps, or than there are nimbers.
    pub fn solve(&mut self) -> (done: usize)
        requires
            old(self).stats.frequencies@.len() == 0,
        ensures
            final(self).rules == old(self).rules,
            final(self).nimbers.g@.len() == old(self).nimbers.g@.len(),
            final(self).nimbers.g_back == old(self).nimbers.g_back,
            (1 <= old(self).rules@.len() <= old(self).nimbers.g@.len() && old(self).rules@.len()
                <= 0x1_0000) ==> {
                &&& old(self).rules@.len() <= done <= old(self).nimbers.g@.len()
                &&& final(self).ready(done as int)
                &&& final(self).solved(done as int)
                &&& done == old(self).nimbers.g@.len() || (done > Nimber::MAX && final(self).stats.largest_nimber >= 0x4000)
            },
            !(1 <= old(self).rules@.len() <= old(self).nimbers.g@.len() && old(self).rules@.len()
                <= 0x1_0000) ==> done == 0 && *final(self) == *old(self),
    {
        let rules = self.rules.len();
        let max = self.nimbers.g.len();
        if rules < 1 || rules > max || rules > 0x1_0000 {
            return 0;
        }
        self.init();
        let mut n = rules;
        while n < max && (n <= Nimber::MAX as usize || self.stats.largest_nimber < 0x4000)
            invariant
                rules <= n <= max,
                1 <= rules,
                rules == self.rules@.len(),
                max == self.nimbers.g@.len(),
                self.ready(n as int),
                self.solved(n as int),
                self.rules == old(self).rules,
                self.nimbers.g_back == old(self).nimbers.g_back,
            decreases max - n,
        {
            proof {
                assert forall|m: int|
                    is_grundy_value(self.rules@, self.nimbers.g@, n as int, m) implies m
                    <= Nimber::MAX by {
                    if n <= Nimber::MAX {
                        crate::grundy::lemma_next_grundy_value_bounded(
                            self.rules@,
                            self.nimbers.g@,
                            n as int,
                            m,
                        );
                    } else {
                        crate::drive::lemma_small_values_fit(*self, n as int, m);
                    }
                }
            }
            self.calc_rc(n);
            n = n + 1;
        }
        n
    }

    /// Computes the value of the heap of `n` tokens by the fast computation, and
    /// records it.
    pub fn calc_rc(&mut self, n: usize)
        requires
            old(self).ready(n as int),
            n < old(self).nimbers.g@.len(),
            forall|m: int|
                is_grundy_value(old(self).rules@, old(self).nimbers.g@, n as int, m) ==> m
                    <= Nimber::MAX,
        ensures
            final(self).ready(n + 1),
            is_grundy_value(
                old(self).rules@,
                old(self).nimbers.g@,
                n as int,
                final(self).nimbers.g@[n as int] as int,
            ),
            final(self).nimbers.g@ == old(self).nimbers.g@.update(
                n as int,
                final(self).nimbers.g@[n as int],
            ),
            old(self).solved(n as int) ==> final(self).solved(n + 1),
            final(self).rules == old(self).rules,
            final(self).nimbers.g_back == old(self).nimbers.g_back,
    {
        let nim = self.rc(n);
        self.set_next_g_n(n, nim);
        proof {
            self.lemma_solved_extends(*old(self), n as int);
        }
    }
}

} // verus!
