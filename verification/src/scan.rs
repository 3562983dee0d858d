//! The plain computation of a nim-value: mark what every move reaches, take
//! the least value that is not marked.
use crate::bitset::Bin;
use crate::game::Game;
use crate::grundy::{
    is_grundy_prefix, is_grundy_value, is_successor, lemma_grundy_value_reads_prefix,
    lemma_nimber_xor_below, lemma_successor_below, lemma_successor_below_size, may_clear,
    may_split, may_take, split_value,
};
use crate::nimber::Nimber;
use crate::pow2::{is_pow2, lemma_npot_bounds, lemma_npot_is_pow2, lemma_twice_npot, npot};
use crate::rules::Rule;
use vstd::prelude::*;

verus! {

/// The nim-value of a heap of `n` tokens, from the values of the smaller heaps.
/// `seen` is the scratch set; `bound` is a power of two above those values and
/// inside the set.
#[verifier::rlimit(50)]
pub(crate) fn mex_by_scan(
    rules: &Vec<Rule>,
    g: &Vec<Nimber>,
    n: usize,
    seen: &mut Bin,
    Ghost(bound): Ghost<usize>,
) -> (m: usize)
    requires
        n <= g@.len(),
        is_pow2(bound),
        bound < old(seen)@.len(),
        forall|k: int| 0 <= k < n ==> g@[k] < bound,
    ensures
        is_grundy_value(rules@, g@, n as int, m as int),
        m <= bound,
        final(seen)@.len() == old(seen)@.len(),
{
    let r = rules.len();
    seen.zero_bits();
    if n < r && rules[n].all {
        seen.set_bit(0);
    }
    let mut i: usize = 1;
    while i < r
        invariant
            1 <= i,
            r == rules@.len(),
            n <= g@.len(),
            is_pow2(bound),
            bound < seen@.len(),
            seen@.len() == old(seen)@.len(),
            forall|k: int| 0 <= k < n ==> g@[k] < bound,
            may_clear(rules@, n as int) ==> seen@[0],
            forall|s: int| 0 <= s < seen@.len() && #[trigger] seen@[s]
                ==> is_successor(rules@, g@, n as int, s),
            forall|a: int| #[trigger] may_take(rules@, n as int, a) && a < i
                ==> g@[n - a] < bound && seen@[g@[n - a] as int],
            forall|a: int, b: int| #[trigger] may_split(rules@, n as int, a, b) && a < i
                ==> split_value(g@, b, n - a - b) < bound
                && seen@[split_value(g@, b, n - a - b) as int],
        decreases r - i,
    {
        if i < n {
            if rules[i].some {
                let v = g[n - i];
                assert(may_take(rules@, n as int, i as int) && g@[n - i] == v);
                seen.set_bit(v as usize);
            }
            if rules[i].divide {
                let half = (n - i) / 2;
                let mut j: usize = 1;
                while j <= half
                    invariant
                        1 <= j <= half + 1,
                        half == (n - i) / 2,
                        1 <= i < r,
                        i < n,
                        rules@[i as int].divide,
                        r == rules@.len(),
                        n <= g@.len(),
                        is_pow2(bound),
                        bound < seen@.len(),
                        seen@.len() == old(seen)@.len(),
                        forall|k: int| 0 <= k < n ==> g@[k] < bound,
                        may_clear(rules@, n as int) ==> seen@[0],
                        forall|s: int| 0 <= s < seen@.len() && #[trigger] seen@[s]
                            ==> is_successor(rules@, g@, n as int, s),
                        forall|a: int| #[trigger] may_take(rules@, n as int, a) && a <= i
                            ==> g@[n - a] < bound && seen@[g@[n - a] as int],
                        forall|a: int, b: int| #[trigger] may_split(rules@, n as int, a, b)
                            && (a < i || (a == i && b < j))
                            ==> split_value(g@, b, n - a - b) < bound
                            && seen@[split_value(g@, b, n - a - b) as int],
                    decreases half + 1 - j,
                {
                    let x = g[j];
                    let y = g[n - i - j];
                    proof {
                        lemma_nimber_xor_below(x, y, bound);
                        assert(may_split(rules@, n as int, i as int, j as int)
                            && split_value(g@, j as int, n - i - j) == x ^ y);
                    }
                    seen.set_bit((x ^ y) as usize);
                    j = j + 1;
                }
            }
        }
        i = i + 1;
    }
    proof {
        if seen@[bound as int] {
            lemma_successor_below(rules@, g@, n as int, bound as int, bound);
        }
    }
    let m = seen.lowest_unset();
    proof {
        if is_successor(rules@, g@, n as int, m as int) {
            if may_clear(rules@, n as int) && m == 0 {
            } else if exists|a: int| #[trigger] may_take(rules@, n as int, a) && g@[n - a] == m {
                let a = choose|a: int| #[trigger] may_take(rules@, n as int, a) && g@[n - a] == m;
                assert(seen@[g@[n - a] as int]);
            } else {
                let (a, b) = choose|a: int, b: int| #[trigger]
                    may_split(rules@, n as int, a, b) && split_value(g@, b, n - a - b) == m;
                assert(seen@[split_value(g@, b, n - a - b) as int]);
            }
        }
        assert forall|k: int| 0 <= k < m implies is_successor(rules@, g@, n as int, k) by {
            assert(seen@[k]);
        }
    }
    m
}

/// Marks of length `len` can take every value that a move from a heap of `n`
/// tokens reaches, and one more: `bound` is a power of two inside the marks and
/// above the values of all smaller heaps.
pub open spec fn can_mark(g: Seq<Nimber>, n: int, len: nat, bound: usize) -> bool {
    &&& is_pow2(bound)
    &&& bound < len
    &&& forall|k: int| 0 <= k < n ==> #[trigger] g[k] < bound
}

/// The marks of a game whose heaps below `n` are computed can take what a move
/// from the heap of `n` tokens reaches.
pub proof fn lemma_ready_can_mark(game: Game, n: int)
    requires
        game.ready(n),
    ensures
        can_mark(
            game.nimbers.g@,
            n,
            game.bits.seen@.len(),
            (2 * npot(game.stats.largest_nimber as nat)) as usize,
        ),
{
    lemma_npot_bounds(game.stats.largest_nimber as nat);
    lemma_twice_npot(game.stats.largest_nimber as nat);
}

impl Game {
    /// The nim-value of a heap of `n` tokens, by marking what every move
    /// reaches. The values of the smaller heaps are taken as they stand; the
    /// marks must reach beyond a power of two that is above all of them.
    pub fn naive(&mut self, n: usize) -> (nim: Nimber)
        requires
            old(self).rules@.len() <= n <= old(self).nimbers.g@.len(),
            exists|bound: usize| #[trigger]
                can_mark(old(self).nimbers.g@, n as int, old(self).bits.seen@.len(), bound),
            forall|m: int|
                is_grundy_value(old(self).rules@, old(self).nimbers.g@, n as int, m) ==> m
                    <= Nimber::MAX,
        ensures
            is_grundy_value(old(self).rules@, old(self).nimbers.g@, n as int, nim as int),
            old(self).ready(n as int) ==> final(self).ready(n as int),
            final(self).rules == old(self).rules,
            final(self).nimbers == old(self).nimbers,
            final(self).stats == old(self).stats,
            final(self).bits.rare == old(self).bits.rare,
            final(self).bits.partial == old(self).bits.partial,
            final(self).bits.seen@.len() == old(self).bits.seen@.len(),
    {
        let ghost bound = choose|bound: usize| #[trigger]
            can_mark(self.nimbers.g@, n as int, self.bits.seen@.len(), bound);
        let m = mex_by_scan(&self.rules, &self.nimbers.g, n, &mut self.bits.seen, Ghost(bound));
        m as Nimber
    }

    /// Fills in the values of the heaps that hold fewer tokens than the game
    /// has rules. For these a rule may ask for more tokens than the heap has,
    /// and the whole heap may be taken where its rule allows.
    pub fn initialize(&mut self)
        requires
            1 <= old(self).rules@.len() <= old(self).nimbers.g@.len(),
            old(self).rules@.len() <= 0x1_0000,
        ensures
            is_grundy_prefix(final(self).rules@, final(self).nimbers.g@,
                final(self).rules@.len() as int),
            final(self).nimbers.g@.len() == old(self).nimbers.g@.len(),
            forall|k: int| 0 <= k < final(self).rules@.len()
                ==> #[trigger] final(self).nimbers.g@[k] <= k,
            forall|k: int| final(self).rules@.len() <= k < final(self).nimbers.g@.len()
                ==> #[trigger] final(self).nimbers.g@[k] == old(self).nimbers.g@[k],
            final(self).rules == old(self).rules,
            final(self).nimbers.g_back == old(self).nimbers.g_back,
            final(self).nimbers.rare == old(self).nimbers.rare,
            final(self).stats == old(self).stats,
            final(self).bits == old(self).bits,
    {
        let r = self.rules.len();
        self.nimbers.g.set(0, 0);
        let mut seen = Bin::with_len(2 * r + 2);
        let mut n: usize = 1;
        while n < r
            invariant
                1 <= n <= r,
                r == self.rules@.len(),
                r <= self.nimbers.g@.len(),
                r <= 0x1_0000,
                seen@.len() == 2 * r + 2,
                self.nimbers.g@.len() == old(self).nimbers.g@.len(),
                is_grundy_prefix(self.rules@, self.nimbers.g@, n as int),
                forall|k: int| 0 <= k < n ==> #[trigger] self.nimbers.g@[k] <= k,
                forall|k: int| r <= k < self.nimbers.g@.len()
                    ==> #[trigger] self.nimbers.g@[k] == old(self).nimbers.g@[k],
                self.rules == old(self).rules,
                self.nimbers.g_back == old(self).nimbers.g_back,
                self.nimbers.rare == old(self).nimbers.rare,
                self.stats == old(self).stats,
                self.bits == old(self).bits,
            decreases r - n,
        {
            let ghost bound: usize = npot(n as nat) as usize;
            let ghost before = self.nimbers.g@;
            proof {
                lemma_npot_bounds(n as nat);
                lemma_npot_is_pow2(n as nat);
            }
            let m = mex_by_scan(&self.rules, &self.nimbers.g, n, &mut seen, Ghost(bound));
            proof {
                if m > n {
                    assert(is_successor(self.rules@, before, n as int, n as int));
                    lemma_successor_below_size(self.rules@, before, n as int, n as int);
                }
            }
            self.nimbers.g.set(n, m as Nimber);
            proof {
                let after = self.nimbers.g@;
                assert forall|k: int| 1 <= k < n + 1 implies is_grundy_value(self.rules@, after, k,
                    #[trigger] after[k] as int) by {
                    lemma_grundy_value_reads_prefix(self.rules@, before, after, k, after[k] as int);
                }
            }
            n = n + 1;
        }
    }
}

} // verus!
