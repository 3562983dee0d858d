//! The first phases of the fast computation: the values that are marked before
//! any pair of common values is looked at.
use crate::game::Game;
use crate::grundy::{lemma_nimber_xor_below, may_take};
use crate::nimber::Nimber;
use crate::pow2::is_pow2;
use crate::rules::Rule;
use vstd::prelude::*;

verus! {

/// Taking fewer than `k` tokens from a heap of `n` and leaving one heap reaches
/// the value `s`.
pub open spec fn taken_below(rules: Seq<Rule>, g: Seq<Nimber>, n: int, k: int, s: int) -> bool {
    exists|i: int| #[trigger] may_take(rules, n, i) && i < k && g[n - i] == s
}

/// `seen` with the value of every heap that a move from `n` may leave alone.
pub open spec fn with_taken(seen: Seq<bool>, rules: Seq<Rule>, g: Seq<Nimber>, n: int) -> Seq<
    bool,
> {
    Seq::new(seen.len(), |s: int| seen[s] || taken_below(rules, g, n, rules.len() as int, s))
}

/// Some rule lets a heap of `n` tokens be split into two equal heaps.
pub open spec fn may_halve(rules: Seq<Rule>, n: int) -> bool {
    exists|i: int| 1 <= i < rules.len() && i < n && (#[trigger] rules[i]).divide && (n - i) % 2 == 0
}

/// Taking `i` tokens from a heap of `n` may leave the heap at place `k` of the
/// index beside another one, and the two together have the value `s`.
pub open spec fn rare_pair(
    rules: Seq<Rule>,
    g: Seq<Nimber>,
    index: Seq<(usize, Nimber)>,
    n: int,
    i: int,
    k: int,
    s: int,
) -> bool {
    &&& 1 <= i < rules.len()
    &&& rules[i].divide
    &&& 0 <= k < index.len()
    &&& index[k].0 + i < n
    &&& (index[k].1 ^ g[n - i - index[k].0]) == s
}

/// A pair that comes before the place `(i_end, k_end)`, in the order of the
/// rules and then of the index, has the value `s`.
pub open spec fn rare_pair_before(
    rules: Seq<Rule>,
    g: Seq<Nimber>,
    index: Seq<(usize, Nimber)>,
    n: int,
    i_end: int,
    k_end: int,
    s: int,
) -> bool {
    exists|i: int, k: int| #[trigger]
        rare_pair(rules, g, index, n, i, k, s) && (i < i_end || (i == i_end && k < k_end))
}

/// `seen` with the value of every pair of heaps that a move from `n` may leave
/// and of which one stands in the index.
pub open spec fn with_rare_pairs(
    seen: Seq<bool>,
    rules: Seq<Rule>,
    g: Seq<Nimber>,
    index: Seq<(usize, Nimber)>,
    n: int,
) -> Seq<bool> {
    Seq::new(
        seen.len(),
        |s: int| seen[s] || rare_pair_before(rules, g, index, n, rules.len() as int, 0, s),
    )
}

pub proof fn lemma_taken_step(rules: Seq<Rule>, g: Seq<Nimber>, n: int, k: int, s: int)
    ensures
        taken_below(rules, g, n, k + 1, s) <==> (taken_below(rules, g, n, k, s) || (may_take(
            rules,
            n,
            k,
        ) && g[n - k] == s)),
{
    if taken_below(rules, g, n, k + 1, s) {
        let i = choose|i: int| #[trigger] may_take(rules, n, i) && i < k + 1 && g[n - i] == s;
        if i < k {
            assert(may_take(rules, n, i) && i < k && g[n - i] == s);
        }
    }
    if taken_below(rules, g, n, k, s) {
        let i = choose|i: int| #[trigger] may_take(rules, n, i) && i < k && g[n - i] == s;
        assert(may_take(rules, n, i) && i < k + 1 && g[n - i] == s);
    }
    if may_take(rules, n, k) && g[n - k] == s {
        assert(may_take(rules, n, k) && k < k + 1 && g[n - k] == s);
    }
}

pub proof fn lemma_rare_pair_step(
    rules: Seq<Rule>,
    g: Seq<Nimber>,
    index: Seq<(usize, Nimber)>,
    n: int,
    i: int,
    k: int,
    s: int,
)
    ensures
        rare_pair_before(rules, g, index, n, i, k + 1, s) <==> (rare_pair_before(
            rules,
            g,
            index,
            n,
            i,
            k,
            s,
        ) || rare_pair(rules, g, index, n, i, k, s)),
{
    if rare_pair_before(rules, g, index, n, i, k + 1, s) {
        let (a, b) = choose|a: int, b: int| #[trigger]
            rare_pair(rules, g, index, n, a, b, s) && (a < i || (a == i && b < k + 1));
        if !(a == i && b == k) {
            assert(rare_pair(rules, g, index, n, a, b, s) && (a < i || (a == i && b < k)));
        }
    }
    if rare_pair_before(rules, g, index, n, i, k, s) {
        let (a, b) = choose|a: int, b: int| #[trigger]
            rare_pair(rules, g, index, n, a, b, s) && (a < i || (a == i && b < k));
        assert(rare_pair(rules, g, index, n, a, b, s) && (a < i || (a == i && b < k + 1)));
    }
    if rare_pair(rules, g, index, n, i, k, s) {
        assert(rare_pair(rules, g, index, n, i, k, s) && (i < i || (i == i && k < k + 1)));
    }
}

/// Once the pairs of rule `i` are done up to a place `m` of the index behind
/// which no heap is small enough, the pairs of all rules up to `i` are done.
pub proof fn lemma_rare_pair_row(
    rules: Seq<Rule>,
    g: Seq<Nimber>,
    index: Seq<(usize, Nimber)>,
    n: int,
    i: int,
    m: int,
    s: int,
)
    requires
        !(1 <= i < rules.len() && rules[i].divide) || forall|k: int|
            m <= k < index.len() ==> (#[trigger] index[k]).0 + i >= n,
        (1 <= i < rules.len() && rules[i].divide) || m == 0,
    ensures
        rare_pair_before(rules, g, index, n, i + 1, 0, s) <==> rare_pair_before(
            rules,
            g,
            index,
            n,
            i,
            m,
            s,
        ),
{
    if rare_pair_before(rules, g, index, n, i + 1, 0, s) {
        let (a, b) = choose|a: int, b: int| #[trigger]
            rare_pair(rules, g, index, n, a, b, s) && (a < i + 1 || (a == i + 1 && b < 0));
        if a == i {
            assert(index[b].0 + i < n);
            assert(b < m);
        }
        assert(rare_pair(rules, g, index, n, a, b, s) && (a < i || (a == i && b < m)));
    }
    if rare_pair_before(rules, g, index, n, i, m, s) {
        let (a, b) = choose|a: int, b: int| #[trigger]
            rare_pair(rules, g, index, n, a, b, s) && (a < i || (a == i && b < m));
        assert(rare_pair(rules, g, index, n, a, b, s) && (a < i + 1 || (a == i + 1 && b < 0)));
    }
}

impl Game {
    /// Marks the value of every heap that a move from `n` may leave alone.
    pub fn set_seen_bits_from_some_moves(&mut self, n: usize)
        requires
            old(self).rules@.len() <= n <= old(self).nimbers.g@.len(),
            forall|i: int| #[trigger]
                may_take(old(self).rules@, n as int, i) ==> old(self).nimbers.g@[n - i] < old(
                    self,
                ).bits.seen@.len(),
        ensures
            final(self).bits.seen@ == with_taken(
                old(self).bits.seen@,
                old(self).rules@,
                old(self).nimbers.g@,
                n as int,
            ),
            final(self).rules == old(self).rules,
            final(self).nimbers == old(self).nimbers,
            final(self).stats == old(self).stats,
            final(self).bits.rare == old(self).bits.rare,
            final(self).bits.partial == old(self).bits.partial,
    {
        let ghost before = self.bits.seen@;
        let ghost rules = self.rules@;
        let ghost g = self.nimbers.g@;
        let r = self.rules.len();
        let mut i: usize = 1;
        assert(self.bits.seen@ =~= Seq::new(
            before.len(),
            |s: int| before[s] || taken_below(rules, g, n as int, 1, s),
        ));
        while i < r
            invariant
                1 <= i,
                r == rules.len(),
                r <= n <= g.len(),
                rules == self.rules@,
                g == self.nimbers.g@,
                forall|a: int| #[trigger] may_take(rules, n as int, a) ==> g[n - a] < before.len(),
                self.bits.seen@ == Seq::new(
                    before.len(),
                    |s: int| before[s] || taken_below(rules, g, n as int, i as int, s),
                ),
                self.rules == old(self).rules,
                self.nimbers == old(self).nimbers,
                self.stats == old(self).stats,
                self.bits.rare == old(self).bits.rare,
                self.bits.partial == old(self).bits.partial,
            decreases r - i,
        {
            let ghost prev = self.bits.seen@;
            if self.rules[i].some {
                assert(may_take(rules, n as int, i as int));
                self.bits.seen.set_bit(self.nimbers.g[n - i] as usize);
            }
            proof {
                assert forall|s: int| 0 <= s < before.len() implies (#[trigger] self.bits.seen@[s]
                    <==> (before[s] || taken_below(rules, g, n as int, i + 1, s))) by {
                    lemma_taken_step(rules, g, n as int, i as int, s);
                    assert(prev[s] <==> (before[s]
                        || taken_below(rules, g, n as int, i as int, s)));
                }
                assert(self.bits.seen@ =~= Seq::new(
                    before.len(),
                    |s: int| before[s] || taken_below(rules, g, n as int, i + 1, s),
                ));
            }
            i = i + 1;
        }
        proof {
            assert forall|s: int| 0 <= s < before.len() implies (taken_below(
                rules,
                g,
                n as int,
                i as int,
                s,
            ) <==> taken_below(rules, g, n as int, r as int, s)) by {
                if taken_below(rules, g, n as int, i as int, s) {
                    let a = choose|a: int| #[trigger]
                        may_take(rules, n as int, a) && a < i && g[n - a] == s;
                    assert(may_take(rules, n as int, a) && a < r && g[n - a] == s);
                }
                if taken_below(rules, g, n as int, r as int, s) {
                    let a = choose|a: int| #[trigger]
                        may_take(rules, n as int, a) && a < r && g[n - a] == s;
                    assert(may_take(rules, n as int, a) && a < i && g[n - a] == s);
                }
            }
            assert(self.bits.seen@ =~= with_taken(before, rules, g, n as int));
        }
    }

    /// Marks the value 0 where some rule lets the heap be split into two equal
    /// heaps.
    pub fn set_0th_bit_if_can_be_divided_in_half(&mut self, n: usize)
        requires
            old(self).rules@.len() <= n,
            1 <= old(self).bits.seen@.len(),
        ensures
            final(self).bits.seen@ == if may_halve(old(self).rules@, n as int) {
                old(self).bits.seen@.update(0, true)
            } else {
                old(self).bits.seen@
            },
            final(self).rules == old(self).rules,
            final(self).nimbers == old(self).nimbers,
            final(self).stats == old(self).stats,
            final(self).bits.rare == old(self).bits.rare,
            final(self).bits.partial == old(self).bits.partial,
    {
        let r = self.rules.len();
        let mut i: usize = 1;
        while i < r
            invariant
                1 <= i,
                r == self.rules@.len(),
                r <= n,
                1 <= self.bits.seen@.len(),
                forall|a: int|
                    1 <= a < i ==> !((#[trigger] self.rules@[a]).divide && (n - a) % 2 == 0),
                *self == *old(self),
            decreases r - i,
        {
            if self.rules[i].divide && (n - i) % 2 == 0 {
                assert(may_halve(self.rules@, n as int));
                self.bits.seen.set_bit(0);
                return ;
            }
            i = i + 1;
        }
    }

    /// Marks the value of every pair of heaps that a move from `n` may leave and
    /// of which one stands in the index of the heaps of rare value.
    #[verifier::rlimit(50)]
    pub fn iterate_over_r_xor_c(&mut self, n: usize)
        requires
            old(self).rules@.len() <= n <= old(self).nimbers.g@.len(),
            forall|k: int, l: int|
                0 <= k < l < old(self).nimbers.rare@.len() ==> (#[trigger] old(
                    self,
                ).nimbers.rare@[k]).0 < (#[trigger] old(self).nimbers.rare@[l]).0,
            exists|bound: usize|
                {
                    &&& is_pow2(bound)
                    &&& bound <= old(self).bits.seen@.len()
                    &&& forall|k: int|
                        0 <= k < n ==> #[trigger] old(self).nimbers.g@[k] < bound
                    &&& forall|k: int|
                        0 <= k < old(self).nimbers.rare@.len() ==> (#[trigger] old(
                            self,
                        ).nimbers.rare@[k]).1 < bound
                },
        ensures
            final(self).bits.seen@ == with_rare_pairs(
                old(self).bits.seen@,
                old(self).rules@,
                old(self).nimbers.g@,
                old(self).nimbers.rare@,
                n as int,
            ),
            final(self).rules == old(self).rules,
            final(self).nimbers == old(self).nimbers,
            final(self).stats == old(self).stats,
            final(self).bits.rare == old(self).bits.rare,
            final(self).bits.partial == old(self).bits.partial,
    {
        let ghost before = self.bits.seen@;
        let ghost rules = self.rules@;
        let ghost g = self.nimbers.g@;
        let ghost index = self.nimbers.rare@;
        let ghost bound = choose|bound: usize|
            {
                &&& is_pow2(bound)
                &&& bound <= before.len()
                &&& forall|k: int| 0 <= k < n ==> #[trigger] g[k] < bound
                &&& forall|k: int| 0 <= k < index.len() ==> (#[trigger] index[k]).1 < bound
            };
        let r = self.rules.len();
        let mut i: usize = 1;
        proof {
            assert forall|s: int| 0 <= s < before.len() implies !rare_pair_before(
                rules,
                g,
                index,
                n as int,
                1,
                0,
                s,
            ) by {}
            assert(self.bits.seen@ =~= Seq::new(
                before.len(),
                |s: int| before[s] || rare_pair_before(rules, g, index, n as int, 1, 0, s),
            ));
        }
        while i < r
            invariant
                1 <= i,
                r == rules.len(),
                r <= n <= g.len(),
                rules == self.rules@,
                g == self.nimbers.g@,
                index == self.nimbers.rare@,
                is_pow2(bound),
                bound <= before.len(),
                forall|k: int| 0 <= k < n ==> #[trigger] g[k] < bound,
                forall|k: int| 0 <= k < index.len() ==> (#[trigger] index[k]).1 < bound,
                forall|k: int, l: int|
                    0 <= k < l < index.len() ==> (#[trigger] index[k]).0 < (#[trigger] index[l]).0,
                self.bits.seen@ == Seq::new(
                    before.len(),
                    |s: int|
                        before[s] || rare_pair_before(rules, g, index, n as int, i as int, 0, s),
                ),
                self.rules == old(self).rules,
                self.nimbers == old(self).nimbers,
                self.stats == old(self).stats,
                self.bits.rare == old(self).bits.rare,
                self.bits.partial == old(self).bits.partial,
            decreases r - i,
        {
            let mut done: usize = 0;
            if self.rules[i].divide {
                let mut m = self.nimbers.rare.len();
                while m > 0 && n - i <= self.nimbers.rare[m - 1].0
                    invariant
                        m <= index.len(),
                        i < n,
                        index == self.nimbers.rare@,
                        forall|k: int| m <= k < index.len() ==> (#[trigger] index[k]).0 + i >= n,
                    decreases m,
                {
                    m = m - 1;
                }
                let mut k: usize = 0;
                while k < m
                    invariant
                        k <= m <= index.len(),
                        1 <= i < r,
                        r == rules.len(),
                        r <= n <= g.len(),
                        rules[i as int].divide,
                        rules == self.rules@,
                        g == self.nimbers.g@,
                        index == self.nimbers.rare@,
                        is_pow2(bound),
                        bound <= before.len(),
                        forall|a: int| 0 <= a < n ==> #[trigger] g[a] < bound,
                        forall|a: int| 0 <= a < index.len() ==> (#[trigger] index[a]).1 < bound,
                        forall|a: int, b: int|
                            0 <= a < b < index.len() ==> (#[trigger] index[a]).0 < (
                            #[trigger] index[b]).0,
                        m > 0 ==> index[m - 1].0 + i < n,
                        self.bits.seen@ == Seq::new(
                            before.len(),
                            |s: int|
                                before[s] || rare_pair_before(
                                    rules,
                                    g,
                                    index,
                                    n as int,
                                    i as int,
                                    k as int,
                                    s,
                                ),
                        ),
                        self.rules == old(self).rules,
                        self.nimbers == old(self).nimbers,
                        self.stats == old(self).stats,
                        self.bits.rare == old(self).bits.rare,
                        self.bits.partial == old(self).bits.partial,
                    decreases m - k,
                {
                    let ghost prev = self.bits.seen@;
                    let idx = self.nimbers.rare[k].0;
                    let x = self.nimbers.rare[k].1;
                    assert(index[k as int].0 <= index[m - 1].0);
                    let y = self.nimbers.g[n - i - idx];
                    proof {
                        lemma_nimber_xor_below(x, y, bound);
                    }
                    self.bits.seen.set_bit((x ^ y) as usize);
                    proof {
                        assert(rare_pair(rules, g, index, n as int, i as int, k as int,
                            (x ^ y) as int));
                        assert forall|s: int| 0 <= s < before.len() implies (
                        #[trigger] self.bits.seen@[s] <==> (before[s] || rare_pair_before(
                            rules,
                            g,
                            index,
                            n as int,
                            i as int,
                            k + 1,
                            s,
                        ))) by {
                            lemma_rare_pair_step(rules, g, index, n as int, i as int, k as int, s);
                            assert(prev[s] <==> (before[s] || rare_pair_before(
                                rules,
                                g,
                                index,
                                n as int,
                                i as int,
                                k as int,
                                s,
                            )));
                        }
                        assert(self.bits.seen@ =~= Seq::new(
                            before.len(),
                            |s: int|
                                before[s] || rare_pair_before(
                                    rules,
                                    g,
                                    index,
                                    n as int,
                                    i as int,
                                    k + 1,
                                    s,
                                ),
                        ));
                    }
                    k = k + 1;
                }
                done = m;
            }
            proof {
                let prev = self.bits.seen@;
                assert forall|s: int| 0 <= s < before.len() implies (#[trigger] self.bits.seen@[s]
                    <==> (before[s]
                        || rare_pair_before(rules, g, index, n as int, i + 1, 0, s))) by {
                    lemma_rare_pair_row(rules, g, index, n as int, i as int, done as int, s);
                    assert(prev[s] <==> (before[s] || rare_pair_before(
                        rules,
                        g,
                        index,
                        n as int,
                        i as int,
                        done as int,
                        s,
                    )));
                }
                assert(self.bits.seen@ =~= Seq::new(
                    before.len(),
                    |s: int|
                        before[s] || rare_pair_before(rules, g, index, n as int, i + 1, 0, s),
                ));
            }
            i = i + 1;
        }
        proof {
            assert forall|s: int| 0 <= s < before.len() implies (rare_pair_before(
                rules,
                g,
                index,
                n as int,
                i as int,
                0,
                s,
            ) <==> rare_pair_before(rules, g, index, n as int, r as int, 0, s)) by {
                if rare_pair_before(rules, g, index, n as int, i as int, 0, s) {
                    let (a, b) = choose|a: int, b: int| #[trigger]
                        rare_pair(rules, g, index, n as int, a, b, s) && (a < i || (a == i && b
                            < 0));
                    assert(rare_pair(rules, g, index, n as int, a, b, s) && (a < r || (a == r
                        && b < 0)));
                }
                if rare_pair_before(rules, g, index, n as int, r as int, 0, s) {
                    let (a, b) = choose|a: int, b: int| #[trigger]
                        rare_pair(rules, g, index, n as int, a, b, s) && (a < r || (a == r && b
                            < 0));
                    assert(rare_pair(rules, g, index, n as int, a, b, s) && (a < i || (a == i
                        && b < 0)));
                }
            }
            assert(self.bits.seen@ =~= with_rare_pairs(before, rules, g, index, n as int));
        }
    }
}

} // verus!
