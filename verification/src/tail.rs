//! The continuation past the prefix: the values of the last heaps are kept in a
//! ring, and the split of the values stays as it is.
//!
//! A heap past the prefix gets the least value that is not met by what is still
//! in reach: the heaps of the ring, the heaps of rare value, and the heaps of
//! the prefix beside a heap of the ring. The continuation ends where a value
//! above the largest one appears: the split cannot be renewed without the
//! values that have left the ring.
use crate::bitset::{is_first_unset_in_both, lemma_unset_count_update, unset_count};
use crate::drive::{bumped, lemma_freq_len};
use crate::game::Game;
use crate::grundy::{lemma_nimber_xor_below, may_take};
use crate::nimber::Nimber;
use crate::nimbers::ring_value;
use crate::partition::{is_rare_mask, marks};
use crate::pow2::is_pow2;
use crate::rules::Rule;
use crate::sieve::{
    lemma_rare_pair_row, lemma_rare_pair_step, lemma_taken_step, may_halve, rare_pair,
    rare_pair_before, taken_below, with_rare_pairs, with_taken,
};
use crate::stats::freq_len;
use vstd::prelude::*;

verus! {

/// Why the continuation past the prefix ends.
#[derive(Copy, Clone, Debug, PartialEq, Eq, Structural)]
pub enum TailError {
    /// The heap `index` would get the value `value`, which is above every value
    /// met before: the split would have to be renewed.
    MaxNimberGrewInTail { index: usize, value: usize },
}

/// The values of the first `n` heaps as the continuation reads them: each from
/// the place of its heap in the ring.
pub open spec fn tail_view(ring: Seq<Nimber>, n: int) -> Seq<Nimber> {
    Seq::new(n as nat, |p: int| ring_value(ring, p))
}

/// Taking `i` tokens from a heap of `n` may leave the heap `f` of the prefix
/// beside a heap that the ring of `width` heaps holds, and the two together
/// have the value `s`.
pub open spec fn tail_pair(
    rules: Seq<Rule>,
    g: Seq<Nimber>,
    view: Seq<Nimber>,
    width: int,
    n: int,
    i: int,
    f: int,
    s: int,
) -> bool {
    &&& 1 <= i < rules.len()
    &&& rules[i].divide
    &&& 1 <= f < g.len()
    &&& f + i <= width
    &&& f + i < n
    &&& (g[f] ^ view[n - i - f]) == s
}

/// A pair that comes before the place `(i_end, f_end)`, in the order of the
/// rules and then of the heaps, has the value `s`.
pub open spec fn tail_pair_before(
    rules: Seq<Rule>,
    g: Seq<Nimber>,
    view: Seq<Nimber>,
    width: int,
    n: int,
    i_end: int,
    f_end: int,
    s: int,
) -> bool {
    exists|i: int, f: int| #[trigger]
        tail_pair(rules, g, view, width, n, i, f, s) && (i < i_end || (i == i_end && f < f_end))
}

/// Some pair in reach has the value `s`.
pub open spec fn tail_pair_any(
    rules: Seq<Rule>,
    g: Seq<Nimber>,
    view: Seq<Nimber>,
    width: int,
    n: int,
    s: int,
) -> bool {
    tail_pair_before(rules, g, view, width, n, rules.len() as int, 0, s)
}

/// What the first phases mark for the heap of `n` tokens, from cleared marks.
pub open spec fn tail_marks(
    rules: Seq<Rule>,
    ring: Seq<Nimber>,
    index: Seq<(usize, Nimber)>,
    n: int,
    len: nat,
) -> Seq<bool> {
    let view = tail_view(ring, n);
    let one = with_taken(crate::bitset::cleared(len), rules, view, n);
    let two = if may_halve(rules, n) {
        one.update(0, true)
    } else {
        one
    };
    with_rare_pairs(two, rules, view, index, n)
}

/// `c` is the candidate: the least value that is neither marked nor rare, and
/// the last index of the marks where there is none.
pub open spec fn is_candidate(seen: Seq<bool>, rare: Seq<bool>, c: int) -> bool {
    if exists|j: int| 0 <= j < rare.len() && !seen[j] && !rare[j] {
        is_first_unset_in_both(seen, rare, c)
    } else {
        c == seen.len() - 1
    }
}

/// The value `u` is met: it is marked, or a pair in reach has it.
pub open spec fn is_met(
    seen: Seq<bool>,
    rules: Seq<Rule>,
    g: Seq<Nimber>,
    ring: Seq<Nimber>,
    n: int,
    u: int,
) -> bool {
    seen[u] || tail_pair_any(rules, g, tail_view(ring, n), ring.len() as int, n, u)
}

/// What the walk over the pairs in reach ends with, given the marks of the
/// first phases: `m` is the candidate where every value below it is met, and
/// else the least value that is not.
pub open spec fn is_tail_outcome(
    seen: Seq<bool>,
    rare: Seq<bool>,
    rules: Seq<Rule>,
    g: Seq<Nimber>,
    ring: Seq<Nimber>,
    n: int,
    m: int,
) -> bool {
    exists|c: int|
        {
            &&& #[trigger] is_candidate(seen, rare, c)
            &&& 0 <= m <= c
            &&& forall|u: int| 0 <= u < m ==> is_met(seen, rules, g, ring, n, u)
            &&& m < c ==> !is_met(seen, rules, g, ring, n, m)
        }
}

/// The candidate itself is the outcome.
pub open spec fn candidate_wins(
    seen: Seq<bool>,
    rare: Seq<bool>,
    rules: Seq<Rule>,
    g: Seq<Nimber>,
    ring: Seq<Nimber>,
    n: int,
    m: int,
) -> bool {
    &&& is_candidate(seen, rare, m)
    &&& forall|u: int| 0 <= u < m ==> is_met(seen, rules, g, ring, n, u)
}

/// What the first phases mark for the heap of `n` tokens of the game.
pub open spec fn marks_of(game: Game, n: int) -> Seq<bool> {
    tail_marks(
        game.rules@,
        game.nimbers.g_back@,
        game.nimbers.rare@,
        n,
        game.bits.seen@.len(),
    )
}

/// `m` is the value that the continuation finds for the heap of `n` tokens of
/// the game: the least value that is not met, and the candidate where every
/// value below it is met.
pub open spec fn is_value_of(game: Game, n: int, m: int) -> bool {
    is_tail_outcome(
        marks_of(game, n),
        game.bits.rare@,
        game.rules@,
        game.nimbers.g@,
        game.nimbers.g_back@,
        n,
        m,
    )
}

/// `m` is the candidate for the heap of `n` tokens of the game, and every value
/// below it is met.
pub open spec fn is_candidate_of(game: Game, n: int, m: int) -> bool {
    candidate_wins(
        marks_of(game, n),
        game.bits.rare@,
        game.rules@,
        game.nimbers.g@,
        game.nimbers.g_back@,
        n,
        m,
    )
}

/// The marks and the split have one candidate.
pub proof fn lemma_candidate_unique(seen: Seq<bool>, rare: Seq<bool>, c: int, d: int)
    requires
        is_candidate(seen, rare, c),
        is_candidate(seen, rare, d),
    ensures
        c == d,
{
    if c < d {
        assert(seen[c] || rare[c]);
    } else if d < c {
        assert(seen[d] || rare[d]);
    }
}

/// The walk over the pairs in reach ends with one value.
pub proof fn lemma_tail_outcome_unique(
    seen: Seq<bool>,
    rare: Seq<bool>,
    rules: Seq<Rule>,
    g: Seq<Nimber>,
    ring: Seq<Nimber>,
    n: int,
    a: int,
    b: int,
)
    requires
        is_tail_outcome(seen, rare, rules, g, ring, n, a),
        is_tail_outcome(seen, rare, rules, g, ring, n, b),
    ensures
        a == b,
{
    let c = choose|c: int|
        {
            &&& #[trigger] is_candidate(seen, rare, c)
            &&& 0 <= a <= c
            &&& forall|u: int| 0 <= u < a ==> is_met(seen, rules, g, ring, n, u)
            &&& a < c ==> !is_met(seen, rules, g, ring, n, a)
        };
    let d = choose|d: int|
        {
            &&& #[trigger] is_candidate(seen, rare, d)
            &&& 0 <= b <= d
            &&& forall|u: int| 0 <= u < b ==> is_met(seen, rules, g, ring, n, u)
            &&& b < d ==> !is_met(seen, rules, g, ring, n, b)
        };
    lemma_candidate_unique(seen, rare, c, d);
    if a < b {
        assert(is_met(seen, rules, g, ring, n, a));
    } else if b < a {
        assert(is_met(seen, rules, g, ring, n, b));
    }
}

pub proof fn lemma_tail_pair_step(
    rules: Seq<Rule>,
    g: Seq<Nimber>,
    view: Seq<Nimber>,
    width: int,
    n: int,
    i: int,
    f: int,
    s: int,
)
    ensures
        tail_pair_before(rules, g, view, width, n, i, f + 1, s) <==> (tail_pair_before(
            rules,
            g,
            view,
            width,
            n,
            i,
            f,
            s,
        ) || tail_pair(rules, g, view, width, n, i, f, s)),
{
    if tail_pair_before(rules, g, view, width, n, i, f + 1, s) {
        let (a, b) = choose|a: int, b: int| #[trigger]
            tail_pair(rules, g, view, width, n, a, b, s) && (a < i || (a == i && b < f + 1));
        if !(a == i && b == f) {
            assert(tail_pair(rules, g, view, width, n, a, b, s) && (a < i || (a == i && b < f)));
        }
    }
    if tail_pair_before(rules, g, view, width, n, i, f, s) {
        let (a, b) = choose|a: int, b: int| #[trigger]
            tail_pair(rules, g, view, width, n, a, b, s) && (a < i || (a == i && b < f));
        assert(tail_pair(rules, g, view, width, n, a, b, s) && (a < i || (a == i && b < f + 1)));
    }
    if tail_pair(rules, g, view, width, n, i, f, s) {
        assert(tail_pair(rules, g, view, width, n, i, f, s) && (i < i || (i == i && f < f + 1)));
    }
}

/// Once the pairs of rule `i` are done up to a heap `m` that is out of reach, as
/// every heap behind it is, the pairs of all rules up to `i` are done. A rule
/// that lets no heap be split has no pairs.
pub proof fn lemma_tail_pair_row(
    rules: Seq<Rule>,
    g: Seq<Nimber>,
    view: Seq<Nimber>,
    width: int,
    n: int,
    i: int,
    m: int,
    s: int,
)
    requires
        (1 <= i < rules.len() && rules[i].divide) ==> !(m < g.len() && m + i <= width && m + i
            < n),
        !(1 <= i < rules.len() && rules[i].divide) ==> m == 0,
    ensures
        tail_pair_before(rules, g, view, width, n, i + 1, 0, s) <==> tail_pair_before(
            rules,
            g,
            view,
            width,
            n,
            i,
            m,
            s,
        ),
{
    if tail_pair_before(rules, g, view, width, n, i + 1, 0, s) {
        let (a, b) = choose|a: int, b: int| #[trigger]
            tail_pair(rules, g, view, width, n, a, b, s) && (a < i + 1 || (a == i + 1 && b < 0));
        if a == i {
            assert(b < m);
        }
        assert(tail_pair(rules, g, view, width, n, a, b, s) && (a < i || (a == i && b < m)));
    }
    if tail_pair_before(rules, g, view, width, n, i, m, s) {
        let (a, b) = choose|a: int, b: int| #[trigger]
            tail_pair(rules, g, view, width, n, a, b, s) && (a < i || (a == i && b < m));
        assert(tail_pair(rules, g, view, width, n, a, b, s) && (a < i + 1 || (a == i + 1 && b
            < 0)));
    }
}

/// A pair that comes before some place of a rule is a pair in reach.
pub proof fn lemma_tail_pair_some(
    rules: Seq<Rule>,
    g: Seq<Nimber>,
    view: Seq<Nimber>,
    width: int,
    n: int,
    i: int,
    f: int,
    s: int,
)
    requires
        tail_pair_before(rules, g, view, width, n, i, f, s),
    ensures
        tail_pair_any(rules, g, view, width, n, s),
{
    let (a, b) = choose|a: int, b: int| #[trigger]
        tail_pair(rules, g, view, width, n, a, b, s) && (a < i || (a == i && b < f));
    assert(tail_pair(rules, g, view, width, n, a, b, s) && (a < rules.len() || (a == rules.len()
        && b < 0)));
}

/// A pair in reach comes before the place behind the last rule.
pub proof fn lemma_tail_pair_all(
    rules: Seq<Rule>,
    g: Seq<Nimber>,
    view: Seq<Nimber>,
    width: int,
    n: int,
    i: int,
    s: int,
)
    requires
        rules.len() <= i,
        tail_pair_any(rules, g, view, width, n, s),
    ensures
        tail_pair_before(rules, g, view, width, n, i, 0, s),
{
    let (a, b) = choose|a: int, b: int| #[trigger]
        tail_pair(rules, g, view, width, n, a, b, s) && (a < rules.len() || (a == rules.len()
            && b < 0));
    assert(tail_pair(rules, g, view, width, n, a, b, s) && (a < i || (a == i && b < 0)));
}

impl Game {
    /// The state in which a heap past the prefix can be computed: the ring holds
    /// at least as many heaps as the game has rules and at most as many as are
    /// computed, the prefix is behind, no value exceeds the largest one, no
    /// counter the number of heaps, the bit sets serve the largest value, the
    /// rare side obeys the rules of the split, and the heaps of the index grow
    /// along it and lie below `n`.
    pub open spec fn tail_ready(&self, n: int) -> bool {
        &&& 1 <= self.rules@.len() <= self.nimbers.g_back@.len() <= n
        &&& self.nimbers.g@.len() <= n <= usize::MAX
        &&& self.stats.frequencies@.len() == freq_len(self.stats.largest_nimber)
        &&& forall|k: int|
            0 <= k < self.nimbers.g@.len() ==> #[trigger] self.nimbers.g@[k]
                <= self.stats.largest_nimber
        &&& forall|k: int|
            0 <= k < self.nimbers.g_back@.len() ==> #[trigger] self.nimbers.g_back@[k]
                <= self.stats.largest_nimber
        &&& forall|v: int|
            0 <= v < self.stats.frequencies@.len() ==> #[trigger] self.stats.frequencies@[v] <= n
        &&& self.bits.fits(self.stats.largest_nimber)
        &&& is_rare_mask(self.bits.rare@, self.stats.frequencies@.len())
        &&& forall|k: int|
            0 <= k < self.nimbers.rare@.len() ==> (#[trigger] self.nimbers.rare@[k]).0 < n
                && self.nimbers.rare@[k].1 <= self.stats.largest_nimber
        &&& forall|k: int, l: int|
            0 <= k < l < self.nimbers.rare@.len() ==> (#[trigger] self.nimbers.rare@[k]).0 < (
            #[trigger] self.nimbers.rare@[l]).0
    }

    /// Marks the value of every heap that a move from `n` may leave alone, read
    /// from the ring.
    pub fn set_seen_bits_from_some_moves_back(&mut self, n: usize)
        requires
            1 <= old(self).rules@.len() <= old(self).nimbers.g_back@.len() <= n,
            forall|k: int|
                0 <= k < old(self).nimbers.g_back@.len() ==> #[trigger] old(self).nimbers.g_back@[k]
                    < old(self).bits.seen@.len(),
        ensures
            final(self).bits.seen@ == with_taken(
                old(self).bits.seen@,
                old(self).rules@,
                tail_view(old(self).nimbers.g_back@, n as int),
                n as int,
            ),
            final(self).rules == old(self).rules,
            final(self).nimbers == old(self).nimbers,
            final(self).stats == old(self).stats,
            final(self).bits.rare == old(self).bits.rare,
            final(self).bits.partial == old(self).bits.partial,
    {
        let ghost before = self.bits.seen@;
        let ghost rules = self.rules@;
        let ghost view = tail_view(self.nimbers.g_back@, n as int);
        let r = self.rules.len();
        let mut i: usize = 1;
        assert(self.bits.seen@ =~= Seq::new(
            before.len(),
            |s: int| before[s] || taken_below(rules, view, n as int, 1, s),
        ));
        while i < r
            invariant
                1 <= i,
                r == rules.len(),
                1 <= r <= self.nimbers.g_back@.len() <= n,
                rules == self.rules@,
                view == tail_view(self.nimbers.g_back@, n as int),
                forall|k: int|
                    0 <= k < self.nimbers.g_back@.len() ==> #[trigger] self.nimbers.g_back@[k]
                        < before.len(),
                self.bits.seen@ == Seq::new(
                    before.len(),
                    |s: int| before[s] || taken_below(rules, view, n as int, i as int, s),
                ),
                self.rules == old(self).rules,
                self.nimbers == old(self).nimbers,
                self.stats == old(self).stats,
                self.bits.rare == old(self).bits.rare,
                self.bits.partial == old(self).bits.partial,
            decreases r - i,
        {
            let ghost prev = self.bits.seen@;
            if self.rules[i].some {
                let v = self.nimbers.last(n - i);
                assert(v == view[n - i]);
                self.bits.seen.set_bit(v as usize);
            }
            proof {
                assert forall|s: int| 0 <= s < before.len() implies (#[trigger] self.bits.seen@[s]
                    <==> (before[s] || taken_below(rules, view, n as int, i + 1, s))) by {
                    lemma_taken_step(rules, view, n as int, i as int, s);
                    assert(prev[s] <==> (before[s]
                        || taken_below(rules, view, n as int, i as int, s)));
                }
                assert(self.bits.seen@ =~= Seq::new(
                    before.len(),
                    |s: int| before[s] || taken_below(rules, view, n as int, i + 1, s),
                ));
            }
            i = i + 1;
        }
        proof {
            assert forall|s: int| 0 <= s < before.len() implies (taken_below(
                rules,
                view,
                n as int,
                i as int,
                s,
            ) <==> taken_below(rules, view, n as int, r as int, s)) by {
                if taken_below(rules, view, n as int, i as int, s) {
                    let a = choose|a: int| #[trigger]
                        may_take(rules, n as int, a) && a < i && view[n - a] == s;
                    assert(may_take(rules, n as int, a) && a < r && view[n - a] == s);
                }
                if taken_below(rules, view, n as int, r as int, s) {
                    let a = choose|a: int| #[trigger]
                        may_take(rules, n as int, a) && a < r && view[n - a] == s;
                    assert(may_take(rules, n as int, a) && a < i && view[n - a] == s);
                }
            }
            assert(self.bits.seen@ =~= with_taken(before, rules, view, n as int));
        }
    }

    /// Marks the value of every pair of heaps that a move from `n` may leave and
    /// of which one is a heap of the prefix with a rare value, the other one read
    /// from the ring.
    ///
    /// Fails where the ring no longer holds the other heap of such a pair: the
    /// marks are then left as far as they got.

    /// Marks the value of every pair of heaps that a move from `n` may leave and
    /// of which one stands in the index of the heaps of rare value; the other
    /// one is read from its place in the ring.
    #[verifier::rlimit(50)]
    pub fn iterate_over_r_xor_c_back(&mut self, n: usize)
        requires
            old(self).tail_ready(n as int),
        ensures
            final(self).bits.seen@ == with_rare_pairs(
                old(self).bits.seen@,
                old(self).rules@,
                tail_view(old(self).nimbers.g_back@, n as int),
                old(self).nimbers.rare@,
                n as int,
            ),
            final(self).rules == old(self).rules,
            final(self).nimbers == old(self).nimbers,
            final(self).stats == old(self).stats,
            final(self).bits.rare == old(self).bits.rare,
            final(self).bits.partial == old(self).bits.partial,
    {
        let ghost before = self.bits.seen@;
        let ghost rules = self.rules@;
        let ghost g = self.nimbers.g@;
        let ghost ring = self.nimbers.g_back@;
        let ghost view = tail_view(ring, n as int);
        let ghost index = self.nimbers.rare@;
        let ghost bound: usize = (before.len() - 2) as usize;
        proof {
            lemma_freq_len(self.stats.largest_nimber);
        }
        let r = self.rules.len();
        let width = self.nimbers.g_back.len();
        let mut i: usize = 1;
        proof {
            assert forall|s: int| 0 <= s < before.len() implies !rare_pair_before(
                rules,
                view,
                index,
                n as int,
                1,
                0,
                s,
            ) by {}
            assert(self.bits.seen@ =~= Seq::new(
                before.len(),
                |s: int| before[s] || rare_pair_before(rules, view, index, n as int, 1, 0, s),
            ));
        }
        while i < r
            invariant
                1 <= i,
                r == rules.len(),
                1 <= r <= width <= n,
                width == ring.len(),
                rules == self.rules@,
                g == self.nimbers.g@,
                ring == self.nimbers.g_back@,
                view == tail_view(ring, n as int),
                index == self.nimbers.rare@,
                is_pow2(bound),
                bound <= before.len(),
                before == old(self).bits.seen@,
                forall|k: int| 0 <= k < ring.len() ==> #[trigger] ring[k] < bound,
                forall|k: int| 0 <= k < index.len() ==> (#[trigger] index[k]).1 < bound,
                forall|k: int, l: int|
                    0 <= k < l < index.len() ==> (#[trigger] index[k]).0 < (#[trigger] index[l]).0,
                self.bits.seen@ == Seq::new(
                    before.len(),
                    |s: int|
                        before[s] || rare_pair_before(rules, view, index, n as int, i as int, 0, s),
                ),
                self.rules == old(self).rules,
                self.nimbers == old(self).nimbers,
                self.stats == old(self).stats,
                self.bits.rare == old(self).bits.rare,
                self.bits.partial == old(self).bits.partial,
            decreases r - i,
        {
            let mut done: usize = 0;
            if self.rules[i].divide {
                let mut m = self.nimbers.rare.len();
                while m > 0 && n - i <= self.nimbers.rare[m - 1].0
                    invariant
                        m <= index.len(),
                        i < n,
                        index == self.nimbers.rare@,
                        forall|k: int| m <= k < index.len() ==> (#[trigger] index[k]).0 + i >= n,
                    decreases m,
                {
                    m = m - 1;
                }
                let mut k: usize = 0;
                while k < m
                    invariant
                        k <= m <= index.len(),
                        1 <= i < r,
                        r == rules.len(),
                        1 <= r <= width <= n,
                        width == ring.len(),
                        rules[i as int].divide,
                        rules == self.rules@,
                        g == self.nimbers.g@,
                        ring == self.nimbers.g_back@,
                        view == tail_view(ring, n as int),
                        index == self.nimbers.rare@,
                        is_pow2(bound),
                        bound <= before.len(),
                        forall|a: int| 0 <= a < ring.len() ==> #[trigger] ring[a] < bound,
                        forall|a: int| 0 <= a < index.len() ==> (#[trigger] index[a]).1 < bound,
                        forall|a: int, b: int|
                            0 <= a < b < index.len() ==> (#[trigger] index[a]).0 < (
                            #[trigger] index[b]).0,
                        m > 0 ==> index[m - 1].0 + i < n,
                        self.bits.seen@ == Seq::new(
                            before.len(),
                            |s: int|
                                before[s] || rare_pair_before(
                                    rules,
                                    view,
                                    index,
                                    n as int,
                                    i as int,
                                    k as int,
                                    s,
                                ),
                        ),
                        self.rules == old(self).rules,
                        self.nimbers == old(self).nimbers,
                        self.stats == old(self).stats,
                        self.bits.rare == old(self).bits.rare,
                        self.bits.partial == old(self).bits.partial,
                    decreases m - k,
                {
                    let ghost prev = self.bits.seen@;
                    let idx = self.nimbers.rare[k].0;
                    let x = self.nimbers.rare[k].1;
                    assert(index[k as int].0 <= index[m - 1].0);
                    let y = self.nimbers.last(n - i - idx);
                    proof {
                        assert(y == view[n - i - idx]);
                        lemma_nimber_xor_below(x, y, bound);
                    }
                    self.bits.seen.set_bit((x ^ y) as usize);
                    proof {
                        assert(rare_pair(rules, view, index, n as int, i as int, k as int, (x
                            ^ y) as int));
                        assert forall|s: int| 0 <= s < before.len() implies (
                        #[trigger] self.bits.seen@[s] <==> (before[s] || rare_pair_before(
                            rules,
                            view,
                            index,
                            n as int,
                            i as int,
                            k + 1,
                            s,
                        ))) by {
                            lemma_rare_pair_step(rules, view, index, n as int, i as int, k as int,
                                s);
                            assert(prev[s] <==> (before[s] || rare_pair_before(
                                rules,
                                view,
                                index,
                                n as int,
                                i as int,
                                k as int,
                                s,
                            )));
                        }
                        assert(self.bits.seen@ =~= Seq::new(
                            before.len(),
                            |s: int|
                                before[s] || rare_pair_before(
                                    rules,
                                    view,
                                    index,
                                    n as int,
                                    i as int,
                                    k + 1,
                                    s,
                                ),
                        ));
                    }
                    k = k + 1;
                }
                done = m;
            }
            proof {
                let prev = self.bits.seen@;
                assert forall|s: int| 0 <= s < before.len() implies (#[trigger] self.bits.seen@[s]
                    <==> (before[s]
                        || rare_pair_before(rules, view, index, n as int, i + 1, 0, s))) by {
                    lemma_rare_pair_row(rules, view, index, n as int, i as int, done as int, s);
                    assert(prev[s] <==> (before[s] || rare_pair_before(
                        rules,
                        view,
                        index,
                        n as int,
                        i as int,
                        done as int,
                        s,
                    )));
                }
                assert(self.bits.seen@ =~= Seq::new(
                    before.len(),
                    |s: int|
                        before[s] || rare_pair_before(rules, view, index, n as int, i + 1, 0, s),
                ));
            }
            i = i + 1;
        }
        proof {
            assert forall|s: int| 0 <= s < before.len() implies (rare_pair_before(
                rules,
                view,
                index,
                n as int,
                i as int,
                0,
                s,
            ) <==> rare_pair_before(rules, view, index, n as int, r as int, 0, s)) by {
                if rare_pair_before(rules, view, index, n as int, i as int, 0, s) {
                    let (a, b) = choose|a: int, b: int| #[trigger]
                        rare_pair(rules, view, index, n as int, a, b, s) && (a < i || (a == i
                            && b < 0));
                    assert(rare_pair(rules, view, index, n as int, a, b, s) && (a < r || (a == r
                        && b < 0)));
                }
                if rare_pair_before(rules, view, index, n as int, r as int, 0, s) {
                    let (a, b) = choose|a: int, b: int| #[trigger]
                        rare_pair(rules, view, index, n as int, a, b, s) && (a < r || (a == r
                            && b < 0));
                    assert(rare_pair(rules, view, index, n as int, a, b, s) && (a < i || (a == i
                        && b < 0)));
                }
            }
            assert(self.bits.seen@ =~= with_rare_pairs(before, rules, view, index, n as int));
        }
    }

    /// What the heap of `n` tokens gets, once the first phases have marked what
    /// they reach: the candidate, if the pairs in reach meet every value below
    /// it.
    ///
    /// Fails where a value below the candidate is not met, with the least such
    /// value, which is then kept as the latest rare one; and where the value
    /// does not fit a nimber.

    /// What the heap of `n` tokens gets, once the first phases have marked what
    /// they reach: the candidate, if the pairs in reach meet every value below
    /// it, and else the least value that they do not meet, which is then kept as
    /// the latest rare one.
    ///
    /// Fails where that value is above the largest one.
    #[verifier::rlimit(50)]
    pub fn prove_back(&mut self, n: usize) -> (r: Result<Nimber, TailError>)
        requires
            old(self).tail_ready(n as int),
        ensures
            match r {
                Ok(v) => {
                    &&& is_tail_outcome(
                        old(self).bits.seen@,
                        old(self).bits.rare@,
                        old(self).rules@,
                        old(self).nimbers.g@,
                        old(self).nimbers.g_back@,
                        n as int,
                        v as int,
                    )
                    &&& v <= old(self).stats.largest_nimber
                    &&& final(self).stats.latest_rare == if is_candidate(
                        old(self).bits.seen@,
                        old(self).bits.rare@,
                        v as int,
                    ) {
                        old(self).stats.latest_rare
                    } else {
                        v
                    }
                    &&& final(self).stats.latest_rare_index == if is_candidate(
                        old(self).bits.seen@,
                        old(self).bits.rare@,
                        v as int,
                    ) {
                        old(self).stats.latest_rare_index
                    } else {
                        n
                    }
                },
                Err(TailError::MaxNimberGrewInTail { index, value }) => {
                    &&& index == n
                    &&& is_tail_outcome(
                        old(self).bits.seen@,
                        old(self).bits.rare@,
                        old(self).rules@,
                        old(self).nimbers.g@,
                        old(self).nimbers.g_back@,
                        n as int,
                        value as int,
                    )
                    &&& value > old(self).stats.largest_nimber
                    &&& final(self).stats == old(self).stats
                },
            },
            final(self).rules == old(self).rules,
            final(self).nimbers == old(self).nimbers,
            final(self).bits == old(self).bits,
            final(self).stats.largest_nimber == old(self).stats.largest_nimber,
            final(self).stats.frequencies == old(self).stats.frequencies,
            final(self).stats.largest_nimber_index == old(self).stats.largest_nimber_index,
            final(self).stats.prev_values >= old(self).stats.prev_values,
    {
        let ghost rules = self.rules@;
        let ghost g = self.nimbers.g@;
        let ghost ring = self.nimbers.g_back@;
        let ghost view = tail_view(ring, n as int);
        let ghost rare = self.bits.rare@;
        let ghost seen = self.bits.seen@;
        proof {
            lemma_freq_len(self.stats.largest_nimber);
        }
        let ghost bound: usize = (seen.len() - 2) as usize;
        let first_common = self.bits.seen.find_first_unset_also_unset_in(&self.bits.rare);
        assert(is_candidate(seen, rare, first_common as int));
        let mut depth: usize = 0;
        let mut mex = self.bits.seen.copy_up_to_inclusive(first_common);
        let mut remaining_unset = mex.count_unset();
        let r = self.rules.len();
        let width = self.nimbers.g_back.len();
        let full = self.nimbers.g.len();
        let mut i: usize = 1;
        proof {
            assert forall|u: int| 0 <= u < first_common implies (#[trigger] mex@[u] <==> (seen[u]
                || tail_pair_before(rules, g, view, width as int, n as int, 1, 0, u))) by {}
        }
        while i < r && remaining_unset > 0
            invariant
                1 <= i,
                r == rules.len(),
                1 <= r <= width <= n,
                width == ring.len(),
                full == g.len(),
                rules == self.rules@,
                g == self.nimbers.g@,
                ring == self.nimbers.g_back@,
                view == tail_view(ring, n as int),
                seen == self.bits.seen@,
                rare == self.bits.rare@,
                is_candidate(seen, rare, first_common as int),
                is_pow2(bound),
                bound <= seen.len(),
                first_common < seen.len(),
                forall|k: int| 0 <= k < ring.len() ==> #[trigger] ring[k] < bound,
                forall|k: int| 0 <= k < g.len() ==> #[trigger] g[k] < bound,
                mex@.len() == first_common,
                remaining_unset == unset_count(mex@),
                forall|u: int|
                    0 <= u < first_common ==> (#[trigger] mex@[u] <==> (seen[u]
                        || tail_pair_before(
                        rules,
                        g,
                        view,
                        width as int,
                        n as int,
                        i as int,
                        0,
                        u,
                    ))),
                self.rules == old(self).rules,
                self.nimbers == old(self).nimbers,
                self.bits == old(self).bits,
                self.stats.largest_nimber == old(self).stats.largest_nimber,
                self.stats.frequencies == old(self).stats.frequencies,
                self.stats.largest_nimber_index == old(self).stats.largest_nimber_index,
                self.stats.prev_values == old(self).stats.prev_values,
                self.stats.latest_rare == old(self).stats.latest_rare,
                self.stats.latest_rare_index == old(self).stats.latest_rare_index,
            decreases r - i,
        {
            let mut next: usize = 1;
            if self.rules[i].divide {
                let mut last = width - i;
                if n - i - 1 < last {
                    last = n - i - 1;
                }
                if full == 0 {
                    last = 0;
                } else if full - 1 < last {
                    last = full - 1;
                }
                let mut f: usize = 1;
                while f <= last && remaining_unset > 0
                    invariant
                        1 <= f <= last + 1,
                        last < full || last == 0,
                        last + i <= width,
                        last + i < n,
                        last + 1 >= full || last + 1 + i > width || last + 1 + i >= n,
                        1 <= i < r,
                        rules[i as int].divide,
                        r == rules.len(),
                        1 <= r <= width <= n,
                        width == ring.len(),
                        full == g.len(),
                        rules == self.rules@,
                        g == self.nimbers.g@,
                        ring == self.nimbers.g_back@,
                        view == tail_view(ring, n as int),
                        seen == self.bits.seen@,
                        rare == self.bits.rare@,
                        is_candidate(seen, rare, first_common as int),
                        is_pow2(bound),
                        bound <= seen.len(),
                        first_common < seen.len(),
                        forall|k: int| 0 <= k < ring.len() ==> #[trigger] ring[k] < bound,
                        forall|k: int| 0 <= k < g.len() ==> #[trigger] g[k] < bound,
                        mex@.len() == first_common,
                        remaining_unset == unset_count(mex@),
                        forall|u: int|
                            0 <= u < first_common ==> (#[trigger] mex@[u] <==> (seen[u]
                                || tail_pair_before(
                                rules,
                                g,
                                view,
                                width as int,
                                n as int,
                                i as int,
                                f as int,
                                u,
                            ))),
                        self.rules == old(self).rules,
                        self.nimbers == old(self).nimbers,
                        self.bits == old(self).bits,
                        self.stats.largest_nimber == old(self).stats.largest_nimber,
                        self.stats.frequencies == old(self).stats.frequencies,
                        self.stats.largest_nimber_index == old(self).stats.largest_nimber_index,
                        self.stats.prev_values == old(self).stats.prev_values,
                        self.stats.latest_rare == old(self).stats.latest_rare,
                        self.stats.latest_rare_index == old(self).stats.latest_rare_index,
                    decreases last + 1 - f,
                {
                    let ghost prev = mex@;
                    let a = self.nimbers.g[f];
                    let b = self.nimbers.last(n - i - f);
                    let loc = (a ^ b) as usize;
                    proof {
                        assert(b == view[n - i - f]);
                        lemma_nimber_xor_below(a, b, bound);
                        assert(tail_pair(
                            rules,
                            g,
                            view,
                            width as int,
                            n as int,
                            i as int,
                            f as int,
                            loc as int,
                        ));
                    }
                    if loc < first_common && !mex.get(loc) {
                        proof {
                            lemma_unset_count_update(mex@, loc as int);
                        }
                        mex.set_bit(loc);
                        remaining_unset = remaining_unset - 1;
                        if remaining_unset == 0 {
                            depth = f;
                        }
                    }
                    proof {
                        assert forall|u: int| 0 <= u < first_common implies (#[trigger] mex@[u]
                            <==> (seen[u] || tail_pair_before(
                            rules,
                            g,
                            view,
                            width as int,
                            n as int,
                            i as int,
                            f + 1,
                            u,
                        ))) by {
                            lemma_tail_pair_step(
                                rules,
                                g,
                                view,
                                width as int,
                                n as int,
                                i as int,
                                f as int,
                                u,
                            );
                            assert(prev[u] <==> (seen[u] || tail_pair_before(
                                rules,
                                g,
                                view,
                                width as int,
                                n as int,
                                i as int,
                                f as int,
                                u,
                            )));
                        }
                    }
                    f = f + 1;
                }
                if remaining_unset == 0 {
                    proof {
                        crate::bitset::lemma_unset_count_zero(mex@);
                        assert forall|u: int| 0 <= u < first_common implies is_met(
                            seen,
                            rules,
                            g,
                            ring,
                            n as int,
                            u,
                        ) by {
                            assert(mex@[u]);
                            if !seen[u] {
                                lemma_tail_pair_some(
                                    rules,
                                    g,
                                    view,
                                    width as int,
                                    n as int,
                                    i as int,
                                    f as int,
                                    u,
                                );
                            }
                        }
                    }
                    return self.tail_result(n, first_common, true, depth);
                }
                next = f;
            }
            proof {
                assert forall|u: int| 0 <= u < first_common implies (#[trigger] mex@[u] <==> (
                seen[u] || tail_pair_before(
                    rules,
                    g,
                    view,
                    width as int,
                    n as int,
                    i + 1,
                    0,
                    u,
                ))) by {
                    if rules[i as int].divide {
                        lemma_tail_pair_row(
                            rules,
                            g,
                            view,
                            width as int,
                            n as int,
                            i as int,
                            next as int,
                            u,
                        );
                    } else {
                        lemma_tail_pair_row(rules, g, view, width as int, n as int, i as int, 0, u);
                    }
                }
            }
            i = i + 1;
        }
        proof {
            assert forall|u: int| 0 <= u < first_common && #[trigger] mex@[u] implies is_met(
                seen,
                rules,
                g,
                ring,
                n as int,
                u,
            ) by {
                if !seen[u] {
                    lemma_tail_pair_some(rules, g, view, width as int, n as int, i as int, 0, u);
                }
            }
        }
        if remaining_unset == 0 {
            proof {
                crate::bitset::lemma_unset_count_zero(mex@);
                assert forall|u: int| 0 <= u < first_common implies is_met(
                    seen,
                    rules,
                    g,
                    ring,
                    n as int,
                    u,
                ) by {
                    assert(mex@[u]);
                }
            }
            return self.tail_result(n, first_common, true, depth);
        }
        proof {
            if forall|j: int| 0 <= j < mex@.len() ==> mex@[j] {
                crate::bitset::lemma_unset_count_full(mex@);
            }
        }
        let lowest = mex.lowest_unset();
        proof {
            assert forall|u: int| 0 <= u < lowest implies is_met(seen, rules, g, ring, n as int, u) by {
                assert(mex@[u]);
            }
            assert(!is_met(seen, rules, g, ring, n as int, lowest as int)) by {
                if tail_pair_any(rules, g, view, width as int, n as int, lowest as int) {
                    lemma_tail_pair_all(
                        rules,
                        g,
                        view,
                        width as int,
                        n as int,
                        i as int,
                        lowest as int,
                    );
                }
            }
            assert(is_tail_outcome(seen, rare, rules, g, ring, n as int, lowest as int));
            if is_candidate(seen, rare, lowest as int) {
                lemma_candidate_unique(seen, rare, lowest as int, first_common as int);
            }
        }
        self.tail_result(n, lowest, false, depth)
    }

    /// The value `m` as the value of the heap of `n` tokens, where it is no more
    /// than the largest value; kept as the latest rare value unless it is the
    /// candidate.
    fn tail_result(&mut self, n: usize, m: usize, candidate: bool, depth: usize) -> (r: Result<
        Nimber,
        TailError,
    >)
        ensures
            match r {
                Ok(v) => {
                    &&& v == m
                    &&& m <= old(self).stats.largest_nimber
                    &&& final(self).stats.latest_rare == if candidate {
                        old(self).stats.latest_rare
                    } else {
                        v
                    }
                    &&& final(self).stats.latest_rare_index == if candidate {
                        old(self).stats.latest_rare_index
                    } else {
                        n
                    }
                },
                Err(TailError::MaxNimberGrewInTail { index, value }) => {
                    &&& index == n
                    &&& value == m
                    &&& m > old(self).stats.largest_nimber
                    &&& final(self).stats == old(self).stats
                },
            },
            final(self).rules == old(self).rules,
            final(self).nimbers == old(self).nimbers,
            final(self).bits == old(self).bits,
            final(self).stats.largest_nimber == old(self).stats.largest_nimber,
            final(self).stats.frequencies == old(self).stats.frequencies,
            final(self).stats.largest_nimber_index == old(self).stats.largest_nimber_index,
            final(self).stats.prev_values >= old(self).stats.prev_values,
    {
        if m > self.stats.largest_nimber as usize {
            return Err(TailError::MaxNimberGrewInTail { index: n, value: m });
        }
        if depth > self.stats.prev_values {
            self.stats.prev_values = depth;
        }
        let nim = m as Nimber;
        if !candidate {
            self.stats.latest_rare = nim;
            self.stats.latest_rare_index = n;
        }
        Ok(nim)
    }

    /// What the heap of `n` tokens gets past the prefix, by the fast computation
    /// on the prefix and the ring: the least value that is not met.
    ///
    /// Fails where that value is above the largest one.
    #[verifier::rlimit(50)]
    pub fn rc_back(&mut self, n: usize) -> (r: Result<Nimber, TailError>)
        requires
            old(self).tail_ready(n as int),
        ensures
            final(self).tail_ready(n as int),
            match r {
                Ok(v) => {
                    &&& is_value_of(*old(self), n as int, v as int)
                    &&& v <= old(self).stats.largest_nimber
                    &&& final(self).stats.latest_rare == if is_candidate_of(
                        *old(self),
                        n as int,
                        v as int,
                    ) {
                        old(self).stats.latest_rare
                    } else {
                        v
                    }
                    &&& final(self).stats.latest_rare_index == if is_candidate_of(
                        *old(self),
                        n as int,
                        v as int,
                    ) {
                        old(self).stats.latest_rare_index
                    } else {
                        n
                    }
                },
                Err(TailError::MaxNimberGrewInTail { index, value }) => {
                    &&& index == n
                    &&& is_value_of(*old(self), n as int, value as int)
                    &&& value > old(self).stats.largest_nimber
                    &&& final(self).stats == old(self).stats
                },
            },
            final(self).rules == old(self).rules,
            final(self).nimbers == old(self).nimbers,
            final(self).bits.rare == old(self).bits.rare,
            final(self).bits.partial == old(self).bits.partial,
            final(self).bits.seen@.len() == old(self).bits.seen@.len(),
            final(self).stats.largest_nimber == old(self).stats.largest_nimber,
            final(self).stats.frequencies == old(self).stats.frequencies,
            final(self).stats.largest_nimber_index == old(self).stats.largest_nimber_index,
            final(self).stats.prev_values >= old(self).stats.prev_values,
    {
        proof {
            lemma_freq_len(self.stats.largest_nimber);
        }
        let ghost len = self.bits.seen@.len();
        self.bits.seen.zero_bits();
        assert(self.bits.seen@ == crate::bitset::cleared(len));
        self.set_seen_bits_from_some_moves_back(n);
        self.set_0th_bit_if_can_be_divided_in_half(n);
        self.iterate_over_r_xor_c_back(n);
        assert(self.bits.seen@ == marks_of(*old(self), n as int));
        let ghost marked = *self;
        let r = self.prove_back(n);
        proof {
            match r {
                Ok(v) => {
                    if is_candidate(marked.bits.seen@, marked.bits.rare@, v as int) {
                        lemma_outcome_at_candidate(
                            marked.bits.seen@,
                            marked.bits.rare@,
                            marked.rules@,
                            marked.nimbers.g@,
                            marked.nimbers.g_back@,
                            n as int,
                            v as int,
                        );
                    }
                },
                Err(_) => {},
            }
        }
        r
    }

    /// Records `nim` as the value of the heap of `n` tokens: puts it into the
    /// ring, counts it, and takes the heap into the index where the value is
    /// rare.
    ///
    /// Fails, and changes nothing, where the value is above the largest one.
    pub fn set_next_g_back(&mut self, n: usize, nim: Nimber) -> (r: Result<(), TailError>)
        requires
            old(self).tail_ready(n as int),
            n < usize::MAX,
        ensures
            match r {
                Ok(()) => nim <= old(self).stats.largest_nimber && tail_recorded(
                    *old(self),
                    *final(self),
                    n as int,
                    nim,
                ),
                Err(TailError::MaxNimberGrewInTail { index, value }) => {
                    &&& nim > old(self).stats.largest_nimber
                    &&& index == n
                    &&& value == nim
                    &&& *final(self) == *old(self)
                },
            },
            final(self).rules == old(self).rules,
            final(self).nimbers.g == old(self).nimbers.g,
            final(self).bits == old(self).bits,
            final(self).stats.largest_nimber == old(self).stats.largest_nimber,
            final(self).stats.prev_values == old(self).stats.prev_values,
            final(self).stats.latest_rare == old(self).stats.latest_rare,
            final(self).stats.latest_rare_index == old(self).stats.latest_rare_index,
    {
        if nim > self.stats.largest_nimber {
            return Err(TailError::MaxNimberGrewInTail { index: n, value: nim as usize });
        }
        proof {
            lemma_freq_len(self.stats.largest_nimber);
        }
        let loc = n % self.nimbers.g_back.len();
        self.nimbers.g_back.set(loc, nim);
        if nim >= self.stats.largest_nimber {
            self.stats.largest_nimber_index = n;
        }
        let c = self.stats.frequencies[nim as usize];
        self.stats.frequencies.set(nim as usize, c + 1);
        if self.bits.rare.get(nim as usize) {
            self.nimbers.rare.push((n, nim));
        }
        Ok(())
    }

    /// Computes the value of the heap of `n` tokens past the prefix, and records
    /// it.
    ///
    /// Succeeds where the least value that is not met is no more than the
    /// largest value. Fails with that value where it is more, and then records
    /// nothing.
    pub fn calc_rc_back(&mut self, n: usize) -> (r: Result<(), TailError>)
        requires
            old(self).tail_ready(n as int),
            n < usize::MAX,
        ensures
            match r {
                Ok(()) => tail_step(*old(self), *final(self), n as int),
                Err(TailError::MaxNimberGrewInTail { index, value }) => {
                    &&& index == n
                    &&& is_value_of(*old(self), n as int, value as int)
                    &&& value > old(self).stats.largest_nimber
                    &&& final(self).tail_ready(n as int)
                    &&& same_but_scratch(*old(self), *final(self))
                },
            },
            final(self).rules == old(self).rules,
            final(self).nimbers.g == old(self).nimbers.g,
            final(self).bits.rare == old(self).bits.rare,
            final(self).bits.partial == old(self).bits.partial,
            final(self).bits.seen@.len() == old(self).bits.seen@.len(),
            final(self).stats.largest_nimber == old(self).stats.largest_nimber,
            final(self).stats.prev_values >= old(self).stats.prev_values,
    {
        match self.rc_back(n) {
            Ok(nim) => self.set_next_g_back(n, nim),
            Err(e) => Err(e),
        }
    }

    /// Goes on past a prefix that is full: puts the last values of the prefix
    /// into the ring, then computes and records the values of the heaps up to
    /// `upto - 1`, one after the other. Returns the first heap that is not
    /// computed, and what ended the continuation if anything did.
    pub fn continue_in_ring(&mut self, upto: usize) -> (r: (usize, Option<TailError>))
        requires
            old(self).ready(old(self).nimbers.g@.len() as int),
            old(self).rules@.len() <= old(self).nimbers.g_back@.len() <= old(self).nimbers.g@.len(),
        ensures
            final(self).rules == old(self).rules,
            final(self).nimbers.g == old(self).nimbers.g,
            final(self).stats.largest_nimber == old(self).stats.largest_nimber,
            final(self).bits.rare == old(self).bits.rare,
            final(self).tail_ready(r.0 as int),
            old(self).nimbers.g@.len() <= r.0,
            exists|start: Game|
                #![trigger tail_started(*old(self), start)]
                tail_started(*old(self), start) && tail_steps(
                    start,
                    *final(self),
                    old(self).nimbers.g@.len() as int,
                    r.0 as int,
                ),
            match r.1 {
                None => r.0 >= upto && (r.0 == upto || r.0 == old(self).nimbers.g@.len()),
                Some(TailError::MaxNimberGrewInTail { index, value }) => {
                    &&& r.0 < upto
                    &&& index == r.0
                    &&& is_value_of(*final(self), r.0 as int, value as int)
                    &&& value > final(self).stats.largest_nimber
                },
            },
    {
        let ghost before = *self;
        self.nimbers.copy_to_g_back();
        let first = self.nimbers.g.len();
        let ghost start = *self;
        proof {
            crate::tail_laws::lemma_tail_starts(before, start);
            assert(tail_started(before, start));
        }
        let mut n = first;
        while n < upto
            invariant
                first <= n,
                n <= upto || n == first,
                first == self.nimbers.g@.len(),
                self.tail_ready(n as int),
                tail_started(before, start),
                tail_steps(start, *self, first as int, n as int),
                self.rules == old(self).rules,
                self.nimbers.g == old(self).nimbers.g,
                self.stats.largest_nimber == old(self).stats.largest_nimber,
                self.bits.rare == old(self).bits.rare,
                before == *old(self),
            decreases upto - n,
        {
            let ghost previous = *self;
            match self.calc_rc_back(n) {
                Ok(()) => {
                    proof {
                        let to = n + 1;
                        assert(tail_steps(start, previous, first as int, to - 1) && tail_step(
                            previous,
                            *self,
                            to - 1,
                        ));
                    }
                },
                Err(e) => {
                    proof {
                        lemma_steps_ignore_scratch(start, previous, *self, first as int, n as int);
                        lemma_value_ignores_scratch(previous, *self, n as int);
                    }
                    return (n, Some(e));
                },
            }
            n = n + 1;
        }
        (n, None)
    }
}

/// The outcome of a walk that ends at the candidate meets every value below.
pub proof fn lemma_outcome_at_candidate(
    seen: Seq<bool>,
    rare: Seq<bool>,
    rules: Seq<Rule>,
    g: Seq<Nimber>,
    ring: Seq<Nimber>,
    n: int,
    v: int,
)
    requires
        is_tail_outcome(seen, rare, rules, g, ring, n, v),
    ensures
        is_candidate(seen, rare, v) <==> candidate_wins(seen, rare, rules, g, ring, n, v),
{
    if is_candidate(seen, rare, v) {
        let c = choose|c: int|
            {
                &&& #[trigger] is_candidate(seen, rare, c)
                &&& 0 <= v <= c
                &&& forall|u: int| 0 <= u < v ==> is_met(seen, rules, g, ring, n, u)
                &&& v < c ==> !is_met(seen, rules, g, ring, n, v)
            };
        lemma_candidate_unique(seen, rare, c, v);
    }
}

/// The game `after` is the game `before` with `nim` recorded as the value of
/// the heap of `n` tokens: in the ring at the place of the heap, in the
/// counters, as the heap that last reached the largest value if it did, and in
/// the index if the value is rare. Nothing else of the values, the figures and
/// the split has changed.
pub open spec fn tail_recorded(before: Game, after: Game, n: int, nim: Nimber) -> bool {
    &&& after.tail_ready(n + 1)
    &&& after.rules == before.rules
    &&& after.nimbers.g == before.nimbers.g
    &&& after.nimbers.g_back@ == before.nimbers.g_back@.update(
        n % (before.nimbers.g_back@.len() as int),
        nim,
    )
    &&& after.nimbers.rare@ == if marks(before.bits.rare@, nim as usize) {
        before.nimbers.rare@.push((n as usize, nim))
    } else {
        before.nimbers.rare@
    }
    &&& after.stats.frequencies@ == bumped(before.stats.frequencies@, nim as int)
    &&& after.stats.largest_nimber == before.stats.largest_nimber
    &&& after.stats.largest_nimber_index == if nim == before.stats.largest_nimber {
        n as usize
    } else {
        before.stats.largest_nimber_index
    }
    &&& after.bits.rare == before.bits.rare
    &&& after.bits.partial == before.bits.partial
    &&& after.bits.seen@.len() == before.bits.seen@.len()
}

/// The game `after` is the game `before` one heap further: the heap of `n`
/// tokens has got the least value that is not met, which is no more than the
/// largest value, and that value is recorded; it is kept as the latest rare
/// value unless it is the candidate.
pub open spec fn tail_step(before: Game, after: Game, n: int) -> bool {
    let value = ring_value(after.nimbers.g_back@, n);
    &&& is_value_of(before, n, value as int)
    &&& value <= before.stats.largest_nimber
    &&& tail_recorded(before, after, n, value)
    &&& after.stats.prev_values >= before.stats.prev_values
    &&& after.stats.latest_rare == if is_candidate_of(before, n, value as int) {
        before.stats.latest_rare
    } else {
        value
    }
    &&& after.stats.latest_rare_index == if is_candidate_of(before, n, value as int) {
        before.stats.latest_rare_index
    } else {
        n as usize
    }
}

/// The game `last` is the game `first` after the heaps from `from` up to
/// `to - 1` have got their values, one after the other. The marks of the last
/// heap are left out of account: they are scratch.
pub open spec fn tail_steps(first: Game, last: Game, from: int, to: int) -> bool
    decreases to - from,
{
    if to <= from {
        same_but_scratch(first, last)
    } else {
        exists|middle: Game|
            tail_steps(first, middle, from, to - 1) && #[trigger] tail_step(middle, last, to - 1)
    }
}

/// Two games that differ at most in what their scratch marks hold.
pub open spec fn same_but_scratch(one: Game, other: Game) -> bool {
    &&& one.rules == other.rules
    &&& one.nimbers == other.nimbers
    &&& one.stats == other.stats
    &&& one.bits.rare == other.bits.rare
    &&& one.bits.partial == other.bits.partial
    &&& one.bits.seen@.len() == other.bits.seen@.len()
}

/// The game `start` is the game `before` with the last values of its prefix in
/// the ring, each at the place of its heap.
pub open spec fn tail_started(before: Game, start: Game) -> bool {
    &&& start.rules == before.rules
    &&& start.stats == before.stats
    &&& start.bits == before.bits
    &&& start.nimbers.g == before.nimbers.g
    &&& start.nimbers.rare == before.nimbers.rare
    &&& start.nimbers.g_back@.len() == before.nimbers.g_back@.len()
    &&& forall|m: int|
        before.nimbers.g@.len() - before.nimbers.g_back@.len() <= m < before.nimbers.g@.len()
            ==> #[trigger] ring_value(start.nimbers.g_back@, m) == before.nimbers.g@[m]
}

/// What the marks of the first phases and the value of a heap are does not hang
/// on what the scratch marks hold.
pub proof fn lemma_value_ignores_scratch(one: Game, other: Game, n: int)
    requires
        same_but_scratch(one, other),
    ensures
        marks_of(one, n) == marks_of(other, n),
        forall|m: int| is_value_of(one, n, m) == is_value_of(other, n, m),
        forall|m: int| is_candidate_of(one, n, m) == is_candidate_of(other, n, m),
{
}

/// A step from a game is a step from any game that differs from it in the
/// scratch marks alone, and a run of steps ends in any such game.
pub proof fn lemma_steps_ignore_scratch(
    first: Game,
    last: Game,
    other: Game,
    from: int,
    to: int,
)
    requires
        tail_steps(first, last, from, to),
        same_but_scratch(last, other),
    ensures
        tail_steps(first, other, from, to),
    decreases to - from,
{
    if to > from {
        let middle = choose|middle: Game|
            tail_steps(first, middle, from, to - 1) && #[trigger] tail_step(middle, last, to - 1);
        assert(tail_step(middle, other, to - 1));
    }
}

} // verus!
