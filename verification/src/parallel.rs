//! The work that the fast computation hands out to worker threads, and what
//! the threads' results add up to.
use crate::bitset::{lemma_unset_count_only, merged, Bin};
use crate::drive::lemma_freq_len;
use crate::game::Game;
use crate::grundy::{
    is_grundy_value, is_successor, lemma_nimber_xor_below, may_split, may_take, split_value,
};
use crate::nimber::Nimber;
use crate::partition::marks;
use crate::pow2::is_pow2;
use crate::prove::{lemma_candidate_wins, lemma_unmarked_successor_is_rare, sieved};
use crate::rules::Rule;
use crate::sieve::{rare_pair, rare_pair_before, with_rare_pairs};
use crate::workers::{par_mark, par_sweep};
use vstd::prelude::*;

verus! {

/// The value of a heap of `j` tokens beside one of `top - j`.
pub open spec fn pair_value(g: Seq<Nimber>, top: int, j: int) -> Nimber {
    g[j] ^ g[top - j]
}

/// `bits` with every value below `limit` set that a heap from `lo` up to
/// `hi - 1` has beside the heap that brings the two to `top` tokens.
pub open spec fn swept(
    bits: Seq<bool>,
    g: Seq<Nimber>,
    lo: int,
    hi: int,
    top: int,
    limit: int,
) -> Seq<bool> {
    Seq::new(
        bits.len(),
        |u: int|
            bits[u] || (u < limit && exists|j: int|
                lo <= j < hi && #[trigger] pair_value(g, top, j) == u),
    )
}

/// The value of the heap of the entry at place `k` beside the heap that brings
/// the two to `top` tokens.
pub open spec fn entry_value(
    entries: Seq<(usize, Nimber)>,
    g: Seq<Nimber>,
    top: int,
    k: int,
) -> Nimber {
    entries[k].1 ^ g[top - entries[k].0]
}

/// `bits` with the value of every entry set.
pub open spec fn marked(
    bits: Seq<bool>,
    entries: Seq<(usize, Nimber)>,
    g: Seq<Nimber>,
    top: int,
) -> Seq<bool> {
    Seq::new(
        bits.len(),
        |u: int|
            bits[u] || exists|k: int|
                0 <= k < entries.len() && #[trigger] entry_value(entries, g, top, k) == u,
    )
}

/// Where the chunk at place `k` starts, when the range from `lo` to `hi` is cut
/// into chunks of `chunk`: at `hi` once the range is used up.
pub open spec fn chunk_start(lo: int, hi: int, chunk: int, k: int) -> int {
    if lo + k * chunk <= hi {
        lo + k * chunk
    } else {
        hi
    }
}

/// One worker's share of the walk over the pairs of heaps: the heaps of `xs`,
/// which is the chunk at place `idx` of the heaps from `lo` on.
pub(crate) fn sweep_chunk(
    xs: &[Nimber],
    idx: usize,
    chunk: usize,
    lo: usize,
    g: &Vec<Nimber>,
    top: usize,
    limit: usize,
    par: &mut Bin,
)
    requires
        lo + idx * chunk + xs@.len() <= g@.len(),
        xs@ == g@.subrange(lo + idx * chunk, lo + idx * chunk + xs@.len()),
        lo + idx * chunk + xs@.len() <= top + 1,
        top < g@.len() + lo + idx * chunk,
        limit <= old(par)@.len(),
    ensures
        final(par)@ == swept(
            old(par)@,
            g@,
            lo + idx * chunk,
            lo + idx * chunk + xs@.len(),
            top as int,
            limit as int,
        ),
{
    let ghost before = par@;
    let total = g.len();
    assert(0 <= idx * chunk) by (nonlinear_arith);
    assert(lo + idx * chunk <= total);
    let first: usize = lo + idx * chunk;
    let mut k: usize = 0;
    assert(par@ =~= swept(before, g@, first as int, first as int, top as int, limit as int));
    while k < xs.len()
        invariant
            k <= xs@.len(),
            first == lo + idx * chunk,
            first + xs@.len() <= g@.len(),
            xs@ == g@.subrange(first as int, first + xs@.len()),
            first + xs@.len() <= top + 1,
            top < g@.len() + first,
            limit <= before.len(),
            par@ == swept(before, g@, first as int, first + k, top as int, limit as int),
        decreases xs@.len() - k,
    {
        let ghost prev = par@;
        let j = first + k;
        let x = xs[k];
        let b = g[top - j];
        let loc = (x ^ b) as usize;
        assert(x == g@[j as int]);
        assert(pair_value(g@, top as int, j as int) == loc);
        if loc < limit && !par.get(loc) {
            par.set_bit(loc);
        }
        proof {
            assert forall|u: int| 0 <= u < before.len() implies (#[trigger] par@[u] <==> (
            before[u] || (u < limit && exists|a: int|
                first <= a < j + 1 && #[trigger] pair_value(g@, top as int, a) == u))) by {
                let now = exists|a: int|
                    first <= a < j + 1 && #[trigger] pair_value(g@, top as int, a) == u;
                let then = exists|a: int|
                    first <= a < j && #[trigger] pair_value(g@, top as int, a) == u;
                if now {
                    let a = choose|a: int|
                        first <= a < j + 1 && #[trigger] pair_value(g@, top as int, a) == u;
                    if a < j {
                        assert(first <= a < j && pair_value(g@, top as int, a) == u);
                    }
                }
                if then {
                    let a = choose|a: int|
                        first <= a < j && #[trigger] pair_value(g@, top as int, a) == u;
                    assert(first <= a < j + 1 && pair_value(g@, top as int, a) == u);
                }
                if u == loc {
                    assert(first <= j < j + 1 && pair_value(g@, top as int, j as int) == u);
                }
                assert(prev[u] <==> (before[u] || (u < limit && then)));
            }
            assert(par@ =~= swept(before, g@, first as int, first + k + 1, top as int,
                limit as int));
        }
        k = k + 1;
    }
}

/// One worker's share of the marking of the pairs in which a heap of rare value
/// takes part: the entries `rs` of the index.
pub(crate) fn mark_chunk(rs: &[(usize, Nimber)], g: &Vec<Nimber>, top: usize, bs: &mut Bin)
    requires
        forall|e: int| 0 <= e < rs@.len() ==> (#[trigger] rs@[e]).0 <= top
            && top - rs@[e].0 < g@.len(),
        forall|e: int|
            0 <= e < rs@.len() ==> ((#[trigger] rs@[e]).1 ^ g@[top - rs@[e].0]) < old(bs)@.len(),
    ensures
        final(bs)@ == marked(old(bs)@, rs@, g@, top as int),
{
    let ghost before = bs@;
    let mut k: usize = 0;
    assert(bs@ =~= marked(before, rs@.take(0), g@, top as int));
    while k < rs.len()
        invariant
            k <= rs@.len(),
            forall|e: int|
                0 <= e < rs@.len() ==> (#[trigger] rs@[e]).0 <= top && top - rs@[e].0 < g@.len(),
            forall|e: int|
                0 <= e < rs@.len() ==> ((#[trigger] rs@[e]).1 ^ g@[top - rs@[e].0]) < before.len(),
            bs@ == marked(before, rs@.take(k as int), g@, top as int),
        decreases rs@.len() - k,
    {
        let ghost prev = bs@;
        let idx = rs[k].0;
        let x = rs[k].1;
        let s = (x ^ g[top - idx]) as usize;
        bs.set_bit(s);
        proof {
            let head = rs@.take(k as int);
            let more = rs@.take(k + 1);
            assert(entry_value(more, g@, top as int, k as int) == s);
            assert forall|u: int| 0 <= u < before.len() implies (#[trigger] bs@[u] <==> (
            before[u] || exists|a: int|
                0 <= a < more.len() && #[trigger] entry_value(more, g@, top as int, a) == u)) by {
                let now = exists|a: int|
                    0 <= a < more.len() && #[trigger] entry_value(more, g@, top as int, a) == u;
                let then = exists|a: int|
                    0 <= a < head.len() && #[trigger] entry_value(head, g@, top as int, a) == u;
                if now {
                    let a = choose|a: int|
                        0 <= a < more.len() && #[trigger] entry_value(more, g@, top as int, a)
                            == u;
                    if a < k {
                        assert(0 <= a < head.len() && entry_value(head, g@, top as int, a) == u);
                    }
                }
                if then {
                    let a = choose|a: int|
                        0 <= a < head.len() && #[trigger] entry_value(head, g@, top as int, a)
                            == u;
                    assert(0 <= a < more.len() && entry_value(more, g@, top as int, a) == u);
                }
                assert(prev[u] <==> (before[u] || then));
            }
            assert(bs@ =~= marked(before, more, g@, top as int));
        }
        k = k + 1;
    }
    assert(rs@.take(k as int) =~= rs@);
}

/// The chunks lie one behind the other inside the range.
pub proof fn lemma_chunk_bounds(lo: int, hi: int, chunk: int, k: int)
    requires
        lo <= hi,
        1 <= chunk,
        0 <= k,
    ensures
        lo <= chunk_start(lo, hi, chunk, k) <= chunk_start(lo, hi, chunk, k + 1) <= hi,
{
    assert(0 <= k * chunk <= (k + 1) * chunk) by (nonlinear_arith)
        requires
            1 <= chunk,
            0 <= k,
    ;
}

/// Where there are chunks enough for the range, each place of the range lies
/// in one of them.
pub proof fn lemma_chunks_cover(lo: int, hi: int, chunk: int, workers: int, j: int)
    requires
        lo <= j < hi,
        1 <= chunk,
        hi - lo <= workers * chunk,
    ensures
        0 <= (j - lo) / chunk < workers,
        chunk_start(lo, hi, chunk, (j - lo) / chunk) <= j < chunk_start(
            lo,
            hi,
            chunk,
            (j - lo) / chunk + 1,
        ),
{
    let d = j - lo;
    let k = d / chunk;
    assert(d == chunk * k + d % chunk && 0 <= d % chunk < chunk && 0 <= k) by (nonlinear_arith)
        requires
            k == d / chunk,
            0 <= d,
            1 <= chunk,
    ;
    assert(k * chunk == chunk * k && (k + 1) * chunk == chunk * k + chunk) by (nonlinear_arith);
    if k >= workers {
        assert(workers * chunk <= k * chunk) by (nonlinear_arith)
            requires
                workers <= k,
                1 <= chunk,
        ;
    }
}

/// Chunks of one more than the share of each worker leave nothing over.
pub proof fn lemma_share_covers(m: int, workers: int)
    requires
        0 <= m,
        1 <= workers,
    ensures
        m <= workers * (1 + m / workers),
{
    assert(m == workers * (m / workers) + m % workers && m % workers < workers)
        by (nonlinear_arith)
        requires
            0 <= m,
            1 <= workers,
    ;
    assert(workers * (1 + m / workers) == workers + workers * (m / workers))
        by (nonlinear_arith);
}

proof fn lemma_rare_pair_rows(
    rules: Seq<Rule>,
    g: Seq<Nimber>,
    index: Seq<(usize, Nimber)>,
    n: int,
    i: int,
    m: int,
    s: int,
)
    ensures
        rare_pair_before(rules, g, index, n, i, m, s) <==> (rare_pair_before(
            rules,
            g,
            index,
            n,
            i,
            0,
            s,
        ) || exists|e: int| 0 <= e < m && #[trigger] rare_pair(rules, g, index, n, i, e, s)),
{
    if rare_pair_before(rules, g, index, n, i, m, s) {
        let (a, b) = choose|a: int, b: int| #[trigger]
            rare_pair(rules, g, index, n, a, b, s) && (a < i || (a == i && b < m));
        if a < i {
            assert(rare_pair(rules, g, index, n, a, b, s) && (a < i || (a == i && b < 0)));
        } else {
            assert(0 <= b < m && rare_pair(rules, g, index, n, i, b, s));
        }
    }
    if rare_pair_before(rules, g, index, n, i, 0, s) {
        let (a, b) = choose|a: int, b: int| #[trigger]
            rare_pair(rules, g, index, n, a, b, s) && (a < i || (a == i && b < 0));
        assert(rare_pair(rules, g, index, n, a, b, s) && (a < i || (a == i && b < m)));
    }
    if exists|e: int| 0 <= e < m && #[trigger] rare_pair(rules, g, index, n, i, e, s) {
        let e = choose|e: int| 0 <= e < m && #[trigger] rare_pair(rules, g, index, n, i, e, s);
        assert(rare_pair(rules, g, index, n, i, e, s) && (i < i || (i == i && e < m)));
    }
}

/// The heap at place `k` of an index that grows is at least `k`.
pub proof fn lemma_index_grows(index: Seq<(usize, Nimber)>, k: int)
    requires
        0 <= k < index.len(),
        forall|a: int, b: int|
            0 <= a < b < index.len() ==> (#[trigger] index[a]).0 < (#[trigger] index[b]).0,
    ensures
        index[k].0 >= k,
    decreases k,
{
    if k > 0 {
        lemma_index_grows(index, k - 1);
    }
}

/// The scratch set at place `k` has the bit `u` set.
pub open spec fn scratch_bit(partial: Seq<Bin>, k: int, u: int) -> bool {
    partial[k]@[u]
}

/// Some scratch set before place `k` has the bit `u` set.
pub open spec fn any_set(partial: Seq<Bin>, k: int, u: int) -> bool {
    exists|w: int| 0 <= w < k && (#[trigger] partial[w])@[u]
}

/// Sets in `target` every bit that is set in a scratch set.
pub fn gather_into(target: &mut Bin, partial: &Vec<Bin>)
    requires
        forall|k: int|
            0 <= k < partial@.len() ==> (#[trigger] partial@[k])@.len() == old(target)@.len(),
    ensures
        final(target)@ == Seq::new(
            old(target)@.len(),
            |u: int| old(target)@[u] || any_set(partial@, partial@.len() as int, u),
        ),
{
    let ghost before = target@;
    let workers = partial.len();
    let mut k: usize = 0;
    assert(target@ =~= Seq::new(before.len(), |u: int| before[u] || any_set(partial@, 0, u)));
    while k < workers
        invariant
            k <= workers,
            workers == partial@.len(),
            forall|w: int| 0 <= w < partial@.len()
                ==> (#[trigger] partial@[w])@.len() == before.len(),
            target@ == Seq::new(
                before.len(),
                |u: int| before[u] || any_set(partial@, k as int, u),
            ),
        decreases workers - k,
    {
        let ghost prev = target@;
        target.set_all_bits_from(&partial[k]);
        proof {
            assert forall|u: int| 0 <= u < before.len() implies (#[trigger] target@[u] <==> (
            before[u] || any_set(partial@, k + 1, u))) by {
                if any_set(partial@, k + 1, u) {
                    let w = choose|w: int| 0 <= w < k + 1 && (#[trigger] partial@[w])@[u];
                    if w < k {
                        assert(0 <= w < k && partial@[w]@[u]);
                    }
                }
                if any_set(partial@, k as int, u) {
                    let w = choose|w: int| 0 <= w < k && (#[trigger] partial@[w])@[u];
                    assert(0 <= w < k + 1 && partial@[w]@[u]);
                }
                if partial@[k as int]@[u] {
                    assert(0 <= k < k + 1 && partial@[k as int]@[u]);
                }
                assert(prev[u] <==> (before[u] || any_set(partial@, k as int, u)));
            }
            assert(target@ =~= Seq::new(
                before.len(),
                |u: int| before[u] || any_set(partial@, k + 1, u),
            ));
        }
        k = k + 1;
    }
}

/// Sets in every scratch set each bit that is set in `source`.
pub fn spread_from(partial: &mut Vec<Bin>, source: &Bin)
    ensures
        final(partial)@.len() == old(partial)@.len(),
        forall|k: int|
            0 <= k < old(partial)@.len() ==> (#[trigger] final(partial)@[k])@ == merged(
                old(partial)@[k]@,
                source@,
            ),
{
    let workers = partial.len();
    let mut k: usize = 0;
    while k < workers
        invariant
            k <= workers,
            workers == partial@.len(),
            partial@.len() == old(partial)@.len(),
            forall|w: int|
                0 <= w < k ==> (#[trigger] partial@[w])@ == merged(old(partial)@[w]@, source@),
            forall|w: int| k <= w < workers ==> #[trigger] partial@[w] == old(partial)@[w],
        decreases workers - k,
    {
        partial[k].set_all_bits_from(source);
        k = k + 1;
    }
}

/// Clears every scratch set.
pub fn clear_all(partial: &mut Vec<Bin>)
    ensures
        final(partial)@.len() == old(partial)@.len(),
        forall|k: int|
            0 <= k < old(partial)@.len() ==> (#[trigger] final(partial)@[k])@
                == crate::bitset::cleared(old(partial)@[k]@.len()),
{
    let workers = partial.len();
    let mut k: usize = 0;
    while k < workers
        invariant
            k <= workers,
            workers == partial@.len(),
            partial@.len() == old(partial)@.len(),
            forall|w: int|
                0 <= w < k ==> (#[trigger] partial@[w])@ == crate::bitset::cleared(
                    old(partial)@[w]@.len(),
                ),
            forall|w: int| k <= w < workers ==> #[trigger] partial@[w] == old(partial)@[w],
        decreases workers - k,
    {
        partial[k].zero_bits();
        k = k + 1;
    }
}

impl Game {
    /// The nim-value of a heap of `n` tokens, once the first phases have marked
    /// what they reach, with the walk over the pairs of heaps shared out among
    /// the worker threads.
    ///
    /// The heaps are walked in stretches of one chunk for each worker. Every
    /// worker marks in a set of its own; after each stretch the sets are joined,
    /// and the walk ends once every rare value below the candidate is met.
    /// Without a worker, or with more of them than stretches can be counted
    /// for, the walk is that of one thread.
    #[verifier::rlimit(50)]
    pub fn prove_mt(&mut self, n: usize) -> (nim: Nimber)
        requires
            old(self).ready(n as int),
            sieved(
                old(self).rules@,
                old(self).nimbers.g@,
                old(self).bits.rare@,
                n as int,
                old(self).bits.seen@,
            ),
            forall|m: int|
                is_grundy_value(old(self).rules@, old(self).nimbers.g@, n as int, m) ==> m
                    <= Nimber::MAX,
        ensures
            is_grundy_value(old(self).rules@, old(self).nimbers.g@, n as int, nim as int),
            final(self).rules == old(self).rules,
            final(self).nimbers == old(self).nimbers,
            final(self).bits == old(self).bits,
            final(self).stats.largest_nimber == old(self).stats.largest_nimber,
            final(self).stats.frequencies == old(self).stats.frequencies,
            final(self).stats.largest_nimber_index == old(self).stats.largest_nimber_index,
            final(self).stats.prev_values >= old(self).stats.prev_values,
            final(self).stats.latest_rare == if marks(old(self).bits.rare@, nim as usize) {
                nim
            } else {
                old(self).stats.latest_rare
            },
            final(self).stats.latest_rare_index == if marks(old(self).bits.rare@, nim as usize) {
                n
            } else {
                old(self).stats.latest_rare_index
            },
    {
        let workers = self.bits.partial.len();
        let chunk: usize = 4096;
        let step = match workers.checked_mul(chunk) {
            Some(step) => step,
            None => {
                return self.prove(n);
            },
        };
        if workers == 0 {
            return self.prove(n);
        }
        let ghost rules = self.rules@;
        let ghost g = self.nimbers.g@;
        let ghost rare = self.bits.rare@;
        let ghost seen = self.bits.seen@;
        let ghost limit = self.stats.frequencies@.len();
        let ghost found = exists|j: int| 0 <= j < rare.len() && !seen[j] && !rare[j];
        proof {
            lemma_freq_len(self.stats.largest_nimber);
        }
        let ghost bound: usize = (seen.len() - 2) as usize;
        let first_common = self.bits.seen.find_first_unset_also_unset_in(&self.bits.rare);
        proof {
            if seen[first_common as int] {
                crate::grundy::lemma_successor_below(rules, g, n as int, first_common as int,
                    bound);
            }
            if is_successor(rules, g, n as int, first_common as int) {
                if found {
                    lemma_unmarked_successor_is_rare(
                        rules,
                        g,
                        rare,
                        limit,
                        n as int,
                        seen,
                        first_common as int,
                    );
                } else {
                    crate::grundy::lemma_successor_below(
                        rules,
                        g,
                        n as int,
                        first_common as int,
                        bound,
                    );
                }
            }
        }
        let mut mex = self.bits.seen.copy_up_to_inclusive(first_common + 1);
        let mut partial: Vec<Bin> = Vec::new();
        let mut w: usize = 0;
        while w < workers
            invariant
                w <= workers,
                partial@.len() == w,
                forall|k: int| 0 <= k < w ==> (#[trigger] partial@[k])@ == mex@,
            decreases workers - w,
        {
            partial.push(mex.clone());
            w = w + 1;
        }
        let r = self.rules.len();
        let mut i: usize = 1;
        while i < r
            invariant
                1 <= i,
                r == rules.len(),
                r <= n <= g.len(),
                chunk == 4096,
                1 <= workers,
                step == workers * chunk,
                rules == self.rules@,
                g == self.nimbers.g@,
                rare == self.bits.rare@,
                seen == self.bits.seen@,
                seen.len() == rare.len(),
                bound == seen.len() - 2,
                is_pow2(bound),
                forall|k: int| 0 <= k < n ==> #[trigger] g[k] < bound,
                sieved(rules, g, rare, n as int, seen),
                first_common < seen.len(),
                found ==> !marks(rare, first_common),
                !found ==> first_common == seen.len() - 1,
                !is_successor(rules, g, n as int, first_common as int),
                forall|m: int| is_grundy_value(rules, g, n as int, m) ==> m <= Nimber::MAX,
                mex@.len() == first_common + 1,
                !mex@[first_common as int],
                partial@.len() == workers,
                forall|k: int| 0 <= k < workers
                    ==> (#[trigger] partial@[k])@.len() == first_common + 1,
                forall|k: int, u: int|
                    0 <= k < workers && 0 <= u <= first_common && #[trigger] scratch_bit(
                        partial@,
                        k,
                        u,
                    ) ==> mex@[u],
                forall|u: int| 0 <= u < first_common && seen[u] ==> mex@[u],
                forall|u: int|
                    0 <= u < first_common && #[trigger] mex@[u] ==> is_successor(
                        rules,
                        g,
                        n as int,
                        u,
                    ),
                forall|a: int, b: int| #[trigger]
                    may_split(rules, n as int, a, b) && a < i && split_value(g, b, n - a - b)
                        < first_common ==> mex@[split_value(g, b, n - a - b) as int],
                *self == *old(self),
            decreases r - i,
        {
            if self.rules[i].divide {
                let end = (n - i) / 2;
                let top = n - i;
                let mut start: usize = 1;
                while start <= end
                    invariant
                        1 <= start <= end + 1,
                        end == (n - i) / 2,
                        top == n - i,
                        1 <= i < r,
                        rules[i as int].divide,
                        r == rules.len(),
                        r <= n <= g.len(),
                        chunk == 4096,
                        1 <= workers,
                        step == workers * chunk,
                        rules == self.rules@,
                        g == self.nimbers.g@,
                        rare == self.bits.rare@,
                        seen == self.bits.seen@,
                        seen.len() == rare.len(),
                        bound == seen.len() - 2,
                        is_pow2(bound),
                        forall|k: int| 0 <= k < n ==> #[trigger] g[k] < bound,
                        first_common < seen.len(),
                        found ==> !marks(rare, first_common),
                        !found ==> first_common == seen.len() - 1,
                        !is_successor(rules, g, n as int, first_common as int),
                        forall|m: int| is_grundy_value(rules, g, n as int, m) ==> m <= Nimber::MAX,
                        mex@.len() == first_common + 1,
                        !mex@[first_common as int],
                        partial@.len() == workers,
                        forall|k: int|
                            0 <= k < workers ==> (#[trigger] partial@[k])@.len() == first_common
                                + 1,
                        forall|k: int, u: int|
                            0 <= k < workers && 0 <= u <= first_common && #[trigger] scratch_bit(
                                partial@,
                                k,
                                u,
                            ) ==> mex@[u],
                        forall|u: int| 0 <= u < first_common && seen[u] ==> mex@[u],
                        forall|u: int|
                            0 <= u < first_common && #[trigger] mex@[u] ==> is_successor(
                                rules,
                                g,
                                n as int,
                                u,
                            ),
                        forall|a: int, b: int| #[trigger]
                            may_split(rules, n as int, a, b) && (a < i || (a == i && b < start))
                                && split_value(g, b, n - a - b) < first_common ==> mex@[split_value(
                                g,
                                b,
                                n - a - b,
                            ) as int],
                        *self == *old(self),
                    decreases end + 1 - start,
                {
                    let stop = if end + 1 - start <= step {
                        end + 1
                    } else {
                        start + step
                    };
                    let ghost mex0 = mex@;
                    let ghost stale = partial@;
                    spread_from(&mut partial, &mex);
                    let ghost fresh = partial@;
                    par_sweep(&self.nimbers.g, start, stop, chunk, top, first_common, &mut partial);
                    let ghost filled = partial@;
                    gather_into(&mut mex, &partial);
                    proof {
                        assert forall|k: int, u: int|
                            0 <= k < workers && 0 <= u <= first_common implies (scratch_bit(
                            filled,
                            k,
                            u,
                        ) <==> (mex0[u] || (u < first_common && exists|j: int|
                            chunk_start(start as int, stop as int, chunk as int, k) <= j
                                < chunk_start(start as int, stop as int, chunk as int, k + 1)
                                && #[trigger] pair_value(g, top as int, j) == u))) by {
                            assert(filled[k]@ == swept(
                                fresh[k]@,
                                g,
                                chunk_start(start as int, stop as int, chunk as int, k),
                                chunk_start(start as int, stop as int, chunk as int, k + 1),
                                top as int,
                                first_common as int,
                            ));
                            assert(fresh[k]@ == merged(stale[k]@, mex0));
                            if stale[k]@[u] {
                                assert(scratch_bit(stale, k, u));
                            }
                        }
                        assert forall|u: int| 0 <= u < first_common
                            && #[trigger] mex@[u] implies is_successor(
                            rules,
                            g,
                            n as int,
                            u,
                        ) by {
                            if !mex0[u] {
                                let k = choose|k: int| 0 <= k < workers
                                    && (#[trigger] filled[k])@[u];
                                assert(scratch_bit(filled, k, u));
                                let j = choose|j: int|
                                    chunk_start(start as int, stop as int, chunk as int, k) <= j
                                        < chunk_start(
                                        start as int,
                                        stop as int,
                                        chunk as int,
                                        k + 1,
                                    ) && #[trigger] pair_value(g, top as int, j) == u;
                                lemma_chunk_bounds(start as int, stop as int, chunk as int, k);
                                assert(may_split(rules, n as int, i as int, j) && split_value(
                                    g,
                                    j,
                                    n - i - j,
                                ) == u);
                            }
                        }
                        assert(!mex@[first_common as int]) by {
                            if any_set(filled, workers as int, first_common as int) {
                                let k = choose|k: int|
                                    0 <= k < workers
                                        && (#[trigger] filled[k])@[first_common as int];
                                assert(scratch_bit(filled, k, first_common as int));
                            }
                        }
                        assert forall|a: int, b: int| #[trigger]
                            may_split(rules, n as int, a, b) && (a < i || (a == i && b < stop))
                                && split_value(g, b,
                                    n - a - b) < first_common implies mex@[split_value(
                            g,
                            b,
                            n - a - b,
                        ) as int] by {
                            let v = split_value(g, b, n - a - b) as int;
                            if a == i && b >= start {
                                lemma_chunks_cover(
                                    start as int,
                                    stop as int,
                                    chunk as int,
                                    workers as int,
                                    b,
                                );
                                let k = (b - start) / (chunk as int);
                                assert(pair_value(g, top as int, b) == v);
                                assert(scratch_bit(filled, k, v));
                                assert(filled[k]@[v]);
                                assert(any_set(filled, workers as int, v));
                            } else {
                                assert(mex0[v]);
                            }
                        }
                        assert forall|k: int, u: int|
                            0 <= k < workers && 0 <= u <= first_common && #[trigger] scratch_bit(
                                partial@,
                                k,
                                u,
                            ) implies mex@[u] by {
                            assert(filled[k]@[u]);
                            assert(any_set(filled, workers as int, u));
                        }
                        assert forall|k: int| 0 <= k < workers implies (
                        #[trigger] partial@[k])@.len() == first_common + 1 by {
                            assert(filled[k]@.len() == fresh[k]@.len());
                            assert(fresh[k]@.len() == stale[k]@.len());
                        }
                    }
                    if mex.count_unset() == 1 {
                        proof {
                            lemma_candidate_wins(
                                rules,
                                g,
                                n as int,
                                mex@,
                                first_common as int,
                                bound,
                            );
                        }
                        return first_common as Nimber;
                    }
                    start = stop;
                }
            }
            i = i + 1;
        }
        if mex.count_unset() == 1 {
            proof {
                lemma_candidate_wins(rules, g, n as int, mex@, first_common as int, bound);
            }
            return first_common as Nimber;
        }
        let lowest = mex.lowest_unset();
        proof {
            if lowest == first_common {
                lemma_unset_count_only(mex@, first_common as int);
            }
            if is_successor(rules, g, n as int, lowest as int) {
                if exists|a: int| #[trigger] may_take(rules, n as int, a) && g[n - a] == lowest {
                    let a = choose|a: int| #[trigger]
                        may_take(rules, n as int, a) && g[n - a] == lowest;
                    assert(seen[g[n - a] as int]);
                } else {
                    let (a, b) = choose|a: int, b: int| #[trigger]
                        may_split(rules, n as int, a, b) && split_value(g, b, n - a - b) == lowest;
                    assert(mex@[split_value(g, b, n - a - b) as int]);
                }
            }
            assert forall|k: int| 0 <= k < lowest implies is_successor(rules, g, n as int, k) by {
                assert(mex@[k]);
            }
            assert(is_grundy_value(rules, g, n as int, lowest as int));
            assert(lowest < first_common);
            assert(!seen[lowest as int]);
            if !marks(rare, lowest) {
                assert(seen[lowest as int] || rare[lowest as int]);
            }
        }
        let nim = lowest as Nimber;
        self.stats.latest_rare = nim;
        self.stats.latest_rare_index = n;
        nim
    }

    /// Marks the value of every pair of heaps that a move from `n` may leave and
    /// of which one stands in the index of the heaps of rare value, with the
    /// index shared out among the worker threads. The scratch sets must hold
    /// nothing that `seen` lacks.
    #[verifier::rlimit(50)]
    pub fn iterate_over_r_xor_c_mt(&mut self, n: usize)
        requires
            old(self).rules@.len() <= n <= old(self).nimbers.g@.len(),
            1 <= old(self).bits.partial@.len(),
            forall|k: int|
                0 <= k < old(self).bits.partial@.len()
                    ==> (#[trigger] old(self).bits.partial@[k])@.len() == old(self).bits.seen@.len(),
            forall|k: int, u: int|
                0 <= k < old(self).bits.partial@.len() && 0 <= u < old(self).bits.seen@.len()
                    && #[trigger] scratch_bit(old(self).bits.partial@, k, u)
                        ==> old(self).bits.seen@[u],
            forall|k: int, l: int|
                0 <= k < l < old(self).nimbers.rare@.len()
                    ==> (#[trigger] old(self).nimbers.rare@[k]).0 < (#[trigger] old(self).nimbers.rare@[l]).0,
            exists|bound: usize|
                {
                    &&& is_pow2(bound)
                    &&& bound <= old(self).bits.seen@.len()
                    &&& forall|k: int|
                        0 <= k < n ==> #[trigger] old(self).nimbers.g@[k] < bound
                    &&& forall|k: int|
                        0 <= k < old(self).nimbers.rare@.len()
                            ==> (#[trigger] old(self).nimbers.rare@[k]).1 < bound
                },
        ensures
            final(self).bits.seen@ == with_rare_pairs(
                old(self).bits.seen@,
                old(self).rules@,
                old(self).nimbers.g@,
                old(self).nimbers.rare@,
                n as int,
            ),
            final(self).bits.partial@.len() == old(self).bits.partial@.len(),
            forall|k: int|
                0 <= k < final(self).bits.partial@.len()
                    ==> (#[trigger] final(self).bits.partial@[k])@.len() == old(self).bits.seen@.len(),
            final(self).rules == old(self).rules,
            final(self).nimbers == old(self).nimbers,
            final(self).stats == old(self).stats,
            final(self).bits.rare == old(self).bits.rare,
    {
        let ghost before = self.bits.seen@;
        let ghost rules = self.rules@;
        let ghost g = self.nimbers.g@;
        let ghost index = self.nimbers.rare@;
        let ghost bound = choose|bound: usize|
            {
                &&& is_pow2(bound)
                &&& bound <= before.len()
                &&& forall|k: int| 0 <= k < n ==> #[trigger] g[k] < bound
                &&& forall|k: int| 0 <= k < index.len() ==> (#[trigger] index[k]).1 < bound
            };
        let r = self.rules.len();
        let workers = self.bits.partial.len();
        let mut i: usize = 1;
        proof {
            assert forall|s: int| 0 <= s < before.len() implies !rare_pair_before(
                rules,
                g,
                index,
                n as int,
                1,
                0,
                s,
            ) by {}
            assert(self.bits.seen@ =~= Seq::new(
                before.len(),
                |s: int| before[s] || rare_pair_before(rules, g, index, n as int, 1, 0, s),
            ));
        }
        while i < r
            invariant
                1 <= i,
                r == rules.len(),
                r <= n <= g.len(),
                1 <= workers,
                workers == self.bits.partial@.len(),
                rules == self.rules@,
                g == self.nimbers.g@,
                index == self.nimbers.rare@,
                is_pow2(bound),
                bound <= before.len(),
                forall|k: int| 0 <= k < n ==> #[trigger] g[k] < bound,
                forall|k: int| 0 <= k < index.len() ==> (#[trigger] index[k]).1 < bound,
                forall|k: int, l: int|
                    0 <= k < l < index.len() ==> (#[trigger] index[k]).0 < (#[trigger] index[l]).0,
                forall|k: int|
                    0 <= k < workers ==> (#[trigger] self.bits.partial@[k])@.len() == before.len(),
                forall|k: int, u: int|
                    0 <= k < workers && 0 <= u < before.len() && #[trigger] scratch_bit(
                        self.bits.partial@,
                        k,
                        u,
                    ) ==> self.bits.seen@[u],
                self.bits.seen@ == Seq::new(
                    before.len(),
                    |s: int|
                        before[s] || rare_pair_before(rules, g, index, n as int, i as int, 0, s),
                ),
                self.rules == old(self).rules,
                self.nimbers == old(self).nimbers,
                self.stats == old(self).stats,
                self.bits.rare == old(self).bits.rare,
            decreases r - i,
        {
            let ghost row = self.bits.seen@;
            let mut done: usize = 0;
            if self.rules[i].divide {
                let mut m = self.nimbers.rare.len();
                while m > 0 && n - i <= self.nimbers.rare[m - 1].0
                    invariant
                        m <= index.len(),
                        i < n,
                        index == self.nimbers.rare@,
                        forall|k: int| m <= k < index.len() ==> (#[trigger] index[k]).0 + i >= n,
                    decreases m,
                {
                    m = m - 1;
                }
                proof {
                    if m > 0 {
                        lemma_index_grows(index, m - 1);
                    }
                }
                let chunk = 1 + m / workers;
                let top = n - i;
                let ghost scratch = self.bits.partial@;
                proof {
                    assert forall|e: int| 0 <= e < m implies (#[trigger] index[e]).0 <= top && top
                        - index[e].0 < g.len() by {
                        assert(index[e].0 <= index[m - 1].0);
                    }
                    assert forall|e: int, k: int| 0 <= e < m && 0 <= k < workers implies ((
                    #[trigger] index[e]).1 ^ g[top - index[e].0]) < (#[trigger] scratch[k])@.len() by {
                        assert(index[e].0 <= index[m - 1].0);
                        lemma_nimber_xor_below(index[e].1, g[top - index[e].0], bound);
                    }
                }
                par_mark(
                    &self.nimbers.rare,
                    m,
                    chunk,
                    &self.nimbers.g,
                    top,
                    &mut self.bits.partial,
                );
                let ghost filled = self.bits.partial@;
                gather_into(&mut self.bits.seen, &self.bits.partial);
                proof {
                    lemma_share_covers(m as int, workers as int);
                    assert forall|s: int| 0 <= s < before.len() implies (
                    #[trigger] self.bits.seen@[s] <==> (before[s] || rare_pair_before(
                        rules,
                        g,
                        index,
                        n as int,
                        i as int,
                        m as int,
                        s,
                    ))) by {
                        lemma_rare_pair_rows(rules, g, index, n as int, i as int, m as int, s);
                        assert(row[s] <==> (before[s] || rare_pair_before(
                            rules,
                            g,
                            index,
                            n as int,
                            i as int,
                            0,
                            s,
                        )));
                        if any_set(filled, workers as int, s) {
                            let w = choose|w: int| 0 <= w < workers && (#[trigger] filled[w])@[s];
                            let lo = chunk_start(0, m as int, chunk as int, w);
                            let hi = chunk_start(0, m as int, chunk as int, w + 1);
                            lemma_chunk_bounds(0, m as int, chunk as int, w);
                            let part = index.subrange(lo, hi);
                            assert(filled[w]@ == marked(scratch[w]@, part, g, top as int));
                            if scratch[w]@[s] {
                                assert(scratch_bit(scratch, w, s));
                            } else {
                                let a = choose|a: int|
                                    0 <= a < part.len() && #[trigger] entry_value(
                                        part,
                                        g,
                                        top as int,
                                        a,
                                    ) == s;
                                assert(index[lo + a].0 <= index[m - 1].0);
                                assert(rare_pair(rules, g, index, n as int, i as int, lo + a, s));
                            }
                        }
                        if exists|e: int|
                            0 <= e < m && #[trigger] rare_pair(
                                rules,
                                g,
                                index,
                                n as int,
                                i as int,
                                e,
                                s,
                            ) {
                            let e = choose|e: int|
                                0 <= e < m && #[trigger] rare_pair(
                                    rules,
                                    g,
                                    index,
                                    n as int,
                                    i as int,
                                    e,
                                    s,
                                );
                            lemma_chunks_cover(0, m as int, chunk as int, workers as int, e);
                            let w = e / (chunk as int);
                            let lo = chunk_start(0, m as int, chunk as int, w);
                            let hi = chunk_start(0, m as int, chunk as int, w + 1);
                            let part = index.subrange(lo, hi);
                            assert(filled[w]@ == marked(scratch[w]@, part, g, top as int));
                            assert(entry_value(part, g, top as int, e - lo) == s);
                            assert(filled[w]@[s]);
                            assert(any_set(filled, workers as int, s));
                        }
                    }
                    assert forall|k: int, u: int|
                        0 <= k < workers && 0 <= u < before.len() && #[trigger] scratch_bit(
                            self.bits.partial@,
                            k,
                            u,
                        ) implies self.bits.seen@[u] by {
                        assert(filled[k]@[u]);
                        assert(any_set(filled, workers as int, u));
                    }
                    assert forall|k: int| 0 <= k < workers implies (
                    #[trigger] self.bits.partial@[k])@.len() == before.len() by {
                        assert(filled[k]@.len() == scratch[k]@.len());
                    }
                }
                done = m;
            }
            proof {
                let prev = self.bits.seen@;
                assert forall|s: int| 0 <= s < before.len() implies (#[trigger] self.bits.seen@[s]
                    <==> (before[s]
                        || rare_pair_before(rules, g, index, n as int, i + 1, 0, s))) by {
                    crate::sieve::lemma_rare_pair_row(
                        rules,
                        g,
                        index,
                        n as int,
                        i as int,
                        done as int,
                        s,
                    );
                    assert(prev[s] <==> (before[s] || rare_pair_before(
                        rules,
                        g,
                        index,
                        n as int,
                        i as int,
                        done as int,
                        s,
                    )));
                }
                assert(self.bits.seen@ =~= Seq::new(
                    before.len(),
                    |s: int|
                        before[s] || rare_pair_before(rules, g, index, n as int, i + 1, 0, s),
                ));
            }
            i = i + 1;
        }
        proof {
            assert forall|s: int| 0 <= s < before.len() implies (rare_pair_before(
                rules,
                g,
                index,
                n as int,
                i as int,
                0,
                s,
            ) <==> rare_pair_before(rules, g, index, n as int, r as int, 0, s)) by {
                if rare_pair_before(rules, g, index, n as int, i as int, 0, s) {
                    let (a, b) = choose|a: int, b: int| #[trigger]
                        rare_pair(rules, g, index, n as int, a, b, s) && (a < i || (a == i && b
                            < 0));
                    assert(rare_pair(rules, g, index, n as int, a, b, s) && (a < r || (a == r
                        && b < 0)));
                }
                if rare_pair_before(rules, g, index, n as int, r as int, 0, s) {
                    let (a, b) = choose|a: int, b: int| #[trigger]
                        rare_pair(rules, g, index, n as int, a, b, s) && (a < r || (a == r && b
                            < 0));
                    assert(rare_pair(rules, g, index, n as int, a, b, s) && (a < i || (a == i
                        && b < 0)));
                }
            }
            assert(self.bits.seen@ =~= with_rare_pairs(before, rules, g, index, n as int));
        }
    }
}

} // verus!
