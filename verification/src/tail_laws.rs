//! What the values of the continuation are worth: under which conditions the
//! value that a heap past the prefix gets is its nim-value.
use crate::drive::lemma_freq_len;
use crate::game::{lemma_rare_index_entries, lemma_rare_index_has, Game};
use crate::grundy::{
    is_grundy_value, is_successor, lemma_successor_below, lemma_successor_reads_prefix,
    lemma_xor_widens, may_clear, may_split, may_take, split_value,
};
use crate::nimber::Nimber;
use crate::nimbers::{heap_at_place, lemma_heap_at_place, lemma_ring_places_differ, ring_value};
use crate::partition::marks;
use crate::prove::{lemma_pair_is_successor, lemma_xor_commutes, may_pair};
use crate::rules::Rule;
use crate::sieve::{rare_pair, rare_pair_before, with_taken};
use crate::tail::{
    is_candidate, is_candidate_of, is_met, is_value_of, lemma_candidate_unique, marks_of,
    tail_pair, tail_pair_any, tail_recorded, tail_started, tail_step, tail_view,
};
use vstd::prelude::*;

verus! {

/// A game whose prefix is full can go on past it once the last values of the
/// prefix stand in the ring, each at the place of its heap, where the ring is no
/// shorter than the rules are many.
#[verifier::rlimit(50)]
pub proof fn lemma_tail_starts(before: Game, start: Game)
    requires
        before.ready(before.nimbers.g@.len() as int),
        tail_started(before, start),
        before.rules@.len() <= before.nimbers.g_back@.len() <= before.nimbers.g@.len(),
    ensures
        start.tail_ready(start.nimbers.g@.len() as int),
{
    let g = before.nimbers.g@;
    let n = g.len() as int;
    let ring = start.nimbers.g_back@;
    let width = ring.len() as int;
    assert(n == before.nimbers.g.len());
    assert(g.take(n) =~= g);
    lemma_freq_len(before.stats.largest_nimber);
    lemma_rare_index_entries(g, before.bits.rare@, n);
    assert forall|v: int| 0 <= v < start.stats.frequencies@.len() implies (
    #[trigger] start.stats.frequencies@[v]) <= n by {
        crate::stats::lemma_count_of_bounds(g, v, n);
    }
    assert forall|k: int| 0 <= k < width implies #[trigger] ring[k]
        <= start.stats.largest_nimber by {
        lemma_heap_at_place(n, width, k);
        let p = heap_at_place(n, width, k);
        assert(ring_value(ring, p) == g[p]);
    }
    assert forall|k: int| 0 <= k < start.nimbers.rare@.len() implies (
    #[trigger] start.nimbers.rare@[k]).0 < n && start.nimbers.rare@[k].1
        <= start.stats.largest_nimber by {
        let e = start.nimbers.rare@[k];
        assert(e.1 == g[e.0 as int]);
    }
}

/// The heap of `a` tokens stands in the index.
pub open spec fn in_index(index: Seq<(usize, Nimber)>, a: int) -> bool {
    exists|k: int| 0 <= k < index.len() && (#[trigger] index[k]).0 == a
}

/// A history of the values of the first `n` heaps of which the game holds the
/// prefix and, in its ring, the last ones: no value exceeds the largest one, and
/// the index holds the heaps of rare value, each with its value, and no other.
pub open spec fn is_history(game: Game, h: Seq<Nimber>, n: int) -> bool {
    &&& n <= h.len()
    &&& forall|p: int| 0 <= p < game.nimbers.g@.len() ==> #[trigger] h[p] == game.nimbers.g@[p]
    &&& forall|p: int|
        0 <= p < n && n <= p + game.nimbers.g_back@.len() ==> h[p] == #[trigger] ring_value(
            game.nimbers.g_back@,
            p,
        )
    &&& forall|p: int| 0 <= p < n ==> #[trigger] h[p] <= game.stats.largest_nimber
    &&& forall|k: int|
        0 <= k < game.nimbers.rare@.len() ==> 1 <= (#[trigger] game.nimbers.rare@[k]).0 < n
            && game.nimbers.rare@[k].1 == h[game.nimbers.rare@[k].0 as int]
    &&& forall|a: int|
        1 <= a < n && marks(game.bits.rare@, (#[trigger] h[a]) as usize) ==> in_index(
            game.nimbers.rare@,
            a,
        )
}

/// The entry at place `k` of the index has a heap that may be left, after `i`
/// tokens are taken from a heap of `n`, beside a heap that the ring of `width`
/// heaps has lost.
pub open spec fn out_of_reach(
    rules: Seq<Rule>,
    index: Seq<(usize, Nimber)>,
    width: int,
    n: int,
    i: int,
    k: int,
) -> bool {
    &&& 1 <= i < rules.len()
    &&& rules[i].divide
    &&& 0 <= k < index.len()
    &&& width < index[k].0 + i < n
}

/// Every heap of rare value that a move from `n` may leave beside another heap
/// is in reach: the ring of the game holds the other heap.
pub open spec fn all_in_reach(game: Game, n: int) -> bool {
    forall|i: int, k: int|
        !#[trigger] out_of_reach(
            game.rules@,
            game.nimbers.rare@,
            game.nimbers.g_back@.len() as int,
            n,
            i,
            k,
        )
}

/// Every pair of heaps that a move from `n` may leave is walked: the smaller
/// heap lies in the prefix, and the ring holds the other one.
pub open spec fn all_pairs_walked(game: Game, n: int) -> bool {
    forall|i: int, j: int| #[trigger]
        may_split(game.rules@, n, i, j) ==> j < game.nimbers.g@.len() && j + i
            <= game.nimbers.g_back@.len()
}

/// The value `v` that the continuation finds for the heap of `n` tokens is its
/// nim-value, for every history of the game, where every heap of rare value is
/// in reach and either `v` is the candidate or every pair of heaps is walked.
#[verifier::rlimit(50)]
pub proof fn lemma_tail_value_is_grundy(game: Game, h: Seq<Nimber>, n: int, v: int)
    requires
        game.tail_ready(n),
        is_history(game, h, n),
        all_in_reach(game, n),
        is_value_of(game, n, v),
        is_candidate_of(game, n, v) || all_pairs_walked(game, n),
    ensures
        is_grundy_value(game.rules@, h, n, v),
{
    let rules = game.rules@;
    let g = game.nimbers.g@;
    let ring = game.nimbers.g_back@;
    let rare = game.bits.rare@;
    let seen = marks_of(game, n);
    let len = game.bits.seen@.len();
    lemma_freq_len(game.stats.largest_nimber);
    let bound: usize = (len - 2) as usize;
    let c = choose|c: int|
        {
            &&& #[trigger] is_candidate(seen, rare, c)
            &&& 0 <= v <= c
            &&& forall|u: int| 0 <= u < v ==> is_met(seen, rules, g, ring, n, u)
            &&& v < c ==> !is_met(seen, rules, g, ring, n, v)
        };
    assert(c < len);
    assert forall|u: int| 0 <= u < v implies is_successor(rules, h, n, u) by {
        lemma_tail_met_is_successor(game, h, n, u);
    }
    assert forall|p: int| 0 <= p < n implies #[trigger] h.take(n)[p] < bound by {
        assert(h[p] <= game.stats.largest_nimber);
    }
    if is_successor(rules, h, n, v) {
        lemma_successor_reads_prefix(rules, h, h.take(n), n, v);
        lemma_successor_below(rules, h.take(n), n, v, bound);
        if v == c {
            lemma_tail_successor_is_marked(game, h, n, v);
            if !(exists|j: int| 0 <= j < rare.len() && !seen[j] && !rare[j]) {
                assert(v == bound + 1);
            }
        } else {
            if is_candidate_of(game, n, v) {
                lemma_candidate_unique(seen, rare, c, v);
            }
            lemma_tail_walked_successor_is_met(game, h, n, v);
        }
    }
}

/// A value that is met is a value that a move reaches.
#[verifier::rlimit(50)]
proof fn lemma_tail_met_is_successor(game: Game, h: Seq<Nimber>, n: int, u: int)
    requires
        game.tail_ready(n),
        is_history(game, h, n),
        all_in_reach(game, n),
        0 <= u < game.bits.seen@.len(),
        is_met(marks_of(game, n), game.rules@, game.nimbers.g@, game.nimbers.g_back@, n, u),
    ensures
        is_successor(game.rules@, h, n, u),
{
    let rules = game.rules@;
    let g = game.nimbers.g@;
    let ring = game.nimbers.g_back@;
    let width = ring.len() as int;
    let view = tail_view(ring, n);
    if tail_pair_any(rules, g, view, width, n, u) {
        let (i, f) = choose|i: int, f: int| #[trigger]
            tail_pair(rules, g, view, width, n, i, f, u) && (i < rules.len() || (i == rules.len()
                && f < 0));
        assert(h[n - i - f] == ring_value(ring, n - i - f));
        assert(h[f] == g[f]);
        assert(may_pair(rules, n, i, f));
        lemma_pair_is_successor(rules, h, n, i, f);
    } else {
        lemma_tail_mark_is_successor(game, h, n, u);
    }
}

/// What the first phases mark is a value that a move reaches.
#[verifier::rlimit(50)]
proof fn lemma_tail_mark_is_successor(game: Game, h: Seq<Nimber>, n: int, u: int)
    requires
        game.tail_ready(n),
        is_history(game, h, n),
        all_in_reach(game, n),
        0 <= u < game.bits.seen@.len(),
        marks_of(game, n)[u],
    ensures
        is_successor(game.rules@, h, n, u),
{
    let rules = game.rules@;
    let ring = game.nimbers.g_back@;
    let index = game.nimbers.rare@;
    let width = ring.len() as int;
    let len = game.bits.seen@.len();
    let view = tail_view(ring, n);
    let one = with_taken(crate::bitset::cleared(len), rules, view, n);
    if rare_pair_before(rules, view, index, n, rules.len() as int, 0, u) {
        let (i, k) = choose|i: int, k: int| #[trigger]
            rare_pair(rules, view, index, n, i, k, u) && (i < rules.len() || (i == rules.len()
                && k < 0));
        let e = index[k];
        assert(!out_of_reach(rules, index, width, n, i, k));
        assert(e.1 == h[e.0 as int]);
        assert(h[n - i - e.0] == ring_value(ring, n - i - e.0));
        assert(may_pair(rules, n, i, e.0 as int));
        lemma_pair_is_successor(rules, h, n, i, e.0 as int);
    } else if one[u] {
        let i = choose|i: int| #[trigger]
            may_take(rules, n, i) && i < rules.len() && view[n - i] == u;
        assert(h[n - i] == ring_value(ring, n - i));
        assert(may_take(rules, n, i) && h[n - i] == u);
    } else {
        let i = choose|i: int|
            1 <= i < rules.len() && i < n && (#[trigger] rules[i]).divide && (n - i) % 2 == 0;
        let j = (n - i) / 2;
        lemma_xor_commutes(h[j], h[j]);
        assert(may_split(rules, n, i, j) && split_value(h, j, n - i - j) == 0);
    }
}

/// A value that a move reaches is marked by the first phases or rare.
#[verifier::rlimit(50)]
proof fn lemma_tail_successor_is_marked(game: Game, h: Seq<Nimber>, n: int, s: int)
    requires
        game.tail_ready(n),
        is_history(game, h, n),
        all_in_reach(game, n),
        is_successor(game.rules@, h, n, s),
        0 <= s < game.bits.seen@.len(),
    ensures
        marks(game.bits.rare@, s as usize) || marks_of(game, n)[s],
{
    let rules = game.rules@;
    let ring = game.nimbers.g_back@;
    let rare = game.bits.rare@;
    let len = game.bits.seen@.len();
    let view = tail_view(ring, n);
    let one = with_taken(crate::bitset::cleared(len), rules, view, n);
    lemma_freq_len(game.stats.largest_nimber);
    if may_clear(rules, n) && s == 0 {
    } else if exists|i: int| #[trigger] may_take(rules, n, i) && h[n - i] == s {
        lemma_tail_taken_is_marked(game, h, n, s);
    } else {
        let (i, j) = choose|i: int, j: int| #[trigger]
            may_split(rules, n, i, j) && split_value(h, j, n - i - j) == s;
        let b = n - i - j;
        lemma_xor_commutes(h[j], h[b]);
        if marks(rare, h[j] as usize) {
            lemma_tail_rare_pair(game, h, n, i, j, s);
        } else if marks(rare, h[b] as usize) {
            lemma_tail_rare_pair(game, h, n, i, b, s);
        } else {
            let x = h[j] as usize;
            let y = h[b] as usize;
            lemma_xor_widens(h[j], h[b]);
            assert(marks(rare, x ^ y));
        }
    }
}

/// The value of a heap that a move leaves alone is marked by the first phases.
proof fn lemma_tail_taken_is_marked(game: Game, h: Seq<Nimber>, n: int, s: int)
    requires
        game.tail_ready(n),
        is_history(game, h, n),
        exists|i: int| #[trigger] may_take(game.rules@, n, i) && h[n - i] == s,
        0 <= s < game.bits.seen@.len(),
    ensures
        marks_of(game, n)[s],
{
    let rules = game.rules@;
    let ring = game.nimbers.g_back@;
    let view = tail_view(ring, n);
    let one = with_taken(crate::bitset::cleared(game.bits.seen@.len()), rules, view, n);
    let i = choose|i: int| #[trigger] may_take(rules, n, i) && h[n - i] == s;
    assert(h[n - i] == ring_value(ring, n - i));
    assert(may_take(rules, n, i) && i < rules.len() && view[n - i] == s);
    assert(one[s]);
}

/// Where every pair of heaps is walked, a value that a move reaches is met.
#[verifier::rlimit(50)]
proof fn lemma_tail_walked_successor_is_met(game: Game, h: Seq<Nimber>, n: int, s: int)
    requires
        game.tail_ready(n),
        is_history(game, h, n),
        all_pairs_walked(game, n),
        is_successor(game.rules@, h, n, s),
        0 <= s < game.bits.seen@.len(),
    ensures
        is_met(marks_of(game, n), game.rules@, game.nimbers.g@, game.nimbers.g_back@, n, s),
{
    let rules = game.rules@;
    let g = game.nimbers.g@;
    let ring = game.nimbers.g_back@;
    let width = ring.len() as int;
    let view = tail_view(ring, n);
    if may_clear(rules, n) && s == 0 {
    } else if exists|i: int| #[trigger] may_take(rules, n, i) && h[n - i] == s {
        lemma_tail_taken_is_marked(game, h, n, s);
    } else {
        let (i, j) = choose|i: int, j: int| #[trigger]
            may_split(rules, n, i, j) && split_value(h, j, n - i - j) == s;
        assert(h[j] == g[j]);
        assert(h[n - i - j] == ring_value(ring, n - i - j));
        assert(tail_pair(rules, g, view, width, n, i, j, s) && (i < rules.len() || (i
            == rules.len() && j < 0)));
    }
}

/// The value of a pair in which a heap of rare value takes part is marked by
/// the first phases.
#[verifier::rlimit(50)]
proof fn lemma_tail_rare_pair(game: Game, h: Seq<Nimber>, n: int, i: int, a: int, s: int)
    requires
        game.tail_ready(n),
        is_history(game, h, n),
        all_in_reach(game, n),
        may_pair(game.rules@, n, i, a),
        marks(game.bits.rare@, h[a] as usize),
        (h[a] ^ h[n - i - a]) == s,
        0 <= s < game.bits.seen@.len(),
    ensures
        marks_of(game, n)[s],
{
    let rules = game.rules@;
    let ring = game.nimbers.g_back@;
    let index = game.nimbers.rare@;
    let width = ring.len() as int;
    let view = tail_view(ring, n);
    assert(in_index(index, a));
    let k = choose|k: int| 0 <= k < index.len() && (#[trigger] index[k]).0 == a;
    assert(!out_of_reach(rules, index, width, n, i, k));
    assert(index[k].1 == h[a]);
    assert(h[n - i - a] == ring_value(ring, n - i - a));
    assert(rare_pair(rules, view, index, n, i, k, s) && (i < rules.len() || (i == rules.len()
        && k < 0)));
}

/// The prefix of a game that starts its continuation is its history.
#[verifier::rlimit(50)]
pub proof fn lemma_tail_starts_with_history(before: Game, start: Game)
    requires
        before.ready(before.nimbers.g@.len() as int),
        tail_started(before, start),
        before.rules@.len() <= before.nimbers.g_back@.len() <= before.nimbers.g@.len(),
    ensures
        is_history(start, start.nimbers.g@, start.nimbers.g@.len() as int),
{
    let g = before.nimbers.g@;
    let n = g.len() as int;
    let rare = before.bits.rare@;
    assert(n == before.nimbers.g.len());
    lemma_rare_index_entries(g, rare, n);
    assert forall|a: int| 1 <= a < n && marks(rare, (#[trigger] g[a]) as usize) implies in_index(
        start.nimbers.rare@,
        a,
    ) by {
        lemma_rare_index_has(g, rare, n, a);
    }
}

/// Once the continuation has recorded the value of the heap of `n` tokens, a
/// history of the game with that value behind it is a history of the game as it
/// stands then.
#[verifier::rlimit(50)]
pub proof fn lemma_tail_history_extends(
    before: Game,
    after: Game,
    h: Seq<Nimber>,
    n: int,
    v: Nimber,
)
    requires
        before.tail_ready(n),
        is_history(before, h, n),
        v <= before.stats.largest_nimber,
        tail_recorded(before, after, n, v),
    ensures
        is_history(after, h.take(n).push(v), n + 1),
{
    let ring = before.nimbers.g_back@;
    let width = ring.len() as int;
    let next = h.take(n).push(v);
    let index = before.nimbers.rare@;
    let grown = after.nimbers.rare@;
    assert forall|p: int| 0 <= p < n + 1 && n + 1 <= p + width implies next[p]
        == #[trigger] ring_value(after.nimbers.g_back@, p) by {
        if p < n {
            assert(next[p] == h[p]);
            assert(h[p] == ring_value(ring, p));
            lemma_ring_places_differ(p, n, width);
        }
    }
    assert forall|p: int| 0 <= p < n + 1 implies #[trigger] next[p]
        <= after.stats.largest_nimber by {
        if p < n {
            assert(next[p] == h[p]);
        }
    }
    assert forall|p: int| 0 <= p < after.nimbers.g@.len() implies #[trigger] next[p]
        == after.nimbers.g@[p] by {
        assert(next[p] == h[p]);
    }
    assert forall|k: int| 0 <= k < grown.len() implies 1 <= (#[trigger] grown[k]).0 < n + 1
        && grown[k].1 == next[grown[k].0 as int] by {
        if k < index.len() {
            assert(grown[k] == index[k]);
            assert(next[index[k].0 as int] == h[index[k].0 as int]);
        }
    }
    assert forall|a: int|
        1 <= a < n + 1 && marks(after.bits.rare@, (#[trigger] next[a]) as usize) implies in_index(
        grown,
        a,
    ) by {
        if a < n {
            assert(next[a] == h[a]);
            assert(in_index(index, a));
            let k = choose|k: int| 0 <= k < index.len() && (#[trigger] index[k]).0 == a;
            assert(grown[k].0 == a);
        } else {
            assert(grown[grown.len() - 1].0 == a);
        }
    }
}

/// A step of the continuation gives the heap its nim-value and leaves a game
/// of which the history, with that value behind it, is the history: for every
/// history of the game before the step, where every heap of rare value is in
/// reach and either the value is the candidate or every pair of heaps is
/// walked.
pub proof fn lemma_tail_step_is_sound(before: Game, after: Game, h: Seq<Nimber>, n: int)
    requires
        before.tail_ready(n),
        is_history(before, h, n),
        all_in_reach(before, n),
        tail_step(before, after, n),
        is_candidate_of(before, n, ring_value(after.nimbers.g_back@, n) as int)
            || all_pairs_walked(before, n),
    ensures
        is_grundy_value(before.rules@, h, n, ring_value(after.nimbers.g_back@, n) as int),
        is_history(after, h.take(n).push(ring_value(after.nimbers.g_back@, n)), n + 1),
{
    let value = ring_value(after.nimbers.g_back@, n);
    lemma_tail_value_is_grundy(before, h, n, value as int);
    lemma_tail_history_extends(before, after, h, n, value);
}

} // verus!
