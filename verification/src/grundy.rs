//! What the nim-value of a heap is: the least value that no move reaches.
use crate::nimber::Nimber;
use crate::pow2::{is_pow2, lemma_xor_below};
use crate::rules::Rule;
use vstd::prelude::*;

verus! {

/// The nim-value of two heaps of `a` and `b` tokens side by side, given the
/// values `g` of single heaps: their exclusive or.
pub open spec fn split_value(g: Seq<Nimber>, a: int, b: int) -> Nimber {
    g[a] ^ g[b]
}

/// A heap of exactly `n` tokens may be taken whole.
pub open spec fn may_clear(rules: Seq<Rule>, n: int) -> bool {
    0 <= n < rules.len() && rules[n].all
}

/// `i` tokens may be taken from a heap of `n`, leaving one heap.
pub open spec fn may_take(rules: Seq<Rule>, n: int, i: int) -> bool {
    1 <= i < rules.len() && i < n && rules[i].some
}

/// `i` tokens may be taken from a heap of `n`, leaving a heap of `j` tokens and
/// one of `n - i - j`; `j` is the smaller of the two.
pub open spec fn may_split(rules: Seq<Rule>, n: int, i: int, j: int) -> bool {
    1 <= i < rules.len() && i < n && rules[i].divide && 1 <= j && 2 * j <= n - i
}

/// Some move from a heap of `n` tokens leads to a position of nim-value `s`.
pub open spec fn is_successor(rules: Seq<Rule>, g: Seq<Nimber>, n: int, s: int) -> bool {
    ||| may_clear(rules, n) && s == 0
    ||| exists|i: int| #[trigger] may_take(rules, n, i) && g[n - i] == s
    ||| exists|i: int, j: int| #[trigger]
        may_split(rules, n, i, j) && split_value(g, j, n - i - j) == s
}

/// `m` is the least value that no move from a heap of `n` tokens reaches.
pub open spec fn is_grundy_value(rules: Seq<Rule>, g: Seq<Nimber>, n: int, m: int) -> bool {
    &&& 0 <= m
    &&& !is_successor(rules, g, n, m)
    &&& forall|k: int| 0 <= k < m ==> is_successor(rules, g, n, k)
}

/// The first `n` entries of `g` are the nim-values of the heaps of 0 to `n - 1`
/// tokens.
pub open spec fn is_grundy_prefix(rules: Seq<Rule>, g: Seq<Nimber>, n: int) -> bool {
    &&& 0 <= n <= g.len()
    &&& n > 0 ==> g[0] == 0
    &&& forall|k: int| 1 <= k < n ==> is_grundy_value(rules, g, k, #[trigger] g[k] as int)
}

/// A position has one nim-value.
pub proof fn lemma_grundy_value_unique(rules: Seq<Rule>, g: Seq<Nimber>, n: int, a: int, b: int)
    requires
        is_grundy_value(rules, g, n, a),
        is_grundy_value(rules, g, n, b),
    ensures
        a == b,
{
    if a < b {
        assert(is_successor(rules, g, n, a));
    } else if b < a {
        assert(is_successor(rules, g, n, b));
    }
}

/// What a heap of `n` tokens leads to depends on the values of smaller heaps
/// alone.
pub proof fn lemma_successor_reads_prefix(
    rules: Seq<Rule>,
    g: Seq<Nimber>,
    h: Seq<Nimber>,
    n: int,
    s: int,
)
    requires
        0 <= n <= g.len(),
        n <= h.len(),
        forall|k: int| 0 <= k < n ==> g[k] == h[k],
        is_successor(rules, g, n, s),
    ensures
        is_successor(rules, h, n, s),
{
    if may_clear(rules, n) && s == 0 {
    } else if exists|i: int| #[trigger] may_take(rules, n, i) && g[n - i] == s {
        let i = choose|i: int| #[trigger] may_take(rules, n, i) && g[n - i] == s;
        assert(may_take(rules, n, i) && h[n - i] == s);
    } else {
        let (i, j) = choose|i: int, j: int| #[trigger]
            may_split(rules, n, i, j) && split_value(g, j, n - i - j) == s;
        assert(may_split(rules, n, i, j) && split_value(h, j, n - i - j) == s);
    }
}

/// The nim-value of a heap of `n` tokens depends on the values of smaller heaps
/// alone.
pub proof fn lemma_grundy_value_reads_prefix(
    rules: Seq<Rule>,
    g: Seq<Nimber>,
    h: Seq<Nimber>,
    n: int,
    m: int,
)
    requires
        0 <= n <= g.len(),
        n <= h.len(),
        forall|k: int| 0 <= k < n ==> g[k] == h[k],
        is_grundy_value(rules, g, n, m),
    ensures
        is_grundy_value(rules, h, n, m),
{
    if is_successor(rules, h, n, m) {
        lemma_successor_reads_prefix(rules, h, g, n, m);
    }
    assert forall|k: int| 0 <= k < m implies is_successor(rules, h, n, k) by {
        lemma_successor_reads_prefix(rules, g, h, n, k);
    }
}

/// The exclusive or of two nimbers below a power of two is below it, as an
/// index.
pub proof fn lemma_nimber_xor_below(a: Nimber, b: Nimber, p: usize)
    requires
        is_pow2(p),
        a < p,
        b < p,
    ensures
        ((a ^ b) as usize) < p,
        (a ^ b) as usize == (a as usize) ^ (b as usize),
{
    assert((a ^ b) as usize == (a as usize) ^ (b as usize)) by (bit_vector);
    lemma_xor_below(a as usize, b as usize, p);
}

/// Where the values of all smaller heaps are below a power of two, so is every
/// value that a move reaches.
pub proof fn lemma_successor_below(rules: Seq<Rule>, g: Seq<Nimber>, n: int, s: int, p: usize)
    requires
        0 <= n <= g.len(),
        is_pow2(p),
        forall|k: int| 0 <= k < n ==> g[k] < p,
        is_successor(rules, g, n, s),
    ensures
        0 <= s < p,
{
    if may_clear(rules, n) && s == 0 {
    } else if exists|i: int| #[trigger] may_take(rules, n, i) && g[n - i] == s {
    } else {
        let (i, j) = choose|i: int, j: int| #[trigger]
            may_split(rules, n, i, j) && split_value(g, j, n - i - j) == s;
        lemma_nimber_xor_below(g[j], g[n - i - j], p);
    }
}

/// The exclusive or of two nimbers is that of the two as indices.
pub proof fn lemma_xor_widens(a: Nimber, b: Nimber)
    ensures
        (a ^ b) as usize == (a as usize) ^ (b as usize),
{
    assert((a ^ b) as usize == (a as usize) ^ (b as usize)) by (bit_vector);
}

/// The exclusive or of two nimbers is at most their sum.
pub proof fn lemma_xor_at_most_sum(a: Nimber, b: Nimber)
    ensures
        (a ^ b) <= a + b,
{
    assert((a ^ b) <= a + b) by (bit_vector);
}

/// Where no smaller heap has a value above its size, every value that a move
/// from a heap of `n` tokens reaches is below `n`.
pub proof fn lemma_successor_below_size(rules: Seq<Rule>, g: Seq<Nimber>, n: int, s: int)
    requires
        1 <= n <= g.len(),
        forall|k: int| 0 <= k < n ==> g[k] <= k,
        is_successor(rules, g, n, s),
    ensures
        0 <= s < n,
{
    if may_clear(rules, n) && s == 0 {
    } else if exists|i: int| #[trigger] may_take(rules, n, i) && g[n - i] == s {
    } else {
        let (i, j) = choose|i: int, j: int| #[trigger]
            may_split(rules, n, i, j) && split_value(g, j, n - i - j) == s;
        lemma_xor_at_most_sum(g[j], g[n - i - j]);
    }
}

/// The nim-value of a heap is at most its number of tokens.
pub proof fn lemma_grundy_prefix_bounded(rules: Seq<Rule>, g: Seq<Nimber>, n: int)
    requires
        is_grundy_prefix(rules, g, n),
    ensures
        forall|k: int| 0 <= k < n ==> #[trigger] g[k] <= k,
    decreases n,
{
    if n > 1 {
        lemma_grundy_prefix_bounded(rules, g, n - 1);
        let k = n - 1;
        if g[k] > k {
            assert(is_successor(rules, g, k, k));
            lemma_successor_below_size(rules, g, k, k);
        }
    }
}

/// The nim-value of the heap behind a prefix of nim-values is at most its number
/// of tokens.
pub proof fn lemma_next_grundy_value_bounded(rules: Seq<Rule>, g: Seq<Nimber>, n: int, m: int)
    requires
        1 <= n,
        is_grundy_prefix(rules, g, n),
        is_grundy_value(rules, g, n, m),
    ensures
        m <= n,
{
    lemma_grundy_prefix_bounded(rules, g, n);
    if m > n {
        assert(is_successor(rules, g, n, n));
        lemma_successor_below_size(rules, g, n, n);
    }
}

} // verus!
