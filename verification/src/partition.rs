//! The split of the nimber values into a rare and a common side.
//!
//! The rare side is closed under exclusive or, the common side is one coset of
//! it: the exclusive or of two values is rare exactly when both stand on the
//! same side. The split is grown greedily, so that the values met most often
//! become common.
use crate::bitset::{cleared, lemma_unset_count_zero, unset_count};
use crate::pow2::{is_pow2, lemma_npot_bounds, lemma_npot_is_pow2, lemma_xor_below, npot};
use vstd::prelude::*;

verus! {

/// `mask` marks the value `x`.
pub open spec fn marks(mask: Seq<bool>, x: usize) -> bool {
    x < mask.len() && mask[x as int]
}

/// Among the values below `limit`, `rare` marks a side that holds 0 and is
/// closed under exclusive or, and whose complement is closed against it: two
/// values of one side give a marked value, two of different sides an unmarked
/// one.
pub open spec fn is_rare_mask(rare: Seq<bool>, limit: nat) -> bool {
    &&& marks(rare, 0)
    &&& forall|x: usize, y: usize|
        #![trigger marks(rare, x ^ y)]
        x < limit && y < limit ==> {
            &&& (marks(rare, x) && marks(rare, y) ==> marks(rare, x ^ y))
            &&& (!marks(rare, x) && !marks(rare, y) ==> marks(rare, x ^ y))
            &&& (marks(rare, x) != marks(rare, y) ==> !marks(rare, x ^ y))
        }
}

/// `rare` and `common` mark two disjoint sets of values below their common
/// length, a power of two, that obey the rules of the split: rare with rare
/// gives rare, common with common gives rare, rare with common gives common.
#[verifier::opaque]
pub open spec fn is_partition(rare: Seq<bool>, common: Seq<bool>) -> bool {
    &&& rare.len() == common.len()
    &&& rare.len() <= 0x8000_0000
    &&& is_pow2(rare.len() as usize)
    &&& marks(rare, 0)
    &&& forall|x: usize|
        #![trigger marks(rare, x)]
        #![trigger marks(common, x)]
        !(marks(rare, x) && marks(common, x))
    &&& forall|x: usize, y: usize|
        #![trigger marks(rare, x ^ y)]
        marks(rare, x) && marks(rare, y) ==> marks(rare, x ^ y)
    &&& forall|x: usize, y: usize|
        #![trigger marks(rare, x ^ y)]
        marks(common, x) && marks(common, y) ==> marks(rare, x ^ y)
    &&& forall|x: usize, y: usize|
        #![trigger marks(common, x ^ y)]
        marks(rare, x) && marks(common, y) ==> marks(common, x ^ y)
}

/// The split after `x` has joined the common side: what differs from a rare
/// value by `x` is common, what differs from a common value by `x` is rare.
pub open spec fn with_common(rare: Seq<bool>, common: Seq<bool>, x: usize) -> (
    Seq<bool>,
    Seq<bool>,
) {
    (
        Seq::new(rare.len(), |y: int| rare[y] || marks(common, (y as usize) ^ x)),
        Seq::new(common.len(), |y: int| common[y] || marks(rare, (y as usize) ^ x)),
    )
}

/// Among the values below `upto` that neither mask marks, the one with the
/// greatest count, the least of them on a tie; -1 where every value is marked.
pub open spec fn most_frequent_free(
    freq: Seq<usize>,
    rare: Seq<bool>,
    common: Seq<bool>,
    upto: int,
) -> int
    decreases upto,
{
    if upto <= 0 {
        -1
    } else {
        let best = most_frequent_free(freq, rare, common, upto - 1);
        let y = upto - 1;
        if !rare[y] && !common[y] && (best < 0 || freq[y] > freq[best]) {
            y
        } else {
            best
        }
    }
}

/// The split after at most `rounds` more values have joined the common side,
/// each time the most frequent value that neither side holds.
pub open spec fn grown(freq: Seq<usize>, rare: Seq<bool>, common: Seq<bool>, rounds: nat) -> (
    Seq<bool>,
    Seq<bool>,
)
    decreases rounds,
{
    let x = most_frequent_free(freq, rare, common, freq.len() as int);
    if rounds == 0 || x < 0 {
        (rare, common)
    } else {
        let next = with_common(rare, common, x as usize);
        grown(freq, next.0, next.1, (rounds - 1) as nat)
    }
}

/// The split that the counts `freq` lead to, among the values below the least
/// power of two that is no less than their number: 0 starts as the one rare
/// value, and the values that have a count are walked by falling count, lesser
/// value first among equal counts; each one that neither side holds yet joins
/// the common side.
pub open spec fn rare_partition(freq: Seq<usize>) -> (Seq<bool>, Seq<bool>) {
    grown(
        freq,
        cleared(npot(freq.len())).update(0, true),
        cleared(npot(freq.len())),
        freq.len(),
    )
}

/// The rare side of `rare_partition`, as a mask of `len` bits. The value 0 is
/// rare whatever the counts are.
pub open spec fn rare_mask(freq: Seq<usize>, len: nat) -> Seq<bool> {
    Seq::new(len, |i: int| i == 0 || (i < npot(freq.len()) && rare_partition(freq).0[i]))
}

proof fn lemma_xor_algebra(a: usize, b: usize, x: usize)
    by (bit_vector)
    ensures
        a ^ b == b ^ a,
        (a ^ b) ^ x == a ^ (b ^ x),
        (a ^ b) ^ x == (a ^ x) ^ b,
        (a ^ x) ^ (b ^ x) == a ^ b,
        (a ^ x) ^ x == a,
        a ^ a == 0,
        a ^ 0 == a,
        0 ^ a == a,
{
}

proof fn lemma_with_common_marks(rare: Seq<bool>, common: Seq<bool>, x: usize, y: usize)
    requires
        rare.len() == common.len(),
    ensures
        marks(with_common(rare, common, x).0, y) == (marks(rare, y) || (y < rare.len() && marks(
            common,
            y ^ x,
        ))),
        marks(with_common(rare, common, x).1, y) == (marks(common, y) || (y < rare.len()
            && marks(rare, y ^ x))),
{
}

/// A value that joins the common side of a split leaves a split; nothing
/// leaves its side, and the value is common afterwards.
#[verifier::rlimit(50)]
pub proof fn lemma_with_common_is_partition(rare: Seq<bool>, common: Seq<bool>, x: usize)
    requires
        is_partition(rare, common),
        x < rare.len(),
        !marks(rare, x),
        !marks(common, x),
    ensures
        is_partition(with_common(rare, common, x).0, with_common(rare, common, x).1),
        marks(with_common(rare, common, x).1, x),
        forall|y: usize| marks(rare, y) ==> marks(with_common(rare, common, x).0, y),
        forall|y: usize| marks(common, y) ==> marks(with_common(rare, common, x).1, y),
{
    reveal(is_partition);
    let r2 = with_common(rare, common, x).0;
    let c2 = with_common(rare, common, x).1;
    let n = rare.len() as usize;
    lemma_xor_algebra(x, x, x);
    lemma_with_common_marks(rare, common, x, x);
    lemma_with_common_marks(rare, common, x, 0);
    assert forall|y: usize|
        #![trigger marks(r2, y)]
        #![trigger marks(c2, y)]
        !(marks(r2, y) && marks(c2, y)) by {
        lemma_with_common_marks(rare, common, x, y);
        if y < n {
            lemma_xor_below(y, x, n);
            lemma_xor_algebra(y, x, x);
            lemma_xor_algebra(y ^ x, y, x);
            lemma_xor_algebra(y, y ^ x, x);
            if marks(rare, y) && marks(rare, y ^ x) {
                assert(marks(rare, y ^ (y ^ x)));
                assert(y ^ (y ^ x) == x) by (bit_vector);
            }
            if marks(common, y ^ x) && marks(common, y) {
                assert(marks(rare, (y ^ x) ^ y));
                assert((y ^ x) ^ y == x) by (bit_vector);
            }
        }
    }
    assert forall|a: usize, b: usize|
        #![trigger marks(r2, a ^ b)]
        marks(r2, a) && marks(r2, b) implies marks(r2, a ^ b) by {
        lemma_with_common_marks(rare, common, x, a);
        lemma_with_common_marks(rare, common, x, b);
        lemma_with_common_marks(rare, common, x, a ^ b);
        lemma_xor_below(a, b, n);
        lemma_xor_algebra(a, b, x);
        if marks(rare, a) && marks(rare, b) {
        } else if marks(rare, a) {
            assert(marks(common, a ^ (b ^ x)));
        } else if marks(rare, b) {
            assert(marks(common, b ^ (a ^ x)));
            assert(b ^ (a ^ x) == (a ^ b) ^ x) by (bit_vector);
        } else {
            assert(marks(rare, (a ^ x) ^ (b ^ x)));
        }
    }
    assert forall|a: usize, b: usize|
        #![trigger marks(r2, a ^ b)]
        marks(c2, a) && marks(c2, b) implies marks(r2, a ^ b) by {
        lemma_with_common_marks(rare, common, x, a);
        lemma_with_common_marks(rare, common, x, b);
        lemma_with_common_marks(rare, common, x, a ^ b);
        lemma_xor_below(a, b, n);
        lemma_xor_algebra(a, b, x);
        if marks(common, a) && marks(common, b) {
        } else if marks(common, a) {
            assert(marks(common, (b ^ x) ^ a));
            assert((b ^ x) ^ a == (a ^ b) ^ x) by (bit_vector);
        } else if marks(common, b) {
            assert(marks(common, (a ^ x) ^ b));
        } else {
            assert(marks(rare, (a ^ x) ^ (b ^ x)));
        }
    }
    assert forall|a: usize, b: usize|
        #![trigger marks(c2, a ^ b)]
        marks(r2, a) && marks(c2, b) implies marks(c2, a ^ b) by {
        lemma_with_common_marks(rare, common, x, a);
        lemma_with_common_marks(rare, common, x, b);
        lemma_with_common_marks(rare, common, x, a ^ b);
        lemma_xor_below(a, b, n);
        lemma_xor_algebra(a, b, x);
        if marks(rare, a) && marks(common, b) {
        } else if marks(rare, a) {
            assert(marks(rare, a ^ (b ^ x)));
        } else if marks(common, b) {
            assert(marks(rare, (a ^ x) ^ b));
        } else {
            assert(marks(common, (b ^ x) ^ (a ^ x)));
            assert((b ^ x) ^ (a ^ x) == a ^ b) by (bit_vector);
        }
    }
    assert forall|y: usize| marks(rare, y) implies marks(r2, y) by {
        lemma_with_common_marks(rare, common, x, y);
    }
    assert forall|y: usize| marks(common, y) implies marks(c2, y) by {
        lemma_with_common_marks(rare, common, x, y);
    }
}

/// The split after `x` has joined the common side is the least one: every pair
/// of sides that obeys the rules of the split, holds the sides as they were and
/// has `x` on its common side holds the new sides too. So it is what closing
/// under the rules, step by step, ends with.
pub proof fn lemma_with_common_is_least(
    rare: Seq<bool>,
    common: Seq<bool>,
    x: usize,
    wider_rare: Seq<bool>,
    wider_common: Seq<bool>,
)
    requires
        rare.len() == common.len(),
        forall|y: usize| marks(rare, y) ==> marks(wider_rare, y),
        forall|y: usize| marks(common, y) ==> marks(wider_common, y),
        marks(wider_common, x),
        forall|a: usize, b: usize|
            #![trigger marks(wider_rare, a ^ b)]
            marks(wider_common, a) && marks(wider_common, b) ==> marks(wider_rare, a ^ b),
        forall|a: usize, b: usize|
            #![trigger marks(wider_common, a ^ b)]
            marks(wider_rare, a) && marks(wider_common, b) ==> marks(wider_common, a ^ b),
    ensures
        forall|y: usize| marks(with_common(rare, common, x).0, y) ==> marks(wider_rare, y),
        forall|y: usize| marks(with_common(rare, common, x).1, y) ==> marks(wider_common, y),
{
    assert forall|y: usize| marks(with_common(rare, common, x).0, y) implies marks(
        wider_rare,
        y,
    ) by {
        lemma_with_common_marks(rare, common, x, y);
        if !marks(rare, y) {
            lemma_xor_algebra(y, x, x);
            assert(marks(wider_common, y ^ x));
            assert(marks(wider_rare, (y ^ x) ^ x));
        }
    }
    assert forall|y: usize| marks(with_common(rare, common, x).1, y) implies marks(
        wider_common,
        y,
    ) by {
        lemma_with_common_marks(rare, common, x, y);
        if !marks(common, y) {
            lemma_xor_algebra(y, x, x);
            assert(marks(wider_rare, y ^ x));
            assert(marks(wider_common, (y ^ x) ^ x));
        }
    }
}

/// What `most_frequent_free` returns: a free value that no free value beats,
/// or -1 where none is free.
pub proof fn lemma_most_frequent_free(
    freq: Seq<usize>,
    rare: Seq<bool>,
    common: Seq<bool>,
    upto: int,
)
    requires
        0 <= upto,
    ensures
        -1 <= most_frequent_free(freq, rare, common, upto) < upto,
        ({
            let b = most_frequent_free(freq, rare, common, upto);
            &&& b >= 0 ==> !rare[b] && !common[b]
            &&& forall|y: int|
                0 <= y < upto && !rare[y] && !common[y] ==> b >= 0 && (freq[y] < freq[b] || (
                freq[y] == freq[b] && b <= y))
        }),
    decreases upto,
{
    if upto > 0 {
        lemma_most_frequent_free(freq, rare, common, upto - 1);
    }
}

/// The mask of the values that either side holds.
pub open spec fn claimed(rare: Seq<bool>, common: Seq<bool>) -> Seq<bool> {
    Seq::new(rare.len(), |y: int| rare[y] || common[y])
}

proof fn lemma_unset_count_shrinks(a: Seq<bool>, b: Seq<bool>, x: int)
    requires
        a.len() == b.len(),
        forall|i: int| 0 <= i < a.len() && a[i] ==> b[i],
        0 <= x < a.len(),
        !a[x],
        b[x],
    ensures
        unset_count(b) < unset_count(a),
    decreases a.len(),
{
    if x == a.len() - 1 {
        lemma_unset_count_at_most(a.drop_last(), b.drop_last());
    } else {
        lemma_unset_count_shrinks(a.drop_last(), b.drop_last(), x);
    }
}

proof fn lemma_unset_count_at_most(a: Seq<bool>, b: Seq<bool>)
    requires
        a.len() == b.len(),
        forall|i: int| 0 <= i < a.len() && a[i] ==> b[i],
    ensures
        unset_count(b) <= unset_count(a),
    decreases a.len(),
{
    if a.len() > 0 {
        lemma_unset_count_at_most(a.drop_last(), b.drop_last());
    }
}

/// Growing a split leaves a split, and with enough rounds one in which every
/// value that has a count has its side.
#[verifier::rlimit(50)]
pub proof fn lemma_grown_is_partition(
    freq: Seq<usize>,
    rare: Seq<bool>,
    common: Seq<bool>,
    rounds: nat,
)
    requires
        is_partition(rare, common),
        freq.len() <= rare.len(),
        unset_count(claimed(rare, common).take(freq.len() as int)) <= rounds,
    ensures
        is_partition(grown(freq, rare, common, rounds).0, grown(freq, rare, common, rounds).1),
        forall|y: usize|
            y < freq.len() ==> marks(grown(freq, rare, common, rounds).0, y) || marks(
                grown(freq, rare, common, rounds).1,
                y,
            ),
    decreases rounds,
{
    let n = freq.len() as int;
    let b = most_frequent_free(freq, rare, common, n);
    lemma_most_frequent_free(freq, rare, common, n);
    assert(rare.len() == common.len() && rare.len() <= 0x8000_0000) by {
        reveal(is_partition);
    }
    let held = claimed(rare, common).take(n);
    if b < 0 {
        assert forall|y: usize| y < freq.len() implies marks(rare, y) || marks(common, y) by {
            assert(rare[y as int] || common[y as int]);
        }
    } else if rounds == 0 {
        lemma_unset_count_zero(held);
        assert(held[b]);
    } else {
        let x = b as usize;
        let next = with_common(rare, common, x);
        lemma_with_common_is_partition(rare, common, x);
        assert(marks(next.1, x));
        let more = claimed(next.0, next.1).take(n);
        assert forall|i: int| 0 <= i < n && held[i] implies more[i] by {
            assert(marks(rare, i as usize) || marks(common, i as usize));
        }
        lemma_unset_count_shrinks(held, more, b);
        lemma_grown_is_partition(freq, next.0, next.1, (rounds - 1) as nat);
    }
}

/// The split that holds 0 alone, on the rare side.
proof fn lemma_seed_is_partition(n: nat)
    requires
        is_pow2(n as usize),
        n <= 0x8000_0000,
    ensures
        is_partition(cleared(n).update(0, true), cleared(n)),
{
    reveal(is_partition);
    let r0 = cleared(n).update(0, true);
    let c0 = cleared(n);
    assert forall|x: usize, y: usize| marks(r0, x) && marks(r0, y) implies #[trigger] marks(
        r0,
        x ^ y,
    ) by {
        lemma_xor_algebra(x, y, 0);
    }
}

/// In a split, the exclusive or of two values that have their side is rare
/// exactly when both stand on the same side.
proof fn lemma_partition_pair(rare: Seq<bool>, common: Seq<bool>, x: usize, y: usize)
    requires
        is_partition(rare, common),
        marks(rare, x) || marks(common, x),
        marks(rare, y) || marks(common, y),
    ensures
        marks(rare, 0),
        x ^ y < rare.len(),
        marks(rare, x) && marks(rare, y) ==> marks(rare, x ^ y),
        !marks(rare, x) && !marks(rare, y) ==> marks(rare, x ^ y),
        marks(rare, x) != marks(rare, y) ==> !marks(rare, x ^ y),
{
    reveal(is_partition);
    lemma_xor_below(x, y, rare.len() as usize);
    lemma_xor_algebra(x, y, 0);
    assert(!(marks(rare, x ^ y) && marks(common, x ^ y)));
}

/// The rare side that the counts lead to obeys the rules of the split, among
/// the values that have a count, where the mask is long enough for the split.
#[verifier::rlimit(50)]
pub proof fn lemma_rare_mask_is_closed(freq: Seq<usize>, len: nat)
    requires
        npot(freq.len()) <= len,
        npot(freq.len()) <= 0x8000_0000,
    ensures
        is_rare_mask(rare_mask(freq, len), freq.len()),
        forall|x: usize| npot(freq.len()) <= x && marks(rare_mask(freq, len), x) ==> x == 0,
{
    let n = freq.len();
    let d = npot(n);
    lemma_npot_bounds(n);
    lemma_npot_is_pow2(n);
    lemma_seed_is_partition(d);
    let seed = cleared(d).update(0, true);
    crate::bitset::lemma_unset_count_bound(claimed(seed, cleared(d)).take(n as int));
    lemma_grown_is_partition(freq, seed, cleared(d), n);
    let rare = rare_partition(freq).0;
    let common = rare_partition(freq).1;
    let mask = rare_mask(freq, len);
    assert(rare.len() == d) by {
        lemma_grown_len(freq, seed, cleared(d), n);
    }
    assert forall|x: usize, y: usize|
        #![trigger marks(mask, x ^ y)]
        x < n && y < n implies {
        &&& (marks(mask, x) && marks(mask, y) ==> marks(mask, x ^ y))
        &&& (!marks(mask, x) && !marks(mask, y) ==> marks(mask, x ^ y))
        &&& (marks(mask, x) != marks(mask, y) ==> !marks(mask, x ^ y))
    } by {
        lemma_partition_pair(rare, common, x, y);
        assert(marks(mask, x) == marks(rare, x));
        assert(marks(mask, y) == marks(rare, y));
        assert(marks(mask, x ^ y) == marks(rare, x ^ y));
    }
}

/// The value 0 is rare, whatever the counts and the length of the mask are, as
/// long as the mask has a bit.
pub proof fn lemma_zero_is_rare(freq: Seq<usize>, len: nat)
    requires
        0 < len,
    ensures
        marks(rare_mask(freq, len), 0),
{
}

/// Growing a split changes no length.
pub proof fn lemma_grown_len(freq: Seq<usize>, rare: Seq<bool>, common: Seq<bool>, rounds: nat)
    requires
        rare.len() == common.len(),
    ensures
        grown(freq, rare, common, rounds).0.len() == rare.len(),
        grown(freq, rare, common, rounds).1.len() == rare.len(),
    decreases rounds,
{
    let x = most_frequent_free(freq, rare, common, freq.len() as int);
    if rounds != 0 && x >= 0 {
        let next = with_common(rare, common, x as usize);
        lemma_grown_len(freq, next.0, next.1, (rounds - 1) as nat);
    }
}

} // verus!
