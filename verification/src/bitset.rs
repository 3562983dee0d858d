//! Fixed-length bit sets indexed by nimber value.
//!
//! A set lives in one machine word where its length allows, and in a heap-backed
//! bit vector otherwise. Both are read through one view, the sequence of the
//! bits, and callers never learn which of the two they hold.
use crate::nimber::Nimber;
use crate::pow2::{lemma_npot_bounds, next_power_of_two, npot};
use crate::wide::{
    wide_bits, wide_clear, wide_copy, wide_count_zeros, wide_first_zero, wide_get, wide_len,
    wide_prefix, wide_set, wide_union, wide_zeros, WideBits,
};
use vstd::prelude::*;
use vstd::std_specs::bits::axiom_u64_trailing_ones;

verus! {

/// The number of cleared bits of `s`.
pub open spec fn unset_count(s: Seq<bool>) -> nat
    decreases s.len(),
{
    if s.len() == 0 {
        0
    } else {
        unset_count(s.drop_last()) + if s.last() {
            0nat
        } else {
            1nat
        }
    }
}

/// `len` cleared bits.
pub open spec fn cleared(len: nat) -> Seq<bool> {
    Seq::new(len, |i: int| false)
}

/// `a` with every bit set that is set in `b` at the same index.
pub open spec fn merged(a: Seq<bool>, b: Seq<bool>) -> Seq<bool> {
    Seq::new(a.len(), |i: int| a[i] || (i < b.len() && b[i]))
}

/// `k` is the index of the first cleared bit of `s`.
pub open spec fn is_first_unset(s: Seq<bool>, k: int) -> bool {
    &&& 0 <= k < s.len()
    &&& !s[k]
    &&& forall|j: int| 0 <= j < k ==> s[j]
}

/// `k` is the first index below `b.len()` at which both `a` and `b` are cleared.
pub open spec fn is_first_unset_in_both(a: Seq<bool>, b: Seq<bool>, k: int) -> bool {
    &&& 0 <= k < b.len()
    &&& !a[k] && !b[k]
    &&& forall|j: int| 0 <= j < k ==> a[j] || b[j]
}

/// The length of the bit sets that serve nimbers up to `largest`.
pub open spec fn bin_len(largest: Nimber) -> nat {
    2 * npot(largest as nat) + 2
}

/// Every prefix has at most as many cleared bits as it is long.
pub proof fn lemma_unset_count_bound(s: Seq<bool>)
    ensures
        unset_count(s) <= s.len(),
    decreases s.len(),
{
    if s.len() > 0 {
        lemma_unset_count_bound(s.drop_last());
    }
}

/// Setting a cleared bit takes one from the count; setting a set bit changes
/// nothing.
pub proof fn lemma_unset_count_update(s: Seq<bool>, k: int)
    requires
        0 <= k < s.len(),
    ensures
        unset_count(s.update(k, true)) + (if s[k] { 0nat } else { 1nat }) == unset_count(s),
    decreases s.len(),
{
    let t = s.update(k, true);
    if k == s.len() - 1 {
        assert(t.drop_last() =~= s.drop_last());
    } else {
        lemma_unset_count_update(s.drop_last(), k);
        assert(t.drop_last() =~= s.drop_last().update(k, true));
    }
}

/// A sequence with a cleared bit counts at least one.
pub proof fn lemma_unset_count_positive(s: Seq<bool>, k: int)
    requires
        0 <= k < s.len(),
        !s[k],
    ensures
        unset_count(s) >= 1,
    decreases s.len(),
{
    if k < s.len() - 1 {
        lemma_unset_count_positive(s.drop_last(), k);
    }
}

/// A sequence that counts no cleared bit has every bit set.
pub proof fn lemma_unset_count_zero(s: Seq<bool>)
    requires
        unset_count(s) == 0,
    ensures
        forall|k: int| 0 <= k < s.len() ==> s[k],
{
    assert forall|k: int| 0 <= k < s.len() implies s[k] by {
        if !s[k] {
            lemma_unset_count_positive(s, k);
        }
    }
}

/// A sequence whose bits are all set but perhaps the one at `k` counts at most
/// one cleared bit.
pub proof fn lemma_unset_count_only(s: Seq<bool>, k: int)
    requires
        forall|j: int| 0 <= j < s.len() && j != k ==> s[j],
    ensures
        unset_count(s) <= 1,
        0 <= k < s.len() && !s[k] ==> unset_count(s) == 1,
    decreases s.len(),
{
    if s.len() > 0 {
        let t = s.drop_last();
        assert forall|j: int| 0 <= j < t.len() && j != k implies t[j] by {
            assert(t[j] == s[j]);
        }
        if k == s.len() - 1 {
            lemma_unset_count_full(t);
        } else {
            lemma_unset_count_only(t, k);
            assert(s.last());
        }
    }
}

/// A sequence whose bits are all set counts no cleared bit.
pub proof fn lemma_unset_count_full(s: Seq<bool>)
    requires
        forall|j: int| 0 <= j < s.len() ==> s[j],
    ensures
        unset_count(s) == 0,
    decreases s.len(),
{
    if s.len() > 0 {
        let t = s.drop_last();
        assert forall|j: int| 0 <= j < t.len() implies t[j] by {
            assert(t[j] == s[j]);
        }
        lemma_unset_count_full(t);
        assert(s.last());
    }
}

/// In a sequence that counts one cleared bit, every bit but that one is set.
pub proof fn lemma_unset_count_single(s: Seq<bool>, k: int)
    requires
        0 <= k < s.len(),
        !s[k],
        unset_count(s) == 1,
    ensures
        forall|j: int| 0 <= j < s.len() && j != k ==> s[j],
{
    assert forall|j: int| 0 <= j < s.len() && j != k implies s[j] by {
        if !s[j] {
            lemma_unset_count_update(s, j);
            lemma_unset_count_zero(s.update(j, true));
            assert(s.update(j, true)[k]);
        }
    }
}

spec fn word_bit(bits: u64, i: int) -> bool {
    0 <= i < 64 && (bits >> (i as u64)) & 1 == 1
}

proof fn lemma_bit_or(a: u64, b: u64, i: u64)
    by (bit_vector)
    requires
        i < 64,
    ensures
        ((a | b) >> i) & 1 == 1 <==> ((a >> i) & 1 == 1 || (b >> i) & 1 == 1),
{
}

proof fn lemma_bit_and_not(a: u64, b: u64, i: u64)
    by (bit_vector)
    requires
        i < 64,
    ensures
        ((a & !b) >> i) & 1 == 1 <==> ((a >> i) & 1 == 1 && !((b >> i) & 1 == 1)),
{
}

proof fn lemma_bit_one(x: u64, i: u64)
    by (bit_vector)
    requires
        i < 64,
        x < 64,
    ensures
        ((1u64 << x) >> i) & 1 == 1 <==> i == x,
{
}

proof fn lemma_bit_high(len: u64, i: u64)
    by (bit_vector)
    requires
        i < 64,
        len < 64,
    ensures
        ((0xffff_ffff_ffff_ffffu64 << len) >> i) & 1 == 1 <==> i >= len,
{
}

proof fn lemma_bit_zero(i: u64)
    by (bit_vector)
    requires
        i < 64,
    ensures
        (0u64 >> i) & 1 == 0,
{
}

/// The word whose bits from `len` up are set and whose bits below are cleared.
fn high_mask(len: usize) -> (m: u64)
    requires
        len <= 64,
    ensures
        forall|i: int| 0 <= i < 64 ==> (word_bit(m, i) <==> i >= len),
{
    if len >= 64 {
        assert forall|i: int| 0 <= i < 64 implies (word_bit(0u64, i) <==> i >= len) by {
            lemma_bit_zero(i as u64);
        }
        0
    } else {
        let m: u64 = 0xffff_ffff_ffff_ffffu64 << (len as u64);
        assert forall|i: int| 0 <= i < 64 implies (word_bit(m, i) <==> i >= len) by {
            lemma_bit_high(len as u64, i as u64);
        }
        m
    }
}

/// A bit set of fixed length.
pub struct Bin {
    /// Whether the set lives in `bits`; otherwise it lives in `wide`.
    in_word: bool,
    bits: u64,
    len: usize,
    wide: WideBits,
}

impl Bin {
    /// In a word, the bits from the length up are kept set, so that a search for
    /// a cleared bit never leaves the set.
    #[verifier::type_invariant]
    spec fn inv(self) -> bool {
        self.in_word ==> self.len <= 64 && forall|i: int|
            self.len <= i < 64 ==> word_bit(self.bits, i)
    }

    /// The bits of the set, by index.
    pub closed spec fn view(&self) -> Seq<bool> {
        if self.in_word {
            Seq::new(self.len as nat, |i: int| word_bit(self.bits, i))
        } else {
            wide_bits(self.wide)
        }
    }

    /// A set of `len` cleared bits.
    pub fn with_len(len: usize) -> (b: Bin)
        requires
            len <= usize::MAX / 8,
        ensures
            b@ == cleared(len as nat),
    {
        if len <= 64 {
            let bits = high_mask(len);
            let b = Bin { in_word: true, bits, len, wide: wide_zeros(0) };
            assert(b@ =~= cleared(len as nat));
            b
        } else {
            Bin { in_word: false, bits: 0, len, wide: wide_zeros(len) }
        }
    }

    /// A cleared set long enough for the exclusive or of any two nimbers up to
    /// `largest`, and for the two indices above them.
    pub fn make(largest: Nimber) -> (b: Bin)
        ensures
            b@ == cleared(bin_len(largest)),
    {
        proof {
            lemma_npot_bounds(largest as nat);
        }
        let len: usize = 2 * next_power_of_two(largest as usize) + 2;
        Bin::with_len(len)
    }

    /// The number of bits.
    pub fn len(&self) -> (n: usize)
        ensures
            n == self@.len(),
    {
        if self.in_word {
            self.len
        } else {
            wide_len(&self.wide)
        }
    }

    /// Sets the bit at `x`.
    pub fn set_bit(&mut self, x: usize)
        requires
            x < old(self)@.len(),
        ensures
            final(self)@ == old(self)@.update(x as int, true),
    {
        proof {
            use_type_invariant(&*self);
        }
        if self.in_word {
            let before = self.bits;
            let after: u64 = before | (1u64 << (x as u64));
            proof {
                assert forall|i: int| 0 <= i < 64 implies (word_bit(after, i) <==> (i == x
                    || word_bit(before, i))) by {
                    lemma_bit_or(before, 1u64 << (x as u64), i as u64);
                    lemma_bit_one(x as u64, i as u64);
                }
            }
            self.bits = after;
        } else {
            wide_set(&mut self.wide, x);
        }
        assert(self@ =~= old(self)@.update(x as int, true));
    }

    /// Clears every bit.
    pub fn zero_bits(&mut self)
        ensures
            final(self)@ == cleared(old(self)@.len()),
    {
        proof {
            use_type_invariant(&*self);
        }
        if self.in_word {
            self.bits = high_mask(self.len);
        } else {
            wide_clear(&mut self.wide);
        }
        assert(self@ =~= cleared(old(self)@.len()));
    }

    /// The bit at `x`.
    pub fn get(&self, x: usize) -> (b: bool)
        requires
            x < self@.len(),
        ensures
            b == self@[x as int],
    {
        proof {
            use_type_invariant(self);
        }
        if self.in_word {
            (self.bits >> (x as u64)) & 1 == 1
        } else {
            wide_get(&self.wide, x)
        }
    }

    /// The index of the first cleared bit, if there is one.
    pub fn first_unset(&self) -> (r: Option<usize>)
        ensures
            match r {
                Some(k) => is_first_unset(self@, k as int),
                None => forall|j: int| 0 <= j < self@.len() ==> self@[j],
            },
    {
        proof {
            use_type_invariant(self);
        }
        if self.in_word {
            let bits = self.bits;
            let t: u32 = bits.trailing_ones();
            proof {
                axiom_u64_trailing_ones(bits);
                assert forall|j: int| 0 <= j < t implies word_bit(bits, j) by {
                    assert((bits >> (j as u64)) & 1u64 == 1u64);
                }
                if t < 64 {
                    assert(!word_bit(bits, t as int));
                }
            }
            if (t as usize) < self.len {
                Some(t as usize)
            } else {
                None
            }
        } else {
            wide_first_zero(&self.wide)
        }
    }

    /// The index of the first cleared bit.
    pub fn lowest_unset(&self) -> (k: usize)
        requires
            exists|j: int| 0 <= j < self@.len() && !self@[j],
        ensures
            is_first_unset(self@, k as int),
    {
        match self.first_unset() {
            Some(k) => k,
            None => {
                proof {
                    let j = choose|j: int| 0 <= j < self@.len() && !self@[j];
                    assert(self@[j]);
                }
                0
            },
        }
    }

    /// The number of cleared bits.
    pub fn count_unset(&self) -> (n: usize)
        ensures
            n == unset_count(self@),
    {
        proof {
            use_type_invariant(self);
        }
        if self.in_word {
            let mut n: usize = 0;
            let mut i: usize = 0;
            while i < self.len
                invariant
                    self.in_word,
                    i <= self.len,
                    self.len == self@.len(),
                    self.len <= 64,
                    n == unset_count(self@.take(i as int)),
                    n <= i,
                decreases self.len - i,
            {
                assert(self@.take(i + 1).drop_last() =~= self@.take(i as int));
                if !self.get(i) {
                    n = n + 1;
                }
                i = i + 1;
            }
            assert(self@.take(i as int) =~= self@);
            n
        } else {
            wide_count_zeros(&self.wide)
        }
    }

    /// The first index below `other`'s length at which neither set has its bit
    /// set; where there is none, the last index of this set.
    pub fn find_first_unset_also_unset_in(&self, other: &Bin) -> (k: usize)
        requires
            1 <= self@.len(),
            other@.len() <= self@.len(),
        ensures
            (exists|j: int| 0 <= j < other@.len() && !self@[j] && !other@[j])
                ==> is_first_unset_in_both(self@, other@, k as int),
            (forall|j: int| 0 <= j < other@.len() ==> self@[j] || other@[j]) ==> k == self@.len()
                - 1,
    {
        let n = other.len();
        let mut i: usize = 0;
        while i < n
            invariant
                i <= n,
                n == other@.len(),
                n <= self@.len(),
                forall|j: int| 0 <= j < i ==> self@[j] || other@[j],
            decreases n - i,
        {
            if !self.get(i) && !other.get(i) {
                return i;
            }
            i = i + 1;
        }
        self.len() - 1
    }

    /// A new set that holds the first `x` bits of this one.
    pub fn copy_up_to_inclusive(&self, x: usize) -> (b: Bin)
        requires
            x <= self@.len(),
        ensures
            b@ == self@.take(x as int),
    {
        proof {
            use_type_invariant(self);
        }
        if self.in_word {
            let m = high_mask(x);
            let joined: u64 = self.bits | m;
            proof {
                assert forall|i: int| 0 <= i < 64 implies (word_bit(joined, i) <==> (i >= x
                    || word_bit(self.bits, i))) by {
                    lemma_bit_or(self.bits, m, i as u64);
                    assert(word_bit(m, i) <==> i >= x);
                }
            }
            let b = Bin { in_word: true, bits: joined, len: x, wide: wide_zeros(0) };
            assert(b@ =~= self@.take(x as int));
            b
        } else {
            Bin { in_word: false, bits: 0, len: x, wide: wide_prefix(&self.wide, x) }
        }
    }

    /// Sets every bit that is set in `other` at the same index.
    pub fn set_all_bits_from(&mut self, other: &Bin)
        ensures
            final(self)@ == merged(old(self)@, other@),
    {
        proof {
            use_type_invariant(&*self);
            use_type_invariant(other);
        }
        if self.in_word && other.in_word {
            let before = self.bits;
            let m = high_mask(other.len);
            let after: u64 = before | (other.bits & !m);
            proof {
                assert forall|i: int| 0 <= i < 64 implies (word_bit(after, i) <==> (word_bit(
                    before,
                    i,
                ) || (i < other.len && word_bit(other.bits, i)))) by {
                    lemma_bit_or(before, other.bits & !m, i as u64);
                    lemma_bit_and_not(other.bits, m, i as u64);
                    assert(word_bit(m, i) <==> i >= other.len);
                }
            }
            self.bits = after;
        } else if !self.in_word && !other.in_word {
            wide_union(&mut self.wide, &other.wide);
        } else {
            let ghost start = self@;
            let mine = self.len();
            let n = if other.len() < mine {
                other.len()
            } else {
                mine
            };
            let mut i: usize = 0;
            while i < n
                invariant
                    i <= n,
                    n <= other@.len(),
                    n <= self@.len(),
                    self@.len() == start.len(),
                    n == other@.len() || n == self@.len(),
                    forall|j: int|
                        0 <= j < self@.len() ==> (#[trigger] self@[j] <==> (start[j] || (j < i
                            && other@[j]))),
                decreases n - i,
            {
                let ghost prev = self@;
                if other.get(i) {
                    self.set_bit(i);
                }
                assert forall|j: int| 0 <= j < self@.len() implies (#[trigger] self@[j] <==> (
                start[j] || (j < i + 1 && other@[j]))) by {
                    assert(prev[j] <==> (start[j] || (j < i && other@[j])));
                }
                i = i + 1;
            }
            assert(self@ =~= merged(start, other@));
        }
        assert(self@ =~= merged(old(self)@, other@));
    }
}

impl Clone for Bin {
    fn clone(&self) -> (b: Self)
        ensures
            b@ == self@,
    {
        proof {
            use_type_invariant(self);
        }
        Bin { in_word: self.in_word, bits: self.bits, len: self.len, wide: wide_copy(&self.wide) }
    }
}

} // verus!
