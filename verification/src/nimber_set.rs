//! Sets of nimbers kept in 64-bit words, one bit for each nimber.
use std::sync::atomic::AtomicU64;
use std::sync::atomic::Ordering;
use vstd::prelude::*;
use vstd::std_specs::bits::axiom_u64_trailing_ones;

verus! {

/// The bit `bit` of `word` is set.
pub open spec fn word_holds(word: u64, bit: int) -> bool {
    0 <= bit < 64 && (word >> (bit as u64)) & 1 == 1
}

/// The words hold the nimber `k`: bit `k % 64` of word `k / 64`.
pub open spec fn holds_nimber(words: Seq<u64>, k: int) -> bool {
    0 <= k < 64 * words.len() && word_holds(words[k / 64], k % 64)
}

/// `m` is the least nimber that the words do not hold.
pub open spec fn is_mex_of(words: Seq<u64>, m: int) -> bool {
    &&& 0 <= m
    &&& !holds_nimber(words, m)
    &&& forall|k: int| 0 <= k < m ==> holds_nimber(words, k)
}

/// Words that hold no nimber, enough of them for the nimbers up to
/// `max_nimber`.
pub open spec fn empty_words(max_nimber: u16) -> Seq<u64> {
    Seq::new((max_nimber / 64 + 1) as nat, |i: int| 0u64)
}

/// A set of nimbers that knows the least nimber it lacks.
pub trait Mex {
    /// The least nimber that the set lacks fits the result.
    spec fn mex_fits(&self) -> bool;

    /// `m` is the least nimber that the set lacks, as far as a shared
    /// reference fixes what the set holds.
    spec fn is_mex(&self, m: u16) -> bool;

    /// Returns the smallest nimber not included in the `self` set.
    fn mex(&self) -> (m: u16)
        requires
            self.mex_fits(),
        ensures
            self.is_mex(m),
    ;
}

/// Set of nimbers.
///
/// Implemented by `u64` slices.
pub trait NimberSet: Mex {
    /// The set holds `nimber`.
    spec fn holds(&self, nimber: u16) -> bool;

    /// The set has a place for `nimber`.
    spec fn has_room(&self, nimber: u16) -> bool;

    /// Adds `nimber` to the set.
    fn insert_nimber(&mut self, nimber: u16)
        requires
            old(self).has_room(nimber),
        ensures
            forall|k: u16| final(self).holds(k) == (k == nimber || old(self).holds(k)),
            forall|k: u16| final(self).has_room(k) == old(self).has_room(k),
    ;
}

/// Set of nimbers that can be concurrently modified by multiple threads.
///
/// Implemented by `AtomicU64` slices. What such a set holds may change behind
/// a shared reference, so nothing is stated of it.
pub trait AtomicNimberSet: Mex {
    /// The set has a place for `nimber`.
    spec fn has_room(&self, nimber: u16) -> bool;

    /// Adds `nimber` to the set.
    fn insert_nimber(&self, nimber: u16)
        requires
            self.has_room(nimber),
    ;
}

/// Implemented by `Vec<u64 / AtomicU64>`.
pub trait NimberSetConstructor: Sized {
    /// The set is one that `with_max_nimber(max_nimber)` returns.
    spec fn is_new_for(&self, max_nimber: u16) -> bool;

    /// Returns set to which nimbers from `0` to `max_nimber` can be inserted.
    fn with_max_nimber(max_nimber: u16) -> (s: Self)
        ensures
            s.is_new_for(max_nimber),
    ;
}

proof fn lemma_full_word(b: u64)
    by (bit_vector)
    requires
        b < 64,
    ensures
        (0xffff_ffff_ffff_ffffu64 >> b) & 1 == 1,
{
}

proof fn lemma_empty_word(b: u64)
    by (bit_vector)
    requires
        b < 64,
    ensures
        (0u64 >> b) & 1 == 0,
{
}

proof fn lemma_word_with_bit(w: u64, x: u64, b: u64)
    by (bit_vector)
    requires
        b < 64,
        x < 64,
    ensures
        ((w | (1u64 << x)) >> b) & 1 == 1 <==> (b == x || (w >> b) & 1 == 1),
{
}

/// The least nimber that the words lack.
pub fn mex(words: &[u64]) -> (m: u16)
    requires
        exists|k: int| 0 <= k <= u16::MAX && !holds_nimber(words@, k),
    ensures
        is_mex_of(words@, m as int),
{
    let ghost lacking = choose|k: int| 0 <= k <= u16::MAX && !holds_nimber(words@, k);
    let mut result: u16 = 0;
    let mut i: usize = 0;
    while i < words.len()
        invariant
            i <= words@.len(),
            result == 64 * i,
            0 <= lacking <= u16::MAX,
            !holds_nimber(words@, lacking),
            forall|k: int| 0 <= k < 64 * i ==> holds_nimber(words@, k),
        decreases words@.len() - i,
    {
        let v = words[i];
        if v == u64::MAX {
            proof {
                assert forall|k: int| 0 <= k < 64 * (i + 1) implies holds_nimber(words@, k) by {
                    if k >= 64 * i {
                        lemma_full_word((k % 64) as u64);
                    }
                }
            }
            result = result + 64;
        } else {
            let t: u32 = v.trailing_ones();
            proof {
                axiom_u64_trailing_ones(v);
                let m = 64 * i + t;
                assert(m / 64 == i && m % 64 == t);
                assert forall|k: int| 0 <= k < m implies holds_nimber(words@, k) by {
                    if k >= 64 * i {
                        let b = (k % 64) as u64;
                        assert(k / 64 == i);
                        assert((v >> b) & 1u64 == 1u64);
                    }
                }
                assert(!holds_nimber(words@, m as int));
            }
            return result + t as u16;
        }
        i = i + 1;
    }
    result
}

/// The word that holds `nimber`.
pub open spec fn word_index(nimber: u16) -> int {
    nimber as int / 64
}

fn word_of(nimber: u16) -> (w: usize)
    ensures
        w == word_index(nimber),
{
    (nimber / 64) as usize
}

fn bit_of(nimber: u16) -> (b: u64)
    ensures
        b == 1u64 << ((nimber % 64) as u64),
{
    1u64 << ((nimber % 64) as u64)
}

fn load_word(word: &AtomicU64) -> u64 {
    word.load(Ordering::Relaxed)
}

fn set_in_word(word: &AtomicU64, bit: u64) {
    let _ = word.fetch_or(bit, Ordering::Relaxed);
}

impl Mex for [u64] {
    open spec fn mex_fits(&self) -> bool {
        exists|k: int| 0 <= k <= u16::MAX && !holds_nimber(self@, k)
    }

    open spec fn is_mex(&self, m: u16) -> bool {
        is_mex_of(self@, m as int)
    }

    fn mex(&self) -> (m: u16) {
        mex(self)
    }
}

impl NimberSet for [u64] {
    open spec fn holds(&self, nimber: u16) -> bool {
        holds_nimber(self@, nimber as int)
    }

    open spec fn has_room(&self, nimber: u16) -> bool {
        word_index(nimber) < self@.len()
    }

    fn insert_nimber(&mut self, nimber: u16)
        ensures
            final(self)@ == old(self)@.update(
                word_index(nimber),
                old(self)@[word_index(nimber)] | (1u64 << ((nimber % 64) as u64)),
            ),
    {
        let w = word_of(nimber);
        let before = self[w];
        let after = before | bit_of(nimber);
        self[w] = after;
        proof {
            assert forall|k: u16| self.holds(k) == (k == nimber || old(self).holds(k)) by {
                if word_index(k) == w {
                    lemma_word_with_bit(before, (nimber % 64) as u64, (k % 64) as u64);
                }
            }
        }
    }
}

impl Mex for [AtomicU64] {
    open spec fn mex_fits(&self) -> bool {
        64 * self@.len() <= u16::MAX
    }

    /// `m` is the least nimber that some words lack, as many of them as the set
    /// has: the words that were read from the set one by one.
    open spec fn is_mex(&self, m: u16) -> bool {
        exists|words: Seq<u64>|
            words.len() == self@.len() && #[trigger] is_mex_of(words, m as int)
    }

    fn mex(&self) -> (m: u16) {
        let mut words: Vec<u64> = Vec::new();
        let mut i: usize = 0;
        while i < self.len()
            invariant
                i <= self@.len(),
                words@.len() == i,
            decreases self@.len() - i,
        {
            words.push(load_word(&self[i]));
            i = i + 1;
        }
        assert(!holds_nimber(words@, 64 * (words@.len() as int)));
        let m = mex(words.as_slice());
        assert(words@.len() == self@.len() && is_mex_of(words@, m as int));
        m
    }
}

impl AtomicNimberSet for [AtomicU64] {
    open spec fn has_room(&self, nimber: u16) -> bool {
        word_index(nimber) < self@.len()
    }

    fn insert_nimber(&self, nimber: u16) {
        let w = word_of(nimber);
        set_in_word(&self[w], bit_of(nimber));
    }
}

impl NimberSetConstructor for Vec<u64> {
    open spec fn is_new_for(&self, max_nimber: u16) -> bool {
        self@ == empty_words(max_nimber)
    }

    fn with_max_nimber(max_nimber: u16) -> (s: Self) {
        let len = word_of(max_nimber) + 1;
        let s: Vec<u64> = vec![0; len];
        assert(s@ =~= empty_words(max_nimber));
        s
    }
}

impl NimberSetConstructor for Vec<AtomicU64> {
    open spec fn is_new_for(&self, max_nimber: u16) -> bool {
        self@.len() == max_nimber / 64 + 1
    }

    fn with_max_nimber(max_nimber: u16) -> (s: Self) {
        let len = word_of(max_nimber) + 1;
        let mut result: Vec<AtomicU64> = Vec::with_capacity(len);
        let mut i: usize = 0;
        while i < len
            invariant
                i <= len,
                result@.len() == i,
            decreases len - i,
        {
            result.push(AtomicU64::new(0));
            i = i + 1;
        }
        result
    }
}

/// A new set of words holds no nimber, and has room for the nimbers up to the
/// one it was made for.
pub proof fn lemma_empty_words(max_nimber: u16, k: u16)
    ensures
        !holds_nimber(empty_words(max_nimber), k as int),
        k <= max_nimber ==> word_index(k) < empty_words(max_nimber).len(),
{
    if 0 <= k < 64 * empty_words(max_nimber).len() {
        lemma_empty_word((k % 64) as u64);
    }
}

} // verus!
