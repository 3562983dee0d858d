//! The storage of the nim-values: the full prefix, the ring that continues it,
//! and the index of the rare ones.
use crate::nimber::Nimber;
use vstd::prelude::*;

verus! {

/// The values of the heaps, by number of tokens.
pub struct Nimbers {
    /// The prefix: entry `n` is the nim-value of a heap of `n` tokens, or
    /// `Nimber::MAX` while it is not computed.
    pub g: Vec<Nimber>,
    /// The ring that continues past the prefix: the value of a heap of `n`
    /// tokens stands at index `n % g_back.len()`.
    pub g_back: Vec<Nimber>,
    /// The heaps whose value is rare, each with its value, by growing size.
    pub rare: Vec<(usize, Nimber)>,
}

/// `len` entries that are not computed yet.
pub open spec fn unfilled(len: nat) -> Seq<Nimber> {
    Seq::new(len, |i: int| Nimber::MAX)
}

impl Nimbers {
    /// Storage for a prefix of `max_full_memory` heaps and a ring of
    /// `max_tail_memory`, nothing computed.
    pub fn new(max_full_memory: usize, max_tail_memory: usize) -> (s: Self)
        ensures
            s.g@ == unfilled(max_full_memory as nat),
            s.g_back@ == unfilled(max_tail_memory as nat),
            s.rare@ == Seq::<(usize, Nimber)>::empty(),
    {
        let g: Vec<Nimber> = vec![Nimber::MAX; max_full_memory];
        let g_back: Vec<Nimber> = vec![Nimber::MAX; max_tail_memory];
        assert(g@ =~= unfilled(max_full_memory as nat));
        assert(g_back@ =~= unfilled(max_tail_memory as nat));
        Self { g, g_back, rare: Vec::new() }
    }

    /// The ring's value for a heap of `n` tokens.
    pub fn last(&self, n: usize) -> (v: Nimber)
        requires
            self.g_back@.len() > 0,
        ensures
            v == self.g_back@[n as int % self.g_back@.len() as int],
    {
        self.g_back[n % self.g_back.len()]
    }

    /// Puts the last values of the prefix into the ring, as many as it holds,
    /// each at the place of its heap.
    pub fn copy_to_g_back(&mut self)
        requires
            old(self).g_back@.len() <= old(self).g@.len(),
        ensures
            final(self).g_back@.len() == old(self).g_back@.len(),
            forall|m: int|
                old(self).g@.len() - old(self).g_back@.len() <= m < old(self).g@.len()
                    ==> #[trigger] ring_value(final(self).g_back@, m) == old(self).g@[m],
            final(self).g == old(self).g,
            final(self).rare == old(self).rare,
    {
        let full = self.g.len();
        let width = self.g_back.len();
        let first = full - width;
        let mut k: usize = 0;
        while k < width
            invariant
                k <= width,
                first + width == full,
                full == self.g@.len(),
                width == self.g_back@.len(),
                self.g == old(self).g,
                self.rare == old(self).rare,
                forall|m: int|
                    first <= m < first + k ==> #[trigger] ring_value(self.g_back@, m)
                        == self.g@[m],
            decreases width - k,
        {
            let heap = first + k;
            let value = self.g[heap];
            let ghost before = self.g_back@;
            self.g_back.set(heap % width, value);
            proof {
                assert forall|m: int| first <= m < first + k + 1 implies #[trigger] ring_value(
                    self.g_back@,
                    m,
                ) == self.g@[m] by {
                    if m < heap {
                        lemma_ring_places_differ(m, heap as int, width as int);
                        assert(ring_value(before, m) == self.g@[m]);
                    }
                }
            }
            k = k + 1;
        }
    }
}

/// The value that a ring holds for the heap of `p` tokens.
pub open spec fn ring_value(ring: Seq<Nimber>, p: int) -> Nimber {
    ring[p % (ring.len() as int)]
}

/// Two heaps less than the length of the ring apart stand at different places
/// of the ring.
pub proof fn lemma_ring_places_differ(p: int, n: int, width: int)
    requires
        0 < width,
        0 <= p < n < p + width,
    ensures
        p % width != n % width,
        0 <= p % width < width,
        0 <= n % width < width,
{
    vstd::arithmetic::div_mod::lemma_fundamental_div_mod(n, width);
    vstd::arithmetic::div_mod::lemma_fundamental_div_mod(p, width);
    if p % width == n % width {
        let d = n / width - p / width;
        assert(n - p == width * d) by (nonlinear_arith)
            requires
                n == width * (n / width) + n % width,
                p == width * (p / width) + p % width,
                p % width == n % width,
                d == n / width - p / width,
        ;
        assert(width * d <= 0 || width <= width * d) by (nonlinear_arith)
            requires
                0 < width,
        ;
    }
}

/// The heap among the last `width` heaps below `n` whose value stands at place
/// `k` of the ring.
pub open spec fn heap_at_place(n: int, width: int, k: int) -> int {
    n - width + (k - (n - width)) % width
}

/// Each place of the ring is that of one of the last heaps.
pub proof fn lemma_heap_at_place(n: int, width: int, k: int)
    requires
        0 < width <= n,
        0 <= k < width,
    ensures
        n - width <= heap_at_place(n, width, k) < n,
        heap_at_place(n, width, k) % width == k,
{
    let a = n - width;
    let t = (k - a) % width;
    let q = (k - a) / width;
    vstd::arithmetic::div_mod::lemma_fundamental_div_mod(k - a, width);
    assert(0 <= t < width) by (nonlinear_arith)
        requires
            t == (k - a) % width,
            0 < width,
    ;
    assert(a + t == (-q) * width + k) by (nonlinear_arith)
        requires
            k - a == width * q + t,
    ;
    vstd::arithmetic::div_mod::lemma_fundamental_div_mod_converse(a + t, width, -q, k);
}

} // verus!
