//! Windows over a sequence of nimbers that is kept in checkpoints: a window
//! holds the nimbers of one checkpoint and says which one to fetch for a heap
//! outside it.
use crate::nimber::Nimber;
use vstd::prelude::*;

verus! {

/// What a window answers when asked for the nimber of a heap.
#[derive(Copy, Clone, Debug, PartialEq, Eq, Structural)]
pub enum Fetch {
    /// The heap is inside the window, and this is its nimber.
    Value(Nimber),
    /// The heap is outside: the window that ends at this heap holds it, and is
    /// to be put in place of the present one.
    Load(usize),
}

/// A window of consecutive heaps, the last of them the one before `end`.
pub struct Mmap {
    /// The nimber of the heap `n` stands at index `n % buf.len()`.
    pub buf: Vec<Nimber>,
    /// The first heap past the window.
    pub end: usize,
    /// What the names of the checkpoints begin with.
    pub path: String,
}

/// Two windows over the same checkpoints, to read two places at once.
pub struct Mem {
    /// The window for the heap nearer to the start.
    pub left: Mmap,
    /// The window for the heap further on.
    pub right: Mmap,
}

/// The end of the window that holds the heap `i`, where windows have `len` heaps
/// and the first one starts at 0.
pub open spec fn window_end(i: int, len: int) -> int {
    (i / len + 1) * len
}

/// The window's end is a heap that its window reaches, from at least 0.
pub proof fn lemma_window_end(i: int, len: int)
    requires
        0 <= i,
        0 < len,
    ensures
        window_end(i, len) - len <= i < window_end(i, len) <= i + len,
        window_end(i, len) % len == 0,
{
    assert(i == len * (i / len) + i % len) by (nonlinear_arith)
        requires
            0 < len,
    ;
    assert((i / len + 1) * len == len * (i / len) + len) by (nonlinear_arith);
    assert(((i / len + 1) * len) % len == 0) by (nonlinear_arith)
        requires
            0 < len,
    ;
}

impl Mmap {
    /// The window holds at least one heap and does not start before heap 0.
    pub open spec fn wf(&self) -> bool {
        0 < self.buf@.len() <= self.end
    }

    /// The window of the heaps before `end`, with the nimbers `buf` read from
    /// its checkpoint.
    pub fn new(path: String, buf: Vec<Nimber>, end: usize) -> (m: Self)
        requires
            0 < buf@.len() <= end,
        ensures
            m.wf(),
            m.buf == buf,
            m.end == end,
            m.path == path,
    {
        Self { buf, end, path }
    }

    /// The nimber of the heap `i`, or the window to fetch for it.
    pub fn at(&self, i: usize) -> (f: Fetch)
        requires
            self.wf(),
            i + self.buf@.len() <= usize::MAX,
        ensures
            f == if self.end - self.buf@.len() <= i < self.end {
                Fetch::Value(self.buf@[i as int % self.buf@.len() as int])
            } else {
                Fetch::Load(window_end(i as int, self.buf@.len() as int) as usize)
            },
    {
        let len = self.buf.len();
        let begin = self.end - len;
        if i < begin || self.end <= i {
            proof {
                lemma_window_end(i as int, len as int);
            }
            Fetch::Load((i / len + 1) * len)
        } else {
            Fetch::Value(self.buf[i % len])
        }
    }

    /// Puts the window that ends at `end` in place of the present one.
    pub fn refill(&mut self, buf: Vec<Nimber>, end: usize)
        requires
            0 < buf@.len() <= end,
        ensures
            final(self).wf(),
            final(self).buf == buf,
            final(self).end == end,
            final(self).path == old(self).path,
    {
        self.buf = buf;
        self.end = end;
    }
}

impl Mem {
    /// Two windows of the heaps before `end`, with the nimbers `buf` read from
    /// their checkpoint.
    pub fn new(path: String, buf: Vec<Nimber>, end: usize) -> (m: Self)
        requires
            0 < buf@.len() <= end,
        ensures
            m.left.wf(),
            m.right.wf(),
            m.left.buf@ == buf@,
            m.right.buf@ == buf@,
            m.left.end == end,
            m.right.end == end,
            m.left.path@ == path@,
            m.right.path@ == path@,
    {
        let left_buf = buf.clone();
        assert(left_buf@ =~= buf@);
        Self { left: Mmap::new(path.clone(), left_buf, end), right: Mmap::new(path, buf, end) }
    }
}

} // verus!
