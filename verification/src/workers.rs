//! The worker threads, which are those of the `rayon` crate.
//!
//! Nothing in this file is proved: each function states what `rayon` does with
//! a slice that it cuts into chunks and hands out to its threads.
use crate::bitset::Bin;
use crate::nimber::Nimber;
use crate::parallel::{chunk_start, mark_chunk, marked, sweep_chunk, swept};
use rayon::iter::{IndexedParallelIterator, IntoParallelRefMutIterator, ParallelIterator};
use rayon::slice::ParallelSlice;
use vstd::prelude::*;

verus! {

/// `rayon::current_num_threads`: the number of threads of the pool that the
/// caller runs in, or of the global pool. Nothing is promised of the number: it
/// depends on the machine and on how the pool was built.
#[verifier::external_body]
pub(crate) fn current_workers() -> usize {
    rayon::current_num_threads()
}

/// `par_chunks`, `zip`, `enumerate` and `for_each`: the heaps from `lo` up to
/// `hi - 1` are cut into chunks of `chunk` heaps, the last one perhaps shorter;
/// the chunk at place `k` goes with the scratch set at place `k`, as far as there
/// are both, and `sweep_chunk` is called once for each such pair, with its
/// place. The sets that get no chunk get an empty one here, which leaves them
/// as they are. `par_chunks` panics on a chunk size of 0.
#[verifier::external_body]
pub(crate) fn par_sweep(
    g: &Vec<Nimber>,
    lo: usize,
    hi: usize,
    chunk: usize,
    top: usize,
    limit: usize,
    partial: &mut Vec<Bin>,
)
    requires
        1 <= chunk,
        lo <= hi <= g@.len(),
        hi <= top + 1,
        top < g@.len() + lo,
        forall|k: int| 0 <= k < old(partial)@.len()
            ==> limit <= (#[trigger] old(partial)@[k])@.len(),
    ensures
        final(partial)@.len() == old(partial)@.len(),
        forall|k: int|
            0 <= k < old(partial)@.len() ==> (#[trigger] final(partial)@[k])@ == swept(
                old(partial)@[k]@,
                g@,
                chunk_start(lo as int, hi as int, chunk as int, k),
                chunk_start(lo as int, hi as int, chunk as int, k + 1),
                top as int,
                limit as int,
            ),
{
    g[lo..hi].par_chunks(chunk).zip(partial.par_iter_mut()).enumerate().for_each(
        |(idx, (xs, par))| sweep_chunk(xs, idx, chunk, lo, g, top, limit, par),
    );
}

/// `par_chunks`, `zip` and `for_each`: the first `upto` entries of the index are
/// cut into chunks of `chunk` entries, the last one perhaps shorter; the chunk at
/// place `k` goes with the scratch set at place `k`, as far as there are both, and
/// `mark_chunk` is called once for each such pair. The sets that get no chunk
/// get an empty one here, which leaves them as they are. `par_chunks` panics on
/// a chunk size of 0.
#[verifier::external_body]
pub(crate) fn par_mark(
    index: &Vec<(usize, Nimber)>,
    upto: usize,
    chunk: usize,
    g: &Vec<Nimber>,
    top: usize,
    partial: &mut Vec<Bin>,
)
    requires
        1 <= chunk,
        upto <= index@.len(),
        forall|e: int|
            0 <= e < upto ==> (#[trigger] index@[e]).0 <= top && top - index@[e].0 < g@.len(),
        forall|e: int, k: int|
            0 <= e < upto && 0 <= k < old(partial)@.len() ==> ((#[trigger] index@[e]).1 ^ g@[top
                - index@[e].0]) < (#[trigger] old(partial)@[k])@.len(),
    ensures
        final(partial)@.len() == old(partial)@.len(),
        forall|k: int|
            0 <= k < old(partial)@.len() ==> (#[trigger] final(partial)@[k])@ == marked(
                old(partial)@[k]@,
                index@.subrange(
                    chunk_start(0, upto as int, chunk as int, k),
                    chunk_start(0, upto as int, chunk as int, k + 1),
                ),
                g@,
                top as int,
            ),
{
    index[0..upto].par_chunks(chunk).zip(partial.par_iter_mut()).for_each(
        |(rs, bs)| mark_chunk(rs, g, top, bs),
    );
}

} // verus!
