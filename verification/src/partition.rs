//! Splitting a sequence among a fixed number of workers in contiguous
//! chunks whose sizes differ by at most one.

use vstd::arithmetic::div_mod::*;
use vstd::prelude::*;

verus! {

/// How a sequence is split among workers: the first `remainder` chunks hold
/// `base + 1` elements, the others `base`.
#[derive(Clone, Copy, Debug, PartialEq, Eq)]
pub struct Partition {
    pub chunks: usize,
    pub base: usize,
    pub remainder: usize,
}

impl Partition {
    /// The length of the sequence that is split.
    pub open spec fn total(&self) -> int {
        self.chunks * self.base + self.remainder
    }

    /// There is a chunk, fewer long chunks than chunks, and the length fits.
    pub open spec fn wf(&self) -> bool {
        &&& self.chunks > 0
        &&& self.remainder < self.chunks
        &&& self.total() <= usize::MAX
    }

    /// The number of elements of chunk `i`.
    pub open spec fn chunk_len(&self, i: int) -> int {
        if i < self.remainder {
            self.base + 1
        } else {
            self.base as int
        }
    }

    /// The index at which chunk `i` starts.
    pub open spec fn chunk_start(&self, i: int) -> int {
        i * self.base + if i < self.remainder {
            i
        } else {
            self.remainder as int
        }
    }

    /// The split of `len` elements among `workers` workers.
    pub fn new(len: usize, workers: usize) -> (p: Partition)
        requires
            workers > 0,
        ensures
            p.wf(),
            p.chunks == workers,
            p.base == len / workers,
            p.remainder == len % workers,
            p.total() == len,
    {
        proof {
            lemma_fundamental_div_mod(len as int, workers as int);
            lemma_mod_bound(len as int, workers as int);
        }
        Partition { chunks: workers, base: len / workers, remainder: len % workers }
    }

    /// The number of elements of chunk `i`.
    pub fn len_of(&self, i: usize) -> (r: usize)
        requires
            self.wf(),
            i < self.chunks,
        ensures
            r == self.chunk_len(i as int),
    {
        if i < self.remainder {
            proof {
                lemma_partition_covers(*self, i as int);
            }
            self.base + 1
        } else {
            self.base
        }
    }

    /// The index at which chunk `i` starts; for `i == chunks`, the length.
    pub fn start_of(&self, i: usize) -> (r: usize)
        requires
            self.wf(),
            i <= self.chunks,
        ensures
            r == self.chunk_start(i as int),
            r <= self.total(),
    {
        proof {
            lemma_start_bounded(*self, i as int);
        }
        let extra: usize = if i < self.remainder { i } else { self.remainder };
        i * self.base + extra
    }
}

/// No chunk starts beyond the end, and the product in the start fits.
pub proof fn lemma_start_bounded(p: Partition, i: int)
    requires
        p.wf(),
        0 <= i <= p.chunks,
    ensures
        0 <= i * p.base <= p.chunk_start(i) <= p.total(),
{
    let b = p.base as int;
    let c = p.chunks as int;
    assert(0 <= i * b <= c * b) by (nonlinear_arith)
        requires
            0 <= i <= c,
            0 <= b,
    ;
}

/// The chunks follow each other without gap or overlap, from 0 to the
/// length, and two chunks differ in size by at most one.
pub proof fn lemma_partition_covers(p: Partition, i: int)
    requires
        p.wf(),
        0 <= i < p.chunks,
    ensures
        p.chunk_start(0) == 0,
        p.chunk_start(i + 1) == p.chunk_start(i) + p.chunk_len(i),
        p.chunk_start(p.chunks as int) == p.total(),
        p.chunk_start(i + 1) <= p.total(),
        p.base <= p.chunk_len(i) <= p.base + 1,
{
    let b = p.base as int;
    assert((i + 1) * b == i * b + b) by (nonlinear_arith);
    lemma_start_bounded(p, i + 1);
}

/// The chunks that hold at least one element, each as its start and its
/// length, in order: what each worker is handed.
pub fn chunk_ranges(len: usize, workers: usize) -> (r: Vec<(usize, usize)>)
    requires
        workers > 0,
    ensures
        r@.len() == (if len / workers == 0 {
            len % workers
        } else {
            workers
        }),
        forall|i: int|
            0 <= i < r@.len() ==> {
                &&& (#[trigger] r@[i]).0 == Partition {
                    chunks: workers,
                    base: len / workers,
                    remainder: len % workers,
                }.chunk_start(i)
                &&& r@[i].1 == Partition {
                    chunks: workers,
                    base: len / workers,
                    remainder: len % workers,
                }.chunk_len(i)
                &&& r@[i].1 > 0
                &&& r@[i].0 + r@[i].1 <= len
            },
{
    let p = Partition::new(len, workers);
    let count: usize = if p.base == 0 { p.remainder } else { workers };
    let mut r: Vec<(usize, usize)> = Vec::new();
    let mut i: usize = 0;
    while i < count
        invariant
            p.wf(),
            p.total() == len,
            p == (Partition { chunks: workers, base: len / workers, remainder: len % workers }),
            count == (if p.base == 0 { p.remainder } else { workers }),
            i <= count <= workers,
            r@.len() == i,
            forall|s: int|
                0 <= s < i ==> {
                    &&& (#[trigger] r@[s]).0 == p.chunk_start(s)
                    &&& r@[s].1 == p.chunk_len(s)
                    &&& r@[s].1 > 0
                    &&& r@[s].0 + r@[s].1 <= len
                },
        decreases count - i,
    {
        proof {
            lemma_partition_covers(p, i as int);
        }
        let start = p.start_of(i);
        let size = p.len_of(i);
        r.push((start, size));
        i += 1;
    }
    r
}

/// `rayon::current_num_threads`: the number of threads of the current
/// pool. It depends on the machine and the pool, so nothing is claimed of it.
#[verifier::external_body]
pub(crate) fn worker_count() -> usize {
    rayon::current_num_threads()
}

} // verus!
