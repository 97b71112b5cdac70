//! Throughput sweeps: which batch size, and which chunk size, serves the net
//! fastest.

use vstd::prelude::*;

verus! {

/// The batch sizes of the sweep.
pub open spec fn batch_sizes() -> Seq<i64> {
    seq![64i64, 128, 256, 512, 1024, 2048, 4096]
}

/// The chunk sizes of the sweep; each is a whole number of four-seat
/// positions.
pub open spec fn chunk_sizes() -> Seq<i64> {
    seq![128i64, 192, 256, 320, 384, 448, 512]
}

/// The batch sizes of the sweep.
pub fn batches() -> (v: Vec<i64>)
    ensures
        v@ == batch_sizes(),
        v@ == seq![64i64, 128, 256, 512, 1024, 2048, 4096],
{
    let v: Vec<i64> = vec![64, 128, 256, 512, 1024, 2048, 4096];
    assert(v@ =~= batch_sizes());
    v
}

/// The chunk sizes of the sweep.
pub fn chunks() -> (v: Vec<i64>)
    ensures
        v@ == chunk_sizes(),
        v@ == seq![128i64, 192, 256, 320, 384, 448, 512],
{
    let v: Vec<i64> = vec![128, 192, 256, 320, 384, 448, 512];
    assert(v@ =~= chunk_sizes());
    v
}

/// How many numbers a batch of inputs has.
pub fn input_len(batch: i64, channels: i64, side: i64) -> (n: i64)
    requires
        i64::MIN <= batch * channels <= i64::MAX,
        i64::MIN <= batch * channels * side <= i64::MAX,
        i64::MIN <= batch * channels * side * side <= i64::MAX,
    ensures
        n == batch * channels * side * side,
{
    batch * channels * side * side
}

/// A progress event of a sweep; `F` is the type of rates.
pub enum BenchEvent<F> {
    /// The sweep starts, with its plan.
    Start {
        batches: Vec<i64>,
        seconds: F,
        device: String,
        trunk_channels: i64,
        trunk_blocks: i64,
    },
    /// A size is being measured.
    Measuring { batch: i64, index: usize, total: usize },
    /// A size was measured.
    Result { batch: i64, rows_per_sec: F, calls_per_sec: F, mean_ms: F },
    /// The sweep is over.
    Done { best_batch: i64 },
    /// The sweep could not run.
    Error { detail: String },
}

/// A sweep in progress.
pub struct Sweep {
    pub sizes: Vec<i64>,
    /// How many sizes have been measured.
    pub index: usize,
    /// The fastest one so far.
    pub best: Option<usize>,
}

impl Sweep {
    /// A sweep over the given sizes.
    pub fn new(sizes: Vec<i64>) -> (s: Sweep)
        ensures
            s.sizes == sizes,
            s.index == 0,
            s.best is None,
    {
        Sweep { sizes, index: 0, best: None }
    }

    /// Whether the best size is one of those measured.
    pub open spec fn wf(&self) -> bool {
        &&& self.index <= self.sizes@.len()
        &&& self.best matches Some(b) ==> b < self.index
        &&& self.best is None <==> self.index == 0
    }

    /// The size to measure now, if any is left.
    pub fn next(&self) -> (r: Option<i64>)
        requires
            self.wf(),
        ensures
            r == if self.index < self.sizes@.len() {
                Some(self.sizes@[self.index as int])
            } else {
                None
            },
    {
        if self.index < self.sizes.len() {
            Some(self.sizes[self.index])
        } else {
            None
        }
    }

    /// Notes that the size was measured; `better` tells whether it beat the
    /// best so far.
    pub fn note(&mut self, better: bool)
        requires
            old(self).wf(),
            old(self).index < old(self).sizes@.len(),
        ensures
            final(self).wf(),
            final(self).sizes == old(self).sizes,
            final(self).index == old(self).index + 1,
            final(self).best == if old(self).best is None || better {
                Some(old(self).index)
            } else {
                old(self).best
            },
    {
        let total: usize = self.sizes.len();
        if self.best.is_none() || better {
            self.best = Some(self.index);
        }
        assert(self.index < total);
        self.index = self.index + 1;
    }

    /// The fastest size; zero where nothing was measured.
    pub fn best_size(&self) -> (b: i64)
        requires
            self.wf(),
        ensures
            b == match self.best {
                Some(i) => self.sizes@[i as int],
                None => 0,
            },
    {
        match self.best {
            Some(i) => self.sizes[i],
            None => 0,
        }
    }
}

} // verus!
