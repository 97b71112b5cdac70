//! Batches of positions for the net: fixed-size chunks, padding, and the
//! staging buffer that they are written into.

use vstd::prelude::*;

verus! {

/// The staging buffer grows in steps of this many numbers.
pub const STAGE_STEP: usize = 0x10_0000;

/// The larger of two numbers.
pub open spec fn larger(a: nat, b: nat) -> nat {
    if a < b {
        b
    } else {
        a
    }
}

/// Positions per chunk for a chunk of about `rows` rows, `n` rows a position;
/// zero where chunks are switched off.
pub open spec fn boards_per_chunk(rows: nat, n: nat) -> nat {
    if rows > 0 {
        larger(rows / n, 1)
    } else {
        0
    }
}

/// Positions per chunk.
pub fn chunk_boards(rows: usize, n: usize) -> (k: usize)
    requires
        n > 0,
    ensures
        k == boards_per_chunk(rows as nat, n as nat),
        rows == 0 <==> k == 0,
        k > 1 ==> k * n <= rows,
        rows > 0 ==> rows < (k + 1) * n,
{
    if rows > 0 {
        let k: usize = rows / n;
        proof {
            vstd::arithmetic::div_mod::lemma_fundamental_div_mod(rows as int, n as int);
            let (q, m) = (k as int, n as int);
            assert(q * m == m * q && (q + 1) * m == m * q + m) by (nonlinear_arith);
            assert(q < 1 ==> rows < (1 + 1) * m) by (nonlinear_arith)
                requires
                    q < 1 ==> q == 0,
                    rows < m * q + m,
            ;
        }
        if k < 1 {
            1
        } else {
            k
        }
    } else {
        0
    }
}

/// Rows per chunk where chunks cannot be switched off: one position at the
/// least.
pub fn chunk_rows(rows: usize, n: usize) -> (k: usize)
    requires
        n > 0,
    ensures
        k == larger(boards_per_chunk(rows as nat, n as nat), 1) * n,
        k > 0,
{
    let b: usize = chunk_boards(rows, n);
    proof {
        assert(1 * n == n);
        if rows > 0 && rows / n >= 1 {
            assert((rows / n) * n <= rows) by (nonlinear_arith)
                requires
                    n > 0,
            ;
            assert((rows / n) * n > 0) by (nonlinear_arith)
                requires
                    rows / n >= 1,
                    n > 0,
            ;
        }
    }
    if b < 1 {
        n
    } else {
        b * n
    }
}

/// The least multiple of `k` that is not below `rows`.
pub open spec fn padded_to(rows: nat, k: nat) -> nat
    recommends
        k > 0,
{
    (rows + k - 1) as nat / k * k
}

/// The rows of a batch with its padding: a whole number of chunks.
pub fn padded_rows(rows: usize, chunk: usize) -> (p: usize)
    requires
        chunk > 0,
        rows + chunk <= usize::MAX,
    ensures
        p == padded_to(rows as nat, chunk as nat),
{
    let q: usize = (rows + (chunk - 1)) / chunk;
    proof {
        padding_is_least(rows as nat, chunk as nat);
    }
    q * chunk
}

/// Padding fills the last chunk and adds no chunk: the padded batch is a whole
/// number of chunks, holds every row, and has less than a chunk to spare.
pub proof fn padding_is_least(rows: nat, chunk: nat)
    requires
        chunk > 0,
    ensures
        padded_to(rows, chunk) % chunk == 0,
        rows <= padded_to(rows, chunk) < rows + chunk,
{
    let q = ((rows + chunk - 1) as nat / chunk) as int;
    let k = chunk as int;
    let r = rows as int;
    assert(q * k <= r + k - 1 < q * k + k) by (nonlinear_arith)
        requires
            q == (r + k - 1) / k,
            k > 0,
    ;
    assert((q * k) % k == 0) by (nonlinear_arith)
        requires
            k > 0,
    ;
}

/// A staging buffer's size.
#[derive(Clone, Copy, Debug, PartialEq, Eq, Structural)]
pub struct Stage {
    pub cap: usize,
}

impl Stage {
    /// A buffer that holds nothing yet.
    pub fn new() -> (s: Stage)
        ensures
            s.cap == 0,
    {
        Stage { cap: 0 }
    }

    /// Makes room for `len` numbers; tells whether the buffer has to be
    /// allocated anew. It never shrinks, and grows to whole steps.
    pub fn reserve(&mut self, len: usize) -> (grown: bool)
        requires
            len + STAGE_STEP <= usize::MAX,
        ensures
            grown == (old(self).cap < len),
            final(self).cap == if grown {
                padded_to(len as nat, STAGE_STEP as nat)
            } else {
                old(self).cap as nat
            },
            final(self).cap >= len,
    {
        if self.cap < len {
            let cap: usize = padded_rows(len, STAGE_STEP);
            proof {
                padding_is_least(len as nat, STAGE_STEP as nat);
            }
            self.cap = cap;
            true
        } else {
            false
        }
    }
}

/// How deep the first search tree is built: one ply where the best successors
/// are deepened afterwards.
pub fn build_depth(top_k: usize, depth: u32) -> (d: u32)
    ensures
        d == if top_k > 0 || depth < 1 {
            1
        } else {
            depth
        },
{
    if top_k > 0 || depth < 1 {
        1
    } else {
        depth
    }
}

/// The batches go through everything once, in order: the first begins at zero,
/// each begins where the one before it ended, the last ends with the last row,
/// none is larger than asked for and all but the last are just as large.
pub proof fn batches_cover_everything(r: Seq<(usize, usize)>, total: int, size: int)
    requires
        cut_into(r, total, size),
        size > 0,
        total >= 0,
    ensures
        total == 0 <==> r.len() == 0,
        r.len() > 0 ==> r[0].0 == 0 && r[r.len() - 1].1 == total,
        forall|j: int| 0 <= j < r.len() - 1 ==> (#[trigger] r[j]).1 == r[j + 1].0,
        forall|j: int| 0 <= j < r.len() ==> (#[trigger] r[j]).0 < r[j].1 <= r[j].0 + size,
        forall|j: int| 0 <= j < r.len() - 1 ==> (#[trigger] r[j]).1 == r[j].0 + size,
{
    let n = r.len() as int;
    if n == 0 {
        assert(n * size == 0) by (nonlinear_arith)
            requires
                n == 0,
        ;
    } else {
        assert((n - 1) * size >= 0) by (nonlinear_arith)
            requires
                n >= 1,
                size > 0,
        ;
        assert(0 * size == 0) by (nonlinear_arith);
        assert forall|j: int| 0 <= j < n implies (#[trigger] r[j]).0 < r[j].1 <= r[j].0 + size by {
            assert(j * size <= (n - 1) * size && (j + 1) * size == j * size + size)
                by (nonlinear_arith)
                requires
                    j <= n - 1,
                    size > 0,
            ;
        }
        assert forall|j: int| 0 <= j < n - 1 implies (#[trigger] r[j]).1 == r[j].0 + size && r[j].1
            == r[j + 1].0 by {
            assert((j + 1) * size <= (n - 1) * size && (j + 1) * size == j * size + size)
                by (nonlinear_arith)
                requires
                    j + 1 <= n - 1,
                    size > 0,
            ;
        }
        assert(r[n - 1].1 == total);
    }
}

/// The ranges of consecutive batches.
pub fn batches(total: usize, size: usize) -> (r: Vec<(usize, usize)>)
    requires
        size > 0,
        total + size <= usize::MAX,
    ensures
        cut_into(r@, total as int, size as int),
{
    let mut r: Vec<(usize, usize)> = Vec::new();
    let mut i: usize = 0;
    assert(0 * size == 0 && (0 - 1) * size < 0) by (nonlinear_arith)
        requires
            size > 0,
    ;
    while i < total
        invariant
            i <= total,
            size > 0,
            total + size <= usize::MAX,
            cut_into(r@, i as int, size as int),
            i < total ==> i == r@.len() * size,
        decreases total - i,
    {
        let end: usize = if i + size < total {
            i + size
        } else {
            total
        };
        let ghost k = r@.len() as int;
        r.push((i, end));
        proof {
            assert((k + 1) * size == k * size + size) by (nonlinear_arith);
            assert forall|j: int| 0 <= j < r@.len() implies (#[trigger] r@[j]).0 == j * size
                && r@[j].1 == if (j + 1) * size < end {
                (j + 1) * size
            } else {
                end as int
            } by {
                if j < k {
                    assert((j + 1) * size <= k * size) by (nonlinear_arith)
                        requires
                            j + 1 <= k,
                            size > 0,
                    ;
                }
            }
        }
        i = end;
    }
    r
}

/// Whether ranges cut `total` items into batches of `size`, in order and
/// without a gap, the last one shorter where it does not fit.
pub open spec fn cut_into(r: Seq<(usize, usize)>, total: int, size: int) -> bool {
    &&& (r.len() - 1) * size < total
    &&& total <= r.len() * size
    &&& forall|j: int|
        0 <= j < r.len() ==> (#[trigger] r[j]).0 == j * size && r[j].1 == if (j + 1) * size
            < total {
            (j + 1) * size
        } else {
            total
        }
}

} // verus!
