//! Shares of work: a range of rows cut into runs of about the same length.
use vstd::prelude::*;

use crate::stats::{ceil_div, ceil_div_is};

verus! {

/// A run of rows, from `start` up to `end`.
#[derive(Clone, Copy, Debug, PartialEq, Eq, Structural)]
pub struct Run {
    pub start: usize,
    pub end: usize,
}

/// How many workers get a share: at least one, and no more than there are rows.
pub open spec fn shares(total: usize, workers: usize) -> int {
    if workers < 1 || total < 1 {
        1
    } else if workers > total {
        total as int
    } else {
        workers as int
    }
}

/// The length of a run; the last may be shorter.
pub open spec fn run_length(total: usize, workers: usize) -> int {
    ceil_div(total as int, shares(total, workers))
}

/// The end of run `i`.
pub open spec fn run_end(total: usize, length: int, i: int) -> int {
    if (i + 1) * length < total {
        (i + 1) * length
    } else {
        total as int
    }
}

/// Cuts `total` rows into at most as many runs as there are workers. Each run holds at
/// least one row, and they follow each other without gaps, from the first row to the
/// last.
pub fn chunk_ranges(total: usize, workers: usize) -> (r: Vec<Run>)
    ensures
        r@.len() <= shares(total, workers),
        total == 0 <==> r@.len() == 0,
        r@.len() > 0 ==> r@[0].start == 0 && r@[r@.len() - 1].end == total,
        forall|i: int|
            0 <= i < r@.len() ==> (#[trigger] r@[i]).start == i * run_length(total, workers)
                && r@[i].end == run_end(total, run_length(total, workers), i) && r@[i].start
                < r@[i].end,
{
    let mut r: Vec<Run> = Vec::new();
    if total == 0 {
        return r;
    }
    let n: usize = if workers < 1 {
        1
    } else if workers > total {
        total
    } else {
        workers
    };
    let ghost length = run_length(total, workers);
    proof {
        ceil_div_is(total as int, n as int);
    }
    let rest: usize = total % n;
    proof {
        vstd::arithmetic::div_mod::lemma_fundamental_div_mod(total as int, n as int);
        let q = total as int / n as int;
        if rest > 0 {
            assert(q < total) by (nonlinear_arith)
                requires
                    n * q < total,
                    n >= 1,
                    q >= 0,
            ;
        }
    }
    let chunk: usize = if rest == 0 {
        total / n
    } else {
        total / n + 1
    };
    proof {
        let q = total as int / n as int;
        let m = total as int % n as int;
        vstd::arithmetic::div_mod::lemma_fundamental_div_mod(total as int, n as int);
        if m == 0 {
            assert(length == q) by (nonlinear_arith)
                requires
                    (length - 1) * n < n * q,
                    length * n >= n * q,
                    n > 0,
            ;
        } else {
            assert(length == q + 1) by (nonlinear_arith)
                requires
                    (length - 1) * n < n * q + m,
                    length * n >= n * q + m,
                    n > 0,
                    0 < m < n,
            ;
        }
    }
    assert(0 * length == 0) by (nonlinear_arith);
    let mut start: usize = 0;
    while start < total
        invariant
            start <= total,
            total > 0,
            chunk == length,
            1 <= length <= total,
            length == run_length(total, workers),
            length * n >= total,
            n == shares(total, workers),
            start < total ==> start == r@.len() * length,
            start == total ==> r@.len() > 0 && r@[r@.len() - 1].end == total,
            r@.len() > 0 ==> r@[0].start == 0,
            r@.len() <= n,
            forall|i: int|
                0 <= i < r@.len() ==> (#[trigger] r@[i]).start == i * length && r@[i].end
                    == run_end(total, length, i) && r@[i].start < r@[i].end,
        decreases total - start,
    {
        let ghost k = r@.len() as int;
        assert((k + 1) * length == k * length + length) by (nonlinear_arith);
        assert(0 * length == 0) by (nonlinear_arith);
        let end: usize = if total - start > chunk {
            start + chunk
        } else {
            total
        };
        proof {
            if k >= n {
                assert(k * length >= n * length) by (nonlinear_arith)
                    requires
                        k >= n,
                        length >= 1,
                ;
                assert(n * length == length * n) by (nonlinear_arith);
            }
        }
        r.push(Run { start, end });
        start = end;
    }
    r
}

/// Every row is in exactly one run.
pub proof fn each_row_has_one_run(total: usize, length: int, row: int)
    requires
        0 <= row < total,
        length >= 1,
    ensures
        (row / length) * length <= row < run_end(total, length, row / length),
        forall|i: int|
            i >= 0 && i * length <= row && row < #[trigger] run_end(total, length, i) ==> i == row
                / length,
{
    let q = row / length;
    vstd::arithmetic::div_mod::lemma_fundamental_div_mod(row, length);
    assert(length * q == q * length) by (nonlinear_arith);
    assert((q + 1) * length == q * length + length) by (nonlinear_arith);
    assert forall|i: int|
        i >= 0 && i * length <= row && row < #[trigger] run_end(total, length, i) implies i
        == q by {
        assert((i + 1) * length == i * length + length) by (nonlinear_arith);
        if i < q {
            assert((i + 1) * length <= q * length) by (nonlinear_arith)
                requires
                    i + 1 <= q,
                    length >= 1,
            ;
        } else if i > q {
            assert((q + 1) * length <= i * length) by (nonlinear_arith)
                requires
                    q + 1 <= i,
                    length >= 1,
            ;
        }
    }
}

} // verus!
