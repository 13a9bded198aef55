//! Splitting a requested interval into contiguous partitions, and the
//! sampling grid of positions inside the interval.

use vstd::prelude::*;

verus! {

use vstd::arithmetic::div_mod::{lemma_fundamental_div_mod, lemma_mod_bound};
use vstd::arithmetic::mul::lemma_mul_inequality;

/// One contiguous sub-range `[chunk_start, chunk_end)` (1-based, half-open)
/// of a requested interval, assigned to a single worker.
pub struct Partition {
    pub index: usize,
    pub chunk_start: u64,
    pub chunk_end: u64,
}

/// The partitions tile `[start, end + 1)` exactly: each is a well-formed
/// half-open range, the first begins at `start`, the last ends just past
/// `end`, each begins where the one before it ends, and each carries its
/// own index.
pub open spec fn tiles(parts: Seq<Partition>, start: u64, end: u64) -> bool {
    &&& parts.len() >= 1
    &&& parts[0].chunk_start == start
    &&& parts[parts.len() - 1].chunk_end == end + 1
    &&& forall|i: int|
        0 <= i < parts.len() ==> (#[trigger] parts[i]).chunk_start <= parts[i].chunk_end
    &&& forall|i: int|
        0 <= i < parts.len() - 1 ==> (#[trigger] parts[i]).chunk_end == parts[i + 1].chunk_start
    &&& forall|i: int| 0 <= i < parts.len() ==> (#[trigger] parts[i]).index == i
}

/// In a tiling of `[start, end + 1)` every partition lies inside the
/// requested interval.
pub proof fn lemma_tiles_bounds(parts: Seq<Partition>, start: u64, end: u64)
    requires
        tiles(parts, start, end),
    ensures
        forall|i: int|
            0 <= i < parts.len() ==> start <= (#[trigger] parts[i]).chunk_start
                && parts[i].chunk_end <= end + 1,
{
    assert forall|i: int| 0 <= i < parts.len() implies start <= (#[trigger] parts[i]).chunk_start by {
        lemma_chunk_start_lower(parts, start, end, i);
    }
    assert forall|i: int| 0 <= i < parts.len() implies (#[trigger] parts[i]).chunk_end <= end + 1 by {
        lemma_chunk_end_upper(parts, start, end, i);
    }
}

proof fn lemma_chunk_start_lower(parts: Seq<Partition>, start: u64, end: u64, i: int)
    requires
        tiles(parts, start, end),
        0 <= i < parts.len(),
    ensures
        start <= parts[i].chunk_start,
    decreases i,
{
    if i > 0 {
        lemma_chunk_start_lower(parts, start, end, i - 1);
    }
}

proof fn lemma_chunk_end_upper(parts: Seq<Partition>, start: u64, end: u64, i: int)
    requires
        tiles(parts, start, end),
        0 <= i < parts.len(),
    ensures
        parts[i].chunk_end <= end + 1,
    decreases parts.len() - i,
{
    if i < parts.len() - 1 {
        lemma_chunk_end_upper(parts, start, end, i + 1);
    }
}

/// The partitions of a tiling come in coordinate order: an earlier one ends
/// no later than a later one begins, so their ranges never overlap.
pub proof fn lemma_tiles_disjoint(parts: Seq<Partition>, start: u64, end: u64)
    requires
        tiles(parts, start, end),
    ensures
        forall|i: int, j: int|
            0 <= i < j < parts.len() ==> (#[trigger] parts[i]).chunk_end
                <= (#[trigger] parts[j]).chunk_start,
{
    assert forall|i: int, j: int| 0 <= i < j < parts.len() implies (#[trigger] parts[i]).chunk_end
        <= (#[trigger] parts[j]).chunk_start by {
        lemma_chunk_order(parts, start, end, i, j);
    }
}

proof fn lemma_chunk_order(parts: Seq<Partition>, start: u64, end: u64, i: int, j: int)
    requires
        tiles(parts, start, end),
        0 <= i < j < parts.len(),
    ensures
        parts[i].chunk_end <= parts[j].chunk_start,
    decreases j - i,
{
    if i + 1 < j {
        lemma_chunk_order(parts, start, end, i + 1, j);
    }
}

/// Every position of `[start, end]` lies in some partition of a tiling.
pub proof fn lemma_tiles_cover(parts: Seq<Partition>, start: u64, end: u64, pos: u64) -> (i: int)
    requires
        tiles(parts, start, end),
        start <= pos <= end,
    ensures
        0 <= i < parts.len(),
        parts[i].chunk_start <= pos < parts[i].chunk_end,
    decreases parts.len(),
{
    if pos >= parts[parts.len() - 1].chunk_start {
        parts.len() - 1
    } else {
        let front = parts.drop_last();
        let cut = parts[parts.len() - 1].chunk_start;
        assert(tiles(front, start, (cut - 1) as u64));
        lemma_tiles_cover(front, start, (cut - 1) as u64, pos)
    }
}

/// Splits `[start, end]` (1-based, inclusive) into `n` contiguous half-open
/// partitions by integer division, the remainder going to the final
/// partition, so that the partitions tile the interval with no gap and no
/// overlap.
pub fn partition_interval(start: u64, end: u64, n: usize) -> (parts: Vec<Partition>)
    requires
        1 <= n,
        start <= end,
        end < u64::MAX,
    ensures
        parts@.len() == n,
        tiles(parts@, start, end),
{
    let len: u64 = end - start + 1;
    let base: u64 = len / (n as u64);
    proof {
        lemma_fundamental_div_mod(len as int, n as int);
        lemma_mod_bound(len as int, n as int);
        assert(n * base <= len);
    }
    let mut parts: Vec<Partition> = Vec::new();
    let mut cur: u64 = start;
    let mut i: usize = 0;
    while i < n
        invariant
            0 <= i <= n,
            start <= end < u64::MAX,
            base == (end - start + 1) / (n as int),
            parts@.len() == i,
            i < n ==> cur + (n - i) * base <= end + 1,
            i < n ==> cur == start + i * base,
            forall|j: int| 0 <= j < i ==> (#[trigger] parts@[j]).index == j,
            forall|j: int|
                0 <= j < i ==> (#[trigger] parts@[j]).chunk_start <= parts@[j].chunk_end,
            forall|j: int|
                0 <= j < i as int - 1 ==> (#[trigger] parts@[j]).chunk_end == parts@[
                    j + 1
                ].chunk_start,
            i > 0 ==> parts@[0].chunk_start == start,
            0 < i < n ==> parts@[i - 1].chunk_end == cur,
            i == n ==> parts@[i - 1].chunk_end == end + 1,
        decreases n - i,
    {
        let chunk_start = cur;
        let chunk_end: u64;
        if i == n - 1 {
            proof {
                lemma_mul_inequality(1, (n - i) as int, base as int);
            }
            chunk_end = end + 1;
        } else {
            proof {
                assert((n - i) as int * base as int == (n - (i + 1)) as int * base as int
                    + base as int) by (nonlinear_arith);
                assert((n - (i + 1)) as int * base as int >= base as int) by (nonlinear_arith)
                    requires
                        n as int - (i + 1) >= 1,
                        base >= 0,
                ;
                assert((i + 1) as int * base as int == i as int * base as int + base as int)
                    by (nonlinear_arith);
            }
            chunk_end = cur + base;
            cur = cur + base;
        }
        parts.push(Partition { index: i, chunk_start, chunk_end });
        i += 1;
    }
    parts
}

/// The one-partition tiling of `[start, end]`: a single worker's range.
pub open spec fn whole_interval(start: u64, end: u64) -> Partition {
    Partition { index: 0, chunk_start: start, chunk_end: (end + 1) as u64 }
}

/// A 1-based position is sampled when it lies in `[start, end]` and stands a
/// whole number of steps from `start`.
pub open spec fn is_sampled(start: u64, end: u64, step: u64, pos: u64) -> bool {
    &&& start <= pos <= end
    &&& (pos - start) % (step as int) == 0
}

/// How many positions of the grid `{start + k*step : k >= 0}` fall in
/// `[start, end]`.
pub open spec fn sample_count(start: u64, end: u64, step: u64) -> int {
    (end - start) / (step as int) + 1
}

/// A sampled position is exactly a grid point: `pos` is sampled if and only
/// if `pos == start + k*step` for the slot `k = (pos - start) / step`, which
/// lies below `sample_count`.
pub proof fn lemma_sampled_is_grid_point(start: u64, end: u64, step: u64, pos: u64)
    requires
        1 <= step,
        start <= end,
        is_sampled(start, end, step, pos),
    ensures
        0 <= (pos - start) / (step as int) < sample_count(start, end, step),
        pos == start + ((pos - start) / (step as int)) * step,
{
    let k = (pos - start) / (step as int);
    lemma_fundamental_div_mod(pos - start, step as int);
    assert(pos - start == (step as int) * k);
    vstd::arithmetic::div_mod::lemma_div_is_ordered(pos - start, end - start, step as int);
    assert(k * step == (step as int) * k) by (nonlinear_arith);
}

/// Every grid point of the interval is sampled: for any slot `k` below
/// `sample_count`, the position `start + k*step` lies in `[start, end]` and
/// satisfies the sampling test.
pub proof fn lemma_grid_point_is_sampled(start: u64, end: u64, step: u64, k: int)
    requires
        1 <= step,
        start <= end,
        0 <= k < sample_count(start, end, step),
    ensures
        start + k * step <= end,
        is_sampled(start, end, step, (start + k * step) as u64),
{
    lemma_fundamental_div_mod(end - start, step as int);
    lemma_mod_bound(end - start, step as int);
    assert(k * step <= ((end - start) / (step as int)) * step) by {
        lemma_mul_inequality(k, (end - start) / (step as int), step as int);
    }
    assert(((end - start) / (step as int)) * step == (step as int) * ((end - start) / (
    step as int))) by (nonlinear_arith);
    let pos = (start + k * step) as u64;
    assert(pos == start + k * step);
    assert((pos - start) % (step as int) == 0) by {
        assert(pos - start == k * (step as int) + 0);
        vstd::arithmetic::div_mod::lemma_fundamental_div_mod_converse_mod(
            pos - start,
            step as int,
            k,
            0,
        );
    }
}

} // verus!
