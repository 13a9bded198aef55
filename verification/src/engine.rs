//! The depth engine: reference-name validation, the table computed from the
//! columns each worker's fetch returned, and the guarantees that hold of
//! every run.

use vstd::prelude::*;

verus! {

use crate::region::{
    is_sampled, lemma_grid_point_is_sampled, lemma_tiles_bounds, lemma_tiles_cover,
    lemma_tiles_disjoint, sample_count, tiles, whole_interval, Partition,
};
use crate::table::{
    canonical, dominated, last_shard_depth_at, lemma_overlay_all_at, lemma_overlay_all_canonical,
    lemma_overlay_all_monotonic, lemma_zero_table_canonical, merge_results, merge_spec, views_of,
    zero_table,
};
use crate::worker::{
    lemma_scan_absent, lemma_scan_depth_at, lemma_scan_monotonic, lemma_scan_wf, scan_partition,
    scan_spec, stream_depth_at, DepthSample, PileupColumn,
};

/// What can go wrong: the source cannot be opened or fetched, the
/// chromosome is absent from the source's reference set, or a column fails
/// to decode mid-iteration.
#[derive(Clone, Copy, Debug, PartialEq, Eq, Structural)]
pub enum DepthError {
    IoError,
    NotFoundError,
    RuntimeError,
}

/// Whether two byte strings hold the same bytes.
fn bytes_equal(a: &Vec<u8>, b: &Vec<u8>) -> (r: bool)
    ensures
        r == (a@ == b@),
{
    if a.len() != b.len() {
        return false;
    }
    let mut i: usize = 0;
    while i < a.len()
        invariant
            0 <= i <= a@.len(),
            a@.len() == b@.len(),
            forall|j: int| 0 <= j < i ==> a@[j] == b@[j],
        decreases a@.len() - i,
    {
        if a[i] != b[i] {
            return false;
        }
        i += 1;
    }
    proof {
        assert(a@ =~= b@);
    }
    true
}

/// Looks a chromosome name up in the source's reference names, in order,
/// and returns the first match's id; an absent name is a `NotFoundError`,
/// found before any parallel work is dispatched.
pub fn resolve_reference(names: &Vec<Vec<u8>>, chromosome: &Vec<u8>) -> (r: Result<
    usize,
    DepthError,
>)
    ensures
        match r {
            Ok(tid) => tid < names@.len() && names@[tid as int]@ == chromosome@ && forall|j: int|
                0 <= j < tid ==> (#[trigger] names@[j])@ != chromosome@,
            Err(e) => e == DepthError::NotFoundError && forall|j: int|
                0 <= j < names@.len() ==> (#[trigger] names@[j])@ != chromosome@,
        },
{
    let mut i: usize = 0;
    while i < names.len()
        invariant
            0 <= i <= names@.len(),
            forall|j: int| 0 <= j < i ==> (#[trigger] names@[j])@ != chromosome@,
        decreases names@.len() - i,
    {
        if bytes_equal(&names[i], chromosome) {
            return Ok(i);
        }
        i += 1;
    }
    Err(DepthError::NotFoundError)
}

/// The columns each worker was handed, as mathematical sequences.
pub open spec fn column_views(columns: Seq<Vec<PileupColumn>>) -> Seq<Seq<PileupColumn>> {
    columns.map_values(|v: Vec<PileupColumn>| v@)
}

/// The rows each worker produces for its partition.
pub open spec fn worker_outputs(
    parts: Seq<Partition>,
    columns: Seq<Seq<PileupColumn>>,
    start: u64,
    step: u64,
    min_mapq: u8,
    min_bq: u8,
    cap: u32,
) -> Seq<Seq<DepthSample>> {
    Seq::new(
        parts.len(),
        |i: int| scan_spec(columns[i], parts[i], start, step, min_mapq, min_bq, cap),
    )
}

/// The table the engine computes: every worker's rows, merged over the
/// zero-filled table.
pub open spec fn depth_table_spec(
    start: u64,
    end: u64,
    step: u64,
    min_mapq: u8,
    min_bq: u8,
    cap: u32,
    parts: Seq<Partition>,
    columns: Seq<Seq<PileupColumn>>,
) -> Seq<DepthSample> {
    merge_spec(start, end, step, worker_outputs(parts, columns, start, step, min_mapq, min_bq, cap))
}

/// Computes the depth table of `[start, end]` from the pileup columns that
/// the external reader returned for each partition. The result covers
/// exactly the sampled positions, ascending and unique, each depth at most
/// `max_depth`, positions without a qualifying column at depth 0.
pub fn compute_depths(
    start: u64,
    end: u64,
    step: u64,
    min_mapq: u8,
    min_bq: u8,
    max_depth: u32,
    parts: &Vec<Partition>,
    columns: &Vec<Vec<PileupColumn>>,
) -> (r: Vec<DepthSample>)
    requires
        1 <= step,
        start <= end,
        end < u64::MAX,
        sample_count(start, end, step) <= usize::MAX,
        tiles(parts@, start, end),
        columns@.len() == parts@.len(),
        forall|i: int, j: int|
            0 <= i < columns@.len() && 0 <= j < columns@[i]@.len() ==> (#[trigger] columns@[i]@[
                j
            ]).position < u64::MAX,
    ensures
        r@ == depth_table_spec(
            start,
            end,
            step,
            min_mapq,
            min_bq,
            max_depth,
            parts@,
            column_views(columns@),
        ),
        canonical(r@, start, end, step, max_depth),
{
    let mut shards: Vec<Vec<DepthSample>> = Vec::new();
    let mut i: usize = 0;
    while i < parts.len()
        invariant
            0 <= i <= parts@.len(),
            1 <= step,
            start <= end < u64::MAX,
            tiles(parts@, start, end),
            columns@.len() == parts@.len(),
            forall|a: int, b: int|
                0 <= a < columns@.len() && 0 <= b < columns@[a]@.len() ==> (#[trigger] columns@[a]@[
                    b
                ]).position < u64::MAX,
            shards@.len() == i,
            forall|k: int|
                0 <= k < i ==> (#[trigger] shards@[k])@ == scan_spec(
                    columns@[k]@,
                    parts@[k],
                    start,
                    step,
                    min_mapq,
                    min_bq,
                    max_depth,
                ),
        decreases parts@.len() - i,
    {
        proof {
            lemma_tiles_bounds(parts@, start, end);
        }
        let shard = scan_partition(&columns[i], &parts[i], start, step, min_mapq, min_bq, max_depth);
        shards.push(shard);
        i += 1;
    }
    proof {
        lemma_tiles_bounds(parts@, start, end);
        assert forall|a: int, b: int|
            0 <= a < shards@.len() && 0 <= b < shards@[a]@.len() implies is_sampled(
            start,
            end,
            step,
            (#[trigger] shards@[a]@[b]).position,
        ) && shards@[a]@[b].depth <= max_depth by {
            lemma_scan_wf(columns@[a]@, parts@[a], start, end, step, min_mapq, min_bq, max_depth);
        }
    }
    let r = merge_results(start, end, step, &shards);
    proof {
        let outs = worker_outputs(
            parts@,
            column_views(columns@),
            start,
            step,
            min_mapq,
            min_bq,
            max_depth,
        );
        assert(views_of(shards@) =~= outs);
        lemma_zero_table_canonical(start, end, step, max_depth);
        lemma_overlay_all_canonical(
            zero_table(start, end, step),
            views_of(shards@),
            start,
            end,
            step,
            max_depth,
        );
    }
    r
}

/// Raising `min_mapq` or `min_bq` is monotonic non-increasing on the depth
/// at every position of the table, for fixed columns: the stricter run
/// keeps the same positions and never a greater depth.
pub proof fn lemma_filters_monotonic(
    start: u64,
    end: u64,
    step: u64,
    mq1: u8,
    bq1: u8,
    mq2: u8,
    bq2: u8,
    cap: u32,
    parts: Seq<Partition>,
    columns: Seq<Seq<PileupColumn>>,
)
    requires
        mq1 <= mq2,
        bq1 <= bq2,
        1 <= step,
        start <= end,
        tiles(parts, start, end),
        columns.len() == parts.len(),
        forall|i: int, j: int|
            0 <= i < columns.len() && 0 <= j < columns[i].len() ==> (#[trigger] columns[i][
                j
            ]).position < u64::MAX,
    ensures
        dominated(
            depth_table_spec(start, end, step, mq1, bq1, cap, parts, columns),
            depth_table_spec(start, end, step, mq2, bq2, cap, parts, columns),
        ),
{
    lemma_tiles_bounds(parts, start, end);
    let outs1 = worker_outputs(parts, columns, start, step, mq1, bq1, cap);
    let outs2 = worker_outputs(parts, columns, start, step, mq2, bq2, cap);
    assert forall|i: int| 0 <= i < outs1.len() implies dominated(
        #[trigger] outs1[i],
        outs2[i],
    ) by {
        lemma_scan_monotonic(columns[i], parts[i], start, step, mq1, bq1, mq2, bq2, cap);
    }
    assert forall|i: int, j: int|
        0 <= i < outs1.len() && 0 <= j < outs1[i].len() implies is_sampled(
        start,
        end,
        step,
        (#[trigger] outs1[i][j]).position,
    ) by {
        lemma_scan_wf(columns[i], parts[i], start, end, step, mq1, bq1, cap);
    }
    let zero = zero_table(start, end, step);
    assert(dominated(zero, zero));
    lemma_overlay_all_monotonic(zero, zero, outs1, outs2, start, end, step);
}

/// The depth the shards of a tiling leave at an in-partition, step-aligned
/// position: shards of other partitions write nothing there, and the owning
/// partition's shard leaves the depth of its own stream's last column at
/// the position.
proof fn lemma_tiling_shards_at(
    parts: Seq<Partition>,
    columns: Seq<Seq<PileupColumn>>,
    start: u64,
    end: u64,
    step: u64,
    min_mapq: u8,
    min_bq: u8,
    cap: u32,
    pos: u64,
    istar: int,
    m: int,
)
    requires
        1 <= step,
        start <= end,
        tiles(parts, start, end),
        columns.len() == parts.len(),
        0 <= istar < parts.len(),
        parts[istar].chunk_start <= pos < parts[istar].chunk_end,
        (pos - start) % (step as int) == 0,
        0 <= m <= parts.len(),
    ensures
        m <= istar ==> last_shard_depth_at(
            worker_outputs(parts, columns, start, step, min_mapq, min_bq, cap).take(m),
            pos,
            0,
        ) == 0,
        m > istar ==> last_shard_depth_at(
            worker_outputs(parts, columns, start, step, min_mapq, min_bq, cap).take(m),
            pos,
            0,
        ) == stream_depth_at(columns[istar], pos, min_mapq, min_bq, cap, 0),
    decreases m,
{
    let outs = worker_outputs(parts, columns, start, step, min_mapq, min_bq, cap);
    if m > 0 {
        lemma_tiling_shards_at(
            parts,
            columns,
            start,
            end,
            step,
            min_mapq,
            min_bq,
            cap,
            pos,
            istar,
            m - 1,
        );
        assert(outs.take(m).drop_last() =~= outs.take(m - 1));
        assert(outs.take(m).last() == outs[m - 1]);
        assert(outs[m - 1] == scan_spec(
            columns[m - 1],
            parts[m - 1],
            start,
            step,
            min_mapq,
            min_bq,
            cap,
        ));
        let below = last_shard_depth_at(outs.take(m - 1), pos, 0);
        if m - 1 == istar {
            lemma_scan_depth_at(
                columns[istar],
                parts[istar],
                start,
                step,
                min_mapq,
                min_bq,
                cap,
                pos,
                0,
            );
        } else {
            lemma_tiles_disjoint(parts, start, end);
            assert(!(parts[m - 1].chunk_start <= pos < parts[m - 1].chunk_end));
            lemma_scan_absent(
                columns[m - 1],
                parts[m - 1],
                start,
                step,
                min_mapq,
                min_bq,
                cap,
                pos,
                below,
            );
        }
    }
}

/// However the interval is tiled among workers, and whatever columns each
/// worker's fetch returned, the table equals the one a single worker
/// computes from the whole stream — provided each worker's stream carries
/// the same last column as the whole stream at every step-aligned position
/// of its own partition (a fetch over the partition's range does). Each
/// worker discards the columns outside its partition, so the split changes
/// nothing.
pub proof fn lemma_workers_match_single_scan(
    start: u64,
    end: u64,
    step: u64,
    min_mapq: u8,
    min_bq: u8,
    cap: u32,
    parts: Seq<Partition>,
    columns: Seq<Seq<PileupColumn>>,
    cols: Seq<PileupColumn>,
)
    requires
        1 <= step,
        start <= end,
        end < u64::MAX,
        tiles(parts, start, end),
        columns.len() == parts.len(),
        forall|i: int, pos: u64|
            0 <= i < parts.len() && parts[i].chunk_start <= pos < parts[i].chunk_end && (pos
                - start) % (step as int) == 0 ==> #[trigger] stream_depth_at(
                columns[i],
                pos,
                min_mapq,
                min_bq,
                cap,
                0,
            ) == stream_depth_at(cols, pos, min_mapq, min_bq, cap, 0),
    ensures
        depth_table_spec(start, end, step, min_mapq, min_bq, cap, parts, columns)
            == depth_table_spec(
            start,
            end,
            step,
            min_mapq,
            min_bq,
            cap,
            seq![whole_interval(start, end)],
            seq![cols],
        ),
{
    let whole = whole_interval(start, end);
    let single: Seq<Partition> = seq![whole];
    assert(tiles(single, start, end));
    let outs_many = worker_outputs(parts, columns, start, step, min_mapq, min_bq, cap);
    let outs_one = worker_outputs(single, seq![cols], start, step, min_mapq, min_bq, cap);
    let t_many = depth_table_spec(start, end, step, min_mapq, min_bq, cap, parts, columns);
    let t_one = depth_table_spec(start, end, step, min_mapq, min_bq, cap, single, seq![cols]);
    let zero = zero_table(start, end, step);
    lemma_tiles_bounds(parts, start, end);
    lemma_zero_table_canonical(start, end, step, 0u32);
    assert forall|a: int, b: int|
        0 <= a < outs_many.len() && 0 <= b < outs_many[a].len() implies is_sampled(
        start,
        end,
        step,
        (#[trigger] outs_many[a][b]).position,
    ) by {
        lemma_scan_wf(columns[a], parts[a], start, end, step, min_mapq, min_bq, cap);
    }
    assert forall|a: int, b: int|
        0 <= a < outs_one.len() && 0 <= b < outs_one[a].len() implies is_sampled(
        start,
        end,
        step,
        (#[trigger] outs_one[a][b]).position,
    ) by {
        lemma_scan_wf(cols, single[a], start, end, step, min_mapq, min_bq, cap);
    }
    lemma_overlay_all_at(zero, outs_many, start, end, step, 0);
    lemma_overlay_all_at(zero, outs_one, start, end, step, 0);
    assert forall|k: int| 0 <= k < zero.len() implies t_many[k] == t_one[k] by {
        lemma_overlay_all_at(zero, outs_many, start, end, step, k);
        lemma_overlay_all_at(zero, outs_one, start, end, step, k);
        let pk = zero[k].position;
        lemma_grid_point_is_sampled(start, end, step, k);
        let istar = lemma_tiles_cover(parts, start, end, pk);
        lemma_tiling_shards_at(
            parts,
            columns,
            start,
            end,
            step,
            min_mapq,
            min_bq,
            cap,
            pk,
            istar,
            parts.len() as int,
        );
        assert(outs_many.take(parts.len() as int) =~= outs_many);
        lemma_tiling_shards_at(
            single,
            seq![cols],
            start,
            end,
            step,
            min_mapq,
            min_bq,
            cap,
            pk,
            0,
            1,
        );
        assert(outs_one.take(1) =~= outs_one);
        assert(stream_depth_at(columns[istar], pk, min_mapq, min_bq, cap, 0) == stream_depth_at(
            cols,
            pk,
            min_mapq,
            min_bq,
            cap,
            0,
        ));
        assert(t_many[k].depth == stream_depth_at(cols, pk, min_mapq, min_bq, cap, 0));
        assert(t_one[k].depth == stream_depth_at(cols, pk, min_mapq, min_bq, cap, 0));
        assert(t_many[k].position == pk && t_one[k].position == pk);
    }
    assert(t_many =~= t_one);
}

/// Running one worker over the whole interval or any number of workers
/// over a tiling of it yields the identical table, when every worker reads
/// the same column stream.
pub proof fn lemma_partitioning_irrelevant(
    start: u64,
    end: u64,
    step: u64,
    min_mapq: u8,
    min_bq: u8,
    cap: u32,
    parts: Seq<Partition>,
    cols: Seq<PileupColumn>,
)
    requires
        1 <= step,
        start <= end,
        end < u64::MAX,
        tiles(parts, start, end),
    ensures
        depth_table_spec(
            start,
            end,
            step,
            min_mapq,
            min_bq,
            cap,
            parts,
            Seq::new(parts.len(), |i: int| cols),
        ) == depth_table_spec(
            start,
            end,
            step,
            min_mapq,
            min_bq,
            cap,
            seq![whole_interval(start, end)],
            seq![cols],
        ),
{
    lemma_workers_match_single_scan(
        start,
        end,
        step,
        min_mapq,
        min_bq,
        cap,
        parts,
        Seq::new(parts.len(), |i: int| cols),
        cols,
    );
}

/// Identical arguments give the identical table: the engine's result is a
/// function of its inputs alone, so repeated runs against unchanged columns
/// return the same output.
pub proof fn lemma_compute_deterministic(
    r1: Seq<DepthSample>,
    r2: Seq<DepthSample>,
    start: u64,
    end: u64,
    step: u64,
    min_mapq: u8,
    min_bq: u8,
    cap: u32,
    parts: Seq<Partition>,
    columns: Seq<Seq<PileupColumn>>,
)
    requires
        r1 == depth_table_spec(start, end, step, min_mapq, min_bq, cap, parts, columns),
        r2 == depth_table_spec(start, end, step, min_mapq, min_bq, cap, parts, columns),
    ensures
        r1 == r2,
{
}

} // verus!
