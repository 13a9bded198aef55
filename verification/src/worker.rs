//! One worker's pass over the pileup columns of its partition: keep the
//! columns that fall inside the partition and on the sampling grid, and
//! compute the filtered depth of each.

use vstd::prelude::*;

verus! {

use crate::column::{column_depth, column_depth_spec, AlignmentView};
use crate::region::{is_sampled, Partition};

/// One pileup column as the external reader reports it: its zero-based
/// reference position and the alignments overlapping it.
#[derive(Clone)]
pub struct PileupColumn {
    pub position: u64,
    pub views: Vec<AlignmentView>,
}

/// One row of the depth table: a 1-based position and its filtered depth.
#[derive(Clone, Copy)]
pub struct DepthSample {
    pub position: u64,
    pub depth: u32,
}

/// Whether a worker for partition `part` keeps the column at zero-based
/// `position`: its 1-based position lies inside the partition's half-open
/// range and a whole number of steps from `start`. Columns outside the
/// partition are discarded, so a column returned to two workers at a seam
/// is never counted twice.
pub open spec fn selects(part: Partition, start: u64, step: u64, position: u64) -> bool {
    &&& part.chunk_start <= position + 1 < part.chunk_end
    &&& (position + 1 - start) % (step as int) == 0
}

/// The table row a kept column becomes: its position converted from
/// zero-based to 1-based, its depth the column's filtered depth.
pub open spec fn sample_of(c: PileupColumn, min_mapq: u8, min_bq: u8, cap: u32) -> DepthSample {
    DepthSample {
        position: (c.position + 1) as u64,
        depth: column_depth_spec(c.views@, min_mapq, min_bq, cap),
    }
}

/// The rows a worker produces for its partition: one per kept column, in
/// column order.
pub open spec fn scan_spec(
    cols: Seq<PileupColumn>,
    part: Partition,
    start: u64,
    step: u64,
    min_mapq: u8,
    min_bq: u8,
    cap: u32,
) -> Seq<DepthSample>
    decreases cols.len(),
{
    if cols.len() == 0 {
        Seq::empty()
    } else {
        let rest = scan_spec(cols.drop_last(), part, start, step, min_mapq, min_bq, cap);
        if selects(part, start, step, cols.last().position) {
            rest.push(sample_of(cols.last(), min_mapq, min_bq, cap))
        } else {
            rest
        }
    }
}

/// Rows fit for merging: each lies on the sampling grid inside
/// `[start, end]`, inside the partition's range, with its depth at most
/// `cap`.
pub open spec fn rows_wf(
    rows: Seq<DepthSample>,
    part: Partition,
    start: u64,
    end: u64,
    step: u64,
    cap: u32,
) -> bool {
    forall|j: int|
        0 <= j < rows.len() ==> {
            &&& is_sampled(start, end, step, (#[trigger] rows[j]).position)
            &&& part.chunk_start <= rows[j].position < part.chunk_end
            &&& rows[j].depth <= cap
        }
}

/// Every row of a worker's output lies on the sampling grid inside
/// `[start, end]`, and its depth never exceeds the cap.
pub proof fn lemma_scan_wf(
    cols: Seq<PileupColumn>,
    part: Partition,
    start: u64,
    end: u64,
    step: u64,
    min_mapq: u8,
    min_bq: u8,
    cap: u32,
)
    requires
        1 <= step,
        start <= part.chunk_start,
        part.chunk_end <= end + 1,
    ensures
        rows_wf(scan_spec(cols, part, start, step, min_mapq, min_bq, cap), part, start, end, step, cap),
    decreases cols.len(),
{
    let rows = scan_spec(cols, part, start, step, min_mapq, min_bq, cap);
    if cols.len() > 0 {
        lemma_scan_wf(cols.drop_last(), part, start, end, step, min_mapq, min_bq, cap);
        let rest = scan_spec(cols.drop_last(), part, start, step, min_mapq, min_bq, cap);
        let c = cols.last();
        if selects(part, start, step, c.position) {
            let s = sample_of(c, min_mapq, min_bq, cap);
            assert(rows == rest.push(s));
            assert(c.position + 1 < part.chunk_end);
            assert(s.position == c.position + 1);
            assert forall|j: int| 0 <= j < rows.len() implies {
                &&& is_sampled(start, end, step, (#[trigger] rows[j]).position)
                &&& part.chunk_start <= rows[j].position < part.chunk_end
                &&& rows[j].depth <= cap
            } by {
                if j < rest.len() {
                    assert(rows[j] == rest[j]);
                } else {
                    assert(rows[j] == s);
                }
            }
        }
    }
}

/// The depth carried by the last row naming `pos`, or `dflt` where no row
/// names it.
pub open spec fn last_depth_at(rows: Seq<DepthSample>, pos: u64, dflt: u32) -> u32
    decreases rows.len(),
{
    if rows.len() == 0 {
        dflt
    } else if rows.last().position == pos {
        rows.last().depth
    } else {
        last_depth_at(rows.drop_last(), pos, dflt)
    }
}

/// The filtered depth of the last column of the stream at 1-based `pos`,
/// or `dflt` where the stream has no column there.
pub open spec fn stream_depth_at(
    cols: Seq<PileupColumn>,
    pos: u64,
    min_mapq: u8,
    min_bq: u8,
    cap: u32,
    dflt: u32,
) -> u32
    decreases cols.len(),
{
    if cols.len() == 0 {
        dflt
    } else if cols.last().position + 1 == pos {
        column_depth_spec(cols.last().views@, min_mapq, min_bq, cap)
    } else {
        stream_depth_at(cols.drop_last(), pos, min_mapq, min_bq, cap, dflt)
    }
}

/// At a grid position of its own partition, a worker's last row carries
/// exactly the depth of the stream's last column there.
pub proof fn lemma_scan_depth_at(
    cols: Seq<PileupColumn>,
    part: Partition,
    start: u64,
    step: u64,
    min_mapq: u8,
    min_bq: u8,
    cap: u32,
    pos: u64,
    dflt: u32,
)
    requires
        1 <= step,
        part.chunk_start <= pos < part.chunk_end,
        (pos - start) % (step as int) == 0,
    ensures
        last_depth_at(scan_spec(cols, part, start, step, min_mapq, min_bq, cap), pos, dflt)
            == stream_depth_at(cols, pos, min_mapq, min_bq, cap, dflt),
    decreases cols.len(),
{
    if cols.len() > 0 {
        lemma_scan_depth_at(
            cols.drop_last(),
            part,
            start,
            step,
            min_mapq,
            min_bq,
            cap,
            pos,
            dflt,
        );
        let c = cols.last();
        let rows = scan_spec(cols, part, start, step, min_mapq, min_bq, cap);
        let rest = scan_spec(cols.drop_last(), part, start, step, min_mapq, min_bq, cap);
        if selects(part, start, step, c.position) {
            let s = sample_of(c, min_mapq, min_bq, cap);
            assert(c.position + 1 < part.chunk_end);
            assert(s.position == c.position + 1);
            assert(rows == rest.push(s));
            assert(rows.last() == s);
            assert(rows.drop_last() =~= rest);
        } else {
            assert(c.position + 1 != pos);
        }
    }
}

/// A worker writes nothing at a position outside its own partition.
pub proof fn lemma_scan_absent(
    cols: Seq<PileupColumn>,
    part: Partition,
    start: u64,
    step: u64,
    min_mapq: u8,
    min_bq: u8,
    cap: u32,
    pos: u64,
    dflt: u32,
)
    requires
        !(part.chunk_start <= pos < part.chunk_end),
    ensures
        last_depth_at(scan_spec(cols, part, start, step, min_mapq, min_bq, cap), pos, dflt)
            == dflt,
    decreases cols.len(),
{
    if cols.len() > 0 {
        lemma_scan_absent(cols.drop_last(), part, start, step, min_mapq, min_bq, cap, pos, dflt);
        let c = cols.last();
        let rows = scan_spec(cols, part, start, step, min_mapq, min_bq, cap);
        let rest = scan_spec(cols.drop_last(), part, start, step, min_mapq, min_bq, cap);
        if selects(part, start, step, c.position) {
            let s = sample_of(c, min_mapq, min_bq, cap);
            assert(c.position + 1 < part.chunk_end);
            assert(s.position == c.position + 1);
            assert(rows == rest.push(s));
            assert(s.position != pos);
            assert(rows.drop_last() =~= rest);
        }
    }
}

/// With stricter filters a worker keeps the same columns, so the same
/// positions in the same order, each at no greater depth.
pub proof fn lemma_scan_monotonic(
    cols: Seq<PileupColumn>,
    part: Partition,
    start: u64,
    step: u64,
    mq1: u8,
    bq1: u8,
    mq2: u8,
    bq2: u8,
    cap: u32,
)
    requires
        mq1 <= mq2,
        bq1 <= bq2,
    ensures
        scan_spec(cols, part, start, step, mq2, bq2, cap).len() == scan_spec(
            cols,
            part,
            start,
            step,
            mq1,
            bq1,
            cap,
        ).len(),
        forall|j: int|
            0 <= j < scan_spec(cols, part, start, step, mq1, bq1, cap).len() ==> {
                &&& (#[trigger] scan_spec(cols, part, start, step, mq2, bq2, cap)[j]).position
                    == scan_spec(cols, part, start, step, mq1, bq1, cap)[j].position
                &&& scan_spec(cols, part, start, step, mq2, bq2, cap)[j].depth <= scan_spec(
                    cols,
                    part,
                    start,
                    step,
                    mq1,
                    bq1,
                    cap,
                )[j].depth
            },
    decreases cols.len(),
{
    let s1 = scan_spec(cols, part, start, step, mq1, bq1, cap);
    let s2 = scan_spec(cols, part, start, step, mq2, bq2, cap);
    if cols.len() > 0 {
        lemma_scan_monotonic(cols.drop_last(), part, start, step, mq1, bq1, mq2, bq2, cap);
        let r1 = scan_spec(cols.drop_last(), part, start, step, mq1, bq1, cap);
        let r2 = scan_spec(cols.drop_last(), part, start, step, mq2, bq2, cap);
        let c = cols.last();
        if selects(part, start, step, c.position) {
            crate::column::lemma_column_depth_monotonic(c.views@, mq1, bq1, mq2, bq2, cap);
            assert forall|j: int| 0 <= j < s1.len() implies {
                &&& (#[trigger] s2[j]).position == s1[j].position
                &&& s2[j].depth <= s1[j].depth
            } by {
                if j < r1.len() {
                    assert(s1[j] == r1[j]);
                    assert(s2[j] == r2[j]);
                } else {
                    assert(s1[j] == sample_of(c, mq1, bq1, cap));
                    assert(s2[j] == sample_of(c, mq2, bq2, cap));
                }
            }
        }
    }
}

/// Scans the pileup columns returned for one partition, in order, and
/// produces the rows of kept columns.
pub fn scan_partition(
    cols: &Vec<PileupColumn>,
    part: &Partition,
    start: u64,
    step: u64,
    min_mapq: u8,
    min_bq: u8,
    cap: u32,
) -> (r: Vec<DepthSample>)
    requires
        1 <= step,
        start <= part.chunk_start,
        forall|i: int| 0 <= i < cols@.len() ==> (#[trigger] cols@[i]).position < u64::MAX,
    ensures
        r@ == scan_spec(cols@, *part, start, step, min_mapq, min_bq, cap),
{
    let mut out: Vec<DepthSample> = Vec::new();
    let mut i: usize = 0;
    while i < cols.len()
        invariant
            0 <= i <= cols@.len(),
            1 <= step,
            start <= part.chunk_start,
            forall|j: int| 0 <= j < cols@.len() ==> (#[trigger] cols@[j]).position < u64::MAX,
            out@ == scan_spec(cols@.take(i as int), *part, start, step, min_mapq, min_bq, cap),
        decreases cols@.len() - i,
    {
        proof {
            assert(cols@.take(i + 1).drop_last() =~= cols@.take(i as int));
            assert(cols@.take(i + 1).last() == cols@[i as int]);
        }
        let c = &cols[i];
        let pos1 = c.position + 1;
        if part.chunk_start <= pos1 && pos1 < part.chunk_end && (pos1 - start) % step == 0 {
            let d = column_depth(&c.views, min_mapq, min_bq, cap);
            out.push(DepthSample { position: pos1, depth: d });
        }
        i += 1;
    }
    proof {
        assert(cols@.take(cols@.len() as int) =~= cols@);
    }
    out
}

} // verus!
