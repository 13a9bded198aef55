//! One pileup column: the alignments overlapping a reference position, the
//! quality filters applied to them, and the filtered depth of the column.

use vstd::prelude::*;

verus! {

/// Alignment flag bits that disqualify a read from the depth count:
/// unmapped, secondary, QC-fail, duplicate, supplementary.
pub const FLAG_EXCLUDE: u16 = 0x4 | 0x100 | 0x200 | 0x400 | 0x800;

/// What the depth count reads of one alignment overlapping a column: its
/// flags, its mapping quality, and the quality of its base at the column,
/// where the alignment has one (a deletion or reference skip has none).
#[derive(Clone, Copy)]
pub struct AlignmentView {
    pub flags: u16,
    pub mapq: u8,
    pub base_quality: Option<u8>,
}

/// Whether one alignment counts towards depth: none of the excluded flag
/// bits set, mapping quality at least `min_mapq`, and, where the alignment
/// has a base at the column, its quality at least `min_bq`.
pub open spec fn passes(v: AlignmentView, min_mapq: u8, min_bq: u8) -> bool {
    &&& v.flags & FLAG_EXCLUDE == 0
    &&& v.mapq >= min_mapq
    &&& match v.base_quality {
        Some(bq) => bq >= min_bq,
        None => true,
    }
}

/// Applies the read and base filters to one alignment.
pub fn alignment_passes(v: &AlignmentView, min_mapq: u8, min_bq: u8) -> (r: bool)
    ensures
        r == passes(*v, min_mapq, min_bq),
{
    if v.flags & FLAG_EXCLUDE != 0 {
        return false;
    }
    if v.mapq < min_mapq {
        return false;
    }
    match v.base_quality {
        Some(bq) => bq >= min_bq,
        None => true,
    }
}

/// How many alignments of the column pass the filters.
pub open spec fn count_passing(views: Seq<AlignmentView>, min_mapq: u8, min_bq: u8) -> nat
    decreases views.len(),
{
    if views.len() == 0 {
        0
    } else {
        count_passing(views.drop_last(), min_mapq, min_bq) + if passes(
            views.last(),
            min_mapq,
            min_bq,
        ) {
            1nat
        } else {
            0nat
        }
    }
}

/// The depth of one column: the number of passing alignments, capped at
/// `cap`.
pub open spec fn column_depth_spec(views: Seq<AlignmentView>, min_mapq: u8, min_bq: u8, cap: u32) -> u32 {
    if count_passing(views, min_mapq, min_bq) >= cap {
        cap
    } else {
        count_passing(views, min_mapq, min_bq) as u32
    }
}

/// Raising the quality thresholds never lets more alignments pass.
pub proof fn lemma_count_passing_monotonic(
    views: Seq<AlignmentView>,
    mq1: u8,
    bq1: u8,
    mq2: u8,
    bq2: u8,
)
    requires
        mq1 <= mq2,
        bq1 <= bq2,
    ensures
        count_passing(views, mq2, bq2) <= count_passing(views, mq1, bq1),
    decreases views.len(),
{
    if views.len() > 0 {
        lemma_count_passing_monotonic(views.drop_last(), mq1, bq1, mq2, bq2);
    }
}

/// Raising the quality thresholds never raises a column's depth, for any
/// one cap.
pub proof fn lemma_column_depth_monotonic(
    views: Seq<AlignmentView>,
    mq1: u8,
    bq1: u8,
    mq2: u8,
    bq2: u8,
    cap: u32,
)
    requires
        mq1 <= mq2,
        bq1 <= bq2,
    ensures
        column_depth_spec(views, mq2, bq2, cap) <= column_depth_spec(views, mq1, bq1, cap),
{
    lemma_count_passing_monotonic(views, mq1, bq1, mq2, bq2);
}

/// A prefix of the column never holds more passing alignments than the
/// whole column.
pub proof fn lemma_count_passing_prefix(views: Seq<AlignmentView>, min_mapq: u8, min_bq: u8, i: int)
    requires
        0 <= i <= views.len(),
    ensures
        count_passing(views.take(i), min_mapq, min_bq) <= count_passing(views, min_mapq, min_bq),
    decreases views.len() - i,
{
    if i == views.len() {
        assert(views.take(i) =~= views);
    } else {
        assert(views.take(i + 1).drop_last() =~= views.take(i));
        assert(views.take(i + 1).last() == views[i]);
        lemma_count_passing_prefix(views, min_mapq, min_bq, i + 1);
    }
}

/// Counts the filter-passing alignments of one column, stopping early once
/// the count reaches `cap`.
pub fn column_depth(views: &Vec<AlignmentView>, min_mapq: u8, min_bq: u8, cap: u32) -> (d: u32)
    ensures
        d == column_depth_spec(views@, min_mapq, min_bq, cap),
{
    if cap == 0 {
        return 0;
    }
    let mut count: u32 = 0;
    let mut i: usize = 0;
    while i < views.len()
        invariant
            0 <= i <= views@.len(),
            0 < cap,
            count == count_passing(views@.take(i as int), min_mapq, min_bq),
            count < cap,
        decreases views@.len() - i,
    {
        proof {
            assert(views@.take(i + 1).drop_last() =~= views@.take(i as int));
            assert(views@.take(i + 1).last() == views@[i as int]);
        }
        if alignment_passes(&views[i], min_mapq, min_bq) {
            count = count + 1;
            if count >= cap {
                proof {
                    lemma_count_passing_prefix(views@, min_mapq, min_bq, i + 1);
                }
                return cap;
            }
        }
        i += 1;
    }
    proof {
        assert(views@.take(views@.len() as int) =~= views@);
    }
    count
}

} // verus!
