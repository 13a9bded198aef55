//! Merging the workers' rows into one complete depth table: every sampled
//! position present exactly once, in ascending order, positions without a
//! qualifying column at depth 0.

use vstd::prelude::*;

verus! {

use crate::region::{
    is_sampled, lemma_grid_point_is_sampled, lemma_sampled_is_grid_point, sample_count,
};
use crate::worker::{last_depth_at, DepthSample};

/// The slot of a sampled position in the table: how many steps it stands
/// from `start`.
pub open spec fn slot_of(start: u64, step: u64, pos: u64) -> int {
    (pos - start) / (step as int)
}

/// The table before any worker's rows are laid over it: every sampled
/// position of `[start, end]`, in ascending order, at depth 0.
pub open spec fn zero_table(start: u64, end: u64, step: u64) -> Seq<DepthSample> {
    Seq::new(
        sample_count(start, end, step) as nat,
        |k: int| DepthSample { position: (start + k * step) as u64, depth: 0u32 },
    )
}

/// Lays one worker's rows over a table, in row order: each row replaces the
/// entry at its position's slot.
pub open spec fn overlay(
    table: Seq<DepthSample>,
    rows: Seq<DepthSample>,
    start: u64,
    step: u64,
) -> Seq<DepthSample>
    decreases rows.len(),
{
    if rows.len() == 0 {
        table
    } else {
        overlay(table, rows.drop_last(), start, step).update(
            slot_of(start, step, rows.last().position),
            rows.last(),
        )
    }
}

/// Lays every shard over the table, one worker's rows after another.
pub open spec fn overlay_all(
    table: Seq<DepthSample>,
    shards: Seq<Seq<DepthSample>>,
    start: u64,
    step: u64,
) -> Seq<DepthSample>
    decreases shards.len(),
{
    if shards.len() == 0 {
        table
    } else {
        overlay(overlay_all(table, shards.drop_last(), start, step), shards.last(), start, step)
    }
}

/// The merged table: the zero-filled table with every shard laid over it.
pub open spec fn merge_spec(
    start: u64,
    end: u64,
    step: u64,
    shards: Seq<Seq<DepthSample>>,
) -> Seq<DepthSample> {
    overlay_all(zero_table(start, end, step), shards, start, step)
}

/// A complete table: one entry per sampled position of `[start, end]`, in
/// ascending grid order, every depth at most `cap`.
pub open spec fn canonical(
    table: Seq<DepthSample>,
    start: u64,
    end: u64,
    step: u64,
    cap: u32,
) -> bool {
    &&& table.len() == sample_count(start, end, step)
    &&& forall|k: int|
        0 <= k < table.len() ==> (#[trigger] table[k]).position == start + k * step
            && table[k].depth <= cap
}

/// The zero-filled table is complete, whatever the cap.
pub proof fn lemma_zero_table_canonical(start: u64, end: u64, step: u64, cap: u32)
    requires
        1 <= step,
        start <= end,
    ensures
        canonical(zero_table(start, end, step), start, end, step, cap),
{
    let table = zero_table(start, end, step);
    assert forall|k: int| 0 <= k < table.len() implies (#[trigger] table[k]).position == start + k
        * step && table[k].depth <= cap by {
        lemma_grid_point_is_sampled(start, end, step, k);
    }
}

/// Laying rows at sampled positions with bounded depths over a complete
/// table leaves it complete.
pub proof fn lemma_overlay_canonical(
    table: Seq<DepthSample>,
    rows: Seq<DepthSample>,
    start: u64,
    end: u64,
    step: u64,
    cap: u32,
)
    requires
        1 <= step,
        start <= end,
        canonical(table, start, end, step, cap),
        forall|j: int|
            0 <= j < rows.len() ==> is_sampled(start, end, step, (#[trigger] rows[j]).position)
                && rows[j].depth <= cap,
    ensures
        canonical(overlay(table, rows, start, step), start, end, step, cap),
    decreases rows.len(),
{
    if rows.len() > 0 {
        lemma_overlay_canonical(table, rows.drop_last(), start, end, step, cap);
        let before = overlay(table, rows.drop_last(), start, step);
        let r = rows.last();
        lemma_sampled_is_grid_point(start, end, step, r.position);
        let after = overlay(table, rows, start, step);
        assert(after == before.update(slot_of(start, step, r.position), r));
        assert forall|k: int| 0 <= k < after.len() implies (#[trigger] after[k]).position == start
            + k * step && after[k].depth <= cap by {
            if k != slot_of(start, step, r.position) {
                assert(after[k] == before[k]);
            }
        }
    }
}

/// Laying every shard of sampled, depth-bounded rows over a complete table
/// leaves it complete.
pub proof fn lemma_overlay_all_canonical(
    table: Seq<DepthSample>,
    shards: Seq<Seq<DepthSample>>,
    start: u64,
    end: u64,
    step: u64,
    cap: u32,
)
    requires
        1 <= step,
        start <= end,
        canonical(table, start, end, step, cap),
        forall|i: int, j: int|
            0 <= i < shards.len() && 0 <= j < shards[i].len() ==> is_sampled(
                start,
                end,
                step,
                (#[trigger] shards[i][j]).position,
            ) && shards[i][j].depth <= cap,
    ensures
        canonical(overlay_all(table, shards, start, step), start, end, step, cap),
    decreases shards.len(),
{
    if shards.len() > 0 {
        assert forall|i: int, j: int|
            0 <= i < shards.drop_last().len() && 0 <= j < shards.drop_last()[i].len() implies
            is_sampled(start, end, step, (#[trigger] shards.drop_last()[i][j]).position)
                && shards.drop_last()[i][j].depth <= cap by {
            assert(shards.drop_last()[i] == shards[i]);
        }
        lemma_overlay_all_canonical(table, shards.drop_last(), start, end, step, cap);
        let last = shards.last();
        assert forall|j: int| 0 <= j < last.len() implies is_sampled(
            start,
            end,
            step,
            (#[trigger] last[j]).position,
        ) && last[j].depth <= cap by {
            assert(last == shards[shards.len() - 1]);
            assert(last[j] == shards[shards.len() - 1][j]);
        }
        lemma_overlay_canonical(
            overlay_all(table, shards.drop_last(), start, step),
            last,
            start,
            end,
            step,
            cap,
        );
    }
}

/// The depth the shards leave at `pos`: the last row of the last shard
/// naming `pos`, or `dflt` where no shard names it.
pub open spec fn last_shard_depth_at(shards: Seq<Seq<DepthSample>>, pos: u64, dflt: u32) -> u32
    decreases shards.len(),
{
    if shards.len() == 0 {
        dflt
    } else {
        last_depth_at(shards.last(), pos, last_shard_depth_at(shards.drop_last(), pos, dflt))
    }
}

/// Overlaying writes each slot the last row naming its position, and keeps
/// the table's entry where none does.
pub proof fn lemma_overlay_at(
    table: Seq<DepthSample>,
    rows: Seq<DepthSample>,
    start: u64,
    end: u64,
    step: u64,
    k: int,
)
    requires
        1 <= step,
        start <= end,
        table.len() == sample_count(start, end, step),
        forall|i: int| 0 <= i < table.len() ==> (#[trigger] table[i]).position == start + i * step,
        forall|j: int|
            0 <= j < rows.len() ==> is_sampled(start, end, step, (#[trigger] rows[j]).position),
        0 <= k < table.len(),
    ensures
        overlay(table, rows, start, step).len() == table.len(),
        overlay(table, rows, start, step)[k] == (DepthSample {
            position: table[k].position,
            depth: last_depth_at(rows, table[k].position, table[k].depth),
        }),
    decreases rows.len(),
{
    if rows.len() > 0 {
        assert forall|j: int| 0 <= j < rows.drop_last().len() implies is_sampled(
            start,
            end,
            step,
            (#[trigger] rows.drop_last()[j]).position,
        ) by {
            assert(rows.drop_last()[j] == rows[j]);
        }
        lemma_overlay_at(table, rows.drop_last(), start, end, step, k);
        let before = overlay(table, rows.drop_last(), start, step);
        let after = overlay(table, rows, start, step);
        let r = rows.last();
        assert(r == rows[rows.len() - 1]);
        lemma_sampled_is_grid_point(start, end, step, r.position);
        let slot = slot_of(start, step, r.position);
        assert(after == before.update(slot, r));
        if slot == k {
            assert(r.position == table[k].position);
            assert(after[k] == r);
        } else {
            assert(r.position != table[k].position) by {
                assert(slot * step != k * step) by (nonlinear_arith)
                    requires
                        slot != k,
                        step >= 1,
                ;
            }
            assert(after[k] == before[k]);
        }
    }
}

/// Overlaying every shard writes each slot the last row of the last shard
/// naming its position, and keeps the table's entry where none does.
pub proof fn lemma_overlay_all_at(
    table: Seq<DepthSample>,
    shards: Seq<Seq<DepthSample>>,
    start: u64,
    end: u64,
    step: u64,
    k: int,
)
    requires
        1 <= step,
        start <= end,
        table.len() == sample_count(start, end, step),
        forall|i: int| 0 <= i < table.len() ==> (#[trigger] table[i]).position == start + i * step,
        forall|i: int, j: int|
            0 <= i < shards.len() && 0 <= j < shards[i].len() ==> is_sampled(
                start,
                end,
                step,
                (#[trigger] shards[i][j]).position,
            ),
        0 <= k < table.len(),
    ensures
        overlay_all(table, shards, start, step).len() == table.len(),
        forall|i: int|
            0 <= i < table.len() ==> (#[trigger] overlay_all(table, shards, start, step)[
                i
            ]).position == table[i].position,
        overlay_all(table, shards, start, step)[k].depth == last_shard_depth_at(
            shards,
            table[k].position,
            table[k].depth,
        ),
    decreases shards.len(),
{
    if shards.len() > 0 {
        assert forall|i: int, j: int|
            0 <= i < shards.drop_last().len() && 0 <= j < shards.drop_last()[i].len() implies
            is_sampled(start, end, step, (#[trigger] shards.drop_last()[i][j]).position) by {
            assert(shards.drop_last()[i] == shards[i]);
        }
        lemma_overlay_all_at(table, shards.drop_last(), start, end, step, k);
        let mid = overlay_all(table, shards.drop_last(), start, step);
        let last = shards.last();
        assert forall|j: int| 0 <= j < last.len() implies is_sampled(
            start,
            end,
            step,
            (#[trigger] last[j]).position,
        ) by {
            assert(last == shards[shards.len() - 1]);
            assert(last[j] == shards[shards.len() - 1][j]);
        }
        assert forall|i: int| 0 <= i < mid.len() implies (#[trigger] mid[i]).position == start + i
            * step by {
            assert(mid[i].position == table[i].position);
        }
        lemma_overlay_at(mid, last, start, end, step, k);
        assert forall|i: int|
            0 <= i < table.len() implies (#[trigger] overlay_all(table, shards, start, step)[
            i
        ]).position == table[i].position by {
            lemma_overlay_at(mid, last, start, end, step, i);
        }
    }
}

/// Two tables stand in step when they have the same positions slot for
/// slot and the second's depth never exceeds the first's.
pub open spec fn dominated(t1: Seq<DepthSample>, t2: Seq<DepthSample>) -> bool {
    &&& t2.len() == t1.len()
    &&& forall|k: int|
        0 <= k < t1.len() ==> (#[trigger] t2[k]).position == t1[k].position && t2[k].depth <= t1[
            k
        ].depth
}

/// Laying rows in step over tables in step leaves the results in step:
/// matching rows land in the same slot, the dominated one with the smaller
/// depth.
pub proof fn lemma_overlay_monotonic(
    t1: Seq<DepthSample>,
    t2: Seq<DepthSample>,
    rows1: Seq<DepthSample>,
    rows2: Seq<DepthSample>,
    start: u64,
    end: u64,
    step: u64,
)
    requires
        1 <= step,
        start <= end,
        t1.len() == sample_count(start, end, step),
        dominated(t1, t2),
        dominated(rows1, rows2),
        forall|j: int|
            0 <= j < rows1.len() ==> is_sampled(start, end, step, (#[trigger] rows1[j]).position),
    ensures
        overlay(t1, rows1, start, step).len() == t1.len(),
        dominated(overlay(t1, rows1, start, step), overlay(t2, rows2, start, step)),
    decreases rows1.len(),
{
    if rows1.len() > 0 {
        assert forall|j: int| 0 <= j < rows1.drop_last().len() implies (#[trigger] rows2.drop_last()[
            j
        ]).position == rows1.drop_last()[j].position && rows2.drop_last()[j].depth
            <= rows1.drop_last()[j].depth by {
            assert(rows1.drop_last()[j] == rows1[j]);
            assert(rows2.drop_last()[j] == rows2[j]);
        }
        assert forall|j: int| 0 <= j < rows1.drop_last().len() implies is_sampled(
            start,
            end,
            step,
            (#[trigger] rows1.drop_last()[j]).position,
        ) by {
            assert(rows1.drop_last()[j] == rows1[j]);
        }
        lemma_overlay_monotonic(t1, t2, rows1.drop_last(), rows2.drop_last(), start, end, step);
        let b1 = overlay(t1, rows1.drop_last(), start, step);
        let b2 = overlay(t2, rows2.drop_last(), start, step);
        let o1 = overlay(t1, rows1, start, step);
        let o2 = overlay(t2, rows2, start, step);
        assert(rows1.last() == rows1[rows1.len() - 1]);
        lemma_sampled_is_grid_point(start, end, step, rows1.last().position);
        let slot = slot_of(start, step, rows1.last().position);
        assert(rows2.last().position == rows1.last().position && rows2.last().depth <= rows1.last().depth);
        assert(o1 == b1.update(slot, rows1.last()));
        assert(o2 == b2.update(slot, rows2.last()));
        assert forall|k: int| 0 <= k < o1.len() implies (#[trigger] o2[k]).position == o1[
            k
        ].position && o2[k].depth <= o1[k].depth by {
            if k != slot {
                assert(o1[k] == b1[k]);
                assert(o2[k] == b2[k]);
            }
        }
    }
}

/// Laying shards in step, shard for shard and row for row, over tables in
/// step leaves the results in step.
pub proof fn lemma_overlay_all_monotonic(
    t1: Seq<DepthSample>,
    t2: Seq<DepthSample>,
    shards1: Seq<Seq<DepthSample>>,
    shards2: Seq<Seq<DepthSample>>,
    start: u64,
    end: u64,
    step: u64,
)
    requires
        1 <= step,
        start <= end,
        t1.len() == sample_count(start, end, step),
        dominated(t1, t2),
        shards2.len() == shards1.len(),
        forall|i: int| 0 <= i < shards1.len() ==> dominated(#[trigger] shards1[i], shards2[i]),
        forall|i: int, j: int|
            0 <= i < shards1.len() && 0 <= j < shards1[i].len() ==> is_sampled(
                start,
                end,
                step,
                (#[trigger] shards1[i][j]).position,
            ),
    ensures
        overlay_all(t1, shards1, start, step).len() == t1.len(),
        dominated(overlay_all(t1, shards1, start, step), overlay_all(t2, shards2, start, step)),
    decreases shards1.len(),
{
    if shards1.len() > 0 {
        assert forall|i: int| 0 <= i < shards1.drop_last().len() implies dominated(
            #[trigger] shards1.drop_last()[i],
            shards2.drop_last()[i],
        ) by {
            assert(shards1.drop_last()[i] == shards1[i]);
            assert(shards2.drop_last()[i] == shards2[i]);
        }
        assert forall|i: int, j: int|
            0 <= i < shards1.drop_last().len() && 0 <= j < shards1.drop_last()[i].len() implies
            is_sampled(start, end, step, (#[trigger] shards1.drop_last()[i][j]).position) by {
            assert(shards1.drop_last()[i] == shards1[i]);
        }
        lemma_overlay_all_monotonic(
            t1,
            t2,
            shards1.drop_last(),
            shards2.drop_last(),
            start,
            end,
            step,
        );
        assert(dominated(shards1.last(), shards2.last())) by {
            assert(shards1.last() == shards1[shards1.len() - 1]);
        }
        assert forall|j: int| 0 <= j < shards1.last().len() implies is_sampled(
            start,
            end,
            step,
            (#[trigger] shards1.last()[j]).position,
        ) by {
            assert(shards1.last() == shards1[shards1.len() - 1]);
            assert(shards1.last()[j] == shards1[shards1.len() - 1][j]);
        }
        lemma_overlay_monotonic(
            overlay_all(t1, shards1.drop_last(), start, step),
            overlay_all(t2, shards2.drop_last(), start, step),
            shards1.last(),
            shards2.last(),
            start,
            end,
            step,
        );
    }
}

/// The rows of a complete table are exactly the sampled positions of
/// `[start, end]`: strictly ascending, each on the sampling grid, and with
/// every sampled position present.
pub proof fn lemma_canonical_positions(
    table: Seq<DepthSample>,
    start: u64,
    end: u64,
    step: u64,
    cap: u32,
)
    requires
        1 <= step,
        start <= end,
        canonical(table, start, end, step, cap),
    ensures
        forall|k1: int, k2: int|
            0 <= k1 < k2 < table.len() ==> (#[trigger] table[k1]).position < (
            #[trigger] table[k2]).position,
        forall|k: int|
            0 <= k < table.len() ==> is_sampled(start, end, step, (#[trigger] table[k]).position),
        forall|pos: u64|
            is_sampled(start, end, step, pos) ==> exists|k: int|
                0 <= k < table.len() && (#[trigger] table[k]).position == pos,
{
    assert forall|k1: int, k2: int| 0 <= k1 < k2 < table.len() implies (
    #[trigger] table[k1]).position < (#[trigger] table[k2]).position by {
        vstd::arithmetic::mul::lemma_mul_strict_inequality(k1, k2, step as int);
        lemma_grid_point_is_sampled(start, end, step, k2);
    }
    assert forall|k: int| 0 <= k < table.len() implies is_sampled(
        start,
        end,
        step,
        (#[trigger] table[k]).position,
    ) by {
        lemma_grid_point_is_sampled(start, end, step, k);
    }
    assert forall|pos: u64| is_sampled(start, end, step, pos) implies exists|k: int|
        0 <= k < table.len() && (#[trigger] table[k]).position == pos by {
        lemma_sampled_is_grid_point(start, end, step, pos);
        let k = slot_of(start, step, pos);
        assert(0 <= k < table.len() && table[k].position == pos);
    }
}

/// The shards as mathematical sequences of rows.
pub open spec fn views_of(shards: Seq<Vec<DepthSample>>) -> Seq<Seq<DepthSample>> {
    shards.map_values(|v: Vec<DepthSample>| v@)
}

/// Builds the complete table for `[start, end]`: every sampled position at
/// depth 0, then each worker's rows laid over it in shard order.
pub fn merge_results(start: u64, end: u64, step: u64, shards: &Vec<Vec<DepthSample>>) -> (r: Vec<
    DepthSample,
>)
    requires
        1 <= step,
        start <= end,
        end < u64::MAX,
        sample_count(start, end, step) <= usize::MAX,
        forall|i: int, j: int|
            0 <= i < shards@.len() && 0 <= j < shards@[i]@.len() ==> is_sampled(
                start,
                end,
                step,
                (#[trigger] shards@[i]@[j]).position,
            ),
    ensures
        r@ == merge_spec(start, end, step, views_of(shards@)),
{
    let n_positions: u64 = (end - start) / step + 1;
    let mut table: Vec<DepthSample> = Vec::new();
    let mut cur: u64 = start;
    let mut k: u64 = 0;
    while k < n_positions
        invariant
            0 <= k <= n_positions,
            1 <= step,
            start <= end < u64::MAX,
            n_positions == sample_count(start, end, step),
            table@.len() == k,
            k < n_positions ==> cur == start + k * step && cur <= end,
            forall|j: int|
                0 <= j < k ==> (#[trigger] table@[j]).position == start + j * step
                    && table@[j].depth == 0,
        decreases n_positions - k,
    {
        table.push(DepthSample { position: cur, depth: 0 });
        k += 1;
        if k < n_positions {
            proof {
                lemma_grid_point_is_sampled(start, end, step, k as int);
                assert(k as int * step as int == (k - 1) as int * step as int + step as int)
                    by (nonlinear_arith);
            }
            cur = cur + step;
        }
    }
    proof {
        assert forall|j: int| 0 <= j < n_positions implies table@[j] == zero_table(
            start,
            end,
            step,
        )[j] by {
            lemma_grid_point_is_sampled(start, end, step, j);
        }
        assert(table@ =~= zero_table(start, end, step));
    }
    let ghost svs = views_of(shards@);
    let mut s: usize = 0;
    while s < shards.len()
        invariant
            0 <= s <= shards@.len(),
            1 <= step,
            start <= end < u64::MAX,
            sample_count(start, end, step) <= usize::MAX,
            svs == views_of(shards@),
            forall|i: int, j: int|
                0 <= i < shards@.len() && 0 <= j < shards@[i]@.len() ==> is_sampled(
                    start,
                    end,
                    step,
                    (#[trigger] shards@[i]@[j]).position,
                ),
            table@.len() == sample_count(start, end, step),
            table@ == overlay_all(zero_table(start, end, step), svs.take(s as int), start, step),
        decreases shards@.len() - s,
    {
        let shard = &shards[s];
        let ghost sofar = overlay_all(zero_table(start, end, step), svs.take(s as int), start, step);
        proof {
            assert forall|jj: int| 0 <= jj < shard@.len() implies is_sampled(
                start,
                end,
                step,
                (#[trigger] shard@[jj]).position,
            ) by {
                assert(shard@[jj] == shards@[s as int]@[jj]);
            }
        }
        let mut j: usize = 0;
        while j < shard.len()
            invariant
                0 <= j <= shard@.len(),
                1 <= step,
                start <= end < u64::MAX,
                sample_count(start, end, step) <= usize::MAX,
                0 <= s < shards@.len(),
                shard@ == shards@[s as int]@,
                sofar == overlay_all(zero_table(start, end, step), svs.take(s as int), start, step),
                forall|jj: int|
                    0 <= jj < shard@.len() ==> is_sampled(
                        start,
                        end,
                        step,
                        (#[trigger] shard@[jj]).position,
                    ),
                table@.len() == sample_count(start, end, step),
                table@ == overlay(sofar, shard@.take(j as int), start, step),
            decreases shard@.len() - j,
        {
            let smp = shard[j];
            proof {
                lemma_sampled_is_grid_point(start, end, step, smp.position);
            }
            let idx: usize = ((smp.position - start) / step) as usize;
            table.set(idx, smp);
            j += 1;
            proof {
                assert(shard@.take(j as int).drop_last() =~= shard@.take(j as int - 1));
                assert(shard@.take(j as int).last() == shard@[j as int - 1]);
            }
        }
        s += 1;
        proof {
            assert(shard@.take(shard@.len() as int) =~= shard@);
            assert(svs.take(s as int).drop_last() =~= svs.take(s as int - 1));
            assert(svs.take(s as int).last() == svs[s as int - 1]);
            assert(svs[s as int - 1] == shard@);
        }
    }
    proof {
        assert(svs.take(svs.len() as int) =~= svs);
    }
    table
}

} // verus!
