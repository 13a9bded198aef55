use rustbam::column::{alignment_passes, column_depth, AlignmentView};
use rustbam::engine::{compute_depths, resolve_reference, DepthError};
use rustbam::region::{partition_interval, Partition};
use rustbam::table::merge_results;
use rustbam::worker::{scan_partition, DepthSample, PileupColumn};

fn view(flags: u16, mapq: u8, base_quality: Option<u8>) -> AlignmentView {
    AlignmentView { flags, mapq, base_quality }
}

fn col(position: u64, views: Vec<AlignmentView>) -> PileupColumn {
    PileupColumn { position, views }
}

fn assert_tables_equal(a: &Vec<DepthSample>, b: &Vec<DepthSample>) {
    assert_eq!(a.len(), b.len());
    for i in 0..a.len() {
        assert_eq!(a[i].position, b[i].position);
        assert_eq!(a[i].depth, b[i].depth);
    }
}

#[test]
fn partitions_tile_interval() {
    let parts = partition_interval(1000, 2000, 4);
    assert_eq!(parts.len(), 4);
    assert_eq!(parts[0].chunk_start, 1000);
    assert_eq!(parts[3].chunk_end, 2001);
    for i in 0..3 {
        assert_eq!(parts[i].chunk_end, parts[i + 1].chunk_start);
    }
    for p in &parts {
        assert!(p.chunk_start <= p.chunk_end);
    }
    for (i, p) in parts.iter().enumerate() {
        assert_eq!(p.index, i);
    }
}

#[test]
fn partitions_interval_shorter_than_thread_count() {
    let parts = partition_interval(5, 7, 8);
    assert_eq!(parts.len(), 8);
    assert_eq!(parts[0].chunk_start, 5);
    assert_eq!(parts[7].chunk_end, 8);
    for i in 0..7 {
        assert_eq!(parts[i].chunk_end, parts[i + 1].chunk_start);
    }
}

#[test]
fn filter_rejects_excluded_flags() {
    for flag in [0x4u16, 0x100, 0x200, 0x400, 0x800] {
        assert!(!alignment_passes(&view(flag, 60, Some(40)), 0, 0));
    }
    assert!(alignment_passes(&view(0, 60, Some(40)), 0, 0));
    assert!(alignment_passes(&view(0x1, 60, Some(40)), 0, 0));
}

#[test]
fn filter_rejects_low_mapping_quality() {
    assert!(!alignment_passes(&view(0, 29, Some(40)), 30, 0));
    assert!(alignment_passes(&view(0, 30, Some(40)), 30, 0));
}

#[test]
fn filter_rejects_low_base_quality() {
    assert!(!alignment_passes(&view(0, 60, Some(12)), 0, 13));
    assert!(alignment_passes(&view(0, 60, Some(13)), 0, 13));
}

#[test]
fn filter_passes_alignment_without_query_base() {
    assert!(alignment_passes(&view(0, 60, None), 0, 255));
}

#[test]
fn column_depth_counts_passing_alignments() {
    let views = vec![
        view(0, 60, Some(40)),
        view(0x400, 60, Some(40)),
        view(0, 10, Some(40)),
        view(0, 60, Some(5)),
        view(0, 60, None),
    ];
    assert_eq!(column_depth(&views, 20, 13, 8000), 2);
    assert_eq!(column_depth(&views, 0, 0, 8000), 4);
}

#[test]
fn column_depth_stops_at_cap() {
    let views = vec![view(0, 60, Some(40)); 5];
    assert_eq!(column_depth(&views, 0, 0, 3), 3);
    assert_eq!(column_depth(&views, 0, 0, 0), 0);
    assert_eq!(column_depth(&views, 0, 0, 5), 5);
}

#[test]
fn scan_discards_columns_outside_partition_and_off_grid() {
    let part = Partition { index: 0, chunk_start: 100, chunk_end: 110 };
    let cols = vec![
        col(98, vec![view(0, 60, Some(40))]),   // 1-based 99: before the chunk
        col(99, vec![view(0, 60, Some(40))]),   // 1-based 100: kept
        col(100, vec![view(0, 60, Some(40))]),  // 1-based 101: off the step-2 grid
        col(103, vec![view(0, 60, Some(40))]),  // 1-based 104: kept
        col(109, vec![view(0, 60, Some(40))]),  // 1-based 110: past the chunk
    ];
    let rows = scan_partition(&cols, &part, 100, 2, 0, 0, 8000);
    assert_eq!(rows.len(), 2);
    assert_eq!(rows[0].position, 100);
    assert_eq!(rows[1].position, 104);
    assert_eq!(rows[0].depth, 1);
}

#[test]
fn merge_fills_unvisited_positions_with_zero() {
    let shards = vec![vec![DepthSample { position: 15, depth: 7 }]];
    let table = merge_results(10, 20, 5, &shards);
    assert_eq!(table.len(), 3);
    assert_eq!(table[0].position, 10);
    assert_eq!(table[0].depth, 0);
    assert_eq!(table[1].position, 15);
    assert_eq!(table[1].depth, 7);
    assert_eq!(table[2].position, 20);
    assert_eq!(table[2].depth, 0);
}

#[test]
fn engine_scenario_twenty_one_entries() {
    let parts = partition_interval(1000, 2000, 4);
    let mut columns: Vec<Vec<PileupColumn>> = vec![Vec::new(), Vec::new(), Vec::new(), Vec::new()];
    // A column on the grid (1-based 1050) inside the first partition.
    columns[0].push(col(1049, vec![
        view(0, 60, Some(40)),
        view(0, 60, Some(40)),
        view(0, 60, Some(5)),
    ]));
    // A column off the grid (1-based 1303) inside the second partition.
    columns[1].push(col(1302, vec![view(0, 60, Some(40))]));
    // A column on the grid (1-based 2000) inside the last partition.
    columns[3].push(col(1999, vec![view(0, 60, Some(40))]));
    let table = compute_depths(1000, 2000, 50, 0, 13, 8000, &parts, &columns);
    assert_eq!(table.len(), 21);
    for k in 0..21 {
        assert_eq!(table[k].position, 1000 + 50 * k as u64);
        assert!(table[k].depth <= 8000);
    }
    for k in 1..21 {
        assert!(table[k - 1].position < table[k].position);
    }
    assert_eq!(table[1].depth, 2); // position 1050: two passing alignments
    assert_eq!(table[20].depth, 1); // position 2000
    assert_eq!(table[0].depth, 0); // position 1000: never visited
}

#[test]
fn engine_single_position_interval() {
    let parts = partition_interval(500, 500, 1);
    let columns = vec![vec![col(499, vec![view(0, 60, Some(40))])]];
    let table = compute_depths(500, 500, 1, 0, 13, 8000, &parts, &columns);
    assert_eq!(table.len(), 1);
    assert_eq!(table[0].position, 500);
    assert_eq!(table[0].depth, 1);
}

#[test]
fn unknown_chromosome_is_not_found() {
    let names: Vec<Vec<u8>> = vec![b"chr1".to_vec(), b"chr2".to_vec(), b"chrX".to_vec()];
    let r = resolve_reference(&names, &b"chr7".to_vec());
    assert_eq!(r, Err(DepthError::NotFoundError));
}

#[test]
fn known_chromosome_resolves_to_its_id() {
    let names: Vec<Vec<u8>> = vec![b"chr1".to_vec(), b"chr2".to_vec(), b"chrX".to_vec()];
    assert_eq!(resolve_reference(&names, &b"chr1".to_vec()), Ok(0));
    assert_eq!(resolve_reference(&names, &b"chrX".to_vec()), Ok(2));
}

#[test]
fn raising_thresholds_never_raises_depth() {
    let parts = partition_interval(100, 120, 2);
    let make_columns = || {
        vec![
            vec![
                col(99, vec![view(0, 20, Some(10)), view(0, 40, Some(30))]),
                col(104, vec![view(0, 50, Some(20))]),
            ],
            vec![col(114, vec![view(0, 10, Some(40)), view(0, 60, Some(40))])],
        ]
    };
    let loose = compute_depths(100, 120, 5, 0, 0, 8000, &parts, &make_columns());
    let strict = compute_depths(100, 120, 5, 30, 13, 8000, &parts, &make_columns());
    assert_eq!(loose.len(), strict.len());
    for k in 0..loose.len() {
        assert_eq!(loose[k].position, strict[k].position);
        assert!(strict[k].depth <= loose[k].depth);
    }
    assert_eq!(loose[0].depth, 2);
    assert_eq!(strict[0].depth, 1);
}

#[test]
fn one_worker_and_four_workers_agree() {
    // Every worker reads the same column stream and keeps only its own
    // partition's columns, so the split must not change the table.
    let stream = vec![
        col(99, vec![view(0, 60, Some(40))]),
        col(104, vec![view(0, 60, Some(40)), view(0, 60, Some(40))]),
        col(114, vec![view(0, 60, Some(40))]),
        col(119, vec![view(0, 60, Some(40)); 3],),
    ];
    let parts4 = partition_interval(100, 120, 4);
    let columns4 = vec![stream.clone(), stream.clone(), stream.clone(), stream.clone()];
    let table4 = compute_depths(100, 120, 5, 0, 13, 8000, &parts4, &columns4);
    let parts1 = partition_interval(100, 120, 1);
    let columns1 = vec![stream];
    let table1 = compute_depths(100, 120, 5, 0, 13, 8000, &parts1, &columns1);
    assert_tables_equal(&table4, &table1);
}

#[test]
fn workers_with_their_own_fetches_agree_with_single_scan() {
    // Each worker is handed only the columns a fetch over its own partition
    // would return, boundary columns included; the seams must not be
    // double-counted and the table must match a single scan of the whole
    // stream.
    let c100 = || col(99, vec![view(0, 60, Some(40)); 1]);
    let c105 = || col(104, vec![view(0, 60, Some(40)); 2]);
    let c110 = || col(109, vec![view(0, 60, Some(40)); 3]);
    let c115 = || col(114, vec![view(0, 60, Some(40)); 4]);
    let c120 = || col(119, vec![view(0, 60, Some(40)); 5]);
    let parts4 = partition_interval(100, 120, 4);
    // Chunks are [100,105), [105,110), [110,115), [115,121); each fetch
    // spills one column over its right seam.
    let columns4 = vec![
        vec![c100(), c105()],
        vec![c105(), c110()],
        vec![c110(), c115()],
        vec![c115(), c120()],
    ];
    let table4 = compute_depths(100, 120, 5, 0, 13, 8000, &parts4, &columns4);
    let parts1 = partition_interval(100, 120, 1);
    let columns1 = vec![vec![c100(), c105(), c110(), c115(), c120()]];
    let table1 = compute_depths(100, 120, 5, 0, 13, 8000, &parts1, &columns1);
    assert_tables_equal(&table4, &table1);
    assert_eq!(table4.len(), 5);
    for k in 0..5 {
        assert_eq!(table4[k].position, 100 + 5 * k as u64);
        assert_eq!(table4[k].depth, 1 + k as u32);
    }
}

#[test]
fn repeated_runs_return_identical_output() {
    let parts = partition_interval(10, 30, 3);
    let make_columns = || {
        vec![
            vec![col(9, vec![view(0, 60, Some(40))])],
            vec![col(19, vec![view(0, 60, Some(40)), view(0, 60, Some(40))])],
            vec![col(29, vec![view(0, 60, Some(40))])],
        ]
    };
    let first = compute_depths(10, 30, 10, 0, 13, 8000, &parts, &make_columns());
    let second = compute_depths(10, 30, 10, 0, 13, 8000, &parts, &make_columns());
    assert_tables_equal(&first, &second);
}

#[test]
fn engine_caps_depth_at_max_depth() {
    let parts = partition_interval(100, 100, 1);
    let columns = vec![vec![col(99, vec![view(0, 60, Some(40)); 10])]];
    let table = compute_depths(100, 100, 1, 0, 13, 4, &parts, &columns);
    assert_eq!(table.len(), 1);
    assert_eq!(table[0].depth, 4);
}

#[test]
fn engine_with_no_columns_is_all_zero() {
    let parts = partition_interval(1, 10, 2);
    let columns = vec![Vec::new(), Vec::new()];
    let table = compute_depths(1, 10, 1, 0, 13, 8000, &parts, &columns);
    assert_eq!(table.len(), 10);
    for (i, s) in table.iter().enumerate() {
        assert_eq!(s.position, 1 + i as u64);
        assert_eq!(s.depth, 0);
    }
}
