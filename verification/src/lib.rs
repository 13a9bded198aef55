//! Per-position sequencing depth over a genomic interval.
//!
//! The interval is split into contiguous partitions, one worker scans the
//! pileup columns of each partition and counts the alignments that pass the
//! quality filters, and the per-partition results are merged into one
//! complete, gap-free, position-sorted depth table.
//!
//! Reading the alignment source itself (opening, indexing, pileup iteration)
//! is left to the caller: every function here works on plain values that the
//! caller hands in, and is verified.

pub mod column;
pub mod engine;
pub mod region;
pub mod table;
pub mod worker;
