//! Singly-unique k-mer (SUNK) analytics: SUNK extraction from an assembly,
//! SUNK mapping onto long reads, read-to-contig assignment, bad-SUNK
//! filtering and per-contig SUNK graph components.
//!
//! Sequences (contigs and reads) are addressed by their index in the list
//! handed to the library; the caller keeps the names.

pub mod assign;
pub mod bad;
pub mod bed;
pub mod graph;
pub mod kmer;
pub mod map;
pub mod sunks;
pub mod table;
