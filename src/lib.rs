//! Conversion of sequence graphs in GFA form into FASTA records, one per path.
//!
//! The library splits lines into fields, decodes the two step syntaxes of
//! paths, checks segment sequences against the DNA alphabet, and resolves
//! each path into the concatenation of its oriented segment sequences.

pub mod decimal;
pub mod dna;
pub mod records;
pub mod resolve;
pub mod steps;
pub mod text;

pub use dna::{is_dna, reverse_complement};
pub use records::{derive_walk_name, parse_gfa, parse_line, GfaError, LineFault, Record};
pub use resolve::{convert, find_segment, resolve_path, write_record};
pub use steps::{parse_p_path, parse_w_path};
