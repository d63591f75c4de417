//! Edit-distance alignment of byte sequences.
//!
//! The crate aligns a query sequence against a target sequence under
//! unit-cost edit distance, in one of three boundary regimes (global,
//! prefix, infix), optionally under a distance bound, and can report the
//! end and start locations of optimal alignments, an explicit
//! edit-operation path, and a run-length-encoded CIGAR rendering of that
//! path.

pub mod alphabet;
pub mod cigar;
pub mod engine;
pub mod levenshtein;
pub mod path;

pub use alphabet::EdlibEqualityPairRs;
pub use cigar::{
    edlibAlignmentToCigarRs, edlibCigarToAlignmentRs, EdlibCigarErrorRs, EdlibCigarFormatRs,
};
pub use engine::{
    edlibAlignRs, EdlibAlignConfigRs, EdlibAlignModeRs, EdlibAlignResultRs, EdlibAlignTaskRs,
    EDLIB_RS_STATUS_ERROR, EDLIB_RS_STATUS_OK,
};
pub use path::EdlibEdopRs;
