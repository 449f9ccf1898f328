//! Planning engine for cross-stitch patterns: lattice geometry, stitch
//! sequencing, exact thread-travel cost and the nesting of overlapping
//! travel lines.

pub mod error;
pub mod grid_cell;
pub mod layout;
pub mod line_segment;
pub mod line_segment_tree;
pub mod number_theory;
pub mod program_state;
pub mod stitch;
pub mod symbolic_sum;
