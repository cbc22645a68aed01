//! In-memory representation and mutation engine for a single glyph contour:
//! a closed or open path of on-curve and off-curve points describing straight
//! lines and cubic Bezier curves, as used in an interactive font editor.
//!
//! The core maintains several structural invariants (open/closed
//! normalization, on/off-curve alternation, tangent continuity at smooth
//! points) while supporting insertion, deletion, segment splitting, segment
//! replacement, and affine transformation.

pub mod design_space;
pub mod point;
pub mod store;
pub mod segment;
pub mod point_list;
