//! Multi-Order Coverage maps (MOCs): sets of HEALPix, time or frequency cells stored as
//! sorted, non-overlapping ranges of indices at the deepest resolution.

pub mod arith;
pub mod qty;
pub mod ranges;
pub mod moc;
pub mod cells;
pub mod hpx;
pub mod split;
pub mod moc2d;
pub mod canon2d;
pub mod store;
pub mod gz;
pub mod builder;
pub mod builder2d;
pub mod multi_op;
pub mod edges;
pub mod creation;
pub mod holes;
pub mod laws;
pub mod overlap;
pub mod ranges_cells;
pub mod st_data;
pub mod fits;
