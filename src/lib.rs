//! Packing of axis-aligned rectangles into fixed-size bins, with the Guillotine and the
//! MaxRects algorithms.
//!
//! Objects are described by a [`Dimension`] and placed as a [`Rectangle`]. Each bin keeps
//! its placed rectangles in the order of insertion, together with a list of free regions;
//! its invariant (`wf`) states that placed rectangles lie, with their padding, within the
//! bin and do not overlap, that free regions lie within the bin apart from them, and that
//! free regions and placed padded areas together cover the bin.
//! [`pack_bins`] spreads a list of objects over as many bins of one size as it takes.
use vstd::prelude::*;

pub mod binpack;
pub mod dimension;
pub mod guillotine;
pub mod maxrects;
pub mod rectangle;
pub mod region;

pub use binpack::{bin_new, bin_with_capacity, pack_bins, Bin, BinError, BinPacker, BinType};
pub use dimension::Dimension;
pub use rectangle::Rectangle;

verus! {

} // verus!
