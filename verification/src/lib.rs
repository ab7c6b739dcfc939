//! A pixel-to-text transform kernel over caller-owned buffers.
//!
//! The kernel works on a byte buffer that the caller partitions by offset into
//! an RGBA pixel region (always at offset zero), a palette of RGB triples, a
//! glyph set and an output region. Every transform validates the regions it is
//! handed against the buffer once, at its boundary, and then runs a single
//! synchronous pass.
//!
//! Brightness is carried here in quantised form, as one integer level per
//! pixel: the histogram equaliser takes 256-bin levels and the glyph mapper
//! takes glyph indices. Producing those levels from real-valued brightness, and
//! turning equalised counts back into a quotient, is left to the caller.

pub mod error;
pub mod region;
pub mod palette;
pub mod histogram;
pub mod glyph;
