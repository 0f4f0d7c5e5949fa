//! Halo cost grids for orientation-aware placement.
//!
//! For each of the eight candidate orientations of a placement site, the
//! library overlays the halo regions of that orientation's nets onto a square
//! grid. A cell records which net wrote it last and at what distance from that
//! net's bounding box; the cost of the cell is that distance times the net's
//! weight, a product that callers form themselves.

pub mod net;
pub mod image;
pub mod batch;
pub mod laws;
