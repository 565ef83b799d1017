//! Parsing and rasterising Supernote `.note` notebooks.
//!
//! The notebook container (metadata blocks, page and layer tables), the
//! RATTA_RLE bitmap codec, the TOTALPATH stroke records, the page bitmap
//! compositor, the rectangle splitter, the decisions of SVG assembly and
//! the names of output files are verified here against specifications
//! written over byte and character sequences.

pub mod bitmap;
pub mod bytes;
pub mod error;
pub mod text;
pub mod format;
pub mod naming;
pub mod render;
pub mod split;
