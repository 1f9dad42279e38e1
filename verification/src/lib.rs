//! Compression of Inkscape `.svg` documents that embed base64 images.
//!
//! The library holds the decisions of the tool: how an embedded image is found
//! on a line of the document, which images are recompressed, how the rewritten
//! line reads, how output file names are formed, and how the document is put
//! back together. Reading and writing files is left to the caller.

pub mod args;
pub mod id;
pub mod img;
pub mod text;
pub mod inks;
pub mod size;
pub mod names;
pub mod document;
