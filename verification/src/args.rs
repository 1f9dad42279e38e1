use vstd::prelude::*;

verus! {

/// The options of a run of the tool.
pub struct Args {
    /// Inkscape .svg file.
    pub file: String,
    /// Range 1-100, where 1 is the worst quality and 100 is the best.
    pub quality: u8,
    /// Move completed files to the 'compressed' folder.
    pub move_completed: bool,
    /// Extract compressed images to the 'extracted' folder.
    pub extract: bool,
}

} // verus!
