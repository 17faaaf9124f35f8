//! Run configuration.

use vstd::prelude::*;

verus! {

/// The options of one run.
pub struct Options {
    /// The root folder to search for sprite directories.
    pub root_folder: String,
    /// The name of the summary file, relative to the root folder.
    pub summary_filename: String,
    /// The alpha value below which a pixel counts as background.
    pub background_alpha: u8,
    /// Whether bounding boxes of the foreground pixels are computed.
    pub compute_border_box: bool,
    /// Whether every frame is scanned again, whatever the previous summary
    /// holds.
    pub force: bool,
}

} // verus!
