//! Incremental summaries of sprite-sheet directories.
//!
//! For every PNG frame the library records its dimensions, a checksum of its
//! pixel content and, on request, the tight bounding box of its foreground
//! pixels. Frames are gathered into one summary per directory and the
//! directories into one root summary. A frame whose modification time has not
//! changed since the previous run is taken over from that run's summary
//! instead of being scanned again.
//!
//! The library does not touch the disk: listing directories, reading
//! modification times and files, and storing the summary are left to the
//! caller, who hands over what was read. The bytes of a PNG file are decoded
//! by the `image` crate; everything else is verified here.

pub mod border;
pub mod cache;
pub mod decode;
pub mod directory;
pub mod hex;
pub mod options;
pub mod pixels;
pub mod root;
pub mod string_map;
pub mod summary;
