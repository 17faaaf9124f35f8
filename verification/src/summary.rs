//! The summaries of a frame, of a directory and of the whole tree.

use vstd::prelude::*;
use crate::border::BorderBox;
use crate::string_map::StringMap;

verus! {

/// Why a summary cannot be made: it would have to count further than its
/// counters reach.
#[derive(Clone, Copy, Debug, PartialEq, Eq, Structural)]
pub enum SummaryError {
    /// A directory yields more than 65535 frames.
    TooManyFrames,
    /// More than 65535 directories hold frames.
    TooManySprites,
}

/// The summary of one frame.
#[derive(Debug)]
pub struct ImageSummary {
    /// The file name, unique within its directory.
    pub name: String,
    pub width: u32,
    pub height: u32,
    /// The checksum of the pixel content, in lowercase hexadecimal.
    pub checksum: String,
    /// When the file was last modified, in seconds since the epoch.
    pub changed: u64,
    /// The bounding box of the foreground pixels, if it was computed and the
    /// frame has foreground.
    pub border: Option<BorderBox>,
}

/// An [`ImageSummary`] as a value.
pub struct ImageSummaryView {
    pub name: Seq<char>,
    pub width: u32,
    pub height: u32,
    pub checksum: Seq<char>,
    pub changed: u64,
    pub border: Option<BorderBox>,
}

impl View for ImageSummary {
    type V = ImageSummaryView;

    open spec fn view(&self) -> ImageSummaryView {
        ImageSummaryView {
            name: self.name@,
            width: self.width,
            height: self.height,
            checksum: self.checksum@,
            changed: self.changed,
            border: self.border,
        }
    }
}

/// The frames of a directory by file name.
pub type FrameMap = StringMap<ImageSummary>;

/// The summary of one directory of frames.
#[derive(Debug)]
pub struct SpriteSourceSummary {
    /// The path of the directory, relative to the root folder.
    pub path: String,
    /// The number of frames.
    pub count: u16,
    /// The smallest box that contains the border boxes of all frames.
    pub border: Option<BorderBox>,
    pub frames: FrameMap,
}

/// A [`SpriteSourceSummary`] as a value.
pub struct SpriteSourceView {
    pub path: Seq<char>,
    pub count: nat,
    pub border: Option<BorderBox>,
    pub frames: Map<Seq<char>, ImageSummaryView>,
}

impl View for SpriteSourceSummary {
    type V = SpriteSourceView;

    open spec fn view(&self) -> SpriteSourceView {
        SpriteSourceView {
            path: self.path@,
            count: self.count as nat,
            border: self.border,
            frames: self.frames@,
        }
    }
}

impl SpriteSourceView {
    /// Every frame stands under its own name.
    pub open spec fn keyed_by_name(self) -> bool {
        forall|name: Seq<char>| #[trigger]
            self.frames.contains_key(name) ==> self.frames[name].name == name
    }
}

/// The directories of a tree by path.
pub type SpriteSourceMap = StringMap<SpriteSourceSummary>;

/// The summary of a whole tree.
#[derive(Debug)]
pub struct SpriteSourceRootSummary {
    /// The number of directories that hold frames.
    pub sprite_count: u16,
    /// The number of frames in all of them.
    pub frame_count: u32,
    pub sprites: SpriteSourceMap,
}

/// A [`SpriteSourceRootSummary`] as a value.
pub struct RootView {
    pub sprite_count: nat,
    pub frame_count: nat,
    pub sprites: Map<Seq<char>, SpriteSourceView>,
}

impl View for SpriteSourceRootSummary {
    type V = RootView;

    open spec fn view(&self) -> RootView {
        RootView {
            sprite_count: self.sprite_count as nat,
            frame_count: self.frame_count as nat,
            sprites: self.sprites@,
        }
    }
}

impl RootView {
    /// The summary of a tree without frames.
    pub open spec fn empty() -> RootView {
        RootView { sprite_count: 0, frame_count: 0, sprites: Map::empty() }
    }
}

impl SpriteSourceRootSummary {
    /// The summary of a tree without frames.
    pub fn empty() -> (summary: SpriteSourceRootSummary)
        ensures
            summary@ == RootView::empty(),
    {
        SpriteSourceRootSummary { sprite_count: 0, frame_count: 0, sprites: StringMap::new() }
    }
}

/// The summary of the previous run as the run starts from it: what was read
/// and parsed, or the empty summary where nothing could be.
pub fn load_summary(stored: Option<SpriteSourceRootSummary>) -> (summary: SpriteSourceRootSummary)
    ensures
        summary@ == match stored {
            Some(previous) => previous@,
            None => RootView::empty(),
        },
{
    match stored {
        Some(previous) => previous,
        None => SpriteSourceRootSummary::empty(),
    }
}

} // verus!
