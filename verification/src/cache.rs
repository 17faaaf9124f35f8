//! The decision whether a frame's previous summary can be used again.

use vstd::prelude::*;
use crate::summary::ImageSummary;
use crate::summary::ImageSummaryView;
use crate::summary::SpriteSourceSummary;
use crate::summary::SpriteSourceView;

verus! {

/// The previous summary of a directory, if there is one, as a value.
pub open spec fn previous_view(dir_summary: Option<&SpriteSourceSummary>) -> Option<
    SpriteSourceView,
> {
    match dir_summary {
        Some(previous) => Some(previous@),
        None => None,
    }
}

/// The previous summary of a frame, where it can be used again: the run is
/// not forced, the directory's previous summary holds a frame under this
/// name, and that frame was recorded with the file's present modification
/// time.
pub open spec fn unchanged_frame(
    dir_summary: Option<SpriteSourceView>,
    name: Seq<char>,
    modified_at: u64,
    force: bool,
) -> Option<ImageSummaryView> {
    match dir_summary {
        Some(previous) => if !force && previous.frames.contains_key(name)
            && previous.frames[name].changed == modified_at {
            Some(previous.frames[name])
        } else {
            None
        },
        None => None,
    }
}

/// Looks up the previous summary of a frame and hands it out if it can be
/// used again. Where it hands out nothing, the frame has to be decoded and
/// scanned.
pub fn find_unchanged_frame<'a>(
    dir_summary: Option<&'a SpriteSourceSummary>,
    name: &String,
    modified_at: u64,
    force: bool,
) -> (found: Option<&'a ImageSummary>)
    ensures
        match found {
            Some(frame) => unchanged_frame(previous_view(dir_summary), name@, modified_at, force)
                == Some(frame@),
            None => unchanged_frame(previous_view(dir_summary), name@, modified_at, force)
                is None,
        },
{
    if force {
        return None;
    }
    match dir_summary {
        Some(previous) => match previous.frames.get(name) {
            Some(frame) => if frame.changed == modified_at {
                Some(frame)
            } else {
                None
            },
            None => None,
        },
        None => None,
    }
}

/// A forced run uses no previous summary, whatever it holds and whatever the
/// file's modification time is.
pub proof fn lemma_force_disables_reuse(
    dir_summary: Option<SpriteSourceView>,
    name: Seq<char>,
    modified_at: u64,
)
    ensures
        unchanged_frame(dir_summary, name, modified_at, true) is None,
{
}

} // verus!
