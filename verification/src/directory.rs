//! The summary of one directory of frames.

use vstd::prelude::*;
use vstd::string::StrSliceExecFns;
use crate::border::merge_border_boxes;
use crate::border::merged;
use crate::border::BorderBox;
use crate::cache::find_unchanged_frame;
use crate::cache::previous_view;
use crate::cache::unchanged_frame;
use crate::decode::decodable;
use crate::decode::decode_png;
use crate::options::Options;
use crate::pixels::checksum_text;
use crate::pixels::lemma_tracked_box_within_image;
use crate::pixels::summarize_contents;
use crate::pixels::PixelGrid;
use crate::pixels::Raster;
use crate::string_map::StringMap;
use crate::summary::FrameMap;
use crate::summary::ImageSummary;
use crate::summary::ImageSummaryView;
use crate::summary::SpriteSourceMap;
use crate::summary::SpriteSourceSummary;
use crate::summary::SpriteSourceView;
use crate::summary::SummaryError;

verus! {

/// One entry of a directory, as the caller found it on disk.
#[derive(Debug)]
pub struct SpriteFile {
    /// The file name, without the directory.
    pub name: String,
    /// When the file was last modified, in seconds since the epoch.
    pub modified_at: u64,
    /// The bytes of the file. They are absent where the file was not read
    /// or could not be.
    pub content: Option<Vec<u8>>,
}

/// A [`SpriteFile`] as a value.
pub struct SpriteFileView {
    pub name: Seq<char>,
    pub modified_at: u64,
    pub content: Option<Seq<u8>>,
}

impl View for SpriteFile {
    type V = SpriteFileView;

    open spec fn view(&self) -> SpriteFileView {
        SpriteFileView {
            name: self.name@,
            modified_at: self.modified_at,
            content: match self.content {
                Some(bytes) => Some(bytes@),
                None => None,
            },
        }
    }
}

/// The files of a directory as values.
pub open spec fn file_views(files: Seq<SpriteFile>) -> Seq<SpriteFileView> {
    files.map_values(|file: SpriteFile| file@)
}

/// The file name has the extension `png`, in lower case: it ends in `.png`
/// and the dot is not its first character.
pub open spec fn is_png_name(name: Seq<char>) -> bool {
    &&& name.len() > 4
    &&& name[name.len() - 4] == '.'
    &&& name[name.len() - 3] == 'p'
    &&& name[name.len() - 2] == 'n'
    &&& name[name.len() - 1] == 'g'
}

/// Tells whether the file name has the extension `png`.
pub fn has_png_extension(name: &String) -> (is_png: bool)
    ensures
        is_png == is_png_name(name@),
{
    let text = name.as_str();
    let length = text.unicode_len();
    if length <= 4 {
        return false;
    }
    text.get_char(length - 4) == '.' && text.get_char(length - 3) == 'p' && text.get_char(
        length - 2,
    ) == 'n' && text.get_char(length - 1) == 'g'
}

/// The summary of a frame that is taken over from the previous run: what
/// was recorded of the frame, under the file's name and modification time.
pub open spec fn reused_frame(previous: ImageSummaryView, name: Seq<char>, modified_at: u64)
    -> ImageSummaryView {
    ImageSummaryView {
        name,
        width: previous.width,
        height: previous.height,
        checksum: previous.checksum,
        changed: modified_at,
        border: previous.border,
    }
}

/// The summary of a frame whose decoded content was scanned in this run. Its
/// border is the bounding box of the foreground, absent where the image has
/// no foreground or the options do not ask for boxes.
pub open spec fn scanned_frame(
    name: Seq<char>,
    modified_at: u64,
    image: Raster,
    options: Options,
) -> ImageSummaryView {
    ImageSummaryView {
        name,
        width: image.width,
        height: image.height,
        checksum: checksum_text(image.pixels),
        changed: modified_at,
        border: if options.compute_border_box {
            image.foreground_box(options.background_alpha)
        } else {
            None
        },
    }
}

/// The summary of one file, if the file yields a frame, given the previous
/// summary that can be used again, if there is one, and the decoded content,
/// if there is any: the previous summary comes first, then the content, and
/// a file with neither yields nothing.
pub open spec fn frame_from(
    previous: Option<ImageSummaryView>,
    name: Seq<char>,
    modified_at: u64,
    image: Option<Raster>,
    options: Options,
) -> Option<ImageSummaryView> {
    match previous {
        Some(recorded) => Some(reused_frame(recorded, name, modified_at)),
        None => match image {
            Some(decoded) => Some(scanned_frame(name, modified_at, decoded, options)),
            None => None,
        },
    }
}

/// The image that the bytes of a file hold, if there are bytes and they can
/// be decoded.
pub open spec fn decoded_content(content: Option<Seq<u8>>) -> Option<Raster> {
    match content {
        Some(bytes) => decodable(bytes),
        None => None,
    }
}

/// The summary of one file, if the file yields a frame: the previous summary
/// where that can be used again, else the summary of what its bytes decode
/// to, and nothing where they are absent or cannot be decoded.
pub open spec fn frame_of(
    dir_summary: Option<SpriteSourceView>,
    file: SpriteFileView,
    options: Options,
) -> Option<ImageSummaryView> {
    frame_from(
        unchanged_frame(dir_summary, file.name, file.modified_at, options.force),
        file.name,
        file.modified_at,
        decoded_content(file.content),
        options,
    )
}

/// The frames that a directory's files yield, in the order of the files:
/// one for each file with the extension `png` that yields a frame.
pub open spec fn retained_frames(
    dir_summary: Option<SpriteSourceView>,
    files: Seq<SpriteFileView>,
    options: Options,
) -> Seq<ImageSummaryView>
    decreases files.len(),
{
    if files.len() == 0 {
        Seq::empty()
    } else {
        let front = retained_frames(dir_summary, files.drop_last(), options);
        if is_png_name(files.last().name) {
            match frame_of(dir_summary, files.last(), options) {
                Some(frame) => front.push(frame),
                None => front,
            }
        } else {
            front
        }
    }
}

/// One of the files has the extension `png`.
pub open spec fn has_png_file(files: Seq<SpriteFileView>) -> bool {
    exists|i: int| 0 <= i < files.len() && is_png_name((#[trigger] files[i]).name)
}

/// The number of files with the extension `png`.
pub open spec fn png_file_count(files: Seq<SpriteFileView>) -> nat
    decreases files.len(),
{
    if files.len() == 0 {
        0
    } else if is_png_name(files.last().name) {
        png_file_count(files.drop_last()) + 1
    } else {
        png_file_count(files.drop_last())
    }
}

/// The borders of those frames that have one, in the order of the frames.
pub open spec fn present_borders(frames: Seq<ImageSummaryView>) -> Seq<BorderBox>
    decreases frames.len(),
{
    if frames.len() == 0 {
        Seq::empty()
    } else {
        let front = present_borders(frames.drop_last());
        match frames.last().border {
            Some(border) => front.push(border),
            None => front,
        }
    }
}

/// The frames by name; of two frames with one name the later one stays.
pub open spec fn frames_by_name(frames: Seq<ImageSummaryView>) -> Map<
    Seq<char>,
    ImageSummaryView,
>
    decreases frames.len(),
{
    if frames.len() == 0 {
        Map::empty()
    } else {
        frames_by_name(frames.drop_last()).insert(frames.last().name, frames.last())
    }
}

/// The previous summary of the directory with the given path, if the
/// previous run recorded one.
pub open spec fn previous_directory(
    sprites: Map<Seq<char>, SpriteSourceView>,
    path: Seq<char>,
) -> Option<SpriteSourceView> {
    if sprites.contains_key(path) {
        Some(sprites[path])
    } else {
        None
    }
}

/// The summary of a directory, given its files and its previous summary.
///
/// There is none for a directory without a file with the extension `png`.
/// Otherwise it counts the frames that the files yield, holds them by name,
/// and, if the options ask for boxes, merges their borders.
pub open spec fn directory_summary(
    path: Seq<char>,
    dir_summary: Option<SpriteSourceView>,
    files: Seq<SpriteFileView>,
    options: Options,
) -> Option<SpriteSourceView> {
    if has_png_file(files) {
        let frames = retained_frames(dir_summary, files, options);
        Some(
            SpriteSourceView {
                path,
                count: frames.len(),
                border: if options.compute_border_box {
                    merged(present_borders(frames))
                } else {
                    None
                },
                frames: frames_by_name(frames),
            },
        )
    } else {
        None
    }
}

/// A directory yields at most one frame for each of its files with the
/// extension `png`.
pub proof fn lemma_retained_frames_len(
    dir_summary: Option<SpriteSourceView>,
    files: Seq<SpriteFileView>,
    options: Options,
)
    ensures
        retained_frames(dir_summary, files, options).len() <= png_file_count(files) <= files.len(),
    decreases files.len(),
{
    if files.len() > 0 {
        lemma_retained_frames_len(dir_summary, files.drop_last(), options);
    }
}

/// The previous summary of a frame, if there is one to use again, as a
/// value.
pub open spec fn recorded_view(previous: Option<&ImageSummary>) -> Option<ImageSummaryView> {
    match previous {
        Some(recorded) => Some(recorded@),
        None => None,
    }
}

/// The decoded content of a file, if there is any, as a value.
pub open spec fn image_view(image: Option<&PixelGrid>) -> Option<Raster> {
    match image {
        Some(decoded) => Some(decoded@),
        None => None,
    }
}

/// Summarizes one file from the previous summary that can be used again, if
/// there is one, or else from its decoded content; a file with neither
/// yields nothing.
pub fn summarize_file(
    previous: Option<&ImageSummary>,
    name: &String,
    modified_at: u64,
    image: Option<&PixelGrid>,
    options: &Options,
) -> (frame: Option<ImageSummary>)
    ensures
        match frame {
            Some(summary) => frame_from(
                recorded_view(previous),
                name@,
                modified_at,
                image_view(image),
                *options,
            ) == Some(summary@),
            None => frame_from(
                recorded_view(previous),
                name@,
                modified_at,
                image_view(image),
                *options,
            ) is None,
        },
{
    match previous {
        Some(recorded) => Some(
            ImageSummary {
                name: name.clone(),
                width: recorded.width,
                height: recorded.height,
                checksum: recorded.checksum.clone(),
                changed: modified_at,
                border: recorded.border,
            },
        ),
        None => match image {
            Some(img) => {
                let (width, height) = img.dimensions();
                let (checksum, scanned_box) = summarize_contents(img, options);
                proof {
                    lemma_tracked_box_within_image(img@, options.background_alpha);
                }
                let border = match scanned_box {
                    Some(border_box) => if border_box.is_within(width, height) {
                        Some(border_box)
                    } else {
                        None
                    },
                    None => None,
                };
                Some(
                    ImageSummary {
                        name: name.clone(),
                        width,
                        height,
                        checksum,
                        changed: modified_at,
                        border,
                    },
                )
            },
            None => None,
        },
    }
}

/// Summarizes one file of a directory: takes over its previous summary where
/// that can be used again, and else decodes and scans its bytes.
fn process_file(dir_summary: Option<&SpriteSourceSummary>, file: &SpriteFile, options: &Options)
    -> (frame: Option<ImageSummary>)
    ensures
        match frame {
            Some(summary) => frame_of(previous_view(dir_summary), file@, *options) == Some(
                summary@,
            ),
            None => frame_of(previous_view(dir_summary), file@, *options) is None,
        },
{
    let previous = find_unchanged_frame(dir_summary, &file.name, file.modified_at, options.force);
    match previous {
        Some(_) => summarize_file(previous, &file.name, file.modified_at, None, options),
        None => {
            let decoded = match &file.content {
                Some(bytes) => decode_png(bytes),
                None => None,
            };
            match &decoded {
                Some(img) => summarize_file(
                    None,
                    &file.name,
                    file.modified_at,
                    Some(img),
                    options,
                ),
                None => None,
            }
        },
    }
}

/// Summarizes the directory `dirname` from its files and from what the
/// previous run recorded of it.
///
/// Only files with the extension `png` count; a directory without one has no
/// summary. Each such file yields a frame, from the previous summary or from
/// its bytes, unless it has no summary to use again and no bytes that can be
/// decoded. A summary counts at most 65535 frames: where the files yield
/// more, there is an error in its place.
pub fn process_sprite_dir(
    dirname: String,
    files: &Vec<SpriteFile>,
    sprite_source_summary: &SpriteSourceMap,
    options: &Options,
) -> (result: Result<Option<SpriteSourceSummary>, SummaryError>)
    ensures
        match result {
            Ok(summary) => {
                &&& retained_frames(
                    previous_directory(sprite_source_summary@, dirname@),
                    file_views(files@),
                    *options,
                ).len() <= u16::MAX
                &&& match summary {
                    Some(directory) => directory_summary(
                        dirname@,
                        previous_directory(sprite_source_summary@, dirname@),
                        file_views(files@),
                        *options,
                    ) == Some(directory@) && directory@.keyed_by_name(),
                    None => directory_summary(
                        dirname@,
                        previous_directory(sprite_source_summary@, dirname@),
                        file_views(files@),
                        *options,
                    ) is None,
                }
            },
            Err(error) => {
                &&& error == SummaryError::TooManyFrames
                &&& retained_frames(
                    previous_directory(sprite_source_summary@, dirname@),
                    file_views(files@),
                    *options,
                ).len() > u16::MAX
            },
        },
{
    let dir_summary = sprite_source_summary.get(&dirname);
    let ghost previous = previous_directory(sprite_source_summary@, dirname@);
    let ghost views = file_views(files@);
    assert(previous_view(dir_summary) == previous);
    let mut any_png = false;
    let mut count: usize = 0;
    let mut borders: Vec<BorderBox> = Vec::new();
    let mut frames: FrameMap = StringMap::new();
    let ghost mut retained: Seq<ImageSummaryView> = Seq::empty();
    let mut i: usize = 0;
    assert(views.take(0) == Seq::<SpriteFileView>::empty());
    while i < files.len()
        invariant
            i <= files.len(),
            views == file_views(files@),
            previous_view(dir_summary) == previous,
            any_png == has_png_file(views.take(i as int)),
            retained == retained_frames(previous, views.take(i as int), *options),
            count == retained.len(),
            count <= i,
            borders@ == present_borders(retained),
            frames@ == frames_by_name(retained),
        decreases files.len() - i,
    {
        let file = &files[i];
        proof {
            let before = views.take(i as int);
            let now = views.take(i + 1);
            assert(now.drop_last() == before);
            assert(now.last() == file@);
            assert(has_png_file(now) == (has_png_file(before) || is_png_name(file@.name))) by {
                if has_png_file(before) {
                    let k = choose|k: int|
                        0 <= k < before.len() && is_png_name((#[trigger] before[k]).name);
                    assert(now[k] == before[k]);
                }
                if is_png_name(file@.name) {
                    assert(is_png_name(now[i as int].name));
                }
                if has_png_file(now) {
                    let k = choose|k: int|
                        0 <= k < now.len() && is_png_name((#[trigger] now[k]).name);
                    if k < i {
                        assert(before[k] == now[k]);
                    }
                }
            }
        }
        if has_png_extension(&file.name) {
            any_png = true;
            match process_file(dir_summary, file, options) {
                Some(frame) => {
                    proof {
                        let grown = retained.push(frame@);
                        assert(grown.drop_last() == retained);
                        retained = grown;
                    }
                    count += 1;
                    match frame.border {
                        Some(border) => {
                            borders.push(border);
                        },
                        None => {},
                    }
                    frames.insert(frame.name.clone(), frame);
                },
                None => {},
            }
        }
        i += 1;
    }
    assert(views.take(i as int) == views);
    if count > 65535 {
        return Err(SummaryError::TooManyFrames);
    }
    if !any_png {
        return Ok(None);
    }
    proof {
        assert forall|name: Seq<char>| #[trigger]
            frames@.contains_key(name) implies frames@[name].name == name by {
            lemma_frames_keyed_by_name(previous, views, *options, name);
        }
    }
    let border = if options.compute_border_box {
        merge_border_boxes(borders)
    } else {
        None
    };
    Ok(Some(SpriteSourceSummary { path: dirname, count: count as u16, border, frames }))
}


/// The frame that a file yields bears the file's name and modification time.
pub proof fn lemma_frame_bears_file_name(
    dir_summary: Option<SpriteSourceView>,
    file: SpriteFileView,
    options: Options,
)
    ensures
        frame_of(dir_summary, file, options) matches Some(frame) ==> frame.name == file.name
            && frame.changed == file.modified_at,
{
}

/// A frame whose file has not changed is taken over as it was recorded.
///
/// Where the run is not forced and the previous summary of the directory
/// holds, under the file's name, a frame of that name with the file's
/// present modification time, the file yields exactly that frame, whether or
/// not its bytes came with it.
pub proof fn lemma_unchanged_frame_is_kept(
    previous: SpriteSourceView,
    file: SpriteFileView,
    options: Options,
)
    requires
        !options.force,
        previous.keyed_by_name(),
        previous.frames.contains_key(file.name),
        previous.frames[file.name].changed == file.modified_at,
    ensures
        frame_of(Some(previous), file, options) == Some(previous.frames[file.name]),
{
}

/// In a forced run a file yields a frame only from what its bytes decode
/// to, whatever the previous summary holds.
pub proof fn lemma_forced_frame_is_scanned(
    dir_summary: Option<SpriteSourceView>,
    file: SpriteFileView,
    options: Options,
)
    requires
        options.force,
    ensures
        frame_of(dir_summary, file, options) == match decoded_content(file.content) {
            Some(image) => Some(scanned_frame(file.name, file.modified_at, image, options)),
            None => None,
        },
{
}

/// The frames by name after one more file: the file's frame, if it yields
/// one, goes under the file's name.
proof fn lemma_frames_by_name_step(
    dir_summary: Option<SpriteSourceView>,
    files: Seq<SpriteFileView>,
    options: Options,
)
    requires
        files.len() > 0,
    ensures
        frames_by_name(retained_frames(dir_summary, files, options)) == if is_png_name(
            files.last().name,
        ) && frame_of(dir_summary, files.last(), options) is Some {
            frames_by_name(retained_frames(dir_summary, files.drop_last(), options)).insert(
                files.last().name,
                frame_of(dir_summary, files.last(), options)->0,
            )
        } else {
            frames_by_name(retained_frames(dir_summary, files.drop_last(), options))
        },
{
    let front = retained_frames(dir_summary, files.drop_last(), options);
    if is_png_name(files.last().name) {
        match frame_of(dir_summary, files.last(), options) {
            Some(frame) => {
                assert(front.push(frame).drop_last() == front);
            },
            None => {},
        }
    }
}

/// A file of which the previous summary holds nothing, or holds a frame with
/// another modification time, yields a frame only from what its bytes decode
/// to.
pub proof fn lemma_changed_frame_is_scanned(
    dir_summary: Option<SpriteSourceView>,
    file: SpriteFileView,
    options: Options,
)
    requires
        dir_summary matches Some(previous) ==> !previous.frames.contains_key(file.name)
            || previous.frames[file.name].changed != file.modified_at,
    ensures
        frame_of(dir_summary, file, options) == match decoded_content(file.content) {
            Some(image) => Some(scanned_frame(file.name, file.modified_at, image, options)),
            None => None,
        },
{
}

/// The summary of a directory holds, under the name of each file that yields
/// a frame, that frame, provided that no later file has the same name.
pub proof fn lemma_directory_holds_frame(
    path: Seq<char>,
    dir_summary: Option<SpriteSourceView>,
    files: Seq<SpriteFileView>,
    options: Options,
    i: int,
)
    requires
        0 <= i < files.len(),
        is_png_name(files[i].name),
        frame_of(dir_summary, files[i], options) is Some,
        forall|j: int| i < j < files.len() ==> (#[trigger] files[j]).name != files[i].name,
    ensures
        directory_summary(path, dir_summary, files, options) matches Some(directory)
            && directory.frames.contains_key(files[i].name) && directory.frames[files[i].name]
            == frame_of(dir_summary, files[i], options)->0,
    decreases files.len(),
{
    let name = files[i].name;
    let front = files.drop_last();
    assert(has_png_file(files));
    lemma_frames_by_name_step(dir_summary, files, options);
    if i < files.len() - 1 {
        assert(front[i] == files[i]);
        assert forall|j: int| i < j < front.len() implies (#[trigger] front[j]).name
            != front[i].name by {
            assert(front[j] == files[j]);
        }
        lemma_directory_holds_frame(path, dir_summary, front, options, i);
        assert(files[files.len() - 1].name != name);
        lemma_frame_bears_file_name(dir_summary, files.last(), options);
    } else {
        lemma_frame_bears_file_name(dir_summary, files.last(), options);
    }
}

/// An unchanged frame stays in the directory's summary as the previous run
/// recorded it.
///
/// Where the run is not forced, a file with the extension `png` whose name no
/// later file bears, and whose modification time is the one under which the
/// previous summary holds a frame of its name, stands in the new summary of
/// the directory with exactly the frame of the previous summary.
pub proof fn lemma_unchanged_frame_stays(
    path: Seq<char>,
    previous: SpriteSourceView,
    files: Seq<SpriteFileView>,
    options: Options,
    i: int,
)
    requires
        !options.force,
        previous.keyed_by_name(),
        0 <= i < files.len(),
        is_png_name(files[i].name),
        forall|j: int| i < j < files.len() ==> (#[trigger] files[j]).name != files[i].name,
        previous.frames.contains_key(files[i].name),
        previous.frames[files[i].name].changed == files[i].modified_at,
    ensures
        directory_summary(path, Some(previous), files, options) matches Some(directory)
            && directory.frames.contains_key(files[i].name) && directory.frames[files[i].name]
            == previous.frames[files[i].name],
{
    lemma_unchanged_frame_is_kept(previous, files[i], options);
    lemma_directory_holds_frame(path, Some(previous), files, options, i);
}

/// Every frame of a directory's summary stands under its own name, and is
/// the frame of a file with the extension `png`.
pub proof fn lemma_frames_keyed_by_name(
    dir_summary: Option<SpriteSourceView>,
    files: Seq<SpriteFileView>,
    options: Options,
    name: Seq<char>,
)
    requires
        frames_by_name(retained_frames(dir_summary, files, options)).contains_key(name),
    ensures
        frames_by_name(retained_frames(dir_summary, files, options))[name].name == name,
        exists|i: int|
            0 <= i < files.len() && is_png_name((#[trigger] files[i]).name) && files[i].name
                == name && frame_of(dir_summary, files[i], options) == Some(
                frames_by_name(retained_frames(dir_summary, files, options))[name],
            ),
    decreases files.len(),
{
    if files.len() > 0 {
        let front = files.drop_last();
        let last = files.len() - 1;
        lemma_frame_bears_file_name(dir_summary, files.last(), options);
        lemma_frames_by_name_step(dir_summary, files, options);
        if is_png_name(files.last().name) && frame_of(dir_summary, files.last(), options) is Some
            && files.last().name == name {
            assert(files[last].name == name);
        } else {
            lemma_frames_keyed_by_name(dir_summary, front, options, name);
            let i = choose|i: int|
                0 <= i < front.len() && is_png_name((#[trigger] front[i]).name) && front[i].name
                    == name && frame_of(dir_summary, front[i], options) == Some(
                    frames_by_name(retained_frames(dir_summary, front, options))[name],
                );
            assert(files[i] == front[i]);
        }
    }
}

/// No name occurs twice among the files.
pub open spec fn distinct_names(files: Seq<SpriteFileView>) -> bool {
    forall|i: int, j: int|
        0 <= i < files.len() && 0 <= j < files.len() && i != j ==> (#[trigger] files[i]).name != (
        #[trigger] files[j]).name
}

/// The files have the names and modification times of `files`, in the same
/// order, and none of them comes with its bytes.
pub open spec fn same_files_unread(again: Seq<SpriteFileView>, files: Seq<SpriteFileView>) -> bool {
    &&& again.len() == files.len()
    &&& forall|i: int|
        0 <= i < files.len() ==> (#[trigger] again[i]).name == files[i].name && again[i].modified_at
            == files[i].modified_at && again[i].content is None
}

/// A second run over a directory whose files have not changed gives the
/// summary of the first run, and needs the bytes of no file for it.
///
/// The second run is not forced, starts from the summary of the first run,
/// and finds files with the same names and modification times; no two files
/// have the same name.
pub proof fn lemma_unchanged_directory_is_kept(
    path: Seq<char>,
    dir_summary: Option<SpriteSourceView>,
    files: Seq<SpriteFileView>,
    again: Seq<SpriteFileView>,
    options: Options,
)
    requires
        !options.force,
        distinct_names(files),
        same_files_unread(again, files),
    ensures
        directory_summary(
            path,
            directory_summary(path, dir_summary, files, options),
            again,
            options,
        ) == directory_summary(path, dir_summary, files, options),
{
    let first = directory_summary(path, dir_summary, files, options);
    assert(has_png_file(again) == has_png_file(files)) by {
        if has_png_file(again) {
            let i = choose|i: int| 0 <= i < again.len() && is_png_name((#[trigger] again[i]).name);
            assert(is_png_name(files[i].name));
        }
        if has_png_file(files) {
            let i = choose|i: int| 0 <= i < files.len() && is_png_name((#[trigger] files[i]).name);
            assert(is_png_name(again[i].name));
        }
    }
    if has_png_file(files) {
        lemma_unchanged_files_yield_the_same(
            path,
            dir_summary,
            files,
            again,
            options,
            files.len() as int,
        );
        assert(files.take(files.len() as int) == files);
        assert(again.take(again.len() as int) == again);
    }
}

/// The first `n` files of an unchanged directory yield in the second run the
/// frames that they yielded in the first.
proof fn lemma_unchanged_files_yield_the_same(
    path: Seq<char>,
    dir_summary: Option<SpriteSourceView>,
    files: Seq<SpriteFileView>,
    again: Seq<SpriteFileView>,
    options: Options,
    n: int,
)
    requires
        !options.force,
        distinct_names(files),
        same_files_unread(again, files),
        has_png_file(files),
        0 <= n <= files.len(),
    ensures
        retained_frames(
            directory_summary(path, dir_summary, files, options),
            again.take(n),
            options,
        ) == retained_frames(dir_summary, files.take(n), options),
    decreases n,
{
    let first = directory_summary(path, dir_summary, files, options);
    if n > 0 {
        lemma_unchanged_files_yield_the_same(path, dir_summary, files, again, options, n - 1);
        let i = n - 1;
        assert(files.take(n).drop_last() == files.take(i));
        assert(again.take(n).drop_last() == again.take(i));
        assert(files.take(n).last() == files[i]);
        assert(again.take(n).last() == again[i]);
        if is_png_name(files[i].name) {
            let name = files[i].name;
            match frame_of(dir_summary, files[i], options) {
                Some(frame) => {
                    lemma_frame_bears_file_name(dir_summary, files[i], options);
                    lemma_directory_holds_frame(path, dir_summary, files, options, i);
                    assert(frame_of(first, again[i], options) == Some(frame));
                },
                None => {
                    if first->0.frames.contains_key(name) {
                        lemma_frames_keyed_by_name(dir_summary, files, options, name);
                        let j = choose|j: int|
                            0 <= j < files.len() && is_png_name((#[trigger] files[j]).name)
                                && files[j].name == name && frame_of(
                                dir_summary,
                                files[j],
                                options,
                            ) == Some(
                                frames_by_name(retained_frames(dir_summary, files, options))[name],
                            );
                        assert(j == i);
                    }
                    assert(frame_of(first, again[i], options) is None);
                },
            }
        }
    }
}

/// Where no two files have the same name, the count of a directory's
/// summary is the number of frames that the summary holds.
pub proof fn lemma_count_is_number_of_frames(
    path: Seq<char>,
    dir_summary: Option<SpriteSourceView>,
    files: Seq<SpriteFileView>,
    options: Options,
)
    requires
        distinct_names(files),
    ensures
        directory_summary(path, dir_summary, files, options) matches Some(directory)
            ==> directory.frames.dom().finite() && directory.count
            == directory.frames.dom().len(),
{
    lemma_distinct_files_yield_distinct_frames(dir_summary, files, options);
}

/// Files with distinct names yield as many frames by name as they yield
/// frames.
proof fn lemma_distinct_files_yield_distinct_frames(
    dir_summary: Option<SpriteSourceView>,
    files: Seq<SpriteFileView>,
    options: Options,
)
    requires
        distinct_names(files),
    ensures
        frames_by_name(retained_frames(dir_summary, files, options)).dom().finite(),
        frames_by_name(retained_frames(dir_summary, files, options)).dom().len()
            == retained_frames(dir_summary, files, options).len(),
    decreases files.len(),
{
    if files.len() > 0 {
        let front = files.drop_last();
        let last = files.len() - 1;
        assert(distinct_names(front)) by {
            assert forall|i: int, j: int|
                0 <= i < front.len() && 0 <= j < front.len() && i != j implies (
            #[trigger] front[i]).name != (#[trigger] front[j]).name by {
                assert(front[i] == files[i] && front[j] == files[j]);
            }
        }
        lemma_distinct_files_yield_distinct_frames(dir_summary, front, options);
        lemma_frames_by_name_step(dir_summary, files, options);
        let name = files.last().name;
        let before = frames_by_name(retained_frames(dir_summary, front, options));
        if before.contains_key(name) {
            lemma_frames_keyed_by_name(dir_summary, front, options, name);
            let i = choose|i: int|
                0 <= i < front.len() && is_png_name((#[trigger] front[i]).name) && front[i].name
                    == name && frame_of(dir_summary, front[i], options) == Some(before[name]);
            assert(files[i] == front[i]);
            assert(files[last].name == name);
        }
        if is_png_name(name) && frame_of(dir_summary, files.last(), options) is Some {
            let frame = frame_of(dir_summary, files.last(), options)->0;
            assert(retained_frames(dir_summary, files, options) == retained_frames(
                dir_summary,
                front,
                options,
            ).push(frame));
        }
    }
}

/// A directory without a file with the extension `png` has no summary.
pub proof fn lemma_no_png_no_summary(
    path: Seq<char>,
    dir_summary: Option<SpriteSourceView>,
    files: Seq<SpriteFileView>,
    options: Options,
)
    ensures
        directory_summary(path, dir_summary, files, options) is None <==> !has_png_file(files),
{
}

} // verus!
