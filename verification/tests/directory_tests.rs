use sprite_info::border::BorderBox;
use sprite_info::cache::find_unchanged_frame;
use sprite_info::directory::has_png_extension;
use sprite_info::directory::process_sprite_dir;
use sprite_info::directory::summarize_file;
use sprite_info::directory::SpriteFile;
use sprite_info::options::Options;
use sprite_info::pixels::PixelGrid;
use sprite_info::pixels::Rgba;
use sprite_info::string_map::StringMap;
use sprite_info::summary::ImageSummary;
use sprite_info::summary::SpriteSourceMap;
use sprite_info::summary::SpriteSourceSummary;
use sprite_info::summary::SummaryError;

fn options(compute_border_box: bool, force: bool) -> Options {
    Options {
        root_folder: String::from("sprites"),
        summary_filename: String::from(".sprite-info.yaml"),
        background_alpha: 1,
        compute_border_box,
        force,
    }
}

fn encode(image: image::RgbaImage) -> Vec<u8> {
    let mut bytes = std::io::Cursor::new(Vec::new());
    image::DynamicImage::ImageRgba8(image)
        .write_to(&mut bytes, image::ImageOutputFormat::Png)
        .expect("a PNG file in memory");
    bytes.into_inner()
}

fn solid(width: u32, height: u32, pixel: Rgba) -> Vec<u8> {
    let sample = image::Rgba([pixel.red, pixel.green, pixel.blue, pixel.alpha]);
    encode(image::RgbaImage::from_pixel(width, height, sample))
}

fn picture(width: u32, height: u32, pixels: Vec<Rgba>) -> Vec<u8> {
    let mut image = image::RgbaImage::new(width, height);
    for (i, pixel) in pixels.iter().enumerate() {
        let x = i as u32 % width;
        let y = i as u32 / width;
        image.put_pixel(x, y, image::Rgba([pixel.red, pixel.green, pixel.blue, pixel.alpha]));
    }
    encode(image)
}

fn red() -> Rgba {
    Rgba { red: 255, green: 0, blue: 0, alpha: 255 }
}

fn clear() -> Rgba {
    Rgba { red: 0, green: 0, blue: 0, alpha: 0 }
}

fn file(name: &str, modified_at: u64, content: Option<Vec<u8>>) -> SpriteFile {
    SpriteFile { name: String::from(name), modified_at, content }
}

fn summarize(
    dirname: &str,
    files: &Vec<SpriteFile>,
    sprites: &SpriteSourceMap,
    options: &Options,
) -> Option<SpriteSourceSummary> {
    process_sprite_dir(String::from(dirname), files, sprites, options)
        .expect("no more frames than a summary counts")
}

fn recorded(name: &str, changed: u64, checksum: &str, border: Option<BorderBox>) -> ImageSummary {
    ImageSummary {
        name: String::from(name),
        width: 7,
        height: 9,
        checksum: String::from(checksum),
        changed,
        border,
    }
}

fn previous(path: &str, frames: Vec<ImageSummary>) -> SpriteSourceMap {
    let mut map = StringMap::new();
    let count = frames.len() as u16;
    for frame in frames {
        map.insert(frame.name.clone(), frame);
    }
    let mut sprites: SpriteSourceMap = StringMap::new();
    sprites.insert(
        String::from(path),
        SpriteSourceSummary { path: String::from(path), count, border: None, frames: map },
    );
    sprites
}

#[test]
fn png_extension_is_lower_case_and_needs_a_stem() {
    assert!(has_png_extension(&String::from("frame1.png")));
    assert!(has_png_extension(&String::from("a.png")));
    assert!(has_png_extension(&String::from("a.b.png")));
    assert!(has_png_extension(&String::from("..png")));
    assert!(has_png_extension(&String::from("é.png")));
    assert!(!has_png_extension(&String::from(".png")));
    assert!(!has_png_extension(&String::from("png")));
    assert!(!has_png_extension(&String::from("")));
    assert!(!has_png_extension(&String::from("frame1.PNG")));
    assert!(!has_png_extension(&String::from("frame1.Png")));
    assert!(!has_png_extension(&String::from("frame1.png.bak")));
    assert!(!has_png_extension(&String::from("frame1.jpg")));
    assert!(!has_png_extension(&String::from("frame1png")));
    assert!(!has_png_extension(&String::from("frame1.png ")));
}

#[test]
fn png_extension_agrees_with_the_standard_path_rule() {
    let names = [
        "frame1.png", "a.png", ".png", "..png", "png", "", "x.PNG", "x.png.bak", "x.pn", "x..png",
        "dir.png.png", " .png",
    ];
    for name in names {
        let expected = std::path::Path::new(name).extension().and_then(|e| e.to_str())
            == Some("png");
        assert_eq!(has_png_extension(&String::from(name)), expected);
    }
}

#[test]
fn directory_without_png_files_has_no_summary() {
    let files = vec![
        file("readme.txt", 1, None),
        file("frame.jpg", 2, Some(solid(1, 1, red()))),
        file("png", 3, None),
    ];
    let sprites: SpriteSourceMap = StringMap::new();
    assert!(summarize("dirB", &files, &sprites, &options(true, false)).is_none());
    let nothing: Vec<SpriteFile> = Vec::new();
    assert!(summarize("dirB", &nothing, &sprites, &options(true, false)).is_none());
}

#[test]
fn new_frame_is_scanned() {
    let files = vec![file("frame1.png", 1234, Some(solid(4, 4, red())))];
    let sprites: SpriteSourceMap = StringMap::new();
    let summary = summarize("dirA", &files, &sprites, &options(true, false)).unwrap();
    assert_eq!(summary.path, "dirA");
    assert_eq!(summary.count, 1);
    assert_eq!(summary.border, Some(BorderBox { left: 0, right: 3, top: 0, bottom: 3 }));
    assert_eq!(summary.frames.len(), 1);
    let frame = summary.frames.get(&String::from("frame1.png")).unwrap();
    assert_eq!(frame.name, "frame1.png");
    assert_eq!(frame.width, 4);
    assert_eq!(frame.height, 4);
    assert_eq!(frame.checksum, "ff0000ff0");
    assert_eq!(frame.changed, 1234);
    assert_eq!(frame.border, Some(BorderBox { left: 0, right: 3, top: 0, bottom: 3 }));
}

#[test]
fn file_that_could_not_be_decoded_is_left_out() {
    let files = vec![
        file("good.png", 1, Some(solid(2, 2, red()))),
        file("broken.png", 2, None),
    ];
    let sprites: SpriteSourceMap = StringMap::new();
    let summary = summarize("d", &files, &sprites, &options(true, false)).unwrap();
    assert_eq!(summary.count, 1);
    assert_eq!(summary.frames.len(), 1);
    assert!(summary.frames.get(&String::from("broken.png")).is_none());
    assert!(summary.frames.get(&String::from("good.png")).is_some());
}

#[test]
fn directory_whose_png_files_all_fail_has_an_empty_summary() {
    let files = vec![file("broken.png", 2, None)];
    let sprites: SpriteSourceMap = StringMap::new();
    let summary = summarize("d", &files, &sprites, &options(true, false)).unwrap();
    assert_eq!(summary.count, 0);
    assert_eq!(summary.border, None);
    assert_eq!(summary.frames.len(), 0);
}

#[test]
fn unchanged_frame_is_taken_over_as_recorded() {
    let border = Some(BorderBox { left: 1, right: 2, top: 3, bottom: 4 });
    let sprites = previous("d", vec![recorded("a.png", 50, "cafe", border)]);
    let files = vec![file("a.png", 50, None)];
    let summary = summarize("d", &files, &sprites, &options(true, false)).unwrap();
    let frame = summary.frames.get(&String::from("a.png")).unwrap();
    assert_eq!(frame.name, "a.png");
    assert_eq!(frame.width, 7);
    assert_eq!(frame.height, 9);
    assert_eq!(frame.checksum, "cafe");
    assert_eq!(frame.changed, 50);
    assert_eq!(frame.border, border);
    assert_eq!(summary.count, 1);
    assert_eq!(summary.border, border);
}

#[test]
fn unchanged_frame_is_taken_over_even_if_content_came_with_it() {
    let sprites = previous("d", vec![recorded("a.png", 50, "cafe", None)]);
    let files = vec![file("a.png", 50, Some(solid(4, 4, red())))];
    let summary = summarize("d", &files, &sprites, &options(true, false)).unwrap();
    let frame = summary.frames.get(&String::from("a.png")).unwrap();
    assert_eq!(frame.checksum, "cafe");
    assert_eq!(frame.width, 7);
    assert_eq!(frame.border, None);
}

#[test]
fn changed_frame_is_scanned_again() {
    let sprites = previous("d", vec![recorded("a.png", 50, "cafe", None)]);
    let files = vec![file("a.png", 51, Some(solid(4, 4, red())))];
    let summary = summarize("d", &files, &sprites, &options(true, false)).unwrap();
    let frame = summary.frames.get(&String::from("a.png")).unwrap();
    assert_eq!(frame.checksum, "ff0000ff0");
    assert_eq!(frame.width, 4);
    assert_eq!(frame.height, 4);
    assert_eq!(frame.changed, 51);
}

#[test]
fn changed_frame_without_content_is_left_out() {
    let sprites = previous("d", vec![recorded("a.png", 50, "cafe", None)]);
    let files = vec![file("a.png", 49, None)];
    let summary = summarize("d", &files, &sprites, &options(true, false)).unwrap();
    assert_eq!(summary.count, 0);
    assert!(summary.frames.get(&String::from("a.png")).is_none());
}

#[test]
fn forced_run_scans_every_frame() {
    let sprites = previous("d", vec![recorded("a.png", 50, "cafe", None)]);
    let files = vec![file("a.png", 50, Some(solid(4, 4, red())))];
    let summary = summarize("d", &files, &sprites, &options(true, true)).unwrap();
    let frame = summary.frames.get(&String::from("a.png")).unwrap();
    assert_eq!(frame.checksum, "ff0000ff0");
    assert_eq!(frame.changed, 50);
}

#[test]
fn forced_run_leaves_out_what_has_no_content() {
    let sprites = previous("d", vec![recorded("a.png", 50, "cafe", None)]);
    let files = vec![file("a.png", 50, None)];
    let summary = summarize("d", &files, &sprites, &options(true, true)).unwrap();
    assert_eq!(summary.count, 0);
}

#[test]
fn previous_summary_of_another_directory_is_not_used() {
    let sprites = previous("other", vec![recorded("a.png", 50, "cafe", None)]);
    let files = vec![file("a.png", 50, Some(solid(1, 1, red())))];
    let summary = summarize("d", &files, &sprites, &options(true, false)).unwrap();
    let frame = summary.frames.get(&String::from("a.png")).unwrap();
    assert_eq!(frame.checksum, "ff0000ff");
}

#[test]
fn find_unchanged_frame_follows_the_three_conditions() {
    let sprites = previous("d", vec![recorded("a.png", 50, "cafe", None)]);
    let dir = sprites.get(&String::from("d"));
    let name = String::from("a.png");
    assert!(find_unchanged_frame(dir, &name, 50, false).is_some());
    assert_eq!(find_unchanged_frame(dir, &name, 50, false).unwrap().checksum, "cafe");
    assert!(find_unchanged_frame(dir, &name, 50, true).is_none());
    assert!(find_unchanged_frame(dir, &name, 51, false).is_none());
    assert!(find_unchanged_frame(dir, &name, 49, false).is_none());
    assert!(find_unchanged_frame(dir, &String::from("b.png"), 50, false).is_none());
    assert!(find_unchanged_frame(None, &name, 50, false).is_none());
    assert!(find_unchanged_frame(None, &name, 50, true).is_none());
}

#[test]
fn summarize_file_yields_nothing_without_summary_and_content() {
    assert!(summarize_file(None, &String::from("a.png"), 1, None, &options(true, false)).is_none());
}

#[test]
fn summarize_file_prefers_the_previous_summary() {
    let border = Some(BorderBox { left: 1, right: 2, top: 3, bottom: 4 });
    let previous = recorded("old-name.png", 50, "cafe", border);
    let image = PixelGrid::new(1, 1, vec![red()]).unwrap();
    let frame = summarize_file(
        Some(&previous),
        &String::from("a.png"),
        60,
        Some(&image),
        &options(true, false),
    )
    .unwrap();
    assert_eq!(frame.name, "a.png");
    assert_eq!(frame.width, 7);
    assert_eq!(frame.height, 9);
    assert_eq!(frame.checksum, "cafe");
    assert_eq!(frame.changed, 60);
    assert_eq!(frame.border, border);
}

#[test]
fn summarize_file_scans_the_content_without_a_previous_summary() {
    let c = clear();
    let s = red();
    let image = PixelGrid::new(3, 2, vec![c, c, c, c, s, s]).unwrap();
    let frame =
        summarize_file(None, &String::from("a.png"), 60, Some(&image), &options(true, false))
            .unwrap();
    assert_eq!(frame.name, "a.png");
    assert_eq!(frame.width, 3);
    assert_eq!(frame.height, 2);
    assert_eq!(frame.checksum, "1fe0001fe");
    assert_eq!(frame.changed, 60);
    assert_eq!(frame.border, Some(BorderBox { left: 1, right: 2, top: 1, bottom: 1 }));
}

#[test]
fn file_whose_bytes_are_no_png_file_is_left_out() {
    let files = vec![
        file("good.png", 1, Some(solid(2, 2, red()))),
        file("text.png", 2, Some(b"not an image".to_vec())),
        file("empty.png", 3, Some(Vec::new())),
    ];
    let sprites: SpriteSourceMap = StringMap::new();
    let summary = summarize("d", &files, &sprites, &options(true, false)).unwrap();
    assert_eq!(summary.count, 1);
    assert_eq!(summary.frames.len(), 1);
    assert!(summary.frames.get(&String::from("good.png")).is_some());
}

#[test]
fn frame_without_foreground_has_no_border() {
    let files = vec![file("empty.png", 1, Some(solid(3, 3, clear())))];
    let sprites: SpriteSourceMap = StringMap::new();
    let summary = summarize("d", &files, &sprites, &options(true, false)).unwrap();
    let frame = summary.frames.get(&String::from("empty.png")).unwrap();
    assert_eq!(frame.border, None);
    assert_eq!(frame.checksum, "0");
    assert_eq!(summary.count, 1);
    assert_eq!(summary.border, None);
}

#[test]
fn frame_without_pixels_has_no_border() {
    let image = PixelGrid::new(0, 0, Vec::new()).unwrap();
    let frame =
        summarize_file(None, &String::from("none.png"), 1, Some(&image), &options(true, false))
            .unwrap();
    assert_eq!(frame.border, None);
    assert_eq!(frame.width, 0);
    assert_eq!(frame.height, 0);
    assert_eq!(frame.checksum, "0");
}

#[test]
fn directory_border_is_the_merge_of_the_frames_borders() {
    let c = clear();
    let s = red();
    let first = picture(3, 3, vec![c, c, c, c, s, c, c, c, c]);
    let second = picture(4, 2, vec![c, c, c, s, c, c, c, c]);
    let third = solid(2, 2, clear());
    let files = vec![
        file("1.png", 1, Some(first)),
        file("2.png", 1, Some(second)),
        file("3.png", 1, Some(third)),
    ];
    let sprites: SpriteSourceMap = StringMap::new();
    let summary = summarize("d", &files, &sprites, &options(true, false)).unwrap();
    assert_eq!(summary.count, 3);
    assert_eq!(
        summary.frames.get(&String::from("1.png")).unwrap().border,
        Some(BorderBox { left: 1, right: 1, top: 1, bottom: 1 })
    );
    assert_eq!(
        summary.frames.get(&String::from("2.png")).unwrap().border,
        Some(BorderBox { left: 3, right: 3, top: 0, bottom: 0 })
    );
    assert_eq!(summary.frames.get(&String::from("3.png")).unwrap().border, None);
    assert_eq!(summary.border, Some(BorderBox { left: 1, right: 3, top: 0, bottom: 1 }));
}

#[test]
fn borders_are_absent_when_they_are_not_asked_for() {
    let files = vec![file("a.png", 1, Some(solid(2, 2, red())))];
    let sprites: SpriteSourceMap = StringMap::new();
    let summary = summarize("d", &files, &sprites, &options(false, false)).unwrap();
    assert_eq!(summary.border, None);
    assert_eq!(summary.frames.get(&String::from("a.png")).unwrap().border, None);
}

#[test]
fn reused_frame_keeps_its_border_when_borders_are_not_asked_for() {
    let border = Some(BorderBox { left: 1, right: 2, top: 3, bottom: 4 });
    let sprites = previous("d", vec![recorded("a.png", 50, "cafe", border)]);
    let files = vec![file("a.png", 50, None)];
    let summary = summarize("d", &files, &sprites, &options(false, false)).unwrap();
    assert_eq!(summary.frames.get(&String::from("a.png")).unwrap().border, border);
    assert_eq!(summary.border, None);
}

#[test]
fn of_two_files_with_one_name_the_later_stays_and_both_count() {
    let files = vec![
        file("a.png", 1, Some(solid(1, 1, red()))),
        file("a.png", 2, Some(solid(2, 2, red()))),
    ];
    let sprites: SpriteSourceMap = StringMap::new();
    let summary = summarize("d", &files, &sprites, &options(true, false)).unwrap();
    assert_eq!(summary.count, 2);
    assert_eq!(summary.frames.len(), 1);
    let frame = summary.frames.get(&String::from("a.png")).unwrap();
    assert_eq!(frame.changed, 2);
    assert_eq!(frame.width, 2);
}

#[test]
fn files_without_png_extension_are_ignored() {
    let files = vec![
        file("notes.txt", 1, Some(solid(1, 1, red()))),
        file("a.png", 2, Some(solid(1, 1, red()))),
        file("b.PNG", 3, Some(solid(1, 1, red()))),
        file("sub", 4, None),
    ];
    let sprites: SpriteSourceMap = StringMap::new();
    let summary = summarize("d", &files, &sprites, &options(true, false)).unwrap();
    assert_eq!(summary.count, 1);
    assert_eq!(summary.frames.len(), 1);
    assert_eq!(summary.frames.entry(0).unwrap().0, "a.png");
}

#[test]
fn directory_may_yield_as_many_frames_as_its_summary_counts() {
    let sprites = previous("d", vec![recorded("a.png", 50, "cafe", None)]);
    let mut files = Vec::new();
    let mut i: u32 = 0;
    while i < 65535 {
        files.push(file("a.png", 50, None));
        i += 1;
    }
    let summary = summarize("d", &files, &sprites, &options(true, false)).unwrap();
    assert_eq!(summary.count, 65535);
    assert_eq!(summary.frames.len(), 1);
}

#[test]
fn directory_that_yields_more_frames_than_its_summary_counts_is_an_error() {
    let sprites = previous("d", vec![recorded("a.png", 50, "cafe", None)]);
    let mut files = Vec::new();
    let mut i: u32 = 0;
    while i < 65536 {
        files.push(file("a.png", 50, None));
        i += 1;
    }
    let result = process_sprite_dir(String::from("d"), &files, &sprites, &options(true, false));
    assert_eq!(result.unwrap_err(), SummaryError::TooManyFrames);
}

#[test]
fn files_that_yield_nothing_do_not_count_towards_the_limit() {
    let sprites = previous("d", vec![recorded("a.png", 50, "cafe", None)]);
    let mut files = Vec::new();
    let mut i: u32 = 0;
    while i < 65535 {
        files.push(file("a.png", 50, None));
        files.push(file("gone.png", 50, None));
        files.push(file("notes.txt", 50, None));
        i += 1;
    }
    let summary = summarize("d", &files, &sprites, &options(true, false)).unwrap();
    assert_eq!(summary.count, 65535);
}
