use sprite_info::border::BorderBox;
use sprite_info::cache::find_unchanged_frame;
use sprite_info::directory::has_png_extension;
use sprite_info::directory::process_sprite_dir;
use sprite_info::directory::SpriteFile;
use sprite_info::options::Options;
use sprite_info::root::update_sprite_source_summary;
use sprite_info::summary::load_summary;
use sprite_info::summary::SpriteSourceRootSummary;

fn options() -> Options {
    Options {
        root_folder: String::from("root"),
        summary_filename: String::from(".sprite-info.yaml"),
        background_alpha: 1,
        compute_border_box: true,
        force: false,
    }
}

fn solid(width: u32, height: u32, red: u8, green: u8, blue: u8, alpha: u8) -> Vec<u8> {
    let image = image::RgbaImage::from_pixel(width, height, image::Rgba([red, green, blue, alpha]));
    let mut bytes = std::io::Cursor::new(Vec::new());
    image::DynamicImage::ImageRgba8(image)
        .write_to(&mut bytes, image::ImageOutputFormat::Png)
        .expect("a PNG file in memory");
    bytes.into_inner()
}

/// One file of a pretended directory: its name, its modification time and
/// the image that it holds.
struct Disk {
    name: &'static str,
    modified_at: u64,
    content: Option<(u32, u32, u8, u8, u8, u8)>,
}

/// Runs over pretended directories as a caller does: it reads a file only
/// where the previous summary cannot be used, and counts how often it did.
fn run(
    directories: &[(&'static str, Vec<Disk>)],
    previous: &SpriteSourceRootSummary,
    options: &Options,
    decoded: &mut usize,
) -> SpriteSourceRootSummary {
    let mut results = Vec::new();
    for (path, disk) in directories {
        let dirname = String::from(*path);
        let dir_summary = previous.sprites.get(&dirname);
        let mut files = Vec::new();
        for entry in disk {
            let name = String::from(entry.name);
            if !has_png_extension(&name) {
                continue;
            }
            let content = if find_unchanged_frame(
                dir_summary,
                &name,
                entry.modified_at,
                options.force,
            )
            .is_none()
            {
                *decoded += 1;
                entry.content.map(|(w, h, r, g, b, a)| solid(w, h, r, g, b, a))
            } else {
                None
            };
            files.push(SpriteFile { name, modified_at: entry.modified_at, content });
        }
        results.push(
            process_sprite_dir(dirname, &files, &previous.sprites, options)
                .expect("no more frames than a summary counts"),
        );
    }
    update_sprite_source_summary(results).expect("no more directories than a summary counts")
}

fn assert_same(first: &SpriteSourceRootSummary, second: &SpriteSourceRootSummary) {
    assert_eq!(first.sprite_count, second.sprite_count);
    assert_eq!(first.frame_count, second.frame_count);
    assert_eq!(first.sprites.len(), second.sprites.len());
    let mut i: usize = 0;
    while let Some((path, a)) = first.sprites.entry(i) {
        let b = second.sprites.get(path).expect("the same directories");
        assert_eq!(a.path, b.path);
        assert_eq!(a.count, b.count);
        assert_eq!(a.border, b.border);
        assert_eq!(a.frames.len(), b.frames.len());
        let mut j: usize = 0;
        while let Some((name, x)) = a.frames.entry(j) {
            let y = b.frames.get(name).expect("the same frames");
            assert_eq!(x.name, y.name);
            assert_eq!(x.width, y.width);
            assert_eq!(x.height, y.height);
            assert_eq!(x.checksum, y.checksum);
            assert_eq!(x.changed, y.changed);
            assert_eq!(x.border, y.border);
            j += 1;
        }
        i += 1;
    }
}

fn tree() -> Vec<(&'static str, Vec<Disk>)> {
    vec![
        (
            "dirA",
            vec![Disk {
                name: "frame1.png",
                modified_at: 1_700_000_000,
                content: Some((4, 4, 255, 0, 0, 255)),
            }],
        ),
        ("dirB", vec![Disk { name: "notes.txt", modified_at: 1_700_000_001, content: None }]),
    ]
}

#[test]
fn red_square_beside_a_directory_without_png_files() {
    let mut decoded = 0;
    let root = run(&tree(), &load_summary(None), &options(), &mut decoded);
    assert_eq!(decoded, 1);
    assert_eq!(root.sprite_count, 1);
    assert_eq!(root.frame_count, 1);
    assert_eq!(root.sprites.len(), 1);
    assert!(root.sprites.get(&String::from("dirB")).is_none());
    let dir_a = root.sprites.get(&String::from("dirA")).unwrap();
    let whole = Some(BorderBox { left: 0, right: 3, top: 0, bottom: 3 });
    assert_eq!(dir_a.path, "dirA");
    assert_eq!(dir_a.count, 1);
    assert_eq!(dir_a.border, whole);
    assert_eq!(dir_a.frames.len(), 1);
    let frame = dir_a.frames.get(&String::from("frame1.png")).unwrap();
    assert_eq!(frame.name, "frame1.png");
    assert_eq!(frame.width, 4);
    assert_eq!(frame.height, 4);
    assert_eq!(frame.border, whole);
    assert_eq!(frame.checksum, "ff0000ff0");
    assert_eq!(frame.changed, 1_700_000_000);
}

#[test]
fn second_run_without_changes_decodes_nothing_and_gives_the_same_summary() {
    let mut decoded = 0;
    let first = run(&tree(), &load_summary(None), &options(), &mut decoded);
    assert_eq!(decoded, 1);
    let mut decoded_again = 0;
    let second = run(&tree(), &first, &options(), &mut decoded_again);
    assert_eq!(decoded_again, 0);
    assert_same(&first, &second);
}

#[test]
fn forced_second_run_decodes_everything_again() {
    let mut decoded = 0;
    let first = run(&tree(), &load_summary(None), &options(), &mut decoded);
    let mut forced = options();
    forced.force = true;
    let mut decoded_again = 0;
    let second = run(&tree(), &first, &forced, &mut decoded_again);
    assert_eq!(decoded_again, 1);
    assert_same(&first, &second);
}

#[test]
fn only_the_frame_whose_time_changed_is_scanned_again() {
    let before = vec![(
        "walk",
        vec![
            Disk { name: "0.png", modified_at: 10, content: Some((2, 2, 1, 2, 3, 255)) },
            Disk { name: "1.png", modified_at: 11, content: Some((2, 2, 4, 5, 6, 255)) },
            Disk { name: "2.png", modified_at: 12, content: Some((2, 2, 7, 8, 9, 255)) },
        ],
    )];
    let mut decoded = 0;
    let first = run(&before, &load_summary(None), &options(), &mut decoded);
    assert_eq!(decoded, 3);

    // The content of every file is different now, but only one file has a
    // new modification time.
    let after = vec![(
        "walk",
        vec![
            Disk { name: "0.png", modified_at: 10, content: Some((3, 3, 9, 9, 9, 255)) },
            Disk { name: "1.png", modified_at: 99, content: Some((3, 1, 0, 0, 0, 255)) },
            Disk { name: "2.png", modified_at: 12, content: Some((3, 3, 9, 9, 9, 255)) },
        ],
    )];
    let mut decoded_again = 0;
    let second = run(&after, &first, &options(), &mut decoded_again);
    assert_eq!(decoded_again, 1);
    assert_eq!(second.sprite_count, 1);
    assert_eq!(second.frame_count, 3);

    let old = first.sprites.get(&String::from("walk")).unwrap();
    let new = second.sprites.get(&String::from("walk")).unwrap();
    for name in ["0.png", "2.png"] {
        let key = String::from(name);
        let x = old.frames.get(&key).unwrap();
        let y = new.frames.get(&key).unwrap();
        assert_eq!(x.name, y.name);
        assert_eq!(x.width, y.width);
        assert_eq!(x.height, y.height);
        assert_eq!(x.checksum, y.checksum);
        assert_eq!(x.changed, y.changed);
        assert_eq!(x.border, y.border);
        assert_eq!(y.width, 2);
    }
    let changed = new.frames.get(&String::from("1.png")).unwrap();
    assert_eq!(changed.width, 3);
    assert_eq!(changed.height, 1);
    assert_eq!(changed.changed, 99);
    assert_eq!(changed.checksum, "2fd000000");
    assert_eq!(changed.border, Some(BorderBox { left: 0, right: 2, top: 0, bottom: 0 }));
    assert_eq!(new.border, Some(BorderBox { left: 0, right: 2, top: 0, bottom: 1 }));
}

#[test]
fn frame_that_appeared_is_scanned_and_one_that_vanished_is_dropped() {
    let before = vec![(
        "d",
        vec![
            Disk { name: "old.png", modified_at: 1, content: Some((1, 1, 1, 0, 0, 255)) },
            Disk { name: "stay.png", modified_at: 2, content: Some((1, 1, 2, 0, 0, 255)) },
        ],
    )];
    let mut decoded = 0;
    let first = run(&before, &load_summary(None), &options(), &mut decoded);
    let after = vec![(
        "d",
        vec![
            Disk { name: "stay.png", modified_at: 2, content: Some((1, 1, 2, 0, 0, 255)) },
            Disk { name: "new.png", modified_at: 3, content: Some((1, 1, 3, 0, 0, 255)) },
        ],
    )];
    let mut decoded_again = 0;
    let second = run(&after, &first, &options(), &mut decoded_again);
    assert_eq!(decoded_again, 1);
    let d = second.sprites.get(&String::from("d")).unwrap();
    assert_eq!(d.count, 2);
    assert!(d.frames.get(&String::from("old.png")).is_none());
    assert!(d.frames.get(&String::from("stay.png")).is_some());
    assert_eq!(d.frames.get(&String::from("new.png")).unwrap().checksum, "ff000003");
}

#[test]
fn directory_that_lost_its_png_files_leaves_the_summary() {
    let mut decoded = 0;
    let first = run(&tree(), &load_summary(None), &options(), &mut decoded);
    let after = vec![
        ("dirA", vec![Disk { name: "frame1.txt", modified_at: 5, content: None }]),
        ("dirB", Vec::new()),
    ];
    let mut decoded_again = 0;
    let second = run(&after, &first, &options(), &mut decoded_again);
    assert_eq!(decoded_again, 0);
    assert_eq!(second.sprite_count, 0);
    assert_eq!(second.frame_count, 0);
    assert_eq!(second.sprites.len(), 0);
}
