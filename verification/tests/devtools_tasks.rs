use arkana::envelope::qr::fragment::FragmentedEnvelope;
use arkana::devtools::fixtures::{
    empty_archive, insert_fragment_archive, missing_fragment_archive, mixed_archive,
    replace_fragment_archive, unpack_tar_bytes, unpack_tar_images, XTaskError,
};
use arkana::devtools::grid::{
    brick_grid_capacity, diamond_canvas_size, diamond_positions, grid_layout, grid_layout_fits,
    grid_position, rows_needed, square_canvas_shape,
};
use arkana::devtools::render::{
    blank_image, combine_diamonds, combine_grid, entry_extension, image_sizes, render_qr, require_images,
    EcLevel, PixelFormat,
};

fn image_dimensions(image: &image::DynamicImage) -> (u32, u32) {
    image_sizes(&vec![image.clone()])[0]
}
use arkana::envelope::qr::image::encode_image;
use arkana::envelope::qr::tar::{pack, unpack, File};
use arkana::envelope::qr::{encode_png_files, serialize};

fn names_and_contents(tar: &[u8]) -> Vec<(String, Vec<u8>)> {
    unpack(tar).unwrap().into_iter().map(|f| (f.path, f.content)).collect()
}

fn entries() -> Vec<Vec<u8>> {
    vec![b"one".to_vec(), b"two".to_vec(), b"three".to_vec()]
}

#[test]
fn brick_capacity_counts_full_and_short_rows() {
    assert_eq!(brick_grid_capacity(1, 3), 3);
    assert_eq!(brick_grid_capacity(2, 3), 5);
    assert_eq!(brick_grid_capacity(3, 3), 8);
    assert_eq!(brick_grid_capacity(4, 1), 2);
    assert_eq!(brick_grid_capacity(0, 5), 0);
    assert_eq!(brick_grid_capacity(5, 0), 0);
}

#[test]
fn rows_needed_is_the_fewest_rows() {
    assert_eq!(rows_needed(0, 1), 1);
    assert_eq!(rows_needed(3, 3), 1);
    assert_eq!(rows_needed(4, 3), 2);
    assert_eq!(rows_needed(6, 3), 3);
    assert_eq!(rows_needed(3, 1), 5);
}

fn reference_shape(count: usize) -> (u32, u32) {
    let pixel_gap = |rows: u32, cols: u32| {
        let width = cols as f64;
        let height = (rows.saturating_sub(1)) as f64 / 2.0 + 1.0;
        (width - height).abs()
    };
    let estimate = ((count as f64) / 2.0).sqrt().ceil().max(1.0) as u32;
    let mut best = (rows_needed(count, estimate), estimate);
    for cols in estimate.saturating_sub(2).max(1)..=estimate + 2 {
        let candidate = (rows_needed(count, cols), cols);
        if pixel_gap(candidate.0, candidate.1) < pixel_gap(best.0, best.1) {
            best = candidate;
        }
    }
    best
}

#[test]
fn square_canvas_shape_matches_the_floating_point_search() {
    for count in 0..3000usize {
        assert_eq!(square_canvas_shape(count), reference_shape(count), "count {}", count);
    }
    assert_eq!(square_canvas_shape(1), (1, 1));
    assert_eq!(square_canvas_shape(10), (4, 3));
}

#[test]
fn diamond_canvas_and_positions() {
    assert_eq!(diamond_canvas_size(3, 2, 10), (20, 20));
    assert_eq!(diamond_canvas_size(0, 2, 10), (20, 10));
    assert_eq!(diamond_positions(4, 3, 2, 10), vec![(0, 0), (10, 0), (5, 5), (0, 10)]);
    assert_eq!(diamond_positions(10, 3, 2, 10), vec![(0, 0), (10, 0), (5, 5), (0, 10), (10, 10)]);
    assert!(diamond_positions(0, 3, 2, 10).is_empty());
}

#[test]
fn grid_layout_of_cells() {
    let sizes = vec![(10, 20), (30, 5), (7, 7)];
    assert!(grid_layout_fits(&sizes, 2));
    let layout = grid_layout(&sizes, 2).unwrap();
    assert_eq!((layout.rows, layout.cell_width, layout.cell_height), (2, 30, 20));
    assert_eq!((layout.total_width, layout.total_height), (60, 40));
    assert!(grid_layout(&Vec::new(), 2).is_none());
    assert_eq!(grid_position(3, 2, 30, 20), (30, 20));
    assert!(!grid_layout_fits(&vec![(u32::MAX, 1)], 2));
}

#[test]
fn combined_grid_needs_an_image() {
    assert!(matches!(
        combine_grid(&Vec::new(), &Vec::new(), 2),
        Err(XTaskError::TooFewImages { min: 1, found: 0 })
    ));
    let images = vec![encode_image(b"a").unwrap(), encode_image(b"b").unwrap(), encode_image(b"c").unwrap()];
    let sizes = image_sizes(&images);
    let (canvas, layout) = combine_grid(&images, &sizes, 2).unwrap();
    assert_eq!(image_dimensions(&canvas), (layout.total_width, layout.total_height));
    assert_eq!(layout.total_width, 2 * sizes[0].0);
}

#[test]
fn combined_diamonds_have_the_grid_size() {
    let images = vec![encode_image(b"a").unwrap(), encode_image(b"b").unwrap()];
    let (canvas, w, h) = combine_diamonds(&images, 2, 2, 40);
    assert_eq!((w, h), (80, 60));
    assert_eq!(image_dimensions(&canvas), (80, 60));
}

#[test]
fn missing_fragment_drops_and_renumbers() {
    let tar = missing_fragment_archive(&entries(), 2).unwrap();
    assert_eq!(
        names_and_contents(&tar),
        vec![("00001.png".to_string(), b"one".to_vec()), ("00002.png".to_string(), b"three".to_vec())]
    );
    assert!(matches!(missing_fragment_archive(&entries(), 0), Err(XTaskError::IndexOutOfRange { index: 0, len: 3 })));
    assert!(matches!(missing_fragment_archive(&entries(), 4), Err(XTaskError::IndexOutOfRange { index: 4, len: 3 })));
}

#[test]
fn insert_fragment_shifts_later_entries() {
    let tar = insert_fragment_archive(&entries(), 2, b"new", "bin").unwrap();
    assert_eq!(
        names_and_contents(&tar),
        vec![
            ("00001.png".to_string(), b"one".to_vec()),
            ("00002.bin".to_string(), b"new".to_vec()),
            ("00003.png".to_string(), b"two".to_vec()),
            ("00004.png".to_string(), b"three".to_vec()),
        ]
    );
    let at_end = insert_fragment_archive(&entries(), 4, b"new", "png").unwrap();
    assert_eq!(names_and_contents(&at_end)[3], ("00004.png".to_string(), b"new".to_vec()));
    assert!(matches!(
        insert_fragment_archive(&entries(), 5, b"x", "png"),
        Err(XTaskError::IndexOutOfRange { index: 5, len: 4 })
    ));
}

#[test]
fn replace_fragment_keeps_positions() {
    let tar = replace_fragment_archive(&entries(), 3, b"other", "jpg").unwrap();
    assert_eq!(
        names_and_contents(&tar),
        vec![
            ("00001.png".to_string(), b"one".to_vec()),
            ("00002.png".to_string(), b"two".to_vec()),
            ("00003.jpg".to_string(), b"other".to_vec()),
        ]
    );
    assert!(matches!(
        replace_fragment_archive(&entries(), 0, b"x", "png"),
        Err(XTaskError::IndexOutOfRange { index: 0, len: 3 })
    ));
}

#[test]
fn mixed_archive_alternates_png_and_jpeg() {
    let images = vec![encode_image(b"a").unwrap(), encode_image(b"b").unwrap(), encode_image(b"c").unwrap()];
    let pngs: Vec<Vec<u8>> = encode_png_files(&images).unwrap().into_iter().map(|f| f.content).collect();
    let tar = mixed_archive(&pngs).unwrap();
    let out = names_and_contents(&tar);
    assert_eq!(out[0], ("00001.png".to_string(), pngs[0].clone()));
    assert_eq!(out[1].0, "00002.jpg");
    assert!(out[1].1.starts_with(&[0xff, 0xd8]));
    assert_eq!(out[2], ("00003.png".to_string(), pngs[2].clone()));
    assert!(matches!(mixed_archive(&entries()), Err(XTaskError::Image(_))));
}

#[test]
fn empty_archive_has_no_entry() {
    let tar = empty_archive().unwrap();
    assert!(unpack(&tar).unwrap().is_empty());
    assert!(unpack_tar_bytes(&tar).unwrap().is_empty());
}

#[test]
fn entries_of_a_container_decode_as_images() {
    let container = serialize(b"abc", &[1u8; 200]).unwrap();
    let contents = unpack_tar_bytes(&container).unwrap();
    assert_eq!(contents.len(), 3);
    assert_eq!(unpack_tar_images(&contents).unwrap().len(), 3);
    assert!(matches!(unpack_tar_images(&entries()), Err(XTaskError::Image(_))));
}

#[test]
fn unpack_tar_bytes_keeps_contents_in_order() {
    let files = vec![
        File { path: "a".to_string(), content: b"x".to_vec() },
        File { path: "b".to_string(), content: b"yz".to_vec() },
    ];
    assert_eq!(unpack_tar_bytes(&pack(&files).unwrap()).unwrap(), vec![b"x".to_vec(), b"yz".to_vec()]);
}

#[test]
fn entry_extension_defaults_to_png() {
    assert_eq!(entry_extension("dir/file.jpg"), "jpg");
    assert_eq!(entry_extension("archive.tar.gz"), "gz");
    assert_eq!(entry_extension("noext"), "png");
    assert_eq!(entry_extension(".hidden"), "png");
}

#[test]
fn render_qr_in_both_pixel_formats() {
    let (w, h, gray) = render_qr(b"hello", 1, EcLevel::M, 4, PixelFormat::Grayscale).unwrap();
    assert_eq!((w, h), image_dimensions(&gray));
    assert_eq!(w, (21 + 8) * 4);
    let (w2, _, rgba) = render_qr(b"hello", 10, EcLevel::L, 2, PixelFormat::Rgba).unwrap();
    assert_eq!(w2, (57 + 8) * 2);
    assert!(matches!(rgba, image::DynamicImage::ImageRgba8(_)));
    assert!(matches!(render_qr(b"x", 41, EcLevel::H, 1, PixelFormat::Rgba), Err(XTaskError::Qr(_))));
    assert!(matches!(render_qr(&[b'x'; 100], 1, EcLevel::H, 1, PixelFormat::Rgba), Err(XTaskError::Qr(_))));
}

#[test]
fn rendered_symbol_side_follows_version_and_scale() {
    let (w, h, image) = render_qr(b"abc", 2, EcLevel::Q, 3, PixelFormat::Grayscale).unwrap();
    assert_eq!((w, h), ((4 * 2 + 25) * 3, (4 * 2 + 25) * 3));
    assert_eq!((image.width(), image.height()), (99, 99));
}

#[test]
fn valid_edits_of_an_archive_succeed() {
    let entries = vec![b"a".to_vec(), b"b".to_vec()];
    assert!(missing_fragment_archive(&entries, 2).is_ok());
    assert!(insert_fragment_archive(&entries, 3, b"z", "bin").is_ok());
    assert!(replace_fragment_archive(&entries, 1, b"z", "txt").is_ok());
    assert!(empty_archive().is_ok());
}

#[test]
fn serialized_files_are_the_pngs_of_the_fragment_symbols() {
    let container = serialize(b"head", &[9u8; 200]).unwrap();
    let files = unpack(&container).unwrap();
    let fragmented = FragmentedEnvelope::from_envelope(b"head", &[9u8; 200]).unwrap();
    let images: Vec<_> = fragmented
        .fragments()
        .iter()
        .map(|f| encode_image(&f.to_bytes()).unwrap())
        .collect();
    let expected = encode_png_files(&images).unwrap();
    assert_eq!(files.len(), expected.len());
    for (file, want) in files.iter().zip(expected.iter()) {
        assert_eq!(file.path, want.path);
        assert_eq!(file.content, want.content);
    }
}

#[test]
fn blank_image_is_white_and_square() {
    let image = blank_image();
    assert_eq!((image.width(), image.height()), (100, 100));
    assert!(image.to_luma8().pixels().all(|p| p.0[0] == 255));
}

#[test]
fn an_archive_without_images_is_refused() {
    assert!(require_images(1).is_ok());
    assert!(matches!(require_images(0), Err(XTaskError::TooFewImages { min: 1, found: 0 })));
}

#[test]
fn zero_pixels_per_module_draws_one() {
    let (w, h, image) = render_qr(b"a", 1, EcLevel::L, 0, PixelFormat::Rgba).unwrap();
    assert_eq!((w, h), (29, 29));
    assert_eq!((image.width(), image.height()), (29, 29));
}

#[test]
fn insert_and_replace_take_any_extension_without_slash() {
    let entries = vec![b"a".to_vec(), b"b".to_vec()];
    let tar = insert_fragment_archive(&entries, 2, b"z", "c++").unwrap();
    let files = unpack(&tar).unwrap();
    assert_eq!(files[1].path, "00002.c++");
    let tar = replace_fragment_archive(&entries, 1, b"z", "données").unwrap();
    let files = unpack(&tar).unwrap();
    assert_eq!(files[0].path, "00001.données");
    assert_eq!(files[0].content, b"z".to_vec());
}
