use std::io::Cursor;

use snaphound::classify::get_file_type;
use snaphound::thumb::build_tone_table;
use snaphound::thumb::process_thumbnail;
use snaphound::thumb::thumb_dims;
use snaphound::thumb::thumbnail_target;
use snaphound::thumb::ThumbOutcome;

fn png_bytes(width: u32, height: u32, rgba: Vec<u8>) -> Vec<u8> {
    let img = image::RgbaImage::from_raw(width, height, rgba).unwrap();
    let mut buf: Vec<u8> = Vec::new();
    img.write_to(&mut Cursor::new(&mut buf), image::ImageFormat::Png).unwrap();
    buf
}

#[test]
fn classification_by_extension() {
    assert_eq!(get_file_type("/a/1.jpg"), "image");
    assert_eq!(get_file_type("/a/b.jpeg"), "image");
    assert_eq!(get_file_type("/a/c.png"), "image");
    assert_eq!(get_file_type("/a/d.gif"), "image");
    assert_eq!(get_file_type("/a/3.mp4"), "video");
    assert_eq!(get_file_type("/a/e.mkv"), "video");
    assert_eq!(get_file_type("/a/f.avi"), "video");
    assert_eq!(get_file_type("/a/2.txt"), "unknown");
    assert_eq!(get_file_type("/a/noext"), "unknown");
    assert_eq!(get_file_type("/a/.hidden"), "unknown");
    assert_eq!(get_file_type("/a/UPPER.JPG"), "unknown");
}

#[test]
fn target_path_is_stem_under_thumbnail_dir() {
    assert_eq!(thumbnail_target("/t", "/a/b/photo.jpeg"), "/t/photo.webp");
    assert_eq!(thumbnail_target("/t", "photo.png"), "/t/photo.webp");
    assert_eq!(thumbnail_target("/t", "/a/noext"), "/t/noext.webp");
    assert_eq!(thumbnail_target("/t", "/a/.hidden"), "/t/.hidden.webp");
}

#[test]
fn dimensions_cap_width_and_keep_ratio() {
    assert_eq!(thumb_dims(400, 300), (400, 300));
    assert_eq!(thumb_dims(1024, 768), (512, 384));
    assert_eq!(thumb_dims(513, 513), (512, 512));
    assert_eq!(thumb_dims(1000, 333), (512, 170)); // 333 * 512 / 1000 rounds down
    assert_eq!(thumb_dims(512, 9999), (512, 9999));
}

#[test]
fn tone_table_exact_values() {
    let t = build_tone_table();
    assert_eq!(t.len(), 256);
    // (1150*v - 19125) / 1000, clamped below at 0 and above at 255, then +10
    assert_eq!(t[0], 10);
    assert_eq!(t[16], 10); // 1150*16 = 18400 < 19125
    assert_eq!(t[17], 10); // (19550-19125)/1000 = 0
    assert_eq!(t[18], 11); // (20700-19125)/1000 = 1
    assert_eq!(t[128], 138); // (147200-19125)/1000 = 128
    assert_eq!(t[255], 255); // 274 capped at 255, +10 capped at 255
}

#[test]
fn rendering_decodes_resizes_and_tones() {
    // a 2x2 image with one pixel per tone region; alpha varies and survives
    let rgba = vec![
        0, 0, 0, 255, // black
        128, 128, 128, 200, // mid grey
        255, 255, 255, 100, // white
        128, 0, 255, 50, // mixed
    ];
    let bytes = png_bytes(2, 2, rgba);
    match process_thumbnail("/t", "/a/p.png", &bytes, false) {
        ThumbOutcome::Rendered { path, rgba, width, height } => {
            assert_eq!(path, "/t/p.webp");
            assert_eq!(width, 2);
            assert_eq!(height, 2);
            assert_eq!(
                rgba,
                vec![
                    10, 10, 10, 255, //
                    138, 138, 138, 200, //
                    255, 255, 255, 100, //
                    138, 10, 255, 50,
                ]
            );
        },
        _ => panic!("expected a rendered thumbnail"),
    }
}

#[test]
fn rendering_caps_width_at_512() {
    let rgba = vec![128u8; 4 * 1024 * 2];
    let bytes = png_bytes(1024, 2, rgba);
    match process_thumbnail("/t", "/a/wide.png", &bytes, false) {
        ThumbOutcome::Rendered { width, height, rgba, .. } => {
            assert_eq!(width, 512);
            assert_eq!(height, 1); // 2 * 512 / 1024
            assert_eq!(rgba.len(), 4 * 512);
        },
        _ => panic!("expected a rendered thumbnail"),
    }
}

#[test]
fn existing_target_short_circuits_idempotently() {
    let bytes = png_bytes(1, 1, vec![1, 2, 3, 4]);
    let first = process_thumbnail("/t", "/a/p.png", &bytes, false);
    let first_path = match first {
        ThumbOutcome::Rendered { ref path, .. } => path.clone(),
        _ => panic!("expected a rendered thumbnail"),
    };
    // second call: the target now exists; nothing is recomputed, and the
    // decoded bytes do not even have to be readable any more
    let second = process_thumbnail("/t", "/a/p.png", &Vec::new(), true);
    match second {
        ThumbOutcome::AlreadyCached { path } => assert_eq!(path, first_path),
        _ => panic!("expected the cached path"),
    }
}

#[test]
fn undecodable_source_fails_only_that_file() {
    let bytes = vec![1, 2, 3];
    match process_thumbnail("/t", "/a/bad.png", &bytes, false) {
        ThumbOutcome::DecodeFailed => {},
        _ => panic!("expected a decode failure"),
    }
}
