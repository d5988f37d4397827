//! Drawing, preparing and reporting on pictures.
use image::{DynamicImage, GrayImage, Luma, Rgb, RgbImage, Rgba, RgbaImage};
use yolo_seg::picture::Canvas;
use yolo_seg::preparation::prepare;
use yolo_seg::render::{color_for_class, draw_box, draw_detections, render, render_checked};
use yolo_seg::report::{json_output, named_output};
use yolo_seg::text::{class_name, component_name, file_name, parse_classes};
use yolo_seg::{BoundingBox, Detection, Single, Yolo26Config};

fn picture(width: u32, height: u32) -> DynamicImage {
    DynamicImage::ImageRgb8(RgbImage::from_fn(width, height, |x, y| {
        Rgb([x as u8, y as u8, (x * 7 + y * 3) as u8])
    }))
}

fn boxed(x: u32, y: u32, width: u32, height: u32) -> BoundingBox {
    BoundingBox { x, y, width, height }
}

fn detection(class_id: i64, bbox: BoundingBox, mask: Vec<u8>) -> Detection {
    Detection { class_id, confidence: Single { bits: 0.5f32.to_bits() }, bbox, mask }
}

/// The same drawing, on the picture itself.
fn expected_frame(image: &mut RgbImage, bbox: BoundingBox, color: Rgb<u8>, thickness: u32) {
    let right = bbox.x + bbox.width - 1;
    let bottom = bbox.y + bbox.height - 1;
    for offset in 0..thickness {
        let x0 = (bbox.x + offset).min(right);
        let y0 = (bbox.y + offset).min(bottom);
        let x1 = right.saturating_sub(offset).max(x0);
        let y1 = bottom.saturating_sub(offset).max(y0);
        for x in x0..=x1 {
            image.put_pixel(x, y0, color);
            image.put_pixel(x, y1, color);
        }
        for y in y0..=y1 {
            image.put_pixel(x0, y, color);
            image.put_pixel(x1, y, color);
        }
    }
}

#[test]
fn colors_of_classes() {
    assert_eq!(color_for_class(0), (97, 149, 53));
    assert_eq!(color_for_class(1), (126, 166, 90));
    assert_eq!(color_for_class(79), (84, 212, 160));
    for class_id in [-1, -256, 1_000_000, i64::MAX, i64::MIN, i64::MAX / 29, i64::MIN / 17] {
        let channel = |multiplier: i64, offset: i64| {
            (multiplier.saturating_mul(class_id).saturating_add(offset)).rem_euclid(256) as u8
        };
        assert_eq!(
            color_for_class(class_id),
            (channel(29, 97), channel(17, 149), channel(37, 53))
        );
    }
}

#[test]
fn frames_are_drawn_inwards() {
    for (bbox, thickness) in [
        (boxed(2, 3, 10, 8), 1),
        (boxed(2, 3, 10, 8), 2),
        (boxed(0, 0, 20, 16), 3),
        (boxed(5, 5, 1, 1), 2),
        (boxed(5, 5, 2, 3), 4),
        (boxed(19, 15, 1, 1), 2),
        (boxed(4, 0, 0, 3), 2),
        (boxed(1, 1, 3, 3), 0),
    ] {
        let source = picture(20, 16);
        let mut expected = source.to_rgb8();
        expected_frame(&mut expected, bbox, Rgb([1, 2, 3]), thickness);
        let mut canvas = Canvas::new(&source);
        draw_box(&mut canvas, bbox, (1, 2, 3), thickness);
        assert_eq!(canvas.into_picture().to_rgb8(), expected, "{bbox:?} {thickness}");
    }
}

#[test]
fn a_detection_is_tinted_and_framed() {
    let source = picture(12, 10);
    let mut mask = vec![0; 6 * 5];
    mask[2 * 6 + 2] = 1;
    mask[2 * 6 + 3] = 7;
    mask[0] = 1;
    let detections = [detection(1, boxed(3, 4, 6, 5), mask)];
    let drawn = render(&source, &detections).to_rgb8();
    let color = Rgb([126, 166, 90]);
    let before = source.to_rgb8();
    let blend = |x: u32, y: u32| {
        let pixel = before.get_pixel(x, y);
        Rgb([
            ((u16::from(pixel[0]) + u16::from(color[0])) / 2) as u8,
            ((u16::from(pixel[1]) + u16::from(color[1])) / 2) as u8,
            ((u16::from(pixel[2]) + u16::from(color[2])) / 2) as u8,
        ])
    };
    let mut expected = before.clone();
    expected.put_pixel(5, 6, blend(5, 6));
    expected.put_pixel(6, 6, blend(6, 6));
    expected_frame(&mut expected, detections[0].bbox, color, 2);
    assert_eq!(drawn, expected);
    assert_eq!(*drawn.get_pixel(5, 6), Rgb([65, 86, 71]));
    assert_eq!(*drawn.get_pixel(3, 4), color);
    assert_eq!(*drawn.get_pixel(2, 4), *before.get_pixel(2, 4));
}

#[test]
fn later_detections_are_drawn_over_earlier_ones() {
    let source = picture(9, 9);
    let first = detection(0, boxed(0, 0, 9, 9), vec![1; 81]);
    let second = detection(1, boxed(2, 2, 5, 5), vec![1; 25]);
    let drawn = render(&source, &[first, second]).to_rgb8();
    assert_eq!(*drawn.get_pixel(0, 0), Rgb([97, 149, 53]));
    assert_eq!(*drawn.get_pixel(2, 2), Rgb([126, 166, 90]));
    let once = [(4 + 97) / 2, (4 + 149) / 2, (40 + 53) / 2];
    let twice = [(once[0] + 126) / 2, (once[1] + 166) / 2, (once[2] + 90) / 2];
    assert_eq!(drawn.get_pixel(4, 4).0.map(u16::from), twice);
}

#[test]
fn a_short_mask_leaves_the_rest_alone() {
    let source = picture(10, 10);
    let short = detection(3, boxed(0, 0, 10, 10), vec![1; 25]);
    let drawn = render(&source, &[short]).to_rgb8();
    assert_eq!(*drawn.get_pixel(5, 5), *source.to_rgb8().get_pixel(5, 5));
    assert_ne!(*drawn.get_pixel(3, 2), *source.to_rgb8().get_pixel(3, 2));
    assert_eq!(*drawn.get_pixel(6, 2), *source.to_rgb8().get_pixel(6, 2));
}

#[test]
fn a_picture_without_detections_is_copied() {
    let source = picture(5, 4);
    assert_eq!(render(&source, &[]).to_rgb8(), source.to_rgb8());
    let mut canvas = Canvas::new(&source);
    draw_detections(&mut canvas, &[]);
    assert_eq!(canvas.into_bytes(), source.to_rgb8().into_raw());
}

#[test]
fn detections_outside_of_the_picture_are_not_drawn() {
    let source = picture(10, 10);
    let outside = |bbox| render_checked(&source, &[detection(0, bbox, vec![])]).is_none();
    assert!(outside(boxed(5, 5, 6, 2)));
    assert!(outside(boxed(5, 5, 2, 6)));
    assert!(outside(boxed(0, 0, 0, 0)));
    assert!(outside(boxed(u32::MAX, 0, 1, 1)));
    assert!(!outside(boxed(5, 5, 5, 5)));
    let inside = detection(4, boxed(5, 5, 5, 5), vec![1; 25]);
    let checked = render_checked(&source, &[inside]).unwrap();
    let inside = detection(4, boxed(5, 5, 5, 5), vec![1; 25]);
    assert_eq!(checked.to_rgb8(), render(&source, &[inside]).to_rgb8());
}

#[test]
fn other_color_types_are_converted() {
    let gray = DynamicImage::ImageLuma8(GrayImage::from_pixel(3, 2, Luma([77])));
    let prepared = prepare(&gray, &Yolo26Config::default());
    assert_eq!(prepared.bytes, vec![77; 18]);
    assert_eq!((prepared.width, prepared.height), (3, 2));
    let clear = DynamicImage::ImageRgba8(RgbaImage::from_pixel(2, 2, Rgba([1, 2, 3, 4])));
    let prepared = prepare(&clear, &Yolo26Config::default());
    assert_eq!(prepared.bytes, [1, 2, 3].repeat(4));
    assert_eq!(render(&clear, &[]).to_rgb8(), clear.to_rgb8());
}

#[test]
fn a_picture_and_its_rgb_copy_are_prepared_alike() {
    let gray = GrayImage::from_fn(7, 5, |x, y| Luma([(x * 30 + y) as u8]));
    let clear = RgbaImage::from_fn(7, 5, |x, y| Rgba([x as u8, y as u8, 200, (x * y) as u8]));
    for picture in [
        DynamicImage::ImageLuma8(gray.clone()),
        DynamicImage::ImageRgba8(clear),
        DynamicImage::ImageLuma16(DynamicImage::ImageLuma8(gray).to_luma16()),
    ] {
        let copy = DynamicImage::ImageRgb8(picture.to_rgb8());
        let config = Yolo26Config::default();
        let (first, second) = (prepare(&picture, &config), prepare(&copy, &config));
        assert_eq!(first.bytes, picture.to_rgb8().into_raw());
        assert_eq!(first.bytes, second.bytes);
        assert_eq!((first.width, first.height), (second.width, second.height));
        assert_eq!(first.transform.scale.bits, second.transform.scale.bits);
        assert_eq!(first.transform.upsample_size(), second.transform.upsample_size());
        assert_eq!(first.transform.padding(), second.transform.padding());
        let drawn = Canvas::new(&picture).into_picture();
        assert_eq!(prepare(&drawn, &config).bytes, first.bytes);
    }
}

#[test]
fn a_picture_with_bytes_to_spare_keeps_them() {
    let mut bytes = vec![9; 2 * 2 * 3];
    bytes.push(77);
    let spare = DynamicImage::ImageRgb8(RgbImage::from_raw(2, 2, bytes.clone()).unwrap());
    assert_eq!(prepare(&spare, &Yolo26Config::default()).bytes, bytes);
}

#[test]
fn frames_hold_the_cells_near_an_edge() {
    let bbox = boxed(3, 2, 9, 6);
    for thickness in 0..6 {
        let source = DynamicImage::ImageRgb8(RgbImage::new(16, 12));
        let mut canvas = Canvas::new(&source);
        draw_box(&mut canvas, bbox, (1, 2, 3), thickness);
        let drawn = canvas.into_picture().to_rgb8();
        for (x, y, pixel) in drawn.enumerate_pixels() {
            let inside = (3..12).contains(&x) && (2..8).contains(&y);
            let near = inside && (x - 3).min(11 - x).min(y - 2).min(7 - y) < thickness;
            assert_eq!(*pixel == Rgb([1, 2, 3]), near, "{x} {y} {thickness}");
        }
    }
}

#[test]
fn a_picture_is_prepared_row_by_row() {
    let source = picture(810, 4);
    let prepared = prepare(&source, &Yolo26Config::default());
    assert_eq!(prepared.bytes.len(), 810 * 4 * 3);
    let first = 3 * (2 * 810 + 5);
    assert_eq!(prepared.bytes[first..first + 3], [5, 2, 41]);
    assert_eq!(prepared.transform.resized_width, 640);
    assert_eq!(prepared.transform.resized_height, 3);
    assert_eq!((prepared.transform.top, prepared.transform.bottom), (318, 319));
}

#[test]
fn a_report_holds_what_was_found() {
    let source = picture(40, 30);
    let classes = vec!["person".to_string(), "bicycle".to_string()];
    let detections = [
        detection(1, boxed(1, 2, 3, 4), vec![1, 0, 1, 1]),
        detection(2, boxed(5, 6, 7, 8), vec![]),
    ];
    let output = json_output(
        "models/yolo26n-seg.pt",
        "in/../pictures/bus.jpg",
        &source,
        &detections,
        &classes,
        "cpu-f32",
    );
    assert_eq!(output.schema_version, 1);
    assert_eq!(output.implementation, "yolo26-rust-libtorch");
    assert_eq!(output.backend, "cpu-f32");
    assert_eq!(output.model, "yolo26n-seg.pt");
    assert_eq!(output.input, "bus.jpg");
    assert_eq!((output.image_size.width, output.image_size.height), (40, 30));
    assert_eq!(output.detections.len(), 2);
    let first = &output.detections[0];
    assert_eq!((first.class_id, first.class_name), (1, "bicycle"));
    assert_eq!(first.confidence.bits, 0.5f32.to_bits());
    assert_eq!(first.box_, boxed(1, 2, 3, 4));
    assert_eq!(first.mask_pixels, 3);
    let second = &output.detections[1];
    assert_eq!((second.class_id, second.class_name, second.mask_pixels), (2, "", 0));
}

#[test]
fn class_lists_are_read_line_by_line() {
    let text = "person\n  bicycle \r\n\n\t\nfire hydrant\n\u{3000}kite\u{a0}";
    assert_eq!(parse_classes(text), vec!["person", "bicycle", "fire hydrant", "kite"]);
    assert!(parse_classes("").is_empty());
    assert!(parse_classes("\n \r\n").is_empty());
    for text in [
        "a\nb", "a\nb\n", "\r", "a\rb\r\n c", "\u{85}x\u{2028}y\u{2029}", "\u{200b}z", "äöü\n字 ",
    ] {
        let expected: Vec<String> = text
            .lines()
            .map(str::trim)
            .filter(|line| !line.is_empty())
            .map(str::to_owned)
            .collect();
        assert_eq!(parse_classes(text), expected, "{text:?}");
    }
}

#[test]
fn every_white_space_character_is_trimmed() {
    for code in 0..0x1_0000 {
        if let Some(c) = char::from_u32(code) {
            let text = format!("{c}x{c}");
            let expected: Vec<String> = text
                .lines()
                .map(str::trim)
                .filter(|line| !line.is_empty())
                .map(str::to_owned)
                .collect();
            assert_eq!(parse_classes(&text), expected, "{code:x}");
        }
    }
}

#[test]
fn classes_have_the_names_of_the_list() {
    let classes = vec!["person".to_string(), "bicycle".to_string()];
    assert_eq!(class_name(0, &classes), "person");
    assert_eq!(class_name(1, &classes), "bicycle");
    for class_id in [2, -1, i64::MAX, i64::MIN] {
        assert_eq!(class_name(class_id, &classes), "");
    }
    assert_eq!(class_name(0, &[]), "");
}

#[test]
fn file_names_end_paths() {
    for (path, expected) in [
        ("", ""),
        ("a", "a"),
        ("a/b", "b"),
        ("a/b/", "b"),
        ("/", ""),
        ("a//b//", "b"),
        (".", ""),
        ("./", ""),
        ("..", ""),
        ("a/..", ""),
        ("a/.", "a"),
        ("a/./.", "a"),
        ("../x", "x"),
        (".hidden", ".hidden"),
        ("a/...", "..."),
        ("/a/b.c", "b.c"),
        ("ä/ö", "ö"),
        ("..a", "..a"),
        ("a/.b/.", ".b"),
        ("x/../", ""),
        ("./.", ""),
        ("at/12:30.jpg", "12:30.jpg"),
        ("models/yolo26n-seg.pt", "yolo26n-seg.pt"),
    ] {
        assert_eq!(file_name(path), expected, "{path:?}");
    }
}

#[test]
fn file_names_are_those_of_the_host() {
    for path in ["//", "//server/share", "a\\b", "C:\\a\\b.jpg", "c:b", "a/b\\c", "\\\\?\\a/b"] {
        let expected = std::path::Path::new(path)
            .file_name()
            .map(|name| name.to_string_lossy().into_owned())
            .unwrap_or_default();
        assert_eq!(file_name(path), expected, "{path:?}");
    }
}

#[test]
fn a_path_without_a_last_component_has_no_name() {
    assert_eq!(component_name(None), "");
    assert_eq!(component_name(Some("bus.jpg".to_string())), "bus.jpg");
}

#[test]
fn a_report_takes_names_as_they_are() {
    let source = picture(4, 3);
    let output = named_output("a/b".to_string(), "c".to_string(), &source, &[], &[], "mps-f16");
    assert_eq!((output.model.as_str(), output.input.as_str()), ("a/b", "c"));
    assert_eq!(output.backend, "mps-f16");
    assert!(output.detections.is_empty());
}
