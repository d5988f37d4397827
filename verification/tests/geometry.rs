//! Fitting pictures into the input of the model, and boxes back into pictures.
use yolo_seg::geometry::{crop_window, letterbox, map_box, CropWindow};
use yolo_seg::{BoundingBox, Double, Letterbox, Single};

fn next_bits(state: &mut u64) -> u64 {
    *state = state.wrapping_add(0x9e37_79b9_7f4a_7c15);
    let mut mixed = *state;
    mixed = (mixed ^ (mixed >> 30)).wrapping_mul(0xbf58_476d_1ce4_e5b9);
    mixed = (mixed ^ (mixed >> 27)).wrapping_mul(0x94d0_49bb_1331_11eb);
    mixed ^ (mixed >> 31)
}

fn row(values: &[f32]) -> Vec<Single> {
    values.iter().map(|value| Single { bits: value.to_bits() }).collect()
}

fn value(double: Double) -> f64 {
    f64::from_bits(double.bits)
}

#[test]
fn letterbox_and_inverse_box_match_portrait_source() {
    let image = image::RgbImage::new(810, 1080);
    let transform = letterbox(image.width(), image.height(), 640, 640);
    assert_eq!(
        (
            transform.resized_width + transform.left + transform.right,
            transform.resized_height + transform.top + transform.bottom,
        ),
        (640, 640)
    );
    assert_eq!((transform.left, transform.top), (80, 0));
    let bbox = map_box(
        &row(&[80.0, 0.0, 560.0, 640.0]),
        &transform,
        image.width(),
        image.height(),
    )
    .unwrap();
    assert_eq!((bbox.x, bbox.y, bbox.width, bbox.height), (0, 0, 810, 1080));
}

#[test]
fn letterbox_of_a_landscape_picture() {
    let transform = letterbox(1920, 1080, 640, 640);
    assert_eq!(value(transform.scale), 640.0 / 1920.0);
    assert_eq!((transform.resized_width, transform.resized_height), (640, 360));
    assert_eq!((transform.left, transform.right), (0, 0));
    assert_eq!((transform.top, transform.bottom), (140, 140));
    assert_eq!(transform.upsample_size(), [360, 640]);
    assert_eq!(transform.padding(), [0, 0, 140, 140]);
}

#[test]
fn an_odd_margin_is_larger_on_the_far_side() {
    let transform = letterbox(101, 100, 100, 100);
    assert_eq!((transform.resized_width, transform.resized_height), (100, 99));
    assert_eq!((transform.top, transform.bottom), (0, 1));
    let transform = letterbox(95, 100, 100, 100);
    assert_eq!((transform.resized_width, transform.resized_height), (95, 100));
    assert_eq!((transform.left, transform.right), (2, 3));
}

#[test]
fn letterbox_is_the_formula_in_machine_numbers() {
    let mut state = 6;
    for _ in 0..5_000 {
        let bits = next_bits(&mut state);
        let width = ((bits & 0xffff) + 1) as u32;
        let height = (((bits >> 16) & 0xffff) + 1) as u32;
        let target_width = (((bits >> 32) & 0xfff) + 1) as u32;
        let target_height = (((bits >> 44) & 0xfff) + 1) as u32;
        let ours = letterbox(width, height, target_width, target_height);
        let scale = f64::min(
            f64::from(target_width) / f64::from(width),
            f64::from(target_height) / f64::from(height),
        );
        let resized_width = (f64::from(width) * scale).round() as u32;
        let resized_height = (f64::from(height) * scale).round() as u32;
        let rest_x = f64::from(target_width - resized_width) / 2.0;
        let rest_y = f64::from(target_height - resized_height) / 2.0;
        assert_eq!(value(ours.scale), scale);
        assert_eq!(ours.resized_width, resized_width);
        assert_eq!(ours.resized_height, resized_height);
        assert_eq!(ours.left, (rest_x - 0.1).round() as u32);
        assert_eq!(ours.right, (rest_x + 0.1).round() as u32);
        assert_eq!(ours.top, (rest_y - 0.1).round() as u32);
        assert_eq!(ours.bottom, (rest_y + 0.1).round() as u32);
        assert_eq!(ours.left + ours.resized_width + ours.right, target_width);
        assert_eq!(ours.top + ours.resized_height + ours.bottom, target_height);
    }
}

#[test]
fn letterbox_of_an_empty_picture() {
    let transform = letterbox(0, 0, 640, 480);
    assert!(value(transform.scale).is_infinite());
    assert_eq!((transform.resized_width, transform.resized_height), (0, 0));
    assert_eq!((transform.left, transform.top), (320, 240));
}

fn machine_box(row: &[f32], transform: &Letterbox, width: u32, height: u32) -> Option<[u32; 4]> {
    let scale = value(transform.scale);
    let x1 = (f64::from(row[0]) - f64::from(transform.left)) / scale;
    let y1 = (f64::from(row[1]) - f64::from(transform.top)) / scale;
    let x2 = (f64::from(row[2]) - f64::from(transform.left)) / scale;
    let y2 = (f64::from(row[3]) - f64::from(transform.top)) / scale;
    let left = (x1.floor() as i64).clamp(0, i64::from(width)) as u32;
    let top = (y1.floor() as i64).clamp(0, i64::from(height)) as u32;
    let right = (x2.ceil() as i64).clamp(0, i64::from(width)) as u32;
    let bottom = (y2.ceil() as i64).clamp(0, i64::from(height)) as u32;
    if right > left && bottom > top {
        Some([left, top, right - left, bottom - top])
    } else {
        None
    }
}

#[test]
fn boxes_map_back_as_in_machine_numbers() {
    let mut state = 7;
    let mut found = 0;
    for _ in 0..5_000 {
        let bits = next_bits(&mut state);
        let width = ((bits & 0xfff) + 1) as u32;
        let height = (((bits >> 16) & 0xfff) + 1) as u32;
        let transform = letterbox(width, height, 640, 640);
        let corner = |bits: u64| (bits & 0xffff) as f32 / 64.0 - 128.0;
        let values = [
            corner(next_bits(&mut state)),
            corner(next_bits(&mut state)),
            corner(next_bits(&mut state)),
            corner(next_bits(&mut state)),
        ];
        let ours = map_box(&row(&values), &transform, width, height)
            .map(|bbox| [bbox.x, bbox.y, bbox.width, bbox.height]);
        assert_eq!(ours, machine_box(&values, &transform, width, height));
        if ours.is_some() {
            found += 1;
        }
    }
    assert!(found > 100);
}

#[test]
fn boxes_outside_of_the_picture_vanish() {
    let transform = letterbox(810, 1080, 640, 640);
    assert!(map_box(&row(&[0.0, 0.0, 70.0, 640.0]), &transform, 810, 1080).is_none());
    assert!(map_box(&row(&[300.0, 100.0, 200.0, 50.0]), &transform, 810, 1080).is_none());
    let nan = f32::NAN;
    assert!(map_box(&row(&[nan, nan, nan, nan]), &transform, 810, 1080).is_none());
}

#[test]
fn boxes_are_cut_at_the_picture() {
    let transform = letterbox(810, 1080, 640, 640);
    let far = f32::INFINITY;
    let bbox = map_box(&row(&[-far, -far, far, far]), &transform, 810, 1080).unwrap();
    assert_eq!(bbox, BoundingBox { x: 0, y: 0, width: 810, height: 1080 });
}

#[test]
fn the_filled_input_maps_back_to_the_picture() {
    let mut state = 8;
    for _ in 0..2_000 {
        let bits = next_bits(&mut state);
        let width = ((bits & 0x1fff) + 1) as u32;
        let height = (((bits >> 16) & 0x1fff) + 1) as u32;
        let transform = letterbox(width, height, 640, 640);
        let values = [
            transform.left as f32,
            transform.top as f32,
            (transform.left + transform.resized_width) as f32,
            (transform.top + transform.resized_height) as f32,
        ];
        let bbox = match map_box(&row(&values), &transform, width, height) {
            Some(bbox) => bbox,
            None => continue,
        };
        assert_eq!((bbox.x, bbox.y), (0, 0));
        if value(transform.scale) > 0.50001 {
            assert_eq!((bbox.width, bbox.height), (width, height));
        }
        if transform.resized_width == 640 {
            assert_eq!(bbox.width, width);
        }
        if transform.resized_height == 640 {
            assert_eq!(bbox.height, height);
        }
    }
}

#[test]
fn a_picture_that_is_scaled_far_down_loses_rows_at_its_end() {
    let transform = letterbox(3000, 1999, 640, 640);
    assert_eq!((transform.resized_width, transform.resized_height), (640, 426));
    let top = transform.top as f32;
    let bbox = map_box(&row(&[0.0, top, 640.0, top + 426.0]), &transform, 3000, 1999).unwrap();
    assert_eq!(bbox, BoundingBox { x: 0, y: 0, width: 3000, height: 1997 });
}

#[test]
fn the_crop_window_is_the_formula_in_machine_numbers() {
    let mut state = 9;
    for _ in 0..5_000 {
        let bits = next_bits(&mut state);
        let width = ((bits & 0xfff) + 1) as u32;
        let height = (((bits >> 16) & 0xfff) + 1) as u32;
        let transform = letterbox(width, height, 640, 640);
        let x = (next_bits(&mut state) % u64::from(width)) as u32;
        let y = (next_bits(&mut state) % u64::from(height)) as u32;
        let bbox = BoundingBox {
            x,
            y,
            width: 1 + (next_bits(&mut state) % u64::from(width - x)) as u32,
            height: 1 + (next_bits(&mut state) % u64::from(height - y)) as u32,
        };
        let window = crop_window(&bbox, &transform, 160, 160, 640, 640);
        let scale = value(transform.scale);
        let fx = 160_i64 as f64 / f64::from(640_u32);
        let to_x = |x: u32| (f64::from(transform.left) + f64::from(x) * scale) * fx;
        let to_y = |y: u32| (f64::from(transform.top) + f64::from(y) * scale) * fx;
        let x0 = (to_x(bbox.x).floor() as i64).clamp(0, 159);
        let y0 = (to_y(bbox.y).floor() as i64).clamp(0, 159);
        let x1 = (to_x(bbox.x + bbox.width).ceil() as i64).clamp(x0 + 1, 160);
        let y1 = (to_y(bbox.y + bbox.height).ceil() as i64).clamp(y0 + 1, 160);
        assert_eq!(window, CropWindow { x0, y0, x1, y1 });
    }
}

#[test]
fn the_crop_window_of_the_whole_picture() {
    let transform = letterbox(810, 1080, 640, 640);
    let bbox = BoundingBox { x: 0, y: 0, width: 810, height: 1080 };
    let window = crop_window(&bbox, &transform, 160, 160, 640, 640);
    assert_eq!(window, CropWindow { x0: 20, y0: 0, x1: 140, y1: 160 });
}
