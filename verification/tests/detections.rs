//! What is read from the model's output.
use yolo_seg::detection::{decode, Candidates};
use yolo_seg::geometry::letterbox;
use yolo_seg::outputs::{collect_tensors, extract_outputs, shapes, Tensor, Value};
use yolo_seg::{BoundingBox, Detection, Error, Single, Yolo26Config};

fn single(value: f32) -> Single {
    Single { bits: value.to_bits() }
}

fn tensor(handle: usize, size: &[i64]) -> Tensor {
    Tensor { handle, size: size.to_vec() }
}

fn output_error(value: &Value) -> String {
    match extract_outputs(value) {
        Err(Error::ModelOutput(text)) => text,
        other => panic!("{other:?}"),
    }
}

#[test]
fn outputs_are_picked_by_their_shapes() {
    let value = Value::Tuple(vec![
        Value::Tensor(tensor(0, &[1, 300, 38])),
        Value::Tensor(tensor(1, &[1, 32, 160, 160])),
    ]);
    let outputs = extract_outputs(&value).ok().unwrap();
    assert_eq!((outputs.detections, outputs.prototypes), (0, 1));
    assert!(!outputs.transposed);
    assert_eq!(
        (outputs.channels, outputs.proto_height, outputs.proto_width),
        (32, 160, 160)
    );
}

#[test]
fn turned_detections_are_recognised() {
    let value = Value::GenericList(vec![
        Value::Other,
        Value::TensorList(vec![tensor(4, &[1, 38, 8400]), tensor(7, &[1, 32, 80, 120])]),
    ]);
    let outputs = extract_outputs(&value).ok().unwrap();
    assert_eq!((outputs.detections, outputs.prototypes), (4, 7));
    assert!(outputs.transposed);
    assert_eq!((outputs.proto_height, outputs.proto_width), (80, 120));
}

#[test]
fn square_detections_are_not_turned() {
    let value = Value::Tuple(vec![
        Value::Tensor(tensor(1, &[1, 2, 3, 3])),
        Value::Tensor(tensor(2, &[1, 8, 8])),
    ]);
    assert!(!extract_outputs(&value).ok().unwrap().transposed);
}

#[test]
fn the_first_fitting_tensors_are_taken() {
    let value = Value::GenericDict(vec![(
        Value::Tensor(tensor(1, &[2, 32, 9, 9])),
        Value::Tuple(vec![
            Value::Tensor(tensor(2, &[1, 0, 9, 9])),
            Value::Tensor(tensor(3, &[1, 4, 9, 9])),
            Value::Tensor(tensor(4, &[1, 5, 9, 9])),
            Value::Tensor(tensor(5, &[2, 3, 10])),
            Value::Tensor(tensor(6, &[1, 3, 11])),
            Value::Tensor(tensor(8, &[1, 10, 7])),
            Value::Tensor(tensor(9, &[1, 3, 10])),
        ]),
    )]);
    let outputs = extract_outputs(&value).ok().unwrap();
    assert_eq!((outputs.prototypes, outputs.detections), (3, 8));
    assert!(outputs.transposed);
    let value = Value::TensorList(vec![
        tensor(9, &[1, 3, 10]),
        tensor(8, &[1, 10, 7]),
        tensor(3, &[1, 4, 9, 9]),
    ]);
    let outputs = extract_outputs(&value).ok().unwrap();
    assert_eq!((outputs.prototypes, outputs.detections), (3, 9));
    assert!(!outputs.transposed);
}

#[test]
fn missing_prototypes_are_an_error() {
    let value = Value::Tuple(vec![
        Value::Tensor(tensor(0, &[1, 300, 38])),
        Value::Tensor(tensor(1, &[])),
        Value::Tensor(tensor(2, &[1, -1, 160, 160])),
    ]);
    assert_eq!(
        output_error(&value),
        "prototype tensor [1,C,H,W] not found; tensors: [1, 300, 38], [], [1, -1, 160, 160]"
    );
    assert_eq!(
        output_error(&Value::Other),
        "prototype tensor [1,C,H,W] not found; tensors: "
    );
}

#[test]
fn missing_detections_are_an_error() {
    let value = Value::Tuple(vec![
        Value::Tensor(tensor(0, &[1, 116, 8400])),
        Value::Tensor(tensor(1, &[1, 32, 160, 160])),
    ]);
    assert_eq!(
        output_error(&value),
        "detection tensor [1,N,38] not found; tensors: [1, 116, 8400], [1, 32, 160, 160]. \
         Export with scripts/export_torchscript.py"
    );
}

#[test]
fn tensors_are_collected_in_order() {
    let value = Value::GenericDict(vec![
        (Value::Tensor(tensor(1, &[1])), Value::Tensor(tensor(2, &[2]))),
        (
            Value::Other,
            Value::Tuple(vec![
                Value::TensorList(vec![tensor(3, &[3]), tensor(4, &[4])]),
                Value::GenericList(vec![Value::Tensor(tensor(5, &[5, 10]))]),
            ]),
        ),
    ]);
    let mut tensors = Vec::new();
    collect_tensors(&value, &mut tensors);
    let handles: Vec<usize> = tensors.iter().map(|tensor| tensor.handle).collect();
    assert_eq!(handles, vec![1, 2, 3, 4, 5]);
    let sizes: Vec<String> =
        tensors.iter().map(|tensor| format!("{:?}", tensor.size)).collect();
    assert_eq!(shapes(&tensors), sizes.join(", "));
    assert_eq!(shapes(&tensors), "[1], [2], [3], [4], [5, 10]");
}

#[test]
fn extreme_sizes_are_written_out() {
    let odd = tensor(0, &[i64::MIN, i64::MAX, 0, -10, 9, 1_000_000]);
    let text = shapes(&vec![&odd]);
    assert_eq!(text, format!("{:?}", odd.size));
}

fn row(values: &[f32]) -> Vec<Single> {
    values.iter().map(|value| single(*value)).collect()
}

fn read(rows: &Vec<Vec<Single>>, threshold: f32) -> Candidates {
    let config =
        Yolo26Config { confidence_threshold: single(threshold), ..Yolo26Config::default() };
    let transform = letterbox(810, 1080, 640, 640);
    decode(rows, 2, &transform, 810, 1080, &config)
}

#[test]
fn confident_rows_become_candidates() {
    let rows = vec![
        row(&[80.0, 0.0, 560.0, 640.0, 0.9, 2.0, 0.5, -1.5]),
        row(&[80.0, 0.0, 560.0, 640.0, 0.1, 3.0, 7.0, 8.0]),
        row(&[200.0, 100.0, 300.0, 200.0, 0.25, 0.6, 3.0, 4.0]),
    ];
    let kept = read(&rows, 0.25);
    assert_eq!(kept.candidates.len(), 2);
    assert_eq!(kept.candidates[0].class_id, 2);
    assert_eq!(kept.candidates[0].confidence.bits, 0.9f32.to_bits());
    assert_eq!(
        kept.candidates[0].bbox,
        BoundingBox { x: 0, y: 0, width: 810, height: 1080 }
    );
    assert_eq!(kept.candidates[1].class_id, 1);
    assert_eq!(
        kept.candidates[1].bbox,
        BoundingBox { x: 202, y: 168, width: 170, height: 170 }
    );
    let coefficients: Vec<f32> =
        kept.coefficients.iter().map(|value| f32::from_bits(value.bits)).collect();
    assert_eq!(coefficients, vec![0.5, -1.5, 3.0, 4.0]);
}

#[test]
fn unusable_rows_are_dropped() {
    let rows = vec![
        row(&[80.0, 0.0, 560.0, 640.0, 0.9, 2.0, 0.5]),
        row(&[80.0, 0.0, 560.0, 640.0, f32::NAN, 2.0, 0.5, 0.5]),
        row(&[80.0, 0.0, 560.0, 640.0, f32::INFINITY, 2.0, 0.5, 0.5]),
        row(&[0.0, 0.0, 60.0, 640.0, 0.9, 2.0, 0.5, 0.5]),
        row(&[]),
    ];
    let kept = read(&rows, 0.0);
    assert!(kept.candidates.is_empty());
    assert!(kept.coefficients.is_empty());
    assert!(read(&Vec::new(), 0.0).candidates.is_empty());
}

#[test]
fn classes_are_rounded_and_kept_within_range() {
    let class = |value: f32| {
        let rows = vec![row(&[80.0, 0.0, 560.0, 640.0, 0.9, value, 0.0, 0.0])];
        read(&rows, 0.25).candidates[0].class_id
    };
    for value in [0.49f32, 0.5, 1.5, 2.5, -0.5, -1.5, 1e30, -1e30, f32::NAN, f32::INFINITY] {
        assert_eq!(class(value), value.round() as i64, "{value}");
    }
}

#[test]
fn a_candidate_gets_its_mask() {
    let rows = vec![row(&[80.0, 0.0, 560.0, 640.0, 0.9, 5.0, 0.0, 0.0])];
    let values = row(&[0.75, 0.5, 0.500001]);
    let detection = read(&rows, 0.25).candidates[0].with_mask(&values, &Yolo26Config::default());
    assert_eq!(detection.class_id, 5);
    assert_eq!(detection.confidence.bits, 0.9f32.to_bits());
    assert_eq!(detection.bbox.width, 810);
    assert_eq!(detection.mask, vec![1, 0, 1]);
    assert_eq!(detection.mask_pixels(), 2);
}

#[test]
fn masks_are_set_above_the_threshold() {
    let rows = vec![row(&[80.0, 0.0, 560.0, 640.0, 0.9, 5.0, 0.0, 0.0])];
    let values = [-1.0f32, -0.0, 0.0, 0.3, 0.3000001, 1.0, f32::NAN, f32::INFINITY];
    for threshold in [0.0f32, 0.3, 0.5, 1.0] {
        let config = Yolo26Config { mask_threshold: single(threshold), ..Yolo26Config::default() };
        let detection = read(&rows, 0.25).candidates[0].with_mask(&row(&values), &config);
        let expected: Vec<u8> = values.iter().map(|value| u8::from(*value > threshold)).collect();
        assert_eq!(detection.mask, expected, "{threshold}");
    }
}

#[test]
fn the_mask_threshold_only_thins_masks() {
    let rows = vec![
        row(&[80.0, 0.0, 560.0, 640.0, 0.9, 5.0, 1.0, 2.0]),
        row(&[200.0, 100.0, 300.0, 200.0, 0.4, 1.0, 3.0, 4.0]),
    ];
    let values = row(&[0.1, 0.35, 0.45, 0.9]);
    let transform = letterbox(810, 1080, 640, 640);
    let low = Yolo26Config { mask_threshold: single(0.3), ..Yolo26Config::default() };
    let high = Yolo26Config { mask_threshold: single(0.4), ..Yolo26Config::default() };
    let wide = decode(&rows, 2, &transform, 810, 1080, &low);
    let thin = decode(&rows, 2, &transform, 810, 1080, &high);
    assert_eq!((wide.candidates.len(), thin.candidates.len()), (2, 2));
    for (a, b) in wide.candidates.iter().zip(&thin.candidates) {
        assert_eq!((a.class_id, a.confidence.bits, a.bbox), (b.class_id, b.confidence.bits, b.bbox));
        let (a, b) = (a.with_mask(&values, &low), b.with_mask(&values, &high));
        assert_eq!((a.mask_pixels(), b.mask_pixels()), (3, 2));
        assert!(a.mask.iter().zip(&b.mask).all(|(wide, thin)| thin <= wide));
    }
    assert_eq!(wide.coefficients.len(), thin.coefficients.len());
}

#[test]
fn mask_values_are_summed() {
    let detection = |mask: Vec<u8>| Detection {
        class_id: 0,
        confidence: single(1.0),
        bbox: BoundingBox { x: 0, y: 0, width: 2, height: 2 },
        mask,
    };
    assert_eq!(detection(vec![]).mask_pixels(), 0);
    assert_eq!(detection(vec![1, 1, 0, 1]).mask_pixels(), 3);
    assert_eq!(detection(vec![255, 2, 0, 1]).mask_pixels(), 258);
}
