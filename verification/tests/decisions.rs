//! Settings, backends and the course of a prediction.
use yolo_seg::arguments::{needs_directory, validate_args};
use yolo_seg::config::{choose_backend, validate_config, Device, Kind};
use yolo_seg::segmenter::{opening_warning, switch_warning, Action, Event, Opening, Stage};
use yolo_seg::timing::{add_timing, divide_timing, milliseconds, Measurement};
use yolo_seg::{
    Backend, BoundingBox, Detection, DevicePreference, Double, Error, PrecisionPreference, Single,
    StageTiming, Yolo26Config, Yolo26Segmenter,
};

fn single(value: f32) -> Single {
    Single { bits: value.to_bits() }
}

fn double(value: f64) -> Double {
    Double { bits: value.to_bits() }
}

fn value(double: Double) -> f64 {
    f64::from_bits(double.bits)
}

fn torch(text: &str) -> Error {
    Error::Torch(text.to_string())
}

fn config_text(result: Result<(), Error>) -> String {
    match result {
        Err(Error::Config(text)) => text,
        other => panic!("{other:?}"),
    }
}

fn on_device(device: DevicePreference, precision: PrecisionPreference) -> Yolo26Config {
    Yolo26Config { device, precision, ..Yolo26Config::default() }
}

#[test]
fn default_settings() {
    let config = Yolo26Config::default();
    assert_eq!((config.input_width, config.input_height), (640, 640));
    assert_eq!(config.confidence_threshold.bits, 0.25f32.to_bits());
    assert_eq!(config.mask_threshold.bits, 0.5f32.to_bits());
    assert_eq!(config.device, DevicePreference::Auto);
    assert_eq!(config.precision, PrecisionPreference::Auto);
    assert!(validate_config(&config).is_ok());
}

#[test]
fn unusable_settings_are_refused() {
    let config = Yolo26Config::default();
    let flat = Yolo26Config { input_height: 0, ..config };
    assert_eq!(config_text(validate_config(&flat)), "input dimensions must be positive");
    let narrow = Yolo26Config { input_width: 0, ..config };
    assert_eq!(config_text(validate_config(&narrow)), "input dimensions must be positive");
    for threshold in [-0.001f32, 1.001, f32::NAN, f32::INFINITY, f32::NEG_INFINITY] {
        let sure = Yolo26Config { confidence_threshold: single(threshold), ..config };
        assert_eq!(
            config_text(validate_config(&sure)),
            "confidence threshold must be between 0 and 1"
        );
        let masked = Yolo26Config { mask_threshold: single(threshold), ..config };
        assert_eq!(
            config_text(validate_config(&masked)),
            "mask threshold must be between 0 and 1"
        );
    }
    for threshold in [0.0f32, -0.0, 1.0, f32::MIN_POSITIVE] {
        let edge = Yolo26Config {
            confidence_threshold: single(threshold),
            mask_threshold: single(threshold),
            ..config
        };
        assert!(validate_config(&edge).is_ok());
    }
    let half = on_device(DevicePreference::Cpu, PrecisionPreference::F16);
    assert_eq!(
        config_text(validate_config(&half)),
        "FP16 is only supported by the MPS backend in this application"
    );
}

#[test]
fn backends_are_chosen_by_device_and_precision() {
    let choose = |device, precision, mps| choose_backend(device, precision, mps).ok();
    for precision in [PrecisionPreference::Auto, PrecisionPreference::F32, PrecisionPreference::F16] {
        assert_eq!(choose(DevicePreference::Cpu, precision, true), Some(Backend::CpuF32));
        assert_eq!(choose(DevicePreference::Auto, precision, false), Some(Backend::CpuF32));
        assert_eq!(choose(DevicePreference::Mps, precision, false), None);
    }
    for device in [DevicePreference::Auto, DevicePreference::Mps] {
        assert_eq!(choose(device, PrecisionPreference::Auto, true), Some(Backend::MpsF16));
        assert_eq!(choose(device, PrecisionPreference::F16, true), Some(Backend::MpsF16));
        assert_eq!(choose(device, PrecisionPreference::F32, true), Some(Backend::MpsF32));
    }
    match choose_backend(DevicePreference::Mps, PrecisionPreference::Auto, false) {
        Err(Error::Config(text)) => assert_eq!(
            text,
            "MPS was requested but this LibTorch build has no MPS backend"
        ),
        other => panic!("{other:?}"),
    }
}

#[test]
fn backends_have_a_device_a_kind_and_a_name() {
    assert_eq!(Backend::CpuF32.device(), Device::Cpu);
    assert_eq!(Backend::MpsF32.device(), Device::Mps);
    assert_eq!(Backend::MpsF16.device(), Device::Mps);
    assert_eq!(Backend::CpuF32.kind(), Kind::Float);
    assert_eq!(Backend::MpsF32.kind(), Kind::Float);
    assert_eq!(Backend::MpsF16.kind(), Kind::Half);
    assert_eq!(Backend::CpuF32.name(), "cpu-f32");
    assert_eq!(Backend::MpsF32.name(), "mps-f32");
    assert_eq!(Backend::MpsF16.name(), "mps-f16");
}

#[test]
fn errors_have_their_texts() {
    assert_eq!(torch("lost").message(), "LibTorch error: lost");
    assert_eq!(Error::Image("torn".to_string()).message(), "cannot decode image: torn");
    assert_eq!(Error::Config("odd".to_string()).message(), "invalid configuration: odd");
    assert_eq!(
        Error::ModelOutput("empty".to_string()).message(),
        "unexpected model output: empty"
    );
}

fn ready(config: Yolo26Config) -> Yolo26Segmenter {
    let mut segmenter = match Yolo26Segmenter::new(config, true) {
        Ok(segmenter) => segmenter,
        Err(error) => panic!("{error:?}"),
    };
    assert_eq!(segmenter.stage(), Stage::Opening);
    assert!(matches!(segmenter.opened(Ok(())), Opening::Ready));
    segmenter
}

#[test]
fn a_segmenter_needs_usable_settings() {
    let config = Yolo26Config { input_width: 0, ..Yolo26Config::default() };
    assert!(matches!(
        Yolo26Segmenter::new(config, true),
        Err(Error::Config(text)) if text == "input dimensions must be positive"
    ));
    let config = on_device(DevicePreference::Mps, PrecisionPreference::Auto);
    assert!(matches!(
        Yolo26Segmenter::new(config, false),
        Err(Error::Config(text))
            if text == "MPS was requested but this LibTorch build has no MPS backend"
    ));
}

fn load_after(segmenter: &mut Yolo26Segmenter, text: &str) -> Backend {
    match segmenter.opened(Err(torch(text))) {
        Opening::Load { backend, cause } => {
            assert_eq!(cause, torch(text));
            assert_eq!(segmenter.backend(), backend);
            assert_eq!(segmenter.stage(), Stage::Opening);
            backend
        }
        other => panic!("{other:?}"),
    }
}

#[test]
fn a_model_that_mps_refuses_in_half_precision_is_loaded_in_single_precision() {
    let mut segmenter = Yolo26Segmenter::new(Yolo26Config::default(), true).ok().unwrap();
    assert_eq!(segmenter.backend(), Backend::MpsF16);
    assert_eq!(load_after(&mut segmenter, "no half"), Backend::MpsF32);
    assert!(matches!(segmenter.opened(Ok(())), Opening::Ready));
    assert_eq!(segmenter.backend(), Backend::MpsF32);
    assert_eq!(segmenter.stage(), Stage::Ready);
}

#[test]
fn a_model_that_mps_refuses_is_loaded_on_the_cpu() {
    let mut segmenter = Yolo26Segmenter::new(Yolo26Config::default(), true).ok().unwrap();
    assert_eq!(load_after(&mut segmenter, "no half"), Backend::MpsF32);
    assert_eq!(load_after(&mut segmenter, "no single"), Backend::CpuF32);
    assert!(matches!(segmenter.opened(Ok(())), Opening::Ready));
    assert_eq!(segmenter.backend(), Backend::CpuF32);
    assert_eq!(segmenter.stage(), Stage::Ready);
}

#[test]
fn a_model_that_the_cpu_refuses_is_an_error() {
    let mut segmenter = Yolo26Segmenter::new(Yolo26Config::default(), true).ok().unwrap();
    assert_eq!(load_after(&mut segmenter, "first"), Backend::MpsF32);
    assert_eq!(load_after(&mut segmenter, "second"), Backend::CpuF32);
    match segmenter.opened(Err(torch("third"))) {
        Opening::Fail(error) => assert_eq!(error, torch("third")),
        other => panic!("{other:?}"),
    }
    assert_eq!(segmenter.stage(), Stage::Closed);
}

#[test]
fn a_named_device_is_not_replaced_while_loading() {
    let config = on_device(DevicePreference::Mps, PrecisionPreference::Auto);
    let mut segmenter = Yolo26Segmenter::new(config, true).ok().unwrap();
    match segmenter.opened(Err(torch("gone"))) {
        Opening::Fail(error) => assert_eq!(error, torch("gone")),
        other => panic!("{other:?}"),
    }
    assert_eq!(segmenter.backend(), Backend::MpsF16);
}

#[test]
fn a_prediction_that_succeeds_stays_on_its_backend() {
    let mut segmenter = ready(Yolo26Config::default());
    assert!(matches!(segmenter.predict(Event::Start), Action::Infer));
    assert!(matches!(segmenter.predict(Event::Predicted), Action::Finish));
    assert_eq!(segmenter.backend(), Backend::MpsF16);
    assert_eq!(segmenter.stage(), Stage::Ready);
    assert_eq!(segmenter.config().input_width, 640);
}

#[test]
fn a_prediction_names_the_backend_it_ran_on() {
    let mut segmenter = ready(Yolo26Config::default());
    segmenter.predict(Event::Start);
    let prediction = segmenter.prediction(Vec::new(), took(3.5));
    assert_eq!(prediction.backend, Backend::MpsF16);
    assert_eq!(value(prediction.timing.total_ms), 3.5);
    assert!(prediction.detections.is_empty());
    segmenter.predict(Event::PredictionFailed(torch("half")));
    segmenter.predict(Event::Switched);
    let found = Detection {
        class_id: 7,
        confidence: single(0.75),
        bbox: BoundingBox { x: 1, y: 2, width: 3, height: 4 },
        mask: vec![1, 0],
    };
    let prediction = segmenter.prediction(vec![found], took(4.5));
    assert!(matches!(segmenter.predict(Event::Predicted), Action::Finish));
    assert_eq!(prediction.backend, Backend::MpsF32);
    assert_eq!(prediction.backend, segmenter.backend());
    assert_eq!(value(prediction.timing.total_ms), 4.5);
    assert_eq!(prediction.detections.len(), 1);
    assert_eq!((prediction.detections[0].class_id, prediction.detections[0].mask_pixels()), (7, 1));
}

#[test]
fn a_failing_prediction_falls_back_twice_and_fails() {
    let mut segmenter = ready(Yolo26Config::default());
    assert!(matches!(segmenter.predict(Event::Start), Action::Infer));
    match segmenter.predict(Event::PredictionFailed(torch("half"))) {
        Action::Switch { backend, cause, again } => {
            assert_eq!((backend, cause, again), (Backend::MpsF32, torch("half"), false));
        }
        other => panic!("{other:?}"),
    }
    assert_eq!(segmenter.backend(), Backend::MpsF16);
    assert!(matches!(segmenter.predict(Event::Switched), Action::Infer));
    assert_eq!(segmenter.backend(), Backend::MpsF32);
    match segmenter.predict(Event::PredictionFailed(torch("full"))) {
        Action::Switch { backend, cause, again } => {
            assert_eq!((backend, cause, again), (Backend::CpuF32, torch("full"), true));
        }
        other => panic!("{other:?}"),
    }
    assert!(matches!(segmenter.predict(Event::Switched), Action::Infer));
    match segmenter.predict(Event::PredictionFailed(torch("cpu"))) {
        Action::Fail(error) => assert_eq!(error, torch("cpu")),
        other => panic!("{other:?}"),
    }
    assert_eq!(segmenter.backend(), Backend::CpuF32);
    assert_eq!(segmenter.stage(), Stage::Ready);
}

#[test]
fn single_precision_falls_back_to_the_cpu() {
    let mut segmenter = ready(on_device(DevicePreference::Auto, PrecisionPreference::F32));
    segmenter.predict(Event::Start);
    match segmenter.predict(Event::PredictionFailed(torch("full"))) {
        Action::Switch { backend, cause, again } => {
            assert_eq!((backend, cause, again), (Backend::CpuF32, torch("full"), false));
        }
        other => panic!("{other:?}"),
    }
    assert!(matches!(segmenter.predict(Event::Switched), Action::Infer));
    assert!(matches!(segmenter.predict(Event::Predicted), Action::Finish));
    assert_eq!(segmenter.backend(), Backend::CpuF32);
}

fn switch_after(segmenter: &mut Yolo26Segmenter, text: &str) -> (Backend, bool) {
    match segmenter.predict(Event::SwitchFailed(torch(text))) {
        Action::Switch { backend, cause, again } => {
            assert_eq!(cause, torch(text));
            (backend, again)
        }
        other => panic!("{other:?}"),
    }
}

#[test]
fn a_prediction_reaches_the_cpu_past_a_failed_switch() {
    let mut segmenter = ready(Yolo26Config::default());
    segmenter.predict(Event::Start);
    segmenter.predict(Event::PredictionFailed(torch("half")));
    assert_eq!(switch_after(&mut segmenter, "no single"), (Backend::CpuF32, true));
    assert_eq!(segmenter.backend(), Backend::MpsF16);
    assert!(matches!(segmenter.predict(Event::Switched), Action::Infer));
    assert_eq!(segmenter.backend(), Backend::CpuF32);
    assert!(matches!(segmenter.predict(Event::Predicted), Action::Finish));
    assert_eq!(segmenter.backend(), Backend::CpuF32);
    assert_eq!(segmenter.stage(), Stage::Ready);
}

#[test]
fn a_failed_switch_to_the_cpu_is_an_error_and_changes_nothing() {
    let mut segmenter = ready(Yolo26Config::default());
    segmenter.predict(Event::Start);
    segmenter.predict(Event::PredictionFailed(torch("half")));
    switch_after(&mut segmenter, "no single");
    match segmenter.predict(Event::SwitchFailed(torch("file lost"))) {
        Action::Fail(error) => assert_eq!(error, torch("file lost")),
        other => panic!("{other:?}"),
    }
    assert_eq!(segmenter.backend(), Backend::MpsF16);
    assert_eq!(segmenter.stage(), Stage::Ready);
}

#[test]
fn warnings_name_what_failed_and_what_comes_next() {
    assert_eq!(
        switch_warning(Backend::MpsF32, "lost", false),
        "MPS FP16 failed (lost); retrying with MPS FP32"
    );
    assert_eq!(
        switch_warning(Backend::CpuF32, "lost", true),
        "MPS FP32 failed (lost); falling back to CPU"
    );
    assert_eq!(
        switch_warning(Backend::CpuF32, "lost", false),
        "MPS failed (lost); falling back to CPU"
    );
    assert_eq!(
        opening_warning(Backend::MpsF32, "lost"),
        "model cannot be loaded on MPS FP16 (lost); retrying with MPS FP32"
    );
    assert_eq!(
        opening_warning(Backend::CpuF32, "lost"),
        "model cannot be loaded on MPS (lost); falling back to CPU"
    );
}

#[test]
fn a_named_device_is_not_replaced_while_predicting() {
    for (device, precision, expected) in [
        (DevicePreference::Mps, PrecisionPreference::Auto, Backend::MpsF16),
        (DevicePreference::Mps, PrecisionPreference::F32, Backend::MpsF32),
        (DevicePreference::Cpu, PrecisionPreference::Auto, Backend::CpuF32),
    ] {
        let mut segmenter = ready(on_device(device, precision));
        segmenter.predict(Event::Start);
        match segmenter.predict(Event::PredictionFailed(torch("lost"))) {
            Action::Fail(error) => assert_eq!(error, torch("lost")),
            other => panic!("{other:?}"),
        }
        assert_eq!(segmenter.backend(), expected);
        assert_eq!(segmenter.stage(), Stage::Ready);
    }
}

#[test]
fn times_add_up_and_average() {
    let none = StageTiming::default();
    assert_eq!(value(none.total_ms), 0.0);
    let one = StageTiming {
        preprocess_ms: double(1.5),
        inference_ms: double(20.25),
        postprocess_ms: double(0.1),
        total_ms: double(21.9),
    };
    let mut sum = one;
    add_timing(&mut sum, one);
    add_timing(&mut sum, one);
    assert_eq!(value(sum.preprocess_ms), 1.5 + 1.5 + 1.5);
    assert_eq!(value(sum.inference_ms), 20.25 + 20.25 + 20.25);
    assert_eq!(value(sum.postprocess_ms), 0.1 + 0.1 + 0.1);
    assert_eq!(value(sum.total_ms), 21.9 + 21.9 + 21.9);
    let average = divide_timing(sum, Double::from_u32(3));
    assert_eq!(value(average.preprocess_ms), 4.5 / 3.0);
    assert_eq!(value(average.inference_ms), 60.75 / 3.0);
    assert_eq!(value(average.postprocess_ms), (0.1 + 0.1 + 0.1) / 3.0);
    assert_eq!(value(average.total_ms), (21.9 + 21.9 + 21.9) / 3.0);
    assert_eq!(value(milliseconds(double(0.0125))), 12.5);
}

fn took(total: f64) -> StageTiming {
    StageTiming { total_ms: double(total), ..StageTiming::default() }
}

#[test]
fn warmup_runs_are_left_out_of_the_average() {
    let mut measurement = Measurement::new(2, 3);
    for total in [900.0, 100.0, 1.0, 2.0] {
        measurement.record(took(total));
        assert!(!measurement.is_complete());
    }
    measurement.record(took(4.0));
    assert!(measurement.is_complete());
    assert_eq!(value(measurement.average().total_ms), (1.0 + 2.0 + 4.0) / 3.0);
    assert_eq!(value(measurement.average().inference_ms), 0.0);
}

#[test]
fn one_run_without_warmup_is_its_own_average() {
    let mut measurement = Measurement::new(0, 1);
    assert!(!measurement.is_complete());
    measurement.record(took(12.25));
    assert!(measurement.is_complete());
    assert_eq!(value(measurement.average().total_ms), 12.25);
}

#[test]
fn unusable_arguments_are_refused() {
    let check = |model, input, iterations, threads| {
        validate_args("m.pt", model, "in.jpg", input, iterations, threads)
    };
    assert_eq!(check(true, true, 1, 0), Ok(()));
    assert_eq!(check(false, false, 0, -1), Err("model does not exist: m.pt".to_string()));
    assert_eq!(check(true, false, 0, -1), Err("input image does not exist: in.jpg".to_string()));
    assert_eq!(check(true, true, 0, -1), Err("--iterations must be at least 1".to_string()));
    assert_eq!(check(true, true, 1, -1), Err("--threads cannot be negative".to_string()));
}

#[test]
fn only_a_path_with_a_directory_needs_one() {
    assert!(!needs_directory(None));
    assert!(!needs_directory(Some("")));
    assert!(needs_directory(Some("out")));
}
