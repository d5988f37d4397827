//! What is written about the detections in a picture.
use crate::detection::{is_binary, law_binary_mask_sum_counts, mask_sum, Detection};
use crate::geometry::BoundingBox;
use crate::picture::{picture_height, picture_width};
use crate::single::Single;
use crate::text::{class_name, file_name, is_part, is_portable, last_name, pieces};
use vstd::prelude::*;

verus! {

/// A detection in the report.
#[derive(Debug)]
pub struct JsonDetection<'a> {
    pub class_id: i64,
    pub class_name: &'a str,
    pub confidence: Single,
    pub box_: BoundingBox,
    pub mask_pixels: usize,
}

/// The size of a picture.
#[derive(Debug, Clone, Copy)]
pub struct ImageSize {
    pub width: u32,
    pub height: u32,
}

/// The report.
#[derive(Debug)]
pub struct JsonOutput<'a> {
    pub schema_version: u32,
    pub implementation: &'static str,
    pub backend: String,
    pub model: String,
    pub input: String,
    pub image_size: ImageSize,
    pub detections: Vec<JsonDetection<'a>>,
}

/// The entry describes the detection, with the name that the list gives to its
/// class, if any, and the number of pixels that are set in its mask.
pub open spec fn describes(
    entry: JsonDetection<'_>,
    detection: Detection,
    classes: Seq<String>,
) -> bool {
    &&& entry.class_id == detection.class_id
    &&& entry.class_name@ == if 0 <= detection.class_id < classes.len() {
        classes[detection.class_id as int]@
    } else {
        Seq::empty()
    }
    &&& entry.confidence == detection.confidence
    &&& entry.box_ == detection.bbox
    &&& entry.mask_pixels == mask_sum(detection.mask@)
}

/// The report holds these names, the size of the picture, and an entry for every
/// detection, in their order.
pub open spec fn reports(
    output: JsonOutput<'_>,
    model: Seq<char>,
    input: Seq<char>,
    picture: image::DynamicImage,
    detections: Seq<Detection>,
    classes: Seq<String>,
    backend: Seq<char>,
) -> bool {
    &&& output.schema_version == 1
    &&& output.implementation@ == "yolo26-rust-libtorch"@
    &&& output.backend@ == backend
    &&& output.model@ == model
    &&& output.input@ == input
    &&& output.image_size.width == picture_width(picture)
    &&& output.image_size.height == picture_height(picture)
    &&& output.detections@.len() == detections.len()
    &&& forall|i: int|
        0 <= i < detections.len() ==> describes(
            #[trigger] output.detections@[i],
            detections[i],
            classes,
        )
}

/// The report on the detections in a picture, where `model` and `input` are file
/// names.
pub fn named_output<'a>(
    model: String,
    input: String,
    picture: &image::DynamicImage,
    detections: &[Detection],
    classes: &'a [String],
    backend: &str,
) -> (output: JsonOutput<'a>)
    requires
        forall|i: int|
            0 <= i < detections@.len() ==> mask_sum((#[trigger] detections@[i]).mask@)
                <= usize::MAX,
    ensures
        reports(output, model@, input@, *picture, detections@, classes@, backend@),
{
    let mut entries: Vec<JsonDetection<'a>> = Vec::new();
    let mut i: usize = 0;
    while i < detections.len()
        invariant
            i <= detections@.len(),
            entries@.len() == i,
            forall|k: int|
                0 <= k < detections@.len() ==> mask_sum((#[trigger] detections@[k]).mask@)
                    <= usize::MAX,
            forall|k: int|
                0 <= k < i ==> describes(#[trigger] entries@[k], detections@[k], classes@),
        decreases detections@.len() - i,
    {
        let detection: &Detection = &detections[i];
        entries.push(
            JsonDetection {
                class_id: detection.class_id,
                class_name: class_name(detection.class_id, classes),
                confidence: detection.confidence,
                box_: detection.bbox,
                mask_pixels: detection.mask_pixels(),
            },
        );
        i = i + 1;
    }
    JsonOutput {
        schema_version: 1,
        implementation: "yolo26-rust-libtorch",
        backend: backend.to_string(),
        model,
        input,
        image_size: ImageSize { width: picture.width(), height: picture.height() },
        detections: entries,
    }
}

/// The report on the detections in a picture, where `model` and `input` are paths,
/// of which the report holds the file names.
pub fn json_output<'a>(
    model: &str,
    input: &str,
    picture: &image::DynamicImage,
    detections: &[Detection],
    classes: &'a [String],
    backend: &str,
) -> (output: JsonOutput<'a>)
    requires
        forall|i: int|
            0 <= i < detections@.len() ==> mask_sum((#[trigger] detections@[i]).mask@)
                <= usize::MAX,
    ensures
        reports(
            output,
            output.model@,
            output.input@,
            *picture,
            detections@,
            classes@,
            backend@,
        ),
        output.model@.len() == 0 || is_part(output.model@, model@),
        output.input@.len() == 0 || is_part(output.input@, input@),
        is_portable(model@) ==> output.model@ == last_name(pieces(model@, '/')),
        is_portable(input@) ==> output.input@ == last_name(pieces(input@, '/')),
{
    named_output(file_name(model), file_name(input), picture, detections, classes, backend)
}

/// A report on detections with binary masks can be made: the sum of a mask is
/// never more than the mask has values.
pub proof fn law_binary_masks_can_be_reported(detections: Seq<Detection>)
    requires
        forall|i: int|
            0 <= i < detections.len() ==> is_binary(
                (#[trigger] detections[i]).mask@,
            ),
    ensures
        forall|i: int|
            0 <= i < detections.len() ==> mask_sum((#[trigger] detections[i]).mask@)
                <= detections[i].mask@.len(),
{
    assert forall|i: int| 0 <= i < detections.len() implies mask_sum(
        (#[trigger] detections[i]).mask@,
    ) <= detections[i].mask@.len() by {
        law_binary_mask_sum_counts(detections[i].mask@);
    }
}

/// An entry describes a detection with its own numbers: its class and the name that
/// stands at that place in the list, if any, its confidence, its box, and the sum of
/// its mask.
pub proof fn law_entry_describes_detection(
    entry: JsonDetection<'_>,
    detection: Detection,
    classes: Seq<String>,
)
    requires
        describes(entry, detection, classes),
    ensures
        entry.class_id == detection.class_id,
        entry.confidence == detection.confidence,
        entry.box_ == detection.bbox,
        entry.mask_pixels == mask_sum(detection.mask@),
        forall|i: int|
            0 <= i < classes.len() && i == detection.class_id ==> entry.class_name@
                == #[trigger] classes[i]@,
        detection.class_id < 0 || detection.class_id >= classes.len() ==> entry.class_name@.len()
            == 0,
{
}

/// A report holds the names, the size of the picture, and one entry for every
/// detection, in their order.
pub proof fn law_report_holds_all(
    output: JsonOutput<'_>,
    model: Seq<char>,
    input: Seq<char>,
    picture: image::DynamicImage,
    detections: Seq<Detection>,
    classes: Seq<String>,
    backend: Seq<char>,
)
    requires
        reports(output, model, input, picture, detections, classes, backend),
    ensures
        output.schema_version == 1,
        output.implementation@ == "yolo26-rust-libtorch"@,
        output.backend@ == backend,
        output.model@ == model,
        output.input@ == input,
        output.image_size.width == picture_width(picture),
        output.image_size.height == picture_height(picture),
        output.detections@.len() == detections.len(),
        forall|i: int|
            0 <= i < detections.len() ==> {
                let entry: JsonDetection<'_> = #[trigger] output.detections@[i];
                &&& entry.class_id == detections[i].class_id
                &&& entry.confidence == detections[i].confidence
                &&& entry.box_ == detections[i].bbox
                &&& entry.mask_pixels == mask_sum(detections[i].mask@)
            },
{
}

} // verus!
