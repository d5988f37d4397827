//! What the model's input is made from.
use crate::config::Yolo26Config;
use crate::detection::{decoded, law_like_fit_like_candidates, row_views};
use crate::geometry::{covered_window, letterbox, BoundingBox, Letterbox};
use crate::picture::{holds_pixels, picture_height, picture_width, rgb_bytes, Canvas};
use crate::single::Single;
use vstd::prelude::*;

verus! {

/// A picture on its way into the model: its size, its bytes row by row, and how
/// it is fitted into the input.
#[derive(Debug)]
pub struct Preparation {
    pub width: u32,
    pub height: u32,
    pub bytes: Vec<u8>,
    pub transform: Letterbox,
}

impl Preparation {
    /// Whether this is what is made of a picture under these settings.
    pub open spec fn made_from(self, source: image::DynamicImage, config: Yolo26Config) -> bool {
        &&& self.width == picture_width(source)
        &&& self.height == picture_height(source)
        &&& self.bytes@ == rgb_bytes(source)
        &&& self.transform.fits(
            self.width as nat,
            self.height as nat,
            config.input_width as nat,
            config.input_height as nat,
        )
    }
}

/// Takes the bytes of a picture and fits it into the input of the model.
pub fn prepare(source: &image::DynamicImage, config: &Yolo26Config) -> (prepared: Preparation)
    ensures
        prepared.made_from(*source, *config),
        holds_pixels(prepared.bytes@, prepared.width, prepared.height),
        prepared.width == picture_width(*source),
        prepared.height == picture_height(*source),
        prepared.bytes@ == rgb_bytes(*source),
        prepared.transform.fits(
            picture_width(*source) as nat,
            picture_height(*source) as nat,
            config.input_width as nat,
            config.input_height as nat,
        ),
        prepared.transform.left + prepared.transform.resized_width + prepared.transform.right
            == config.input_width,
        prepared.transform.top + prepared.transform.resized_height + prepared.transform.bottom
            == config.input_height,
{
    let width: u32 = source.width();
    let height: u32 = source.height();
    let transform: Letterbox = letterbox(width, height, config.input_width, config.input_height);
    let bytes: Vec<u8> = Canvas::new(source).into_bytes();
    Preparation { width, height, bytes, transform }
}

/// A prediction depends on a picture only through its red, green and blue bytes
/// and its size. Two pictures that agree in those, such as a picture of any color
/// type and its copy in red, green and blue, go into the model alike; and what the
/// model answers is read alike: the rows give the same candidates, and a box
/// covers the same part of the prototypes.
pub proof fn law_prediction_depends_on_rgb(
    source: image::DynamicImage,
    other: image::DynamicImage,
    config: Yolo26Config,
    first: Preparation,
    second: Preparation,
    rows: Seq<Vec<Single>>,
    channels: nat,
    bbox: BoundingBox,
    proto_width: i64,
    proto_height: i64,
)
    requires
        rgb_bytes(source) == rgb_bytes(other),
        picture_width(source) == picture_width(other),
        picture_height(source) == picture_height(other),
        first.made_from(source, config),
        second.made_from(other, config),
    ensures
        first.width == second.width,
        first.height == second.height,
        first.bytes@ == second.bytes@,
        first.transform.alike(second.transform),
        decoded(rows, channels, first.transform, first.width, first.height, config) == decoded(
            rows,
            channels,
            second.transform,
            second.width,
            second.height,
            config,
        ),
        covered_window(
            bbox,
            first.transform,
            proto_width,
            proto_height,
            config.input_width,
            config.input_height,
        ) == covered_window(
            bbox,
            second.transform,
            proto_width,
            proto_height,
            config.input_width,
            config.input_height,
        ),
{
    law_like_fit_like_candidates(
        row_views(rows),
        channels,
        first.transform,
        second.transform,
        first.width,
        first.height,
        config.confidence_threshold@,
    );
}


} // verus!
