//! YOLO26 instance segmentation: the geometry, the decoding rules, the backend
//! fallback and the rendering around the model.
pub mod arguments;
pub mod config;
pub mod detection;
pub mod double;
pub mod error;
pub mod geometry;
pub mod number;
pub mod outputs;
pub mod picture;
pub mod preparation;
pub mod render;
pub mod report;
pub mod segmenter;
pub mod single;
pub mod text;
pub mod timing;

pub use config::{Backend, DevicePreference, PrecisionPreference, Yolo26Config};
pub use detection::Detection;
pub use double::Double;
pub use error::Error;
pub use geometry::{BoundingBox, Letterbox};
pub use number::Number;
pub use segmenter::{Prediction, Yolo26Segmenter};
pub use single::Single;
pub use timing::StageTiming;
