//! What can go wrong.
use vstd::prelude::*;

verus! {

/// A failure of the segmenter. The outside failures are carried by their text.
#[derive(Debug, PartialEq, Eq)]
#[non_exhaustive]
pub enum Error {
    /// LibTorch refused or failed.
    Torch(String),
    /// An image could not be decoded.
    Image(String),
    /// The configuration cannot be used.
    Config(String),
    /// The model gave something other than detections and prototypes.
    ModelOutput(String),
}

impl Error {
    /// The full text of the error.
    pub open spec fn text(self) -> Seq<char> {
        match self {
            Error::Torch(detail) => "LibTorch error: "@ + detail@,
            Error::Image(detail) => "cannot decode image: "@ + detail@,
            Error::Config(detail) => "invalid configuration: "@ + detail@,
            Error::ModelOutput(detail) => "unexpected model output: "@ + detail@,
        }
    }

    /// The full text of the error.
    pub fn message(&self) -> (message: String)
        ensures
            message@ == self.text(),
            self matches Error::Torch(detail) ==> message@ == "LibTorch error: "@ + detail@,
            self matches Error::Image(detail) ==> message@ == "cannot decode image: "@ + detail@,
            self matches Error::Config(detail) ==> message@ == "invalid configuration: "@
                + detail@,
            self matches Error::ModelOutput(detail) ==> message@ == "unexpected model output: "@
                + detail@,
    {
        match self {
            Error::Torch(detail) => "LibTorch error: ".to_string().concat(detail.as_str()),
            Error::Image(detail) => "cannot decode image: ".to_string().concat(detail.as_str()),
            Error::Config(detail) => "invalid configuration: ".to_string().concat(detail.as_str()),
            Error::ModelOutput(detail) => "unexpected model output: ".to_string().concat(
                detail.as_str(),
            ),
        }
    }
}

/// A configuration error with this text.
pub(crate) fn config_error(text: &str) -> (error: Error)
    ensures
        error matches Error::Config(detail) && detail@ == text@,
{
    Error::Config(text.to_string())
}

/// The text of an error ends with its detail, whole.
pub proof fn law_text_ends_with_detail(error: Error)
    ensures
        ({
            let detail: Seq<char> = match error {
                Error::Torch(detail) => detail@,
                Error::Image(detail) => detail@,
                Error::Config(detail) => detail@,
                Error::ModelOutput(detail) => detail@,
            };
            let start: int = error.text().len() - detail.len();
            &&& start > 0
            &&& error.text().skip(start) == detail
        }),
{
    reveal_strlit("LibTorch error: ");
    reveal_strlit("cannot decode image: ");
    reveal_strlit("invalid configuration: ");
    reveal_strlit("unexpected model output: ");
    let detail: Seq<char> = match error {
        Error::Torch(detail) => detail@,
        Error::Image(detail) => detail@,
        Error::Config(detail) => detail@,
        Error::ModelOutput(detail) => detail@,
    };
    assert(error.text().skip(error.text().len() - detail.len()) =~= detail);
}

} // verus!
