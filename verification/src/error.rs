//! The error type shared by every fallible operation of the decoder.

use vstd::prelude::*;

verus! {

/// Errors that can occur while decoding an image.
#[derive(Debug)]
pub enum Error {
    /// The image is not formatted properly. The string says what was wrong.
    Format(String),
}

impl Error {
    /// The text carried by the error.
    pub open spec fn message(self) -> Seq<char> {
        match self {
            Error::Format(text) => text@,
        }
    }

    /// Builds a format error that carries `text`.
    pub fn format(text: &str) -> (e: Error)
        ensures
            e.message() == text@,
    {
        Error::Format(text.to_owned())
    }
}

} // verus!
