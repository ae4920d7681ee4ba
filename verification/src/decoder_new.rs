//! Decoding of images held in vectors, with a choice between strict and
//! partial decoding.
//!
//! Strict decoding accepts nothing short of a complete image. Partial
//! decoding accepts every image whose header parses, decodes what is there
//! and reports in the diagnostics what was missing.

use crate::decode::{decode_fault, decode_image, decoded_output, diagnostics_of};
use crate::diagnostics::DecodeDiagnostics;
use crate::error::Error;
use crate::get_segments::{bounds_of_header, to_segment_bounds};
use crate::header::{offsets_of_header, read_validated_header, validation_fault};
use vstd::prelude::*;

verus! {

/// Parses the header of `encoded` and returns the starting offset of each
/// segment. Unless partial decoding is allowed, an image whose last segment
/// starts past the end of the buffer is refused as well.
pub fn read_and_validate_header(encoded: &Vec<u8>, allow_partial_decode: bool) -> (parsed: Result<
    Vec<usize>,
    Error,
>)
    ensures
        match parsed {
            Ok(offsets) => validation_fault(encoded@, allow_partial_decode) is None
                && offsets_of_header(offsets@, encoded@),
            Err(e) => validation_fault(encoded@, allow_partial_decode) == Some(e.message()),
        },
{
    read_validated_header(encoded.as_slice(), allow_partial_decode)
}

/// Parses and validates the header of `encoded` and returns the declared
/// range of each segment.
pub fn header_to_segment_bounds(encoded: &Vec<u8>, allow_partial_decode: bool) -> (parsed: Result<
    Vec<(usize, usize)>,
    Error,
>)
    ensures
        match parsed {
            Ok(bounds) => validation_fault(encoded@, allow_partial_decode) is None
                && bounds_of_header(bounds@, encoded@),
            Err(e) => validation_fault(encoded@, allow_partial_decode) == Some(e.message()),
        },
{
    match read_and_validate_header(encoded, allow_partial_decode) {
        Ok(segment_offsets) => Ok(to_segment_bounds(segment_offsets.as_slice(), encoded.len())),
        Err(e) => Err(e),
    }
}

/// Decodes an encoded image into `decoded`, which must have the size of the
/// decoded image.
///
/// With `allow_partial_decode` the decode succeeds whenever the header
/// parses; segments that are cut short or malformed are decoded as far as
/// they go and make the diagnostics report an incomplete decode. Without it
/// the decode fails unless every segment fills its plane of `decoded`.
pub fn decode(encoded: &Vec<u8>, decoded: &mut Vec<u8>, allow_partial_decode: bool) -> (outcome:
    Result<DecodeDiagnostics, Error>)
    ensures
        final(decoded)@.len() == old(decoded)@.len(),
        final(decoded)@ == decoded_output(encoded@, old(decoded)@, allow_partial_decode),
        match outcome {
            Ok(diagnostics) => {
                &&& decode_fault(encoded@, old(decoded)@.len() as int, allow_partial_decode) is None
                &&& diagnostics_of(diagnostics, encoded@, old(decoded)@.len() as int)
            },
            Err(e) => decode_fault(encoded@, old(decoded)@.len() as int, allow_partial_decode)
                == Some(e.message()),
        },
{
    decode_image(encoded.as_slice(), decoded.as_mut_slice(), allow_partial_decode)
}

} // verus!
