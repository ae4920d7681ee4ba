//! The report that a decode returns next to the decoded pixels.

use crate::decode_segment::DecodeSegmentResult;
use vstd::prelude::*;

verus! {

/// Diagnostic information related to decoding an image.
#[derive(Debug)]
pub struct DecodeDiagnostics {
    /// True if a segment decoded another number of bytes than its plane of
    /// the output buffer holds. This indicates a truncated buffer or an
    /// invalid encoding; the decoded image cannot be considered complete.
    pub incomplete_decode: bool,
    /// True if the header holds an offset other than zero in a slot that no
    /// declared segment uses.
    pub unexpected_segment_offsets: bool,
    /// The result of each decoded segment, in the order of the segments.
    pub decode_segment_results: Vec<DecodeSegmentResult>,
}

impl DecodeDiagnostics {
    /// A report with no findings and no segment results.
    pub fn new() -> (diagnostics: DecodeDiagnostics)
        ensures
            !diagnostics.incomplete_decode,
            !diagnostics.unexpected_segment_offsets,
            diagnostics.decode_segment_results@ == Seq::<DecodeSegmentResult>::empty(),
    {
        DecodeDiagnostics {
            incomplete_decode: false,
            unexpected_segment_offsets: false,
            decode_segment_results: Vec::new(),
        }
    }
}

impl Default for DecodeDiagnostics {
    fn default() -> (diagnostics: DecodeDiagnostics)
        ensures
            !diagnostics.incomplete_decode,
            !diagnostics.unexpected_segment_offsets,
            diagnostics.decode_segment_results@ == Seq::<DecodeSegmentResult>::empty(),
    {
        DecodeDiagnostics::new()
    }
}

} // verus!
