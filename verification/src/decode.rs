//! Decoding of a whole image: the planes of all segments, interleaved into
//! one pixel buffer, together with the diagnostics of the decode.
//!
//! With `n` segments, byte `k` of a segment's plane belongs at position
//! `k * n + start` of the output, where `start` is the segment's own index,
//! except for images of two segments. Those hold 16-bit samples with the
//! most significant bytes in segment 0, which therefore goes to the odd
//! positions while segment 1 goes to the even ones.

use crate::decode_segment::{
    decode_segment,
    decode_stream,
    interleave,
    segment_result,
    slot_count,
    DecodeSegmentResult,
    RunStream,
};
use crate::diagnostics::DecodeDiagnostics;
use crate::error::Error;
use crate::get_segments::{
    bounds_of_header,
    encoded_segment,
    segment_slice,
    to_segment_bounds,
};
use crate::header::{
    has_unexpected_segment_offsets,
    header_fault,
    read_validated_header,
    segment_count,
    unexpected_segment_offsets,
    validation_fault,
};
use vstd::arithmetic::div_mod::{
    lemma_fundamental_div_mod,
    lemma_fundamental_div_mod_converse,
    lemma_mod_bound,
};
use vstd::prelude::*;

verus! {

/// Position in the output at which the plane of segment `segment_index`
/// starts when the image has `segment_count` segments.
pub open spec fn start_index(segment_count: int, segment_index: int) -> int {
    if segment_count == 2 {
        1 - segment_index
    } else {
        segment_index
    }
}

/// Computes where in the output the plane of a segment starts. With two
/// segments the image holds 16-bit samples whose most significant bytes
/// come first in the encoding, so the two planes swap places; otherwise
/// every segment starts at its own index.
pub fn calculate_start_index(segment_count: usize, segment_index: usize) -> (start: usize)
    requires
        segment_count == 2 ==> segment_index < 2,
    ensures
        start == start_index(segment_count as int, segment_index as int),
        segment_index < segment_count ==> start < segment_count,
{
    if segment_count == 2 {
        segment_count - 1 - segment_index
    } else {
        segment_index
    }
}

/// What segment `index` of `encoded` decodes to when the output buffer has
/// `out_len` bytes.
pub open spec fn segment_stream(encoded: Seq<u8>, out_len: int, index: int) -> RunStream {
    let n = segment_count(encoded);
    decode_stream(encoded_segment(encoded, index), slot_count(out_len - start_index(n, index), n))
}

/// True if segment `index` decodes to exactly the number of bytes that one
/// plane of the output holds.
pub open spec fn segment_complete(encoded: Seq<u8>, out_len: int, index: int) -> bool {
    segment_stream(encoded, out_len, index).data.len() == out_len / segment_count(encoded)
}

/// Index of the first segment from `from` on that is not complete, or the
/// number of segments if there is none.
pub open spec fn first_incomplete(encoded: Seq<u8>, out_len: int, from: int) -> int
    decreases segment_count(encoded) - from,
{
    if from >= segment_count(encoded) || !segment_complete(encoded, out_len, from) {
        from
    } else {
        first_incomplete(encoded, out_len, from + 1)
    }
}

/// The output buffer `out` after the planes of the segments before `upto`
/// have been written to it.
#[verifier::opaque]
pub open spec fn decoded_image(encoded: Seq<u8>, out: Seq<u8>, upto: int) -> Seq<u8> {
    let n = segment_count(encoded);
    Seq::new(
        out.len(),
        |j: int|
            {
                let index = start_index(n, j % n);
                let data = segment_stream(encoded, out.len() as int, index).data;
                if index < upto && j / n < data.len() {
                    data[j / n]
                } else {
                    out[j]
                }
            },
    )
}

/// Number of segments whose planes a decode writes once the header is
/// accepted: all of them, except that a decode which does not allow partial
/// results stops after the first segment that is not complete.
pub open spec fn segments_written(encoded: Seq<u8>, out_len: int, allow_partial_decode: bool) -> int {
    let n = segment_count(encoded);
    if allow_partial_decode || first_incomplete(encoded, out_len, 0) >= n {
        n
    } else {
        first_incomplete(encoded, out_len, 0) + 1
    }
}

/// What a decode leaves in the output buffer `out`.
pub open spec fn decoded_output(encoded: Seq<u8>, out: Seq<u8>, allow_partial_decode: bool) -> Seq<
    u8,
> {
    if validation_fault(encoded, allow_partial_decode) is Some {
        out
    } else {
        decoded_image(
            encoded,
            out,
            segments_written(encoded, out.len() as int, allow_partial_decode),
        )
    }
}

/// Why a decode fails, as the text of the error, or `None` where it
/// succeeds. It fails on a refused header and, unless partial decoding is
/// allowed, on a segment that is not complete.
pub open spec fn decode_fault(encoded: Seq<u8>, out_len: int, allow_partial_decode: bool) -> Option<
    Seq<char>,
> {
    if validation_fault(encoded, allow_partial_decode) is Some {
        validation_fault(encoded, allow_partial_decode)
    } else if !allow_partial_decode && first_incomplete(encoded, out_len, 0) < segment_count(
        encoded,
    ) {
        Some("unexpected eof decoding segment"@)
    } else {
        None
    }
}

/// True if `diagnostics` is the report of decoding `encoded` into a buffer
/// of `out_len` bytes.
pub open spec fn diagnostics_of(diagnostics: DecodeDiagnostics, encoded: Seq<u8>, out_len: int) -> bool {
    &&& diagnostics.incomplete_decode == (first_incomplete(encoded, out_len, 0) < segment_count(
        encoded,
    ))
    &&& diagnostics.unexpected_segment_offsets == unexpected_segment_offsets(encoded)
    &&& diagnostics.decode_segment_results@.len() == segment_count(encoded)
    &&& forall|i: int|
        0 <= i < segment_count(encoded) ==> #[trigger] diagnostics.decode_segment_results@[i]
            == segment_result(segment_stream(encoded, out_len, i))
}

/// The first incomplete segment lies at or after `from`, every segment
/// between `from` and it is complete, and it is itself not complete.
pub proof fn lemma_first_incomplete(encoded: Seq<u8>, out_len: int, from: int)
    requires
        0 <= from <= segment_count(encoded),
    ensures
        from <= first_incomplete(encoded, out_len, from) <= segment_count(encoded),
        forall|i: int|
            from <= i < first_incomplete(encoded, out_len, from) ==> segment_complete(
                encoded,
                out_len,
                i,
            ),
        first_incomplete(encoded, out_len, from) < segment_count(encoded) ==> !segment_complete(
            encoded,
            out_len,
            first_incomplete(encoded, out_len, from),
        ),
    decreases segment_count(encoded) - from,
{
    if from < segment_count(encoded) && segment_complete(encoded, out_len, from) {
        lemma_first_incomplete(encoded, out_len, from + 1);
    }
}

/// Position `j` of the output belongs to the plane that starts at `start`
/// exactly if `j - start` is a multiple of the number of planes, and its
/// place within that plane is `j / n`.
proof fn lemma_plane_position(j: int, start: int, n: int)
    requires
        0 <= start < n,
        0 <= j,
    ensures
        0 <= j % n < n,
        start <= j ==> ((j - start) % n == 0) == (j % n == start),
        j % n == start ==> start <= j && (j - start) / n == j / n,
{
    lemma_fundamental_div_mod(j, n);
    lemma_mod_bound(j, n);
    if j % n == start {
        assert(n * (j / n) >= 0) by (nonlinear_arith)
            requires
                n * (j / n) + (j % n) == j,
                0 <= j % n < n,
                0 <= j,
        ;
        assert((j / n) * n == n * (j / n)) by (nonlinear_arith);
        lemma_fundamental_div_mod_converse(j - start, n, j / n, 0);
    }
    if start <= j && (j - start) % n == 0 {
        lemma_fundamental_div_mod(j - start, n);
        assert(((j - start) / n) * n == n * ((j - start) / n)) by (nonlinear_arith);
        lemma_fundamental_div_mod_converse(j, n, (j - start) / n, start);
    }
}

/// Before any segment is decoded the output buffer holds what it held.
proof fn lemma_nothing_written(encoded: Seq<u8>, out: Seq<u8>)
    requires
        0 < segment_count(encoded),
    ensures
        decoded_image(encoded, out, 0) == out,
{
    reveal(decoded_image);
    assert forall|j: int| 0 <= j < out.len() implies out[j] == decoded_image(encoded, out, 0)[j] by {
        lemma_mod_bound(j, segment_count(encoded));
    }
    assert(out =~= decoded_image(encoded, out, 0));
}

/// Decoding segment `index` into its plane of a buffer that holds the planes
/// of the segments before it yields the buffer that holds the planes of the
/// segments up to and including it.
proof fn lemma_plane_written(encoded: Seq<u8>, out: Seq<u8>, index: int, split: int, after: Seq<u8>)
    requires
        header_fault(encoded) is None,
        0 <= index < segment_count(encoded),
        split == if start_index(segment_count(encoded), index) > out.len() {
            out.len() as int
        } else {
            start_index(segment_count(encoded), index)
        },
        after == decoded_image(encoded, out, index).subrange(0, split) + interleave(
            decoded_image(encoded, out, index).subrange(split, out.len() as int),
            decode_stream(
                encoded_segment(encoded, index),
                slot_count(out.len() - split, segment_count(encoded)),
            ).data,
            segment_count(encoded),
        ),
    ensures
        after == decoded_image(encoded, out, index + 1),
        after.len() == out.len(),
        slot_count(out.len() - split, segment_count(encoded)) == slot_count(
            out.len() - start_index(segment_count(encoded), index),
            segment_count(encoded),
        ),
{
    reveal(decoded_image);
    reveal(interleave);
    let n = segment_count(encoded);
    let start = start_index(n, index);
    let target = decoded_image(encoded, out, index + 1);
    assert(after.len() == out.len());
    assert forall|j: int| 0 <= j < out.len() implies after[j] == target[j] by {
        lemma_plane_position(j, start, n);
        assert(start_index(n, j % n) == index <==> j % n == start);
        if j >= split {
            lemma_plane_position(j - split, 0, n);
        }
    }
    assert(after =~= target);
}

/// Decodes an encoded image into `decoded`, which must have the size of the
/// decoded image.
///
/// The header is parsed first; a header that does not parse fails the
/// decode and leaves `decoded` untouched. Then the segments are decoded in
/// order, each into its plane of `decoded`. A segment that decodes another
/// number of bytes than `decoded.len() / segment_count` makes the decode
/// incomplete. If `allow_partial_decode` is set, an incomplete decode is
/// reported in the diagnostics and the remaining segments are still
/// decoded. Otherwise the decode fails at the first such segment, and also
/// up front if the buffer ends before the last segment starts.
pub fn decode_image(encoded: &[u8], decoded: &mut [u8], allow_partial_decode: bool) -> (outcome:
    Result<DecodeDiagnostics, Error>)
    ensures
        final(decoded)@.len() == old(decoded)@.len(),
        final(decoded)@ == decoded_output(encoded@, old(decoded)@, allow_partial_decode),
        match outcome {
            Ok(diagnostics) => {
                &&& decode_fault(encoded@, old(decoded)@.len() as int, allow_partial_decode) is None
                &&& diagnostics_of(diagnostics, encoded@, old(decoded)@.len() as int)
            },
            Err(e) => decode_fault(encoded@, old(decoded)@.len() as int, allow_partial_decode)
                == Some(e.message()),
        },
{
    let segment_offsets = match read_validated_header(encoded, allow_partial_decode) {
        Ok(offsets) => offsets,
        Err(e) => { return Err(e); },
    };
    let segment_bounds = to_segment_bounds(segment_offsets.as_slice(), encoded.len());
    let segment_count = segment_bounds.len();
    let expected_bytes = decoded.len() / segment_count;
    let mut diagnostics = DecodeDiagnostics::new();
    diagnostics.unexpected_segment_offsets = has_unexpected_segment_offsets(encoded);
    let ghost before = decoded@;
    let ghost out_len = decoded@.len() as int;

    proof {
        lemma_nothing_written(encoded@, before);
        lemma_first_incomplete(encoded@, out_len, 0);
    }

    let mut segment_index: usize = 0;
    while segment_index < segment_count
        invariant
            header_fault(encoded@) is None,
            validation_fault(encoded@, allow_partial_decode) is None,
            segment_count == crate::header::segment_count(encoded@),
            bounds_of_header(segment_bounds@, encoded@),
            segment_bounds@.len() == segment_count,
            before == old(decoded)@,
            decoded@.len() == out_len == before.len() <= usize::MAX,
            expected_bytes == out_len / (segment_count as int),
            segment_index <= segment_count,
            decoded@ == decoded_image(encoded@, before, segment_index as int),
            diagnostics.unexpected_segment_offsets == unexpected_segment_offsets(encoded@),
            diagnostics.decode_segment_results@.len() == segment_index,
            forall|i: int|
                0 <= i < segment_index ==> #[trigger] diagnostics.decode_segment_results@[i]
                    == segment_result(segment_stream(encoded@, out_len, i)),
            diagnostics.incomplete_decode == (first_incomplete(encoded@, out_len, 0)
                < segment_index),
            !diagnostics.incomplete_decode ==> first_incomplete(encoded@, out_len, 0)
                == first_incomplete(encoded@, out_len, segment_index as int),
            diagnostics.incomplete_decode ==> allow_partial_decode,
        decreases segment_count - segment_index,
    {
        let bound = segment_bounds[segment_index];
        let segment = segment_slice(encoded, bound.0, bound.1);
        let start_index = calculate_start_index(segment_count, segment_index);
        let split = if start_index > decoded.len() {
            decoded.len()
        } else {
            start_index
        };
        let (_, plane) = decoded.split_at_mut(split);
        let result = decode_segment(segment, plane, segment_count);
        proof {
            lemma_plane_written(encoded@, before, segment_index as int, split as int, decoded@);
            lemma_first_incomplete(encoded@, out_len, segment_index as int);
        }
        if result.bytes_decoded != expected_bytes {
            diagnostics.incomplete_decode = true;
            if !allow_partial_decode {
                return Err(Error::format("unexpected eof decoding segment"));
            }
        }
        diagnostics.decode_segment_results.push(result);
        segment_index += 1;
    }
    proof {
        lemma_first_incomplete(encoded@, out_len, 0);
    }
    Ok(diagnostics)
}

/// Decodes an encoded image into `decoded`, which must have the size of the
/// decoded image, and accepts nothing short of a complete image: the decode
/// fails if the header does not parse, if the buffer ends before the last
/// segment starts, or if a segment does not fill its plane.
pub fn decode(encoded: &[u8], decoded: &mut [u8]) -> (outcome: Result<DecodeDiagnostics, Error>)
    ensures
        final(decoded)@.len() == old(decoded)@.len(),
        final(decoded)@ == decoded_output(encoded@, old(decoded)@, false),
        match outcome {
            Ok(diagnostics) => {
                &&& decode_fault(encoded@, old(decoded)@.len() as int, false) is None
                &&& diagnostics_of(diagnostics, encoded@, old(decoded)@.len() as int)
                &&& !diagnostics.incomplete_decode
            },
            Err(e) => decode_fault(encoded@, old(decoded)@.len() as int, false) == Some(
                e.message(),
            ),
        },
{
    decode_image(encoded, decoded, false)
}

/// The bytes of 16-bit samples, two per sample, the less significant byte
/// first.
pub open spec fn u16_bytes(samples: Seq<u16>) -> Seq<u8> {
    Seq::new(
        2 * samples.len(),
        |j: int|
            if j % 2 == 0 {
                (samples[j / 2] % 256) as u8
            } else {
                (samples[j / 2] / 256) as u8
            },
    )
}

/// The 16-bit pattern of a signed sample in two's complement.
pub open spec fn i16_pattern(sample: i16) -> u16 {
    if sample < 0 {
        (sample + 65536) as u16
    } else {
        sample as u16
    }
}

/// The bytes of signed 16-bit samples in two's complement, two per sample,
/// the less significant byte first.
pub open spec fn i16_bytes(samples: Seq<i16>) -> Seq<u8> {
    u16_bytes(Seq::new(samples.len(), |i: int| i16_pattern(samples[i])))
}

/// Copies the bytes of the samples into a new vector.
fn bytes_of_u16(samples: &[u16]) -> (bytes: Vec<u8>)
    requires
        samples@.len() * 2 <= usize::MAX,
    ensures
        bytes@ == u16_bytes(samples@),
{
    let mut bytes: Vec<u8> = Vec::new();
    let mut index: usize = 0;
    while index < samples.len()
        invariant
            index <= samples@.len(),
            samples@.len() * 2 <= usize::MAX,
            bytes@.len() == 2 * index,
            forall|j: int| 0 <= j < bytes@.len() ==> bytes@[j] == u16_bytes(samples@)[j],
        decreases samples@.len() - index,
    {
        let sample = samples[index];
        bytes.push((sample % 256) as u8);
        bytes.push((sample / 256) as u8);
        index += 1;
    }
    assert(bytes@ =~= u16_bytes(samples@));
    bytes
}

/// Stores the samples that `bytes` holds into `samples`.
fn store_u16(bytes: &[u8], samples: &mut [u16])
    requires
        bytes@.len() == 2 * old(samples)@.len(),
    ensures
        final(samples)@.len() == old(samples)@.len(),
        u16_bytes(final(samples)@) == bytes@,
{
    let mut index: usize = 0;
    while index < samples.len()
        invariant
            index <= samples@.len(),
            samples@.len() == old(samples)@.len(),
            bytes.len() == 2 * samples@.len(),
            forall|i: int|
                0 <= i < index ==> (#[trigger] samples@[i]) == bytes@[2 * i] + 256 * bytes@[2 * i
                    + 1],
        decreases samples@.len() - index,
    {
        samples[index] = bytes[2 * index] as u16 + 256 * (bytes[2 * index + 1] as u16);
        index += 1;
    }
    assert(u16_bytes(samples@) =~= bytes@);
}

/// Copies the bytes of the samples into a new vector.
fn bytes_of_i16(samples: &[i16]) -> (bytes: Vec<u8>)
    requires
        samples@.len() * 2 <= usize::MAX,
    ensures
        bytes@ == i16_bytes(samples@),
{
    let mut bytes: Vec<u8> = Vec::new();
    let mut index: usize = 0;
    while index < samples.len()
        invariant
            index <= samples@.len(),
            samples@.len() * 2 <= usize::MAX,
            bytes@.len() == 2 * index,
            forall|j: int| 0 <= j < bytes@.len() ==> bytes@[j] == i16_bytes(samples@)[j],
        decreases samples@.len() - index,
    {
        let sample = samples[index];
        let pattern: u16 = if sample < 0 {
            (sample as i32 + 65536) as u16
        } else {
            sample as u16
        };
        bytes.push((pattern % 256) as u8);
        bytes.push((pattern / 256) as u8);
        index += 1;
    }
    assert(bytes@ =~= i16_bytes(samples@));
    bytes
}

/// Stores the samples that `bytes` holds into `samples`.
fn store_i16(bytes: &[u8], samples: &mut [i16])
    requires
        bytes@.len() == 2 * old(samples)@.len(),
    ensures
        final(samples)@.len() == old(samples)@.len(),
        i16_bytes(final(samples)@) == bytes@,
{
    let mut index: usize = 0;
    while index < samples.len()
        invariant
            index <= samples@.len(),
            samples@.len() == old(samples)@.len(),
            bytes.len() == 2 * samples@.len(),
            forall|i: int|
                0 <= i < index ==> i16_pattern(#[trigger] samples@[i]) == bytes@[2 * i] + 256
                    * bytes@[2 * i + 1],
        decreases samples@.len() - index,
    {
        let pattern: i32 = bytes[2 * index] as i32 + 256 * (bytes[2 * index + 1] as i32);
        samples[index] = if pattern >= 32768 {
            (pattern - 65536) as i16
        } else {
            pattern as i16
        };
        index += 1;
    }
    assert(i16_bytes(samples@) =~= bytes@);
}

/// Decodes an encoded image into a buffer of unsigned 16-bit samples.
///
/// The buffer is treated as the `2 * decoded.len()` bytes of its samples,
/// the less significant byte of each sample first, and the image is decoded
/// into those bytes as [`decode`] does.
pub fn decode_u16(encoded: &[u8], decoded: &mut [u16]) -> (outcome: Result<
    DecodeDiagnostics,
    Error,
>)
    requires
        old(decoded)@.len() * 2 <= usize::MAX,
    ensures
        final(decoded)@.len() == old(decoded)@.len(),
        u16_bytes(final(decoded)@) == decoded_output(encoded@, u16_bytes(old(decoded)@), false),
        match outcome {
            Ok(diagnostics) => {
                &&& decode_fault(encoded@, 2 * (old(decoded)@.len() as int), false) is None
                &&& diagnostics_of(diagnostics, encoded@, 2 * (old(decoded)@.len() as int))
                &&& !diagnostics.incomplete_decode
            },
            Err(e) => decode_fault(encoded@, 2 * (old(decoded)@.len() as int), false) == Some(e.message()),
        },
{
    let mut bytes = bytes_of_u16(decoded);
    let outcome = decode(encoded, bytes.as_mut_slice());
    store_u16(bytes.as_slice(), decoded);
    outcome
}

/// Decodes an encoded image into a buffer of signed 16-bit samples.
///
/// The buffer is treated as the `2 * decoded.len()` bytes of its samples in
/// two's complement, the less significant byte of each sample first, and
/// the image is decoded into those bytes as [`decode`] does.
pub fn decode_i16(encoded: &[u8], decoded: &mut [i16]) -> (outcome: Result<
    DecodeDiagnostics,
    Error,
>)
    requires
        old(decoded)@.len() * 2 <= usize::MAX,
    ensures
        final(decoded)@.len() == old(decoded)@.len(),
        i16_bytes(final(decoded)@) == decoded_output(encoded@, i16_bytes(old(decoded)@), false),
        match outcome {
            Ok(diagnostics) => {
                &&& decode_fault(encoded@, 2 * (old(decoded)@.len() as int), false) is None
                &&& diagnostics_of(diagnostics, encoded@, 2 * (old(decoded)@.len() as int))
                &&& !diagnostics.incomplete_decode
            },
            Err(e) => decode_fault(encoded@, 2 * (old(decoded)@.len() as int), false) == Some(e.message()),
        },
{
    let mut bytes = bytes_of_i16(decoded);
    let outcome = decode(encoded, bytes.as_mut_slice());
    store_i16(bytes.as_slice(), decoded);
    outcome
}

} // verus!
