//! Splitting of an encoded image into the byte ranges of its segments.
//!
//! Segment `i` runs from its own offset to the offset of segment `i + 1`;
//! the last segment runs to the end of the buffer. A buffer that was cut
//! short still yields one range per declared segment: ranges that reach
//! past the end are clamped, and ranges that start past the end are empty.

use crate::error::Error;
use crate::header::{header_fault, read_header, segment_count, segment_offset};
use vstd::prelude::*;
use vstd::slice::slice_subrange;

verus! {

/// The `(start, end)` pairs that belong to a list of segment offsets in a
/// buffer of `encoded_length` bytes.
pub open spec fn segment_bounds(offsets: Seq<usize>, encoded_length: usize) -> Seq<(usize, usize)> {
    Seq::new(
        offsets.len(),
        |i: int|
            (
                offsets[i],
                if i + 1 < offsets.len() {
                    offsets[i + 1]
                } else {
                    encoded_length
                },
            ),
    )
}

/// Where segment `index` ends according to the header of `encoded`.
pub open spec fn segment_end(encoded: Seq<u8>, index: int) -> int {
    if index + 1 < segment_count(encoded) {
        segment_offset(encoded, index + 1)
    } else {
        encoded.len() as int
    }
}

/// True if `bounds` holds the declared range of every segment of `encoded`.
pub open spec fn bounds_of_header(bounds: Seq<(usize, usize)>, encoded: Seq<u8>) -> bool {
    &&& bounds.len() == segment_count(encoded)
    &&& forall|i: int|
        0 <= i < bounds.len() ==> (#[trigger] bounds[i]).0 == segment_offset(encoded, i)
            && bounds[i].1 == segment_end(encoded, i)
}

/// The bytes of `encoded` that the range from `start` to `end` can use: the
/// range itself where it lies inside the buffer, its part up to the end of
/// the buffer where it reaches past it, and nothing where it starts past
/// the end of the buffer or past its own end.
pub open spec fn usable_range(encoded: Seq<u8>, start: int, end: int) -> Seq<u8> {
    if start > encoded.len() || start > end {
        Seq::empty()
    } else if end > encoded.len() {
        encoded.subrange(start, encoded.len() as int)
    } else {
        encoded.subrange(start, end)
    }
}

/// The usable bytes of segment `index` of `encoded`.
pub open spec fn encoded_segment(encoded: Seq<u8>, index: int) -> Seq<u8> {
    usable_range(encoded, segment_offset(encoded, index), segment_end(encoded, index))
}

/// Turns the segment offsets into one `(start, end)` pair per segment.
pub fn to_segment_bounds(segment_offsets: &[usize], encoded_length: usize) -> (bounds: Vec<
    (usize, usize),
>)
    requires
        segment_offsets@.len() > 0,
    ensures
        bounds@ == segment_bounds(segment_offsets@, encoded_length),
{
    let mut result: Vec<(usize, usize)> = Vec::new();
    let last: usize = segment_offsets.len() - 1;
    let mut segment_index: usize = 0;
    while segment_index < last
        invariant
            last + 1 == segment_offsets@.len(),
            segment_index <= last,
            result@.len() == segment_index,
            forall|i: int|
                0 <= i < segment_index ==> result@[i] == segment_bounds(
                    segment_offsets@,
                    encoded_length,
                )[i],
        decreases last - segment_index,
    {
        let start = segment_offsets[segment_index];
        let end = segment_offsets[segment_index + 1];
        result.push((start, end));
        segment_index += 1;
    }
    result.push((segment_offsets[last], encoded_length));
    assert(result@ =~= segment_bounds(segment_offsets@, encoded_length));
    result
}

/// Parses the header of `encoded` and returns the declared range of each
/// segment. Fails exactly when the header does not parse.
pub fn header_to_segment_bounds(encoded: &[u8]) -> (parsed: Result<Vec<(usize, usize)>, Error>)
    ensures
        match parsed {
            Ok(bounds) => header_fault(encoded@) is None && bounds_of_header(bounds@, encoded@),
            Err(e) => header_fault(encoded@) == Some(e.message()),
        },
{
    match read_header(encoded) {
        Ok(segment_offsets) => Ok(to_segment_bounds(segment_offsets.as_slice(), encoded.len())),
        Err(e) => Err(e),
    }
}

/// Borrows the usable part of the range from `start` to `end`.
pub fn segment_slice<'a>(encoded: &'a [u8], start: usize, end: usize) -> (segment: &'a [u8])
    ensures
        segment@ == usable_range(encoded@, start as int, end as int),
{
    if start > encoded.len() || start > end {
        slice_subrange(encoded, 0, 0)
    } else if end > encoded.len() {
        slice_subrange(encoded, start, encoded.len())
    } else {
        slice_subrange(encoded, start, end)
    }
}

/// Returns one slice per segment of the encoded image. If the buffer was
/// cut short, the number of slices is still the declared one, but slices
/// may be shortened or empty. Fails exactly when the header does not parse.
pub fn get_segments<'a>(encoded: &'a [u8]) -> (parsed: Result<Vec<&'a [u8]>, Error>)
    ensures
        match parsed {
            Ok(segments) => {
                &&& header_fault(encoded@) is None
                &&& segments@.len() == segment_count(encoded@)
                &&& forall|i: int|
                    0 <= i < segments@.len() ==> (#[trigger] segments@[i])@ == encoded_segment(
                        encoded@,
                        i,
                    )
            },
            Err(e) => header_fault(encoded@) == Some(e.message()),
        },
{
    let segment_bounds = match header_to_segment_bounds(encoded) {
        Ok(bounds) => bounds,
        Err(e) => { return Err(e); },
    };
    let mut segments: Vec<&'a [u8]> = Vec::new();
    let mut index: usize = 0;
    while index < segment_bounds.len()
        invariant
            header_fault(encoded@) is None,
            bounds_of_header(segment_bounds@, encoded@),
            index <= segment_bounds@.len(),
            segments@.len() == index,
            forall|i: int|
                0 <= i < index ==> (#[trigger] segments@[i])@ == encoded_segment(encoded@, i),
        decreases segment_bounds@.len() - index,
    {
        let segment = segment_bounds[index];
        segments.push(segment_slice(encoded, segment.0, segment.1));
        index += 1;
    }
    Ok(segments)
}

} // verus!
