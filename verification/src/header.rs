//! Parsing of the fixed 64-byte header that precedes the segments.
//!
//! The header is a table of sixteen little-endian 32-bit words. Word 0 is
//! the number of segments (1 to 15). Words 1 to 15 are the slots for the
//! byte offsets at which the segments start; only the first
//! `segment_count` slots are in use and the others are expected to be zero.

use crate::error::Error;
use byteorder::{ByteOrder, LittleEndian};
use vstd::prelude::*;
use vstd::slice::slice_subrange;

verus! {

/// Length of the header in bytes.
pub const HEADER_LENGTH: usize = 64;

/// The largest number of segments that a header can declare.
pub const MAX_SEGMENT_COUNT: usize = 15;

/// The number that four bytes hold in little-endian order.
pub open spec fn le_u32(word: Seq<u8>) -> int
    recommends
        word.len() == 4,
{
    word[0] + 256 * word[1] + 65536 * word[2] + 16777216 * word[3]
}

/// Word number `slot` of the header table.
pub open spec fn header_word(header: Seq<u8>, slot: int) -> int
    recommends
        0 <= slot < 16,
        header.len() >= 64,
{
    le_u32(header.subrange(4 * slot, 4 * slot + 4))
}

/// The number of segments that the header declares.
pub open spec fn segment_count(header: Seq<u8>) -> int {
    header_word(header, 0)
}

/// The offset that the header holds in the slot of segment `index`.
pub open spec fn segment_offset(header: Seq<u8>, index: int) -> int
    recommends
        0 <= index < 15,
{
    header_word(header, index + 1)
}

/// What is wrong with a header, as the text of the error that reports it,
/// or `None` for a header that parses. The checks are made in this order:
/// the length, the segment count, the first offset, the order of the
/// offsets (none may be smaller than one before it).
pub open spec fn header_fault(header: Seq<u8>) -> Option<Seq<char>> {
    if header.len() < 64 {
        Some("unexpected eof reading header"@)
    } else if segment_count(header) > 15 {
        Some("invalid header - cannot have more than 15 segments"@)
    } else if segment_count(header) == 0 {
        Some("invalid header - cannot have zero segments"@)
    } else if segment_offset(header, 0) != 64 {
        Some("invalid header - segment 1 offset must be 64"@)
    } else if exists|i: int, j: int|
        0 <= i <= j < segment_count(header) && #[trigger] segment_offset(header, j)
            < #[trigger] segment_offset(header, i) {
        Some("invalid header - unexpected value for segment offset"@)
    } else {
        None
    }
}

/// True if `offsets` lists the offsets of all declared segments in order.
pub open spec fn offsets_of_header(offsets: Seq<usize>, header: Seq<u8>) -> bool {
    &&& offsets.len() == segment_count(header)
    &&& forall|i: int| 0 <= i < offsets.len() ==> offsets[i] == #[trigger] segment_offset(header, i)
}

/// True if a slot that no declared segment uses holds something other than
/// zero.
pub open spec fn unexpected_segment_offsets(header: Seq<u8>) -> bool {
    exists|slot: int|
        0 <= slot < 15 && segment_count(header) <= slot && #[trigger] segment_offset(header, slot)
            != 0
}

/// Reads a little-endian 32-bit number with `byteorder`'s
/// `LittleEndian::read_u32`. That function takes the first four bytes of the
/// buffer, least significant byte first, and panics on a shorter buffer.
#[verifier::external_body]
fn read_u32_le(buf: &[u8]) -> (value: u32)
    requires
        buf@.len() >= 4,
    ensures
        value == le_u32(buf@.subrange(0, 4)),
{
    LittleEndian::read_u32(buf)
}

/// Reads word number `slot` of the header table as a `usize`.
fn read_usize(header_bytes: &[u8], slot: usize) -> (value: usize)
    requires
        header_bytes@.len() >= 64,
        slot < 16,
    ensures
        value == header_word(header_bytes@, slot as int),
{
    let word = slice_subrange(header_bytes, 4 * slot, 4 * slot + 4);
    assert(word@.subrange(0, 4) =~= word@);
    read_u32_le(word) as usize
}

/// Parses the header and returns the starting offset of each segment.
///
/// Fails if the header is shorter than 64 bytes, if the number of segments
/// is not in `1..=15`, if the first segment does not start at offset 64, or
/// if an offset is smaller than the one before it.
pub fn read_header(header_bytes: &[u8]) -> (parsed: Result<Vec<usize>, Error>)
    ensures
        match parsed {
            Ok(offsets) => header_fault(header_bytes@) is None && offsets_of_header(
                offsets@,
                header_bytes@,
            ),
            Err(e) => header_fault(header_bytes@) == Some(e.message()),
        },
{
    if header_bytes.len() < HEADER_LENGTH {
        return Err(Error::format("unexpected eof reading header"));
    }
    let count = read_usize(header_bytes, 0);
    if count > MAX_SEGMENT_COUNT {
        return Err(Error::format("invalid header - cannot have more than 15 segments"));
    }
    if count == 0 {
        return Err(Error::format("invalid header - cannot have zero segments"));
    }
    let mut segment_offsets: Vec<usize> = Vec::new();
    let mut index: usize = 0;
    while index < count
        invariant
            header_bytes@.len() >= 64,
            count <= 15,
            index <= count,
            segment_offsets@.len() == index,
            forall|i: int|
                0 <= i < index ==> segment_offsets@[i] == #[trigger] segment_offset(
                    header_bytes@,
                    i,
                ),
        decreases count - index,
    {
        let segment_offset = read_usize(header_bytes, index + 1);
        segment_offsets.push(segment_offset);
        index += 1;
    }
    if segment_offsets[0] != HEADER_LENGTH {
        return Err(Error::format("invalid header - segment 1 offset must be 64"));
    }
    let mut segment_index: usize = 1;
    while segment_index < count
        invariant
            header_bytes@.len() >= 64,
            1 <= count <= 15,
            count == segment_count(header_bytes@),
            segment_offset(header_bytes@, 0) == 64,
            1 <= segment_index <= count,
            segment_offsets@.len() == count,
            forall|i: int|
                0 <= i < count ==> segment_offsets@[i] == #[trigger] segment_offset(
                    header_bytes@,
                    i,
                ),
            forall|i: int, j: int|
                0 <= i <= j < segment_index ==> #[trigger] segment_offset(header_bytes@, i)
                    <= #[trigger] segment_offset(header_bytes@, j),
        decreases count - segment_index,
    {
        if segment_offsets[segment_index] < segment_offsets[segment_index - 1] {
            assert(segment_offset(header_bytes@, segment_index as int) < segment_offset(
                header_bytes@,
                segment_index - 1,
            ));
            assert(0 <= segment_index - 1 <= segment_index < segment_count(header_bytes@));
            return Err(Error::format("invalid header - unexpected value for segment offset"));
        }
        segment_index += 1;
    }
    Ok(segment_offsets)
}

/// What makes a decode refuse an encoded image before any segment is read,
/// as the text of the error, or `None` where decoding goes ahead. A header
/// that does not parse is always refused. Unless partial decoding is
/// allowed, so is a buffer that ends before the last segment starts.
pub open spec fn validation_fault(encoded: Seq<u8>, allow_partial_decode: bool) -> Option<
    Seq<char>,
> {
    if header_fault(encoded) is Some {
        header_fault(encoded)
    } else if !allow_partial_decode && segment_offset(encoded, segment_count(encoded) - 1)
        > encoded.len() {
        Some("unexpected eof decoding segment"@)
    } else {
        None
    }
}

/// Parses the header of an encoded image and, unless partial decoding is
/// allowed, checks that the last segment starts inside the buffer. Returns
/// the starting offset of each segment.
pub fn read_validated_header(encoded: &[u8], allow_partial_decode: bool) -> (parsed: Result<
    Vec<usize>,
    Error,
>)
    ensures
        match parsed {
            Ok(offsets) => validation_fault(encoded@, allow_partial_decode) is None
                && offsets_of_header(offsets@, encoded@),
            Err(e) => validation_fault(encoded@, allow_partial_decode) == Some(e.message()),
        },
{
    let segment_offsets = match read_header(encoded) {
        Ok(offsets) => offsets,
        Err(e) => { return Err(e); },
    };
    if !allow_partial_decode {
        let last_offset = segment_offsets[segment_offsets.len() - 1];
        if last_offset > encoded.len() {
            return Err(Error::format("unexpected eof decoding segment"));
        }
    }
    Ok(segment_offsets)
}

/// Tells whether one of the offset slots that the declared segments leave
/// unused holds a value other than zero. Such a header still parses; the
/// finding is reported to the caller as an anomaly.
pub fn has_unexpected_segment_offsets(header_bytes: &[u8]) -> (found: bool)
    ensures
        found == (header_bytes@.len() >= 64 && unexpected_segment_offsets(header_bytes@)),
{
    if header_bytes.len() < HEADER_LENGTH {
        return false;
    }
    let mut slot: usize = read_usize(header_bytes, 0);
    while slot < MAX_SEGMENT_COUNT
        invariant
            header_bytes@.len() >= 64,
            segment_count(header_bytes@) <= slot,
            forall|s: int|
                0 <= s < slot && segment_count(header_bytes@) <= s ==> #[trigger] segment_offset(
                    header_bytes@,
                    s,
                ) == 0,
        decreases 15 - slot,
    {
        if read_usize(header_bytes, slot + 1) != 0 {
            assert(segment_offset(header_bytes@, slot as int) != 0);
            return true;
        }
        slot += 1;
    }
    false
}

} // verus!
