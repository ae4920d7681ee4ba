//! What decoding a whole image guarantees: a well-formed encoding of an
//! image decodes to that image, an image that was cut short is detected,
//! and the unused slots of the header have no influence on the pixels.

use crate::decode::{
    decode_fault,
    decoded_image,
    decoded_output,
    first_incomplete,
    lemma_first_incomplete,
    segment_complete,
    segment_stream,
    segments_written,
    start_index,
};
use crate::decode_segment::slot_count;
use crate::encoding::{consumed, is_encoding_of, lemma_cut_segment, lemma_encoding_roundtrip};
use crate::get_segments::{encoded_segment, segment_end};
use crate::header::{
    header_fault,
    header_word,
    segment_count,
    segment_offset,
    unexpected_segment_offsets,
};
use vstd::arithmetic::div_mod::{
    lemma_fundamental_div_mod,
    lemma_fundamental_div_mod_converse,
    lemma_mod_bound,
};
use vstd::prelude::*;

verus! {

/// The bytes of the image `raw` that belong to the plane of segment
/// `index` when the image has `n` planes.
pub open spec fn plane_of(raw: Seq<u8>, n: int, index: int) -> Seq<u8> {
    Seq::new((raw.len() as int / n) as nat, |k: int| raw[k * n + start_index(n, index)])
}

/// True if `encoded` is a well-formed encoding of the image `raw`: its
/// header parses, its last segment starts inside the buffer, the image
/// divides evenly into the planes, and every segment is an encoding of its
/// plane.
pub open spec fn encodes_image(encoded: Seq<u8>, raw: Seq<u8>) -> bool {
    &&& header_fault(encoded) is None
    &&& segment_offset(encoded, segment_count(encoded) - 1) <= encoded.len()
    &&& raw.len() as int % segment_count(encoded) == 0
    &&& forall|index: int|
        0 <= index < segment_count(encoded) ==> is_encoding_of(
            #[trigger] encoded_segment(encoded, index),
            plane_of(raw, segment_count(encoded), index),
        )
}

/// The plane of a segment holds as many bytes as the region that the
/// segment is decoded into has slots, if the planes divide the output
/// evenly.
proof fn lemma_plane_capacity(out_len: int, n: int, start: int)
    requires
        0 <= start < n,
        0 <= out_len,
        out_len % n == 0,
    ensures
        slot_count(out_len - start, n) == out_len / n,
        0 <= out_len / n,
{
    let planes = out_len / n;
    lemma_fundamental_div_mod(out_len, n);
    assert(planes >= 0) by (nonlinear_arith)
        requires
            n * planes == out_len,
            out_len >= 0,
            n > 0,
    ;
    if out_len - start > 0 {
        assert(planes >= 1) by (nonlinear_arith)
            requires
                n * planes == out_len,
                out_len > 0,
                n > 0,
        ;
        assert((planes - 1) * n + (n - start - 1) == out_len - start - 1) by (nonlinear_arith)
            requires
                n * planes == out_len,
        ;
        lemma_fundamental_div_mod_converse(out_len - start - 1, n, planes - 1, n - start - 1);
    } else {
        if planes >= 1 {
            assert(n * planes >= n) by (nonlinear_arith)
                requires
                    planes >= 1,
                    n > 0,
            ;
        }
    }
}

/// If every segment from `from` on is complete, none is the first
/// incomplete one.
proof fn lemma_all_complete(encoded: Seq<u8>, out_len: int, from: int)
    requires
        0 <= from <= segment_count(encoded),
        forall|i: int| from <= i < segment_count(encoded) ==> segment_complete(encoded, out_len, i),
    ensures
        first_incomplete(encoded, out_len, from) == segment_count(encoded),
    decreases segment_count(encoded) - from,
{
    if from < segment_count(encoded) {
        lemma_all_complete(encoded, out_len, from + 1);
    }
}

/// A well-formed encoding of an image decodes to that image: decoding into
/// a buffer of the image's size succeeds, also where partial results are not
/// allowed, finds every segment complete, and leaves exactly the image in the
/// buffer, whatever the buffer held before.
pub proof fn lemma_decode_restores_image(
    encoded: Seq<u8>,
    raw: Seq<u8>,
    out: Seq<u8>,
    allow_partial_decode: bool,
)
    requires
        encodes_image(encoded, raw),
        out.len() == raw.len(),
    ensures
        decode_fault(encoded, out.len() as int, allow_partial_decode) is None,
        first_incomplete(encoded, out.len() as int, 0) == segment_count(encoded),
        decoded_output(encoded, out, allow_partial_decode) == raw,
{
    let n = segment_count(encoded);
    let len = out.len() as int;
    assert forall|i: int| 0 <= i < n implies segment_complete(encoded, len, i) && segment_stream(
        encoded,
        len,
        i,
    ).data == plane_of(raw, n, i) by {
        let start = start_index(n, i);
        lemma_plane_capacity(len, n, start);
        assert(is_encoding_of(encoded_segment(encoded, i), plane_of(raw, n, i)));
        lemma_encoding_roundtrip(encoded_segment(encoded, i), plane_of(raw, n, i), len / n);
    }
    lemma_all_complete(encoded, len, 0);
    let decoded = decoded_image(encoded, out, n);
    reveal(decoded_image);
    assert forall|j: int| 0 <= j < len implies decoded[j] == raw[j] by {
        lemma_mod_bound(j, n);
        lemma_fundamental_div_mod(j, n);
        lemma_fundamental_div_mod(len, n);
        let index = start_index(n, j % n);
        assert(start_index(n, index) == j % n);
        assert(0 <= j / n < len / n) by (nonlinear_arith)
            requires
                n * (j / n) + j % n == j,
                n * (len / n) == len,
                0 <= j % n < n,
                0 <= j < len,
        ;
        assert((j / n) * n == n * (j / n)) by (nonlinear_arith);
        assert(segment_stream(encoded, len, index).data == plane_of(raw, n, index));
    }
    assert(decoded =~= raw);
}

/// The header of a buffer is read from the bytes of the slots alone.
proof fn lemma_header_words_agree(a: Seq<u8>, b: Seq<u8>, slots: int)
    requires
        0 <= slots <= 16,
        a.len() >= 64,
        b.len() >= 64,
        forall|j: int| 0 <= j < 4 * slots ==> a[j] == b[j],
    ensures
        forall|slot: int| 0 <= slot < slots ==> header_word(a, slot) == header_word(b, slot),
{
    assert forall|slot: int| 0 <= slot < slots implies header_word(a, slot) == header_word(
        b,
        slot,
    ) by {
        assert(a.subrange(4 * slot, 4 * slot + 4) =~= b.subrange(4 * slot, 4 * slot + 4));
    }
}

/// A buffer whose header agrees with a header that parses, in the segment
/// count and in the slots in use, has a header that parses too.
proof fn lemma_header_parses_alike(a: Seq<u8>, b: Seq<u8>)
    requires
        header_fault(a) is None,
        b.len() >= 64,
        forall|slot: int| 0 <= slot <= segment_count(a) ==> header_word(a, slot) == header_word(
            b,
            slot,
        ),
    ensures
        header_fault(b) is None,
        segment_count(b) == segment_count(a),
        forall|i: int|
            0 <= i < segment_count(a) ==> segment_offset(b, i) == #[trigger] segment_offset(a, i),
{
    assert(header_word(a, 0) == header_word(b, 0));
    assert(header_word(a, 1) == header_word(b, 1));
    assert forall|i: int| 0 <= i < segment_count(a) implies segment_offset(b, i)
        == #[trigger] segment_offset(a, i) by {
        assert(header_word(a, i + 1) == header_word(b, i + 1));
    }
    assert forall|i: int, j: int| 0 <= i <= j < segment_count(b) implies !(
    #[trigger] segment_offset(b, j) < #[trigger] segment_offset(b, i)) by {
        assert(segment_offset(a, i) <= segment_offset(a, j));
    }
}

/// If the same segments of two images are complete, the first incomplete
/// segment is the same in both.
proof fn lemma_first_incomplete_agrees(a: Seq<u8>, b: Seq<u8>, out_len: int, from: int)
    requires
        segment_count(a) == segment_count(b),
        0 <= from <= segment_count(a),
        forall|i: int|
            from <= i < segment_count(a) ==> segment_complete(a, out_len, i) == segment_complete(
                b,
                out_len,
                i,
            ),
    ensures
        first_incomplete(a, out_len, from) == first_incomplete(b, out_len, from),
    decreases segment_count(a) - from,
{
    if from < segment_count(a) {
        lemma_first_incomplete_agrees(a, b, out_len, from + 1);
    }
}

/// Position in `encoded` behind the last byte that belongs to a decoded run
/// of the last segment. What lies behind it, such as a byte of padding, adds
/// nothing to the decoded image.
pub open spec fn end_of_runs(encoded: Seq<u8>, out_len: int) -> int {
    let n = segment_count(encoded);
    segment_offset(encoded, n - 1) + consumed(
        encoded_segment(encoded, n - 1),
        slot_count(out_len - start_index(n, n - 1), n),
    )
}

/// Cutting bytes off the end of a complete image is detected, as long as
/// the header is left whole and a byte is lost that the last segment's
/// decoded runs are made of: with partial decoding the decode succeeds and
/// reports an incomplete decode, without it the decode fails.
pub proof fn lemma_truncation_detected(encoded: Seq<u8>, kept: int, out_len: int)
    requires
        header_fault(encoded) is None,
        first_incomplete(encoded, out_len, 0) == segment_count(encoded),
        out_len / segment_count(encoded) >= 1,
        64 <= kept <= encoded.len(),
        kept < end_of_runs(encoded, out_len),
    ensures
        decode_fault(encoded.subrange(0, kept), out_len, true) is None,
        first_incomplete(encoded.subrange(0, kept), out_len, 0) < segment_count(
            encoded.subrange(0, kept),
        ),
        decode_fault(encoded.subrange(0, kept), out_len, false) == Some(
            "unexpected eof decoding segment"@,
        ),
{
    let cut = encoded.subrange(0, kept);
    let n = segment_count(encoded);
    let last = n - 1;
    lemma_header_words_agree(encoded, cut, 16);
    lemma_header_parses_alike(encoded, cut);
    assert(segment_offset(cut, last) == segment_offset(encoded, last));
    let start = segment_offset(encoded, last);
    let capacity = slot_count(out_len - start_index(n, last), n);
    let whole = encoded_segment(encoded, last);
    lemma_first_incomplete(encoded, out_len, 0);
    assert(segment_complete(encoded, out_len, last));
    assert(segment_end(cut, last) == kept);
    assert(segment_end(encoded, last) == encoded.len());
    if start > kept {
        assert(encoded_segment(cut, last) =~= Seq::<u8>::empty());
    } else {
        lemma_cut_segment(whole, 0, 0, capacity);
        assert(start <= encoded.len());
        assert(whole == encoded.subrange(start, encoded.len() as int));
        assert(encoded_segment(cut, last) =~= whole.subrange(0, kept - start));
        lemma_cut_segment(whole, kept - start, 0, capacity);
    }
    assert(!segment_complete(cut, out_len, last));
    lemma_first_incomplete(cut, out_len, 0);
}

/// Cutting bytes off the end of an image goes unnoticed as long as the
/// header is left whole and only bytes behind the decoded runs of the last
/// segment are lost, such as the byte of padding: every segment decodes to
/// the same bytes as before, and so does the image.
pub proof fn lemma_cut_behind_runs(encoded: Seq<u8>, kept: int, out: Seq<u8>)
    requires
        header_fault(encoded) is None,
        64 <= kept <= encoded.len(),
        kept >= end_of_runs(encoded, out.len() as int),
    ensures
        header_fault(encoded.subrange(0, kept)) is None,
        segment_count(encoded.subrange(0, kept)) == segment_count(encoded),
        forall|i: int|
            0 <= i < segment_count(encoded) ==> (#[trigger] segment_stream(
                encoded.subrange(0, kept),
                out.len() as int,
                i,
            )).data == segment_stream(encoded, out.len() as int, i).data,
        first_incomplete(encoded.subrange(0, kept), out.len() as int, 0) == first_incomplete(
            encoded,
            out.len() as int,
            0,
        ),
        decoded_output(encoded.subrange(0, kept), out, true) == decoded_output(encoded, out, true),
{
    let cut = encoded.subrange(0, kept);
    let n = segment_count(encoded);
    let last = n - 1;
    let len = out.len() as int;
    lemma_header_words_agree(encoded, cut, 16);
    lemma_header_parses_alike(encoded, cut);
    let start = segment_offset(encoded, last);
    let capacity = slot_count(len - start_index(n, last), n);
    let whole = encoded_segment(encoded, last);
    lemma_cut_segment(whole, 0, 0, capacity);
    assert(segment_offset(cut, last) == start);
    assert(start <= kept);
    assert forall|i: int| 0 <= i < n implies (#[trigger] segment_stream(cut, len, i)).data
        == segment_stream(encoded, len, i).data by {
        assert(segment_offset(cut, i) == segment_offset(encoded, i));
        assert(segment_offset(encoded, i) <= segment_offset(encoded, last));
        if i < last {
            assert(segment_offset(cut, i + 1) == segment_offset(encoded, i + 1));
            assert(segment_offset(encoded, i) <= segment_offset(encoded, i + 1));
            assert(segment_offset(encoded, i + 1) <= segment_offset(encoded, last));
            assert(encoded_segment(cut, i) =~= encoded_segment(encoded, i));
        } else {
            assert(whole == encoded.subrange(start, encoded.len() as int));
            assert(encoded_segment(cut, last) =~= whole.subrange(0, kept - start));
            lemma_cut_segment(whole, kept - start, 0, capacity);
        }
    }
    lemma_first_incomplete_agrees(cut, encoded, len, 0);
    reveal(decoded_image);
    assert forall|j: int| 0 <= j < len implies decoded_image(cut, out, n)[j] == decoded_image(
        encoded,
        out,
        n,
    )[j] by {
        lemma_mod_bound(j, n);
        let index = start_index(n, j % n);
        assert(segment_stream(cut, len, index).data == segment_stream(encoded, len, index).data);
    }
    assert(decoded_image(cut, out, n) =~= decoded_image(encoded, out, n));
}

/// The slots of the header that the declared segments leave unused have no
/// influence on the decoding: two images of the same length that differ in
/// those slots only decode alike, segment by segment and byte by byte. If
/// one of those slots holds anything but zero, that is reported as
/// unexpected segment offsets.
pub proof fn lemma_reserved_slots_ignored(
    encoded: Seq<u8>,
    altered: Seq<u8>,
    out: Seq<u8>,
    allow_partial_decode: bool,
)
    requires
        header_fault(encoded) is None,
        altered.len() == encoded.len(),
        forall|j: int|
            0 <= j < encoded.len() && !(4 * (segment_count(encoded) + 1) <= j < 64) ==> altered[j]
                == encoded[j],
    ensures
        header_fault(altered) is None,
        segment_count(altered) == segment_count(encoded),
        forall|i: int|
            0 <= i < segment_count(encoded) ==> #[trigger] segment_stream(
                altered,
                out.len() as int,
                i,
            ) == segment_stream(encoded, out.len() as int, i),
        decode_fault(altered, out.len() as int, allow_partial_decode) == decode_fault(
            encoded,
            out.len() as int,
            allow_partial_decode,
        ),
        first_incomplete(altered, out.len() as int, 0) == first_incomplete(
            encoded,
            out.len() as int,
            0,
        ),
        decoded_output(altered, out, allow_partial_decode) == decoded_output(
            encoded,
            out,
            allow_partial_decode,
        ),
        forall|slot: int|
            segment_count(encoded) <= slot < 15 && #[trigger] segment_offset(altered, slot) != 0
                ==> unexpected_segment_offsets(altered),
{
    let n = segment_count(encoded);
    let len = out.len() as int;
    lemma_header_words_agree(encoded, altered, n + 1);
    lemma_header_parses_alike(encoded, altered);
    assert forall|i: int| 0 <= i < n implies #[trigger] segment_stream(altered, len, i)
        == segment_stream(encoded, len, i) by {
        assert(segment_offset(encoded, 0) <= segment_offset(encoded, i));
        assert(segment_offset(altered, i) == segment_offset(encoded, i));
        if i + 1 < n {
            assert(segment_offset(encoded, i) <= segment_offset(encoded, i + 1));
            assert(segment_offset(altered, i + 1) == segment_offset(encoded, i + 1));
        }
        assert(encoded_segment(altered, i) =~= encoded_segment(encoded, i));
    }
    lemma_first_incomplete_agrees(altered, encoded, len, 0);
    assert(segment_offset(altered, n - 1) == segment_offset(encoded, n - 1));
    let written = segments_written(encoded, len, allow_partial_decode);
    reveal(decoded_image);
    assert forall|j: int| 0 <= j < len implies decoded_image(altered, out, written)[j]
        == decoded_image(encoded, out, written)[j] by {
        lemma_mod_bound(j, n);
        let index = start_index(n, j % n);
        assert(segment_stream(altered, len, index) == segment_stream(encoded, len, index));
    }
    assert(decoded_image(altered, out, written) =~= decoded_image(encoded, out, written));
}

} // verus!
