//! Decoding of one run-length-encoded segment into a strided byte plane.
//!
//! A segment is a stream of runs. Each run starts with a control byte:
//! `0..=127` announces a literal run of `control + 1` bytes that follow,
//! `129..=255` announces a replicated run that repeats the one byte that
//! follows `257 - control` times, and `128` is illegal. The decoded bytes are
//! written to every `increment`-th position of the output region; the
//! positions in between belong to the other planes and are left alone.

use vstd::prelude::*;

verus! {

/// The result of decoding a single segment.
#[derive(Clone, Copy, Debug, PartialEq, Eq, Structural)]
pub struct DecodeSegmentResult {
    /// The number of bytes actually decoded.
    pub bytes_decoded: usize,
    /// True if a literal run announced more bytes than the segment still
    /// held. This happens with a truncated stream, a faulty encoder, or the
    /// zero padding byte that the format allows at the end of a segment.
    pub literal_run_underflow: bool,
    /// True if a replicated run was announced but the segment ended before
    /// the byte to repeat.
    pub replicated_run_underflow: bool,
    /// True if a run would have been written past the end of the output
    /// region. This happens with a faulty encoder or an output buffer that
    /// is too small.
    pub decoded_overflow: bool,
    /// True if the illegal control byte 128 was met.
    pub invalid_prefix: bool,
}

/// Why the reading of a segment's run stream came to an end.
pub enum Halt {
    /// Every byte of the segment was consumed by complete runs.
    EndOfInput,
    /// A literal run asked for more bytes than were left.
    LiteralRunUnderflow,
    /// A replicated run had no byte to repeat.
    ReplicatedRunUnderflow,
    /// The next run did not fit into the output region.
    DecodedOverflow,
    /// The control byte 128 was met.
    InvalidPrefix,
}

/// What a run stream decodes to: the bytes of all complete runs in order,
/// and the reason why reading stopped.
pub struct RunStream {
    pub data: Seq<u8>,
    pub halt: Halt,
}

/// Number of bytes that a literal run with this control byte carries.
pub open spec fn literal_run_length(control: u8) -> nat {
    (control + 1) as nat
}

/// Number of copies that a replicated run with this control byte produces.
pub open spec fn replicated_run_length(control: u8) -> nat {
    (257 - control) as nat
}

/// The run stream that starts at position `pos` of `segment`, decoded while
/// at most `room` more bytes may be produced.
///
/// A run is decoded as a whole or not at all: a run that cannot be read to
/// its end, or that would produce more than `room` bytes, stops the stream
/// and contributes nothing.
pub open spec fn decode_from(segment: Seq<u8>, pos: int, room: int) -> RunStream
    decreases segment.len() - pos,
{
    if pos < 0 || pos >= segment.len() {
        RunStream { data: Seq::empty(), halt: Halt::EndOfInput }
    } else if segment[pos] <= 127 {
        let n = literal_run_length(segment[pos]);
        if pos + 1 + n > segment.len() {
            RunStream { data: Seq::empty(), halt: Halt::LiteralRunUnderflow }
        } else if n > room {
            RunStream { data: Seq::empty(), halt: Halt::DecodedOverflow }
        } else {
            let rest = decode_from(segment, pos + 1 + n, room - n);
            RunStream { data: segment.subrange(pos + 1, pos + 1 + n) + rest.data, halt: rest.halt }
        }
    } else if segment[pos] >= 129 {
        let n = replicated_run_length(segment[pos]);
        if pos + 1 >= segment.len() {
            RunStream { data: Seq::empty(), halt: Halt::ReplicatedRunUnderflow }
        } else if n > room {
            RunStream { data: Seq::empty(), halt: Halt::DecodedOverflow }
        } else {
            let rest = decode_from(segment, pos + 2, room - n);
            RunStream { data: Seq::new(n, |i: int| segment[pos + 1]) + rest.data, halt: rest.halt }
        }
    } else {
        RunStream { data: Seq::empty(), halt: Halt::InvalidPrefix }
    }
}

/// What a whole segment decodes to when the output has room for `capacity`
/// bytes.
pub open spec fn decode_stream(segment: Seq<u8>, capacity: int) -> RunStream {
    decode_from(segment, 0, capacity)
}

/// Number of positions `0, stride, 2 * stride, ...` that lie inside a region
/// of `len` bytes.
pub open spec fn slot_count(len: int, stride: int) -> int {
    if len <= 0 {
        0
    } else {
        (len - 1) / stride + 1
    }
}

/// The region `out` after `data` has been written to its positions
/// `0, stride, 2 * stride, ...`, one byte each. All other positions keep
/// what they held.
#[verifier::opaque]
pub open spec fn interleave(out: Seq<u8>, data: Seq<u8>, stride: int) -> Seq<u8> {
    Seq::new(
        out.len(),
        |j: int|
            if j % stride == 0 && j / stride < data.len() {
                data[j / stride]
            } else {
                out[j]
            },
    )
}

/// The report that belongs to a decoded run stream.
pub open spec fn segment_result(stream: RunStream) -> DecodeSegmentResult {
    DecodeSegmentResult {
        bytes_decoded: stream.data.len() as usize,
        literal_run_underflow: stream.halt is LiteralRunUnderflow,
        replicated_run_underflow: stream.halt is ReplicatedRunUnderflow,
        decoded_overflow: stream.halt is DecodedOverflow,
        invalid_prefix: stream.halt is InvalidPrefix,
    }
}

/// A run stream never produces more bytes than it has room for.
pub proof fn lemma_decode_from_fits(segment: Seq<u8>, pos: int, room: int)
    requires
        0 <= room,
    ensures
        decode_from(segment, pos, room).data.len() <= room,
    decreases segment.len() - pos,
{
    if 0 <= pos < segment.len() {
        if segment[pos] <= 127 {
            let n = literal_run_length(segment[pos]);
            if pos + 1 + n <= segment.len() && n <= room {
                lemma_decode_from_fits(segment, pos + 1 + n, room - n);
            }
        } else if segment[pos] >= 129 {
            let n = replicated_run_length(segment[pos]);
            if pos + 1 < segment.len() && n <= room {
                lemma_decode_from_fits(segment, pos + 2, room - n);
            }
        }
    }
}

/// Slot `k` of a region lies inside the region, and no other slot shares its
/// position.
pub proof fn lemma_slot_position(len: int, stride: int, k: int)
    requires
        stride > 0,
        0 <= k < slot_count(len, stride),
    ensures
        0 <= k * stride < len,
        (k * stride) % stride == 0,
        (k * stride) / stride == k,
{
    let s = stride;
    let q = (len - 1) / s;
    vstd::arithmetic::div_mod::lemma_fundamental_div_mod(len - 1, s);
    vstd::arithmetic::div_mod::lemma_mod_bound(len - 1, s);
    assert(k * s <= q * s) by (nonlinear_arith)
        requires
            k <= q,
            s > 0,
    ;
    assert(s * q == q * s) by (nonlinear_arith);
    assert(0 <= k * s) by (nonlinear_arith)
        requires
            0 <= k,
            s > 0,
    ;
    vstd::arithmetic::div_mod::lemma_div_multiples_vanish(k, s);
    vstd::arithmetic::div_mod::lemma_mod_multiples_basic(k, s);
    assert(k * s == s * k) by (nonlinear_arith);
}

/// Where the decoded bytes are found in the output: byte `k` of `data` lies
/// at position `k * stride`, provided that the region has a slot for every
/// byte, and every position that holds no byte of `data` keeps what it held.
pub proof fn lemma_interleave_positions(out: Seq<u8>, data: Seq<u8>, stride: int)
    requires
        stride > 0,
        data.len() <= slot_count(out.len() as int, stride),
    ensures
        interleave(out, data, stride).len() == out.len(),
        forall|k: int|
            0 <= k < data.len() ==> 0 <= #[trigger] (k * stride) < out.len() && interleave(
                out,
                data,
                stride,
            )[k * stride] == data[k],
        forall|j: int|
            0 <= j < out.len() && (j % stride != 0 || j / stride >= data.len()) ==> interleave(
                out,
                data,
                stride,
            )[j] == out[j],
{
    reveal(interleave);
    assert forall|k: int| 0 <= k < data.len() implies 0 <= #[trigger] (k * stride) < out.len()
        && interleave(out, data, stride)[k * stride] == data[k] by {
        lemma_slot_position(out.len() as int, stride, k);
    }
}

/// A region has no more slots than bytes.
pub proof fn lemma_slot_count_bounds(len: int, stride: int)
    requires
        stride > 0,
        0 <= len,
    ensures
        0 <= slot_count(len, stride) <= len,
{
    if len > 0 {
        vstd::arithmetic::div_mod::lemma_div_pos_is_pos(len - 1, stride);
        vstd::arithmetic::div_mod::lemma_div_nonincreasing(len - 1, stride);
    }
}

/// What decoding a segment leaves in the output region `out`: the region
/// has a slot for every decoded byte, byte `k` lies at position
/// `k * stride`, and every other position keeps what it held.
pub proof fn lemma_decoded_positions(segment: Seq<u8>, out: Seq<u8>, stride: int)
    requires
        stride > 0,
    ensures
        ({
            let data = decode_stream(segment, slot_count(out.len() as int, stride)).data;
            let after = interleave(out, data, stride);
            &&& after.len() == out.len()
            &&& data.len() <= slot_count(out.len() as int, stride) <= out.len()
            &&& forall|k: int|
                0 <= k < data.len() ==> 0 <= #[trigger] (k * stride) < out.len() && after[k
                    * stride] == data[k]
            &&& forall|j: int|
                0 <= j < out.len() && (j % stride != 0 || j / stride >= data.len()) ==> after[j]
                    == out[j]
        }),
{
    let capacity = slot_count(out.len() as int, stride);
    lemma_slot_count_bounds(out.len() as int, stride);
    lemma_decode_from_fits(segment, 0, capacity);
    lemma_interleave_positions(out, decode_stream(segment, capacity).data, stride);
}

/// Writing one more byte to the next free slot extends the interleaved data
/// by that byte.
proof fn lemma_interleave_push(out: Seq<u8>, data: Seq<u8>, stride: int, value: u8)
    requires
        stride > 0,
        data.len() < slot_count(out.len() as int, stride),
    ensures
        0 <= data.len() * stride < out.len(),
        interleave(out, data, stride).update(data.len() * stride, value) == interleave(
            out,
            data.push(value),
            stride,
        ),
{
    reveal(interleave);
    let s = stride;
    let k = data.len() as int;
    lemma_slot_position(out.len() as int, stride, k);
    let before = interleave(out, data, stride).update(k * stride, value);
    let after = interleave(out, data.push(value), stride);
    assert forall|j: int| 0 <= j < out.len() implies before[j] == after[j] by {
        vstd::arithmetic::div_mod::lemma_fundamental_div_mod(j, s);
        if j % s == 0 && j / s == k {
            assert(s * (j / s) == (j / s) * s) by (nonlinear_arith);
        }
    }
    assert(before =~= after);
}

/// Decodes a single run-length-encoded segment.
///
/// The bytes of `segment` are read run by run. Decoded byte number `k` is
/// stored at `decoded[k * increment]`. Reading stops at the end of the
/// segment or at the first run that is illegal, cannot be read completely,
/// or does not fit into `decoded`; such a run writes nothing. The result
/// tells how many bytes were stored and why reading stopped.
pub fn decode_segment(segment: &[u8], decoded: &mut [u8], increment: usize) -> (result:
    DecodeSegmentResult)
    requires
        increment > 0,
    ensures
        final(decoded)@.len() == old(decoded)@.len(),
        result == segment_result(
            decode_stream(segment@, slot_count(old(decoded)@.len() as int, increment as int)),
        ),
        final(decoded)@ == interleave(
            old(decoded)@,
            decode_stream(segment@, slot_count(old(decoded)@.len() as int, increment as int)).data,
            increment as int,
        ),
        result.bytes_decoded == decode_stream(
            segment@,
            slot_count(old(decoded)@.len() as int, increment as int),
        ).data.len(),
        segment@.len() == 0 ==> result == (DecodeSegmentResult {
            bytes_decoded: 0,
            literal_run_underflow: false,
            replicated_run_underflow: false,
            decoded_overflow: false,
            invalid_prefix: false,
        }),
{
    let capacity: usize = if decoded.len() == 0 {
        0
    } else {
        (decoded.len() - 1) / increment + 1
    };
    let ghost stride = increment as int;
    let ghost before = decoded@;
    let ghost whole = decode_stream(segment@, capacity as int);
    let ghost written: Seq<u8> = Seq::empty();

    let mut result = DecodeSegmentResult {
        bytes_decoded: 0,
        literal_run_underflow: false,
        replicated_run_underflow: false,
        decoded_overflow: false,
        invalid_prefix: false,
    };
    let mut segment_index: usize = 0;
    let mut count: usize = 0;

    assert(decoded@ =~= interleave(before, written, stride)) by {
        reveal(interleave);
    }
    assert(written + decode_from(segment@, 0, capacity as int).data =~= whole.data);

    while segment_index < segment.len()
        invariant_except_break
            result == (DecodeSegmentResult {
                bytes_decoded: 0,
                literal_run_underflow: false,
                replicated_run_underflow: false,
                decoded_overflow: false,
                invalid_prefix: false,
            }),
            whole.data == written + decode_from(segment@, segment_index as int, capacity - count).data,
            whole.halt == decode_from(segment@, segment_index as int, capacity - count).halt,
        invariant
            increment > 0,
            stride == increment,
            before.len() == decoded@.len() <= usize::MAX,
            capacity == slot_count(before.len() as int, stride),
            whole == decode_stream(segment@, capacity as int),
            segment_index <= segment@.len(),
            count <= capacity,
            written.len() == count,
            decoded@ == interleave(before, written, stride),
        ensures
            whole.data == written,
            result == (DecodeSegmentResult { bytes_decoded: 0, ..segment_result(whole) }),
        decreases segment@.len() - segment_index,
    {
        let control = segment[segment_index];
        segment_index += 1;

        if control <= 127 {
            let run_length: usize = control as usize + 1;
            if run_length > segment.len() - segment_index {
                result.literal_run_underflow = true;
                assert(written + Seq::<u8>::empty() =~= written);
                break ;
            }
            if run_length > capacity - count {
                result.decoded_overflow = true;
                assert(written + Seq::<u8>::empty() =~= written);
                break ;
            }
            let ghost run = segment@.subrange(segment_index as int, segment_index + run_length);
            let ghost rest = decode_from(
                segment@,
                segment_index + run_length,
                capacity - count - run_length,
            );
            let ghost start = written;
            let first: usize = segment_index;
            let mut copied: usize = 0;
            while copied < run_length
                invariant
                    increment > 0,
                    stride == increment,
                    before.len() == decoded@.len() <= usize::MAX,
                    capacity == slot_count(before.len() as int, stride),
                    count + run_length <= capacity,
                    first + run_length <= segment@.len(),
                    copied <= run_length,
                    segment_index == first + copied,
                    written == start + run.subrange(0, copied as int),
                    start.len() == count,
                    run == segment@.subrange(first as int, first + run_length),
                    decoded@ == interleave(before, written, stride),
                decreases run_length - copied,
            {
                proof {
                    lemma_interleave_push(before, written, stride, segment@[segment_index as int]);
                    assert((count + copied) * increment == written.len() * stride);
                }
                decoded[(count + copied) * increment] = segment[segment_index];
                proof {
                    assert(run.subrange(0, copied + 1) =~= run.subrange(0, copied as int).push(
                        segment@[segment_index as int],
                    ));
                    written = written.push(segment@[segment_index as int]);
                    assert(written =~= start + run.subrange(0, copied + 1));
                }
                copied += 1;
                segment_index += 1;
            }
            proof {
                assert(run.subrange(0, run_length as int) =~= run);
                assert(start + (run + rest.data) =~= (start + run) + rest.data);
            }
            count += run_length;
        } else if control > 128 {
            let run_length: usize = 257 - control as usize;
            if segment_index >= segment.len() {
                result.replicated_run_underflow = true;
                assert(written + Seq::<u8>::empty() =~= written);
                break ;
            }
            if run_length > capacity - count {
                result.decoded_overflow = true;
                assert(written + Seq::<u8>::empty() =~= written);
                break ;
            }
            let run_value = segment[segment_index];
            segment_index += 1;
            let ghost run = Seq::new(run_length as nat, |i: int| run_value);
            let ghost rest = decode_from(
                segment@,
                segment_index as int,
                capacity - count - run_length,
            );
            assert(run =~= Seq::new(
                replicated_run_length(control),
                |i: int| segment@[segment_index - 1],
            ));
            let ghost start = written;
            let mut repeated: usize = 0;
            while repeated < run_length
                invariant
                    increment > 0,
                    stride == increment,
                    before.len() == decoded@.len() <= usize::MAX,
                    capacity == slot_count(before.len() as int, stride),
                    count + run_length <= capacity,
                    repeated <= run_length,
                    written == start + run.subrange(0, repeated as int),
                    start.len() == count,
                    run == Seq::new(run_length as nat, |i: int| run_value),
                    decoded@ == interleave(before, written, stride),
                decreases run_length - repeated,
            {
                proof {
                    lemma_interleave_push(before, written, stride, run_value);
                    assert((count + repeated) * increment == written.len() * stride);
                }
                decoded[(count + repeated) * increment] = run_value;
                proof {
                    assert(run.subrange(0, repeated + 1) =~= run.subrange(0, repeated as int).push(
                        run_value,
                    ));
                    written = written.push(run_value);
                    assert(written =~= start + run.subrange(0, repeated + 1));
                }
                repeated += 1;
            }
            proof {
                assert(run.subrange(0, run_length as int) =~= run);
                assert(start + (run + rest.data) =~= (start + run) + rest.data);
            }
            count += run_length;
        } else {
            result.invalid_prefix = true;
            assert(written + Seq::<u8>::empty() =~= written);
            break ;
        }
    }
    proof {
        assert(written + Seq::<u8>::empty() =~= written);
    }
    result.bytes_decoded = count;
    result
}

} // verus!
