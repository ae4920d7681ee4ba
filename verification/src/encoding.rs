//! What the decoder of a segment guarantees about the streams it reads.
//!
//! The module describes the encodings that an encoder may produce as
//! sequences of runs and proves that decoding gives back the encoded bytes.
//! It also proves how a stream behaves when more bytes follow it and when
//! bytes are cut off at its end.

use crate::decode_segment::{
    decode_from,
    decode_stream,
    literal_run_length,
    replicated_run_length,
    Halt,
    RunStream,
};
use vstd::prelude::*;

verus! {

/// One run of an encoded segment.
pub enum Run {
    /// The bytes themselves, 1 to 128 of them.
    Literal { bytes: Seq<u8> },
    /// One byte and the number of times it is repeated, 2 to 128.
    Replicated { count: nat, value: u8 },
}

impl Run {
    /// True if the run can be written with one control byte.
    pub open spec fn valid(self) -> bool {
        match self {
            Run::Literal { bytes } => 1 <= bytes.len() <= 128,
            Run::Replicated { count, value } => 2 <= count <= 128,
        }
    }

    /// The bytes that the run stands for.
    pub open spec fn data(self) -> Seq<u8> {
        match self {
            Run::Literal { bytes } => bytes,
            Run::Replicated { count, value } => Seq::new(count, |i: int| value),
        }
    }

    /// The bytes that encode the run: the control byte and what follows it.
    pub open spec fn encoded(self) -> Seq<u8> {
        match self {
            Run::Literal { bytes } => seq![(bytes.len() - 1) as u8] + bytes,
            Run::Replicated { count, value } => seq![(257 - count) as u8, value],
        }
    }
}

/// True if every run of the sequence is valid.
pub open spec fn runs_valid(runs: Seq<Run>) -> bool {
    forall|i: int| 0 <= i < runs.len() ==> (#[trigger] runs[i]).valid()
}

/// The bytes that a sequence of runs stands for.
pub open spec fn runs_data(runs: Seq<Run>) -> Seq<u8>
    decreases runs.len(),
{
    if runs.len() == 0 {
        Seq::empty()
    } else {
        runs[0].data() + runs_data(runs.skip(1))
    }
}

/// The segment that encodes a sequence of runs.
pub open spec fn encode_runs(runs: Seq<Run>) -> Seq<u8>
    decreases runs.len(),
{
    if runs.len() == 0 {
        Seq::empty()
    } else {
        runs[0].encoded() + encode_runs(runs.skip(1))
    }
}

/// True if `segment` is an encoding of `data`: the encoding of valid runs
/// that stand for `data`, with or without one zero byte of padding behind
/// them.
pub open spec fn is_encoding_of(segment: Seq<u8>, data: Seq<u8>) -> bool {
    exists|runs: Seq<Run>|
        #![trigger encode_runs(runs)]
        runs_valid(runs) && runs_data(runs) == data && (segment == encode_runs(runs) || segment
            == encode_runs(runs) + seq![0u8])
}

/// Number of bytes of `segment` from `pos` on that belong to runs which are
/// decoded: the position at which reading stops.
pub open spec fn consumed_from(segment: Seq<u8>, pos: int, room: int) -> int
    decreases segment.len() - pos,
{
    if pos < 0 || pos >= segment.len() {
        pos
    } else if segment[pos] <= 127 {
        let n = literal_run_length(segment[pos]);
        if pos + 1 + n > segment.len() || n > room {
            pos
        } else {
            consumed_from(segment, pos + 1 + n, room - n)
        }
    } else if segment[pos] >= 129 {
        let n = replicated_run_length(segment[pos]);
        if pos + 1 >= segment.len() || n > room {
            pos
        } else {
            consumed_from(segment, pos + 2, room - n)
        }
    } else {
        pos
    }
}

/// Number of leading bytes of `segment` that belong to runs which are
/// decoded when the output has room for `capacity` bytes.
pub open spec fn consumed(segment: Seq<u8>, capacity: int) -> int {
    consumed_from(segment, 0, capacity)
}

/// What a stream decodes to from some position on depends only on the bytes
/// from that position on.
pub proof fn lemma_decode_ignores_prefix(prefix: Seq<u8>, rest: Seq<u8>, pos: int, room: int)
    requires
        0 <= pos,
    ensures
        decode_from(prefix + rest, prefix.len() + pos, room) == decode_from(rest, pos, room),
    decreases rest.len() - pos,
{
    let whole = prefix + rest;
    let at = prefix.len() + pos;
    if pos < rest.len() {
        assert(whole[at] == rest[pos]);
        if rest[pos] <= 127 {
            let n = literal_run_length(rest[pos]);
            if pos + 1 + n <= rest.len() && n <= room {
                assert(whole.subrange(at + 1, at + 1 + n) =~= rest.subrange(pos + 1, pos + 1 + n));
                lemma_decode_ignores_prefix(prefix, rest, pos + 1 + n, room - n);
            }
        } else if rest[pos] >= 129 {
            let n = replicated_run_length(rest[pos]);
            if pos + 1 < rest.len() && n <= room {
                assert(whole[at + 1] == rest[pos + 1]);
                lemma_decode_ignores_prefix(prefix, rest, pos + 2, room - n);
            }
        }
    }
}

/// A stream that is read to its end decodes the same way when more bytes
/// follow it, and the bytes that follow are decoded as a stream of their
/// own into the room that is left.
pub proof fn lemma_decode_continues(first: Seq<u8>, second: Seq<u8>, pos: int, room: int)
    requires
        0 <= pos <= first.len(),
        decode_from(first, pos, room).halt is EndOfInput,
    ensures
        decode_from(first + second, pos, room) == (RunStream {
            data: decode_from(first, pos, room).data + decode_from(
                second,
                0,
                room - decode_from(first, pos, room).data.len(),
            ).data,
            halt: decode_from(
                second,
                0,
                room - decode_from(first, pos, room).data.len(),
            ).halt,
        }),
    decreases first.len() - pos,
{
    let whole = first + second;
    if pos == first.len() {
        lemma_decode_ignores_prefix(first, second, 0, room);
        assert(Seq::<u8>::empty() + decode_from(second, 0, room).data =~= decode_from(
            second,
            0,
            room,
        ).data);
    } else {
        assert(whole[pos] == first[pos]);
        if first[pos] <= 127 {
            let n = literal_run_length(first[pos]);
            let run = first.subrange(pos + 1, pos + 1 + n);
            assert(whole.subrange(pos + 1, pos + 1 + n) =~= run);
            lemma_decode_continues(first, second, pos + 1 + n, room - n);
            let rest = decode_from(first, pos + 1 + n, room - n);
            let tail = decode_from(second, 0, room - n - rest.data.len());
            assert(run + (rest.data + tail.data) =~= (run + rest.data) + tail.data);
        } else if first[pos] >= 129 {
            let n = replicated_run_length(first[pos]);
            let run = Seq::new(n, |i: int| first[pos + 1]);
            assert(whole[pos + 1] == first[pos + 1]);
            lemma_decode_continues(first, second, pos + 2, room - n);
            let rest = decode_from(first, pos + 2, room - n);
            let tail = decode_from(second, 0, room - n - rest.data.len());
            assert(run + (rest.data + tail.data) =~= (run + rest.data) + tail.data);
        }
    }
}

/// A literal run with control byte `control`, followed by the
/// `control + 1` bytes that it announces, decodes to exactly those bytes;
/// what follows the run is decoded as a stream of its own.
pub proof fn lemma_literal_run(control: u8, bytes: Seq<u8>, rest: Seq<u8>, capacity: int)
    requires
        control <= 127,
        bytes.len() == control + 1,
        bytes.len() <= capacity,
    ensures
        decode_stream(seq![control] + bytes, capacity) == (RunStream {
            data: bytes,
            halt: Halt::EndOfInput,
        }),
        decode_stream(seq![control] + bytes + rest, capacity) == (RunStream {
            data: bytes + decode_stream(rest, capacity - bytes.len()).data,
            halt: decode_stream(rest, capacity - bytes.len()).halt,
        }),
{
    let run = seq![control] + bytes;
    assert(run[0] == control);
    assert(run.subrange(1, 1 + bytes.len() as int) =~= bytes);
    assert(decode_from(run, run.len() as int, capacity - bytes.len()).data =~= Seq::<u8>::empty());
    assert(bytes + Seq::<u8>::empty() =~= bytes);
    lemma_decode_continues(run, rest, 0, capacity);
}

/// A replicated run with control byte `control` decodes to `257 - control`
/// copies of the byte that follows it; what follows the run is decoded as a
/// stream of its own.
pub proof fn lemma_replicated_run(control: u8, value: u8, rest: Seq<u8>, capacity: int)
    requires
        control >= 129,
        257 - control <= capacity,
    ensures
        decode_stream(seq![control, value], capacity) == (RunStream {
            data: Seq::new((257 - control) as nat, |i: int| value),
            halt: Halt::EndOfInput,
        }),
        decode_stream(seq![control, value] + rest, capacity) == (RunStream {
            data: Seq::new((257 - control) as nat, |i: int| value) + decode_stream(
                rest,
                capacity - (257 - control),
            ).data,
            halt: decode_stream(rest, capacity - (257 - control)).halt,
        }),
{
    let run = seq![control, value];
    let copies = Seq::new((257 - control) as nat, |i: int| value);
    assert(run[0] == control && run[1] == value);
    assert(decode_from(run, 2, capacity - (257 - control)).data =~= Seq::<u8>::empty());
    assert(copies + Seq::<u8>::empty() =~= copies);
    assert(Seq::new(replicated_run_length(control), |i: int| run[1]) =~= copies);
    lemma_decode_continues(run, rest, 0, capacity);
}

/// The control byte 128 ends the decoding of a segment on the spot: behind
/// a stream that was read to its end it adds no byte to what was decoded,
/// whatever follows it, and the stream halts on the invalid prefix.
pub proof fn lemma_invalid_prefix_halts(before: Seq<u8>, after: Seq<u8>, capacity: int)
    requires
        decode_stream(before, capacity).halt is EndOfInput,
    ensures
        decode_stream(before + seq![128u8] + after, capacity) == (RunStream {
            data: decode_stream(before, capacity).data,
            halt: Halt::InvalidPrefix,
        }),
{
    let tail = seq![128u8] + after;
    assert(tail[0] == 128);
    assert(before + seq![128u8] + after =~= before + tail);
    lemma_decode_continues(before, tail, 0, capacity);
    let data = decode_stream(before, capacity).data;
    assert(data + Seq::<u8>::empty() =~= data);
}

/// The encoding of a run is read back as that run.
proof fn lemma_run_decodes(run: Run, rest: Seq<u8>, room: int)
    requires
        run.valid(),
        run.data().len() <= room,
    ensures
        decode_from(run.encoded() + rest, 0, room) == (RunStream {
            data: run.data() + decode_from(rest, 0, room - run.data().len()).data,
            halt: decode_from(rest, 0, room - run.data().len()).halt,
        }),
        run.data().len() >= 1,
{
    match run {
        Run::Literal { bytes } => {
            let control = (bytes.len() - 1) as u8;
            lemma_literal_run(control, bytes, rest, room);
        },
        Run::Replicated { count, value } => {
            let control = (257 - count) as u8;
            lemma_replicated_run(control, value, rest, room);
        },
    }
}

/// Decoding the encoding of valid runs gives back the bytes that the runs
/// stand for and reads the segment to its end, provided that the output has
/// room for them. What follows the encoding is decoded as a stream of its
/// own.
pub proof fn lemma_decode_of_encoding(runs: Seq<Run>, rest: Seq<u8>, capacity: int)
    requires
        runs_valid(runs),
        runs_data(runs).len() <= capacity,
    ensures
        decode_stream(encode_runs(runs), capacity) == (RunStream {
            data: runs_data(runs),
            halt: Halt::EndOfInput,
        }),
        decode_stream(encode_runs(runs) + rest, capacity) == (RunStream {
            data: runs_data(runs) + decode_stream(rest, capacity - runs_data(runs).len()).data,
            halt: decode_stream(rest, capacity - runs_data(runs).len()).halt,
        }),
    decreases runs.len(),
{
    if runs.len() == 0 {
        assert(encode_runs(runs) + rest =~= rest);
        assert(runs_data(runs) + decode_stream(rest, capacity).data =~= decode_stream(
            rest,
            capacity,
        ).data);
    } else {
        let head = runs[0];
        let others = runs.skip(1);
        assert(head.valid());
        assert(runs_valid(others)) by {
            assert forall|i: int| 0 <= i < others.len() implies (#[trigger] others[i]).valid() by {
                assert(others[i] == runs[i + 1]);
            }
        }
        let left = capacity - head.data().len();
        lemma_decode_of_encoding(others, rest, left);
        lemma_decode_of_encoding(others, Seq::empty(), left);
        lemma_run_decodes(head, encode_runs(others), capacity);
        lemma_run_decodes(head, encode_runs(others) + rest, capacity);
        assert(encode_runs(runs) + rest =~= head.encoded() + (encode_runs(others) + rest));
        let tail = decode_stream(rest, capacity - runs_data(runs).len()).data;
        assert(head.data() + (runs_data(others) + tail) =~= (head.data() + runs_data(others))
            + tail);
    }
}

/// An encoding of `data` decodes to `data`, with or without the byte of
/// padding, provided that the output has room for it.
pub proof fn lemma_encoding_roundtrip(segment: Seq<u8>, data: Seq<u8>, capacity: int)
    requires
        is_encoding_of(segment, data),
        data.len() <= capacity,
    ensures
        decode_stream(segment, capacity).data == data,
        decode_stream(segment, capacity).halt is EndOfInput || decode_stream(
            segment,
            capacity,
        ).halt is LiteralRunUnderflow,
{
    let runs = choose|runs: Seq<Run>|
        #![trigger encode_runs(runs)]
        runs_valid(runs) && runs_data(runs) == data && (segment == encode_runs(runs) || segment
            == encode_runs(runs) + seq![0u8]);
    let padding = seq![0u8];
    lemma_decode_of_encoding(runs, padding, capacity);
    assert(padding[0] == 0);
    assert(decode_stream(padding, capacity - data.len()).halt is LiteralRunUnderflow);
    assert(data + Seq::<u8>::empty() =~= data);
}

/// Cutting bytes off the end of a segment changes nothing of what is
/// decoded as long as every byte of a decoded run is kept, and makes the
/// decoded bytes fewer as soon as one of them is cut off.
pub proof fn lemma_cut_segment(segment: Seq<u8>, kept: int, pos: int, room: int)
    requires
        0 <= pos <= kept <= segment.len(),
    ensures
        pos <= consumed_from(segment, pos, room) <= segment.len(),
        kept >= consumed_from(segment, pos, room) ==> decode_from(
            segment.subrange(0, kept),
            pos,
            room,
        ).data == decode_from(segment, pos, room).data,
        kept < consumed_from(segment, pos, room) ==> decode_from(
            segment.subrange(0, kept),
            pos,
            room,
        ).data.len() < decode_from(segment, pos, room).data.len(),
    decreases segment.len() - pos,
{
    let cut = segment.subrange(0, kept);
    if pos < segment.len() {
        if pos < kept {
            assert(cut[pos] == segment[pos]);
        }
        if segment[pos] <= 127 {
            let n = literal_run_length(segment[pos]);
            if pos + 1 + n <= segment.len() && n <= room {
                if pos + 1 + n <= kept {
                    assert(cut.subrange(pos + 1, pos + 1 + n) =~= segment.subrange(
                        pos + 1,
                        pos + 1 + n,
                    ));
                    lemma_cut_segment(segment, kept, pos + 1 + n, room - n);
                } else {
                    lemma_cut_segment(segment, segment.len() as int, pos + 1 + n, room - n);
                }
            }
        } else if segment[pos] >= 129 {
            let n = replicated_run_length(segment[pos]);
            if pos + 1 < segment.len() && n <= room {
                if pos + 2 <= kept {
                    assert(cut[pos + 1] == segment[pos + 1]);
                    lemma_cut_segment(segment, kept, pos + 2, room - n);
                } else {
                    lemma_cut_segment(segment, segment.len() as int, pos + 2, room - n);
                }
            }
        }
    }
}

} // verus!
