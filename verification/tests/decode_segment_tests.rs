use dicomrle::decode_segment::{decode_segment, DecodeSegmentResult};

fn compare(expected: &[u8], actual: &[u8]) {
    assert_eq!(expected.len(), actual.len());
    for index in 0..expected.len() {
        assert_eq!(expected[index], actual[index]);
    }
}

fn clean(bytes_decoded: usize) -> DecodeSegmentResult {
    DecodeSegmentResult {
        bytes_decoded,
        literal_run_underflow: false,
        replicated_run_underflow: false,
        decoded_overflow: false,
        invalid_prefix: false,
    }
}

#[test]
fn literal_then_run() {
    let segment = vec![0, 0, 255, 0];
    let mut decoded = Vec::new();
    decoded.resize(3, 0);
    let result = decode_segment(&segment, &mut decoded, 1);
    assert_eq!(3, result.bytes_decoded);
    assert_eq!(false, result.literal_run_underflow);
    assert_eq!(false, result.replicated_run_underflow);
    assert_eq!(false, result.decoded_overflow);
    assert_eq!(false, result.invalid_prefix);
    compare(&[0, 0, 0], &decoded);
}

#[test]
fn run_then_literal() {
    let segment = vec![255, 0, 0, 0];
    let mut decoded = Vec::new();
    decoded.resize(3, 0);
    let result = decode_segment(&segment, &mut decoded, 1);
    assert_eq!(3, result.bytes_decoded);
    assert_eq!(false, result.literal_run_underflow);
    assert_eq!(false, result.replicated_run_underflow);
    assert_eq!(false, result.decoded_overflow);
    assert_eq!(false, result.invalid_prefix);
    compare(&[0, 0, 0], &decoded);
}

#[test]
fn run_only() {
    let segment = vec![255, 0];
    let mut decoded = Vec::new();
    decoded.resize(2, 0);
    let result = decode_segment(&segment, &mut decoded, 1);
    assert_eq!(2, result.bytes_decoded);
    assert_eq!(false, result.literal_run_underflow);
    assert_eq!(false, result.replicated_run_underflow);
    assert_eq!(false, result.decoded_overflow);
    assert_eq!(false, result.invalid_prefix);
    compare(&[0, 0], &decoded);
}

#[test]
fn literal_only() {
    let segment = vec![0, 0];
    let mut decoded = Vec::new();
    decoded.resize(1, 0);
    let result = decode_segment(&segment, &mut decoded, 1);
    assert_eq!(1, result.bytes_decoded);
    assert_eq!(false, result.literal_run_underflow);
    assert_eq!(false, result.replicated_run_underflow);
    assert_eq!(false, result.decoded_overflow);
    assert_eq!(false, result.invalid_prefix);
    compare(&[0], &decoded);
}

#[test]
fn invalid_prefix() {
    let segment = vec![128];
    let mut decoded = Vec::new();
    decoded.resize(0, 0);
    let result = decode_segment(&segment, &mut decoded, 1);
    assert_eq!(0, result.bytes_decoded);
    assert_eq!(false, result.literal_run_underflow);
    assert_eq!(false, result.replicated_run_underflow);
    assert_eq!(false, result.decoded_overflow);
    assert_eq!(true, result.invalid_prefix);
}

#[test]
fn literal_run_underflow() {
    let segment = vec![0];
    let mut decoded = Vec::new();
    decoded.resize(0, 0);
    let result = decode_segment(&segment, &mut decoded, 1);
    assert_eq!(0, result.bytes_decoded);
    assert_eq!(true, result.literal_run_underflow);
    assert_eq!(false, result.replicated_run_underflow);
    assert_eq!(false, result.decoded_overflow);
    assert_eq!(false, result.invalid_prefix);
}

#[test]
fn replicated_run_underflow() {
    let segment = vec![255];
    let mut decoded = Vec::new();
    decoded.resize(0, 0);
    let result = decode_segment(&segment, &mut decoded, 1);
    assert_eq!(0, result.bytes_decoded);
    assert_eq!(false, result.literal_run_underflow);
    assert_eq!(true, result.replicated_run_underflow);
    assert_eq!(false, result.decoded_overflow);
    assert_eq!(false, result.invalid_prefix);
}

#[test]
fn decoded_overflow_on_literal_run() {
    let segment = vec![0, 0];
    let mut decoded = Vec::new();
    decoded.resize(0, 0);
    let result = decode_segment(&segment, &mut decoded, 1);
    assert_eq!(0, result.bytes_decoded);
    assert_eq!(false, result.literal_run_underflow);
    assert_eq!(false, result.replicated_run_underflow);
    assert_eq!(true, result.decoded_overflow);
    assert_eq!(false, result.invalid_prefix);
}

#[test]
fn decoded_overflow_on_replicated_run() {
    let segment = vec![255, 0];
    let mut decoded = Vec::new();
    decoded.resize(0, 0);
    let result = decode_segment(&segment, &mut decoded, 1);
    assert_eq!(0, result.bytes_decoded);
    assert_eq!(false, result.literal_run_underflow);
    assert_eq!(false, result.replicated_run_underflow);
    assert_eq!(true, result.decoded_overflow);
    assert_eq!(false, result.invalid_prefix);
}

#[test]
fn zero_length_segment() {
    let segment = vec![];
    let mut decoded = Vec::new();
    decoded.resize(0, 0);
    let result = decode_segment(&segment, &mut decoded, 1);
    assert_eq!(0, result.bytes_decoded);
    assert_eq!(false, result.literal_run_underflow);
    assert_eq!(false, result.replicated_run_underflow);
    assert_eq!(false, result.decoded_overflow);
    assert_eq!(false, result.invalid_prefix);
}

#[test]
fn zero_length_segment_leaves_output_alone() {
    let segment: Vec<u8> = vec![];
    let mut decoded = vec![7, 8, 9];
    let result = decode_segment(&segment, &mut decoded, 2);
    assert_eq!(clean(0), result);
    compare(&[7, 8, 9], &decoded);
}

#[test]
fn literal_run_of_every_length() {
    for control in 0..=127u8 {
        let length = control as usize + 1;
        let mut segment = vec![control];
        for k in 0..length {
            segment.push((k as u8).wrapping_mul(3).wrapping_add(control));
        }
        let mut decoded = vec![0xEE; length];
        let result = decode_segment(&segment, &mut decoded, 1);
        assert_eq!(clean(length), result);
        compare(&segment[1..], &decoded);
    }
}

#[test]
fn replicated_run_of_every_length() {
    for control in 129..=255u8 {
        let length = 257 - control as usize;
        let segment = vec![control, control ^ 0x5A];
        let mut decoded = vec![0xEE; length];
        let result = decode_segment(&segment, &mut decoded, 1);
        assert_eq!(clean(length), result);
        compare(&vec![control ^ 0x5A; length], &decoded);
    }
}

#[test]
fn replicated_run_lengths_at_the_ends_of_the_range() {
    let mut two = vec![0; 2];
    assert_eq!(clean(2), decode_segment(&[255, 4], &mut two, 1));
    compare(&[4, 4], &two);

    let mut most = vec![0; 128];
    assert_eq!(clean(128), decode_segment(&[129, 9], &mut most, 1));
    compare(&[9; 128], &most);
}

#[test]
fn literal_run_writes_every_third_byte() {
    let segment = vec![2, 10, 20, 30];
    let mut decoded = vec![1, 2, 3, 4, 5, 6, 7, 8, 9];
    let result = decode_segment(&segment, &mut decoded, 3);
    assert_eq!(clean(3), result);
    compare(&[10, 2, 3, 20, 5, 6, 30, 8, 9], &decoded);
}

#[test]
fn replicated_run_writes_every_second_byte() {
    let segment = vec![254, 77];
    let mut decoded = vec![1, 2, 3, 4, 5, 6];
    let result = decode_segment(&segment, &mut decoded, 2);
    assert_eq!(clean(3), result);
    compare(&[77, 2, 77, 4, 77, 6], &decoded);
}

#[test]
fn run_that_ends_on_the_last_byte_fits() {
    // Three slots at stride 2 in a region of five bytes: 0, 2 and 4.
    let mut decoded = vec![0; 5];
    let result = decode_segment(&[254, 1], &mut decoded, 2);
    assert_eq!(clean(3), result);
    compare(&[1, 0, 1, 0, 1], &decoded);

    let mut literal = vec![0; 5];
    let result = decode_segment(&[2, 7, 8, 9], &mut literal, 2);
    assert_eq!(clean(3), result);
    compare(&[7, 0, 8, 0, 9], &literal);
}

#[test]
fn run_one_byte_too_long_writes_nothing() {
    let mut decoded = vec![5; 4];
    let result = decode_segment(&[254, 1], &mut decoded, 2);
    assert_eq!(
        DecodeSegmentResult { decoded_overflow: true, ..clean(0) },
        result
    );
    compare(&[5, 5, 5, 5], &decoded);

    let mut literal = vec![5; 4];
    let result = decode_segment(&[2, 7, 8, 9], &mut literal, 2);
    assert_eq!(
        DecodeSegmentResult { decoded_overflow: true, ..clean(0) },
        result
    );
    compare(&[5, 5, 5, 5], &literal);
}

#[test]
fn overflow_keeps_the_runs_before_it() {
    let mut decoded = vec![0; 3];
    let result = decode_segment(&[1, 3, 4, 255, 9], &mut decoded, 1);
    assert_eq!(
        DecodeSegmentResult { decoded_overflow: true, ..clean(2) },
        result
    );
    compare(&[3, 4, 0], &decoded);
}

#[test]
fn short_literal_run_writes_nothing() {
    let mut decoded = vec![0; 8];
    let result = decode_segment(&[255, 6, 3, 1, 2, 3], &mut decoded, 1);
    assert_eq!(
        DecodeSegmentResult { literal_run_underflow: true, ..clean(2) },
        result
    );
    compare(&[6, 6, 0, 0, 0, 0, 0, 0], &decoded);
}

#[test]
fn underflow_is_reported_before_overflow() {
    let mut decoded = vec![0; 1];
    let result = decode_segment(&[3, 1, 2], &mut decoded, 1);
    assert_eq!(
        DecodeSegmentResult { literal_run_underflow: true, ..clean(0) },
        result
    );
    let result = decode_segment(&[0, 1, 200], &mut decoded, 1);
    assert_eq!(
        DecodeSegmentResult { replicated_run_underflow: true, ..clean(1) },
        result
    );
}

#[test]
fn invalid_prefix_stops_the_segment() {
    let mut decoded = vec![0; 6];
    let result = decode_segment(&[0, 42, 128, 255, 7], &mut decoded, 1);
    assert_eq!(
        DecodeSegmentResult { invalid_prefix: true, ..clean(1) },
        result
    );
    compare(&[42, 0, 0, 0, 0, 0], &decoded);
}

#[test]
fn padding_byte_after_complete_data() {
    let mut decoded = vec![0; 2];
    let result = decode_segment(&[255, 3, 0], &mut decoded, 1);
    assert_eq!(
        DecodeSegmentResult { literal_run_underflow: true, ..clean(2) },
        result
    );
    compare(&[3, 3], &decoded);
}

#[test]
fn stride_larger_than_the_region() {
    let mut decoded = vec![0; 3];
    let result = decode_segment(&[0, 9], &mut decoded, usize::MAX);
    assert_eq!(clean(1), result);
    compare(&[9, 0, 0], &decoded);

    let result = decode_segment(&[255, 9], &mut decoded, usize::MAX);
    assert_eq!(
        DecodeSegmentResult { decoded_overflow: true, ..clean(0) },
        result
    );
}
