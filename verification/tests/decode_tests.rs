use byteorder::{ByteOrder, LittleEndian};
use dicomrle::decode::{calculate_start_index, decode, decode_i16, decode_image, decode_u16};
use dicomrle::decode_segment::DecodeSegmentResult;
use dicomrle::error::Error;

/// Width, height and bytes per pixel of the named test image.
fn dimensions(image_name: &str) -> (usize, usize, usize) {
    match image_name {
        "ct" | "ct1" | "ct2" => (512, 512, 2),
        "us1" => (640, 480, 3),
        "rf1" => (512, 512, 1),
        _ => panic!("no test image is named {}", image_name),
    }
}

/// The pixels of the named test image. The images are generated: tiles of
/// one colour, tiles with a slow gradient and tiles of noise, so that their
/// encodings hold runs of both kinds and of every length.
fn raw_image(image_name: &str) -> Vec<u8> {
    let (width, height, bytes_per_pixel) = dimensions(image_name);
    let mut state: u32 = 0x9E37_79B9;
    for byte in image_name.bytes() {
        state = state.wrapping_mul(31).wrapping_add(byte as u32);
    }
    let mut raw = Vec::with_capacity(width * height * bytes_per_pixel);
    for y in 0..height {
        for x in 0..width {
            state = state.wrapping_mul(1_664_525).wrapping_add(1_013_904_223);
            let noise = (state >> 24) as u8;
            let low = match (x / 64 + y / 64) % 3 {
                0 => 0,
                1 => (x / 8) as u8,
                _ => noise,
            };
            for channel in 0..bytes_per_pixel {
                let byte = match channel {
                    0 => low,
                    1 => (y / 32) as u8,
                    _ => low.wrapping_add((x / 128) as u8),
                };
                raw.push(byte);
            }
        }
    }
    raw
}

/// Encodes one plane as a stream of runs, padded to an even length.
fn encode_plane(plane: &[u8]) -> Vec<u8> {
    let mut segment = Vec::new();
    let mut at = 0;
    while at < plane.len() {
        let mut run = 1;
        while at + run < plane.len() && plane[at + run] == plane[at] && run < 128 {
            run += 1;
        }
        if run >= 2 {
            segment.push((257 - run) as u8);
            segment.push(plane[at]);
            at += run;
        } else {
            let start = at;
            at += 1;
            while at < plane.len()
                && at - start < 128
                && !(at + 1 < plane.len() && plane[at] == plane[at + 1])
            {
                at += 1;
            }
            segment.push((at - start - 1) as u8);
            segment.extend_from_slice(&plane[start..at]);
        }
    }
    if segment.len() % 2 == 1 {
        segment.push(0);
    }
    segment
}

/// Encodes an image of `planes` bytes per pixel: the header, then one
/// segment per plane. Images of two planes hold 16-bit samples and store the
/// plane of the more significant bytes first.
fn encode_image(raw: &[u8], planes: usize) -> Vec<u8> {
    let mut segments = Vec::new();
    for segment_index in 0..planes {
        let start = if planes == 2 { 1 - segment_index } else { segment_index };
        let plane: Vec<u8> = raw.iter().skip(start).step_by(planes).copied().collect();
        segments.push(encode_plane(&plane));
    }
    let mut words = vec![planes as u32];
    let mut offset = 64;
    for segment in &segments {
        words.push(offset as u32);
        offset += segment.len();
    }
    words.resize(16, 0);
    let mut encoded = vec![0; 64];
    LittleEndian::write_u32_into(&words, &mut encoded);
    for segment in &segments {
        encoded.extend_from_slice(segment);
    }
    encoded
}

/// Hands out the test images by the names of their files: the encoded image
/// for `tests/rleimage/<name>.rle` and its pixels for
/// `tests/rawimage/<name>.raw`.
fn read_file(filepath: &str) -> Result<Vec<u8>, Error> {
    if let Some(name) = filepath
        .strip_prefix("tests/rleimage/")
        .and_then(|rest| rest.strip_suffix(".rle"))
    {
        let (_, _, bytes_per_pixel) = dimensions(name);
        return Ok(encode_image(&raw_image(name), bytes_per_pixel));
    }
    if let Some(name) = filepath
        .strip_prefix("tests/rawimage/")
        .and_then(|rest| rest.strip_suffix(".raw"))
    {
        return Ok(raw_image(name));
    }
    Err(Error::Format(format!("no test image at {}", filepath)))
}

fn images_are_same<T>(a: &[T], b: &[T])
where
    T: PartialEq + std::fmt::Display,
{
    assert_eq!(a.len(), b.len());
    for i in 0..a.len() {
        if a[i] != b[i] {
            panic!("difference found at position {} {}!={}", i, a[i], b[i]);
        }
    }
}

fn compare_rle_to_raw(image_name: &str, decoded_size: usize) -> Result<(), Error> {
    // read rle encoded image
    let encoded = read_file(&format!("tests/rleimage/{}.rle", image_name))?;

    let mut decoded: Vec<u8> = Vec::new();
    decoded.resize(decoded_size, 0);

    // decode it
    let result = decode(&encoded, &mut decoded)?;
    assert_eq!(result.incomplete_decode, false);

    // read raw image
    let raw = read_file(&format!("tests/rawimage/{}.raw", image_name))?;

    // compare decoded buffer with raw image
    images_are_same(&decoded, &raw);

    Ok(())
}

fn make_header(values: &mut Vec<u32>) -> Vec<u8> {
    values.resize(16, 0);
    let mut header = Vec::new();
    header.resize(64, 0);
    LittleEndian::write_u32_into(&values, &mut header);
    header
}

fn message<T>(result: Result<T, Error>) -> String {
    match result {
        Ok(_) => panic!("the decode succeeded"),
        Err(Error::Format(text)) => text,
    }
}

fn clean(bytes_decoded: usize) -> DecodeSegmentResult {
    DecodeSegmentResult {
        bytes_decoded,
        literal_run_underflow: false,
        replicated_run_underflow: false,
        decoded_overflow: false,
        invalid_prefix: false,
    }
}

#[test]
fn decode_verify_ct_decode() {
    compare_rle_to_raw("ct", 512 * 512 * 2).unwrap();
}

#[test]
fn decode_verify_ct_decode_i16() {
    // read rle encoded image
    let encoded = read_file(&format!("tests/rleimage/ct.rle")).unwrap();

    let mut decoded: Vec<i16> = Vec::new();
    decoded.resize(512 * 512, 0);

    // decode it
    let result = decode_i16(&encoded, &mut decoded).unwrap();
    assert_eq!(result.incomplete_decode, false);

    // read raw image
    let raw = read_file(&format!("tests/rawimage/ct.raw")).unwrap();

    let raw_i16: Vec<i16> = raw
        .chunks_exact(2)
        .map(|pair| i16::from_le_bytes([pair[0], pair[1]]))
        .collect();

    // compare decoded buffer with raw image
    images_are_same(&decoded, &raw_i16);
}

#[test]
fn decode_verify_ct_decode_u16() {
    // read rle encoded image
    let encoded = read_file(&format!("tests/rleimage/ct.rle")).unwrap();

    let mut decoded: Vec<u16> = Vec::new();
    decoded.resize(512 * 512, 0);

    // decode it
    let result = decode_u16(&encoded, &mut decoded).unwrap();
    assert_eq!(result.incomplete_decode, false);

    // read raw image
    let raw = read_file(&format!("tests/rawimage/ct.raw")).unwrap();

    let raw_u16: Vec<u16> = raw
        .chunks_exact(2)
        .map(|pair| u16::from_le_bytes([pair[0], pair[1]]))
        .collect();

    // compare decoded buffer with raw image
    images_are_same(&decoded, &raw_u16);
}

#[test]
fn decode_verify_ct1_decode() {
    compare_rle_to_raw("ct1", 512 * 512 * 2).unwrap();
}

#[test]
fn decode_verify_ct2_decode() {
    compare_rle_to_raw("ct2", 512 * 512 * 2).unwrap();
}

#[test]
fn decode_verify_us1_decode() {
    compare_rle_to_raw("us1", 640 * 480 * 3).unwrap();
}

#[test]
fn decode_verify_rf1_decode() {
    compare_rle_to_raw("rf1", 512 * 512 * 1).unwrap();
}

#[test]
fn decode_verify_partial_rf1_decode() {
    // read rle encoded image
    let mut encoded = read_file(&"tests/rleimage/rf1.rle").unwrap();

    encoded.resize(encoded.len() - 1024, 0);

    let mut decoded: Vec<u8> = Vec::new();
    decoded.resize(512 * 512 * 1, 0);

    // decode it
    let result = decode_image(&encoded, &mut decoded, true).unwrap();
    assert_eq!(result.incomplete_decode, true);
    assert_eq!(
        message(decode(&encoded, &mut decoded)),
        "unexpected eof decoding segment"
    );
}

#[test]
fn decode_verify_partial_ct1_decode() {
    let mut encoded = read_file(&"tests/rleimage/ct1.rle").unwrap();
    encoded.resize(encoded.len() - 1024, 0);

    let mut decoded: Vec<u8> = Vec::new();
    decoded.resize(512 * 512 * 2, 0);

    // decode it
    let result = decode_image(&encoded, &mut decoded, true).unwrap();
    assert_eq!(result.incomplete_decode, true);
    assert_eq!(
        message(decode(&encoded, &mut decoded)),
        "unexpected eof decoding segment"
    );
}

#[test]
fn decode_verify_partial_ct2_decode() {
    let mut encoded = read_file(&"tests/rleimage/ct2.rle").unwrap();
    encoded.resize(encoded.len() / 2, 0);

    let mut decoded: Vec<u8> = Vec::new();
    decoded.resize(512 * 512 * 2, 0);

    // decode it
    let result = decode_image(&encoded, &mut decoded, true).unwrap();
    assert_eq!(result.incomplete_decode, true);
    assert_eq!(
        message(decode(&encoded, &mut decoded)),
        "unexpected eof decoding segment"
    );
}

#[test]
fn decode_verify_partial_us1_decode() {
    let mut encoded = read_file(&"tests/rleimage/us1.rle").unwrap();
    encoded.resize(encoded.len() - 150000, 0);

    let mut decoded: Vec<u8> = Vec::new();
    decoded.resize(640 * 480 * 3, 0);

    // decode it
    let result = decode_image(&encoded, &mut decoded, true).unwrap();
    assert_eq!(result.incomplete_decode, true);
    assert_eq!(
        message(decode(&encoded, &mut decoded)),
        "unexpected eof decoding segment"
    );
}

#[test]
fn start_index_of_each_segment() {
    assert_eq!(calculate_start_index(1, 0), 0);
    assert_eq!(calculate_start_index(2, 0), 1);
    assert_eq!(calculate_start_index(2, 1), 0);
    assert_eq!(calculate_start_index(3, 0), 0);
    assert_eq!(calculate_start_index(3, 1), 1);
    assert_eq!(calculate_start_index(3, 2), 2);
    for segment_index in 0..15 {
        assert_eq!(calculate_start_index(15, segment_index), segment_index);
    }
}

#[test]
fn two_segments_of_zeros() {
    let mut encoded = make_header(&mut vec![2, 64, 67]);
    encoded.extend_from_slice(&[255, 0, 0, 255, 0, 0]);
    let mut decoded = vec![9; 4];

    let result = decode(&encoded, &mut decoded).unwrap();

    assert_eq!(decoded, vec![0, 0, 0, 0]);
    assert_eq!(result.incomplete_decode, false);
    assert_eq!(result.unexpected_segment_offsets, false);
    assert_eq!(
        result.decode_segment_results,
        vec![
            DecodeSegmentResult { literal_run_underflow: true, ..clean(2) },
            DecodeSegmentResult { literal_run_underflow: true, ..clean(2) },
        ]
    );
}

#[test]
fn first_of_two_segments_holds_the_high_bytes() {
    let mut encoded = make_header(&mut vec![2, 64, 66]);
    encoded.extend_from_slice(&[255, 0xAB, 1, 0xCD, 0xEF]);
    let mut decoded = vec![0; 4];

    let result = decode(&encoded, &mut decoded).unwrap();

    assert_eq!(decoded, vec![0xCD, 0xAB, 0xEF, 0xAB]);
    assert_eq!(result.decode_segment_results, vec![clean(2), clean(2)]);

    let mut samples = vec![0u16; 2];
    decode_u16(&encoded, &mut samples).unwrap();
    assert_eq!(samples, vec![0xABCD, 0xABEF]);

    let mut signed = vec![0i16; 2];
    decode_i16(&encoded, &mut signed).unwrap();
    assert_eq!(signed, vec![0xABCDu16 as i16, 0xABEFu16 as i16]);
}

#[test]
fn signed_samples_of_both_signs() {
    let mut encoded = make_header(&mut vec![2, 64, 69]);
    encoded.extend_from_slice(&[3, 0x00, 0x7F, 0x80, 0xFF, 3, 0x01, 0xFF, 0x00, 0xFF]);
    let mut samples = vec![5i16; 4];

    let result = decode_i16(&encoded, &mut samples).unwrap();

    assert_eq!(result.incomplete_decode, false);
    assert_eq!(samples, vec![1, 32767, -32768, -1]);
}

#[test]
fn samples_keep_what_a_failed_decode_left() {
    // The second plane is missing: the first one has been written when the
    // decode fails.
    let mut encoded = make_header(&mut vec![2, 64, 66]);
    encoded.extend_from_slice(&[255, 0x12]);
    let mut samples = vec![0x5566u16; 2];

    assert_eq!(
        message(decode_u16(&encoded, &mut samples)),
        "unexpected eof decoding segment"
    );
    assert_eq!(samples, vec![0x1266, 0x1266]);

    // A header that does not parse leaves the samples as they were.
    let mut signed = vec![-2i16, 3];
    assert_eq!(
        message(decode_i16(&[1, 2, 3], &mut signed)),
        "unexpected eof reading header"
    );
    assert_eq!(signed, vec![-2, 3]);
}

#[test]
fn three_segments_interleave_in_order() {
    let mut encoded = make_header(&mut vec![3, 64, 67, 69]);
    encoded.extend_from_slice(&[1, 1, 2, 255, 3, 1, 5, 6]);
    let mut decoded = vec![0; 6];

    let result = decode(&encoded, &mut decoded).unwrap();

    assert_eq!(decoded, vec![1, 3, 5, 2, 3, 6]);
    assert_eq!(result.incomplete_decode, false);
    assert_eq!(
        result.decode_segment_results,
        vec![clean(2), clean(2), clean(2)]
    );
}

#[test]
fn strict_decode_stops_at_the_first_incomplete_segment() {
    // Segment 0 holds one byte of two; segments 1 and 2 are complete.
    let mut encoded = make_header(&mut vec![3, 64, 66, 68]);
    encoded.extend_from_slice(&[0, 1, 255, 3, 255, 5]);
    let mut decoded = vec![9; 6];

    assert_eq!(
        message(decode(&encoded, &mut decoded)),
        "unexpected eof decoding segment"
    );
    assert_eq!(decoded, vec![1, 9, 9, 9, 9, 9]);

    let mut decoded = vec![9; 6];
    let result = decode_image(&encoded, &mut decoded, true).unwrap();
    assert_eq!(result.incomplete_decode, true);
    assert_eq!(decoded, vec![1, 3, 5, 9, 3, 5]);
    assert_eq!(
        result.decode_segment_results,
        vec![clean(1), clean(2), clean(2)]
    );
}

#[test]
fn strict_decode_checks_the_last_offset_before_decoding() {
    let mut encoded = make_header(&mut vec![2, 64, 70]);
    encoded.extend_from_slice(&[255, 1]);
    let mut decoded = vec![9; 4];

    assert_eq!(
        message(decode(&encoded, &mut decoded)),
        "unexpected eof decoding segment"
    );
    assert_eq!(decoded, vec![9, 9, 9, 9]);

    let result = decode_image(&encoded, &mut decoded, true).unwrap();
    assert_eq!(result.incomplete_decode, true);
    assert_eq!(decoded, vec![9, 1, 9, 1]);
    assert_eq!(result.decode_segment_results, vec![clean(2), clean(0)]);
}

#[test]
fn bad_header_fails_whatever_is_allowed() {
    let encoded = make_header(&mut vec![0, 64]);
    let mut decoded = vec![9; 4];

    assert_eq!(
        message(decode_image(&encoded, &mut decoded, true)),
        "invalid header - cannot have zero segments"
    );
    assert_eq!(
        message(decode_image(&encoded, &mut decoded, false)),
        "invalid header - cannot have zero segments"
    );
    assert_eq!(
        message(decode(&encoded[..10], &mut decoded)),
        "unexpected eof reading header"
    );
    assert_eq!(decoded, vec![9, 9, 9, 9]);
}

#[test]
fn unused_slot_is_reported_and_changes_no_pixel() {
    let mut encoded = make_header(&mut vec![1, 64]);
    encoded.extend_from_slice(&[2, 10, 20, 30, 0]);
    let mut expected = vec![0; 3];
    let clean_result = decode(&encoded, &mut expected).unwrap();
    assert_eq!(clean_result.unexpected_segment_offsets, false);
    assert_eq!(expected, vec![10, 20, 30]);

    // add an unexpected segment offset
    encoded[8] = 1;
    let mut decoded = vec![0; 3];
    let result = decode(&encoded, &mut decoded).unwrap();

    assert_eq!(result.unexpected_segment_offsets, true);
    assert_eq!(result.incomplete_decode, false);
    assert_eq!(result.decode_segment_results, clean_result.decode_segment_results);
    assert_eq!(decoded, expected);
}

#[test]
fn too_much_data_is_incomplete_too() {
    // The plane holds two bytes but the region has three slots, and the
    // segment fills them all.
    let mut encoded = make_header(&mut vec![2, 64, 66]);
    encoded.extend_from_slice(&[255, 1, 254, 2]);
    let mut decoded = vec![0; 5];

    let result = decode_image(&encoded, &mut decoded, true).unwrap();

    assert_eq!(result.incomplete_decode, true);
    assert_eq!(decoded, vec![2, 1, 2, 1, 2]);
    assert_eq!(result.decode_segment_results, vec![clean(2), clean(3)]);
}

#[test]
fn output_shorter_than_the_number_of_segments() {
    let mut encoded = make_header(&mut vec![3, 64, 64, 64]);
    encoded.extend_from_slice(&[]);
    let mut decoded = vec![4; 1];

    let result = decode(&encoded, &mut decoded).unwrap();
    assert_eq!(result.incomplete_decode, false);
    assert_eq!(decoded, vec![4]);

    let mut nothing: Vec<u8> = Vec::new();
    let result = decode(&encoded, &mut nothing).unwrap();
    assert_eq!(result.incomplete_decode, false);
    assert_eq!(
        result.decode_segment_results,
        vec![clean(0), clean(0), clean(0)]
    );
}

#[test]
fn cutting_off_the_padding_goes_unnoticed() {
    let mut encoded = make_header(&mut vec![1, 64]);
    encoded.extend_from_slice(&[255, 8, 0]);
    let mut decoded = vec![0; 2];
    assert_eq!(decode(&encoded, &mut decoded).unwrap().incomplete_decode, false);

    encoded.truncate(66);
    let mut decoded = vec![0; 2];
    let result = decode_image(&encoded, &mut decoded, true).unwrap();
    assert_eq!(result.incomplete_decode, false);
    assert_eq!(decoded, vec![8, 8]);

    encoded.truncate(65);
    let result = decode_image(&encoded, &mut decoded, true).unwrap();
    assert_eq!(result.incomplete_decode, true);
    assert!(decode(&encoded, &mut decoded).is_err());
}
