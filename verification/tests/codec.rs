use std::io::Read;

use bzip2rs::crc::checksum;
use bzip2rs::encoder::piece_length;
use bzip2rs::rand::derandomize;
use bzip2rs::{compress, decompress, test_integrity, CodecError, Error};

const E_TXT_BZ2: [u8; 171] = [
    66, 90, 104, 57, 49, 65, 89, 38, 83, 89, 197, 62, 222, 101, 0, 2,
    153, 217, 0, 0, 16, 64, 1, 127, 226, 2, 0, 48, 1, 24, 1, 76,
    0, 1, 76, 0, 0, 82, 169, 234, 39, 169, 233, 19, 106, 118, 95, 139,
    194, 217, 114, 93, 151, 133, 244, 191, 17, 248, 180, 88, 94, 23, 210, 224,
    186, 46, 69, 178, 193, 104, 88, 93, 11, 241, 97, 120, 88, 91, 45, 11,
    178, 232, 185, 47, 69, 178, 209, 122, 47, 101, 201, 122, 46, 11, 217, 112,
    88, 45, 151, 69, 240, 44, 46, 139, 69, 133, 133, 133, 133, 201, 108, 186,
    46, 5, 162, 194, 236, 180, 46, 139, 209, 104, 91, 47, 11, 217, 97, 108,
    93, 150, 23, 37, 232, 189, 151, 194, 209, 118, 95, 11, 11, 225, 96, 176,
    189, 151, 5, 178, 209, 112, 45, 22, 203, 101, 193, 97, 97, 125, 47, 11,
    252, 93, 201, 20, 225, 66, 67, 20, 251, 121, 148,
];
const AAA_BZ2: [u8; 37] = [
    66, 90, 104, 49, 49, 65, 89, 38, 83, 89, 156, 112, 207, 232, 0, 0,
    1, 4, 0, 32, 0, 32, 0, 48, 140, 20, 24, 187, 146, 41, 194, 132,
    132, 227, 134, 127, 64,
];
const EMPTY_BZ2: [u8; 14] = [
    66, 90, 104, 57, 23, 114, 69, 56, 80, 144, 0, 0, 0, 0,
];
const HELLO_WORLD_BZ2: [u8; 84] = [
    66, 90, 104, 51, 49, 65, 89, 38, 83, 89, 117, 106, 16, 5, 0, 0,
    1, 145, 0, 64, 4, 2, 68, 160, 0, 33, 128, 12, 1, 107, 46, 28,
    93, 201, 20, 225, 66, 65, 213, 168, 64, 20, 66, 90, 104, 55, 49, 65,
    89, 38, 83, 89, 89, 206, 123, 203, 0, 0, 2, 1, 128, 4, 4, 144,
    128, 32, 0, 48, 205, 0, 193, 164, 192, 113, 119, 36, 83, 133, 9, 5,
    156, 231, 188, 176,
];
const NOT_BZ2_BASE64: [u8; 73] = [
    81, 108, 112, 111, 79, 84, 70, 66, 87, 83, 90, 84, 87, 90, 49, 75,
    112, 102, 69, 65, 65, 65, 78, 82, 103, 65, 65, 81, 81, 71, 65, 104,
    73, 119, 65, 75, 73, 65, 65, 105, 65, 97, 97, 97, 67, 65, 97, 97,
    97, 79, 81, 103, 73, 69, 54, 112, 55, 120, 100, 121, 82, 84, 104, 81,
    107, 74, 49, 75, 112, 102, 69, 61, 10,
];

fn e_text() -> Vec<u8> {
    let line = "e = 2.71828182845904523536028747135266249775724709369995957496696762772407663035354759457138217852516642742746\n";
    line.repeat(12).into_bytes()
}

fn decoded(data: &[u8]) -> Result<Vec<u8>, Error> {
    let mut out = Vec::new();
    let n = decompress(data, &mut out)?;
    assert_eq!(n, out.len() as u64);
    Ok(out)
}

fn noise(len: usize, seed: u32) -> Vec<u8> {
    let mut x = seed;
    let mut v = Vec::with_capacity(len);
    for _ in 0..len {
        x = x.wrapping_mul(1664525).wrapping_add(1013904223);
        v.push((x >> 24) as u8);
    }
    v
}

/// Noise that leaves the byte values from 128 on out.
fn noise7(len: usize, seed: u32) -> Vec<u8> {
    noise(len, seed).iter().map(|b| b & 0x7f).collect()
}

fn other_decoder(data: &[u8]) -> Vec<u8> {
    let mut out = Vec::new();
    bzip2_rs::DecoderReader::new(data)
        .read_to_end(&mut out)
        .unwrap();
    out
}

fn round_trip(data: &[u8], level: usize) {
    let packed = compress(data, level).unwrap();
    // a decoder that reads one stream reads all of it
    assert_eq!(other_decoder(&packed), data);
    assert_eq!(&packed[..3], b"BZh");
    assert_eq!(packed[3], b'0' + level as u8);
    assert_eq!(decoded(&packed).unwrap(), data);
}

#[test]
fn test_integrity_ok() {
    assert!(test_integrity(&E_TXT_BZ2).is_ok());
    assert_eq!(test_integrity(&E_TXT_BZ2).unwrap(), e_text().len() as u64);
}

#[test]
fn test_integrity_ng() {
    assert!(test_integrity(&NOT_BZ2_BASE64).is_err());
    assert!(matches!(
        test_integrity(&NOT_BZ2_BASE64),
        Err(Error::Codec(CodecError::CorruptData))
    ));
}

#[test]
fn decodes_a_reference_stream() {
    assert_eq!(decoded(&E_TXT_BZ2).unwrap(), e_text());
    assert_eq!(decoded(&AAA_BZ2).unwrap(), b"AAA");
}

#[test]
fn decodes_the_empty_stream() {
    assert_eq!(decoded(&EMPTY_BZ2).unwrap(), b"");
}

#[test]
fn three_bytes_round_trip() {
    round_trip(b"AAA", 1);
}

#[test]
fn empty_input_round_trips() {
    for level in 1..=9 {
        round_trip(b"", level);
    }
}

#[test]
fn every_level_round_trips() {
    let text = e_text();
    let same = vec![7u8; 5000];
    let mixed = noise(20_000, 1);
    let plain = noise7(20_000, 1);
    for level in 1..=9 {
        round_trip(&text, level);
        round_trip(&same, level);
        round_trip(&mixed, level);
        round_trip(&plain, level);
    }
}

#[test]
fn short_inputs_round_trip() {
    for len in 0..40 {
        round_trip(&noise(len, 99), 6);
        round_trip(&vec![b'x'; len], 6);
    }
}

#[test]
fn runs_of_every_length_round_trip() {
    for len in [1usize, 2, 3, 4, 5, 254, 255, 256, 257, 258, 259, 260, 511, 1000] {
        let mut data = vec![0u8; len];
        data.push(1);
        data.extend(vec![2u8; len]);
        round_trip(&data, 2);
    }
}

#[test]
fn several_blocks_round_trip() {
    let mut data = noise7(150_000, 5);
    data.extend(e_text());
    data.extend(vec![0u8; 120_000]);
    assert_eq!(piece_length(&data), data.len());
    round_trip(&data, 1);
    assert_eq!(other_decoder(&compress(&data, 1).unwrap()), data);
    let mut all = noise(150_000, 5);
    all.extend(e_text());
    all.extend(vec![0u8; 120_000]);
    round_trip(&all, 1);
}

#[test]
fn nine_hundred_thousand_bytes_round_trip() {
    let mut data = noise(450_000, 3);
    data.extend(vec![b'A'; 200_000]);
    data.extend(noise(300_000, 4));
    assert!(data.len() >= 900_000);
    round_trip(&data, 9);
    round_trip(&data, 4);
}

#[test]
fn concatenated_streams_decode_to_the_concatenation() {
    assert_eq!(decoded(&HELLO_WORLD_BZ2).unwrap(), b"hello, world");
    let first = compress(b"one stream, ", 1).unwrap();
    let second = compress(&e_text(), 9).unwrap();
    let mut both = first.clone();
    both.extend(&second);
    let mut expected = b"one stream, ".to_vec();
    expected.extend(e_text());
    assert_eq!(decoded(&both).unwrap(), expected);
}

#[test]
fn output_is_added_behind_what_is_there() {
    let mut out = b">> ".to_vec();
    assert_eq!(decompress(&AAA_BZ2, &mut out).unwrap(), 3);
    assert_eq!(out, b">> AAA");
}

#[test]
fn a_flipped_bit_in_the_block_crc_is_a_mismatch() {
    for bit in 80..112 {
        let mut data = AAA_BZ2.to_vec();
        data[bit / 8] ^= 0x80 >> (bit % 8);
        let stored = u32::from_be_bytes([data[10], data[11], data[12], data[13]]);
        match decoded(&data) {
            Err(Error::Codec(CodecError::CrcMismatch { expected, actual })) => {
                assert_eq!(expected, stored);
                assert_eq!(actual, 0x9c70cfe8);
            }
            other => panic!("bit {}: {:?}", bit, other),
        }
    }
}

#[test]
fn a_flipped_bit_in_the_stream_crc_is_a_mismatch() {
    let mut data = EMPTY_BZ2.to_vec();
    data[13] ^= 1;
    assert!(matches!(
        decoded(&data),
        Err(Error::Codec(CodecError::CrcMismatch { expected: 1, actual: 0 }))
    ));
}

#[test]
fn a_cut_stream_is_truncated() {
    for len in [0usize, 1, 3, 4, 9, 10, 13, 14, 20, 36] {
        assert!(
            matches!(decoded(&AAA_BZ2[..len]), Err(Error::Codec(CodecError::TruncatedStream))),
            "length {}",
            len
        );
    }
}

#[test]
fn a_wrong_header_is_corrupt() {
    for (at, byte) in [(0usize, b'b'), (1, b'z'), (2, b'0'), (3, b'0'), (3, b':')] {
        let mut data = AAA_BZ2.to_vec();
        data[at] = byte;
        assert!(matches!(decoded(&data), Err(Error::Codec(CodecError::CorruptData))));
    }
}

#[test]
fn a_wrong_marker_is_corrupt() {
    let mut data = AAA_BZ2.to_vec();
    data[4] ^= 1;
    assert!(matches!(decoded(&data), Err(Error::Codec(CodecError::CorruptData))));
}

#[test]
fn bytes_behind_a_stream_must_be_a_stream() {
    let mut data = AAA_BZ2.to_vec();
    data.extend(b"BZ");
    let mut out = Vec::new();
    assert!(matches!(
        decompress(&data, &mut out),
        Err(Error::Codec(CodecError::TruncatedStream))
    ));
    assert_eq!(out, b"AAA");
}

#[test]
fn an_origin_pointer_outside_the_block_is_invalid() {
    let mut data = AAA_BZ2.to_vec();
    // the 24 bits behind the randomisation flag, at bits 113 to 136
    for bit in 113..137 {
        data[bit / 8] |= 0x80 >> (bit % 8);
    }
    assert!(matches!(decoded(&data), Err(Error::Codec(CodecError::InvalidBlock))));
}

#[test]
fn the_blocks_in_front_of_a_failure_stay() {
    let mut data = noise7(100_000, 8);
    data.extend(noise7(50_000, 9));
    let mut packed = compress(&data, 1).unwrap();
    let last = packed.len() - 30;
    packed[last] ^= 0x10;
    let mut out = Vec::new();
    assert!(decompress(&packed, &mut out).is_err());
    assert_eq!(out.len(), 99_999);
    assert_eq!(&out[..], &data[..99_999]);
}

fn bit(data: &[u8], i: usize) -> bool {
    data[i / 8] & (0x80 >> (i % 8)) != 0
}

fn set_bits(data: &mut [u8], at: usize, n: usize, value: u64) {
    for k in 0..n {
        let i = at + k;
        let on = (value >> (n - 1 - k)) & 1 == 1;
        if on {
            data[i / 8] |= 0x80 >> (i % 8);
        } else {
            data[i / 8] &= !(0x80 >> (i % 8));
        }
    }
}

fn find_bits(data: &[u8], n: usize, value: u64) -> Vec<usize> {
    let mut found = Vec::new();
    if data.len() * 8 < n {
        return found;
    }
    for at in 0..=data.len() * 8 - n {
        if (0..n).all(|k| bit(data, at + k) == ((value >> (n - 1 - k)) & 1 == 1)) {
            found.push(at);
        }
    }
    found
}

#[test]
fn a_randomised_block_is_set_right() {
    let plain: Vec<u8> = (0..3000u32).map(|i| (i * 7 % 251) as u8 | 2).collect();
    let dithered = derandomize(&plain);
    assert_ne!(dithered, plain);
    let mut packed = compress(&dithered, 1).unwrap();
    assert_eq!(decoded(&packed).unwrap(), dithered);
    // the flag stands behind header, marker and check value
    set_bits(&mut packed, 112, 1, 1);
    assert!(matches!(
        decoded(&packed),
        Err(Error::Codec(CodecError::CrcMismatch { .. }))
    ));
    let crc = checksum(&plain) as u64;
    set_bits(&mut packed, 80, 32, crc);
    let end = *find_bits(&packed, 48, 0x1772_4538_5090).last().unwrap();
    set_bits(&mut packed, end + 48, 32, crc);
    assert_eq!(decoded(&packed).unwrap(), plain);
}

#[test]
fn the_other_decoder_agrees() {
    let mut data = noise7(30_000, 21);
    data.extend(e_text());
    data.extend(vec![9u8; 1000]);
    for packed in [compress(&data, 1).unwrap(), E_TXT_BZ2.to_vec(), AAA_BZ2.to_vec()] {
        let mut other = Vec::new();
        bzip2_rs::DecoderReader::new(&packed[..])
            .read_to_end(&mut other)
            .unwrap();
        assert_eq!(decoded(&packed).unwrap(), other);
    }
}

#[test]
fn the_encoder_is_the_outside_one() {
    let data = e_text();
    let mut expected = Vec::new();
    banzai::encode(&data[..], std::io::BufWriter::new(&mut expected), 5).unwrap();
    assert_eq!(compress(&data, 5).unwrap(), expected);
    assert_ne!(compress(&data, 5).unwrap(), data);
    assert_ne!(compress(&data, 5).unwrap(), compress(&data, 6).unwrap());
}

#[test]
fn every_error_of_the_decoder_is_met() {
    assert!(matches!(decoded(b""), Err(Error::Codec(CodecError::TruncatedStream))));
    assert!(matches!(decoded(b"BZh9 no marker here"), Err(Error::Codec(CodecError::CorruptData))));
    // a block of one table pair whose codes leave the bits 11 free
    let mut data = vec![0u8; 64];
    data[..4].copy_from_slice(b"BZh1");
    set_bits(&mut data, 32, 48, 0x3141_5926_5359);
    set_bits(&mut data, 80, 32, 0);
    set_bits(&mut data, 112, 1, 0);
    set_bits(&mut data, 113, 24, 0);
    set_bits(&mut data, 137, 16, 0x0800); // group 4
    set_bits(&mut data, 153, 16, 0x4000); // 'A'
    set_bits(&mut data, 169, 3, 2); // two tables
    set_bits(&mut data, 172, 15, 1); // one group of symbols
    set_bits(&mut data, 187, 1, 0); // which uses the first table
    set_bits(&mut data, 188, 5, 2); // lengths 2, 2, 2
    set_bits(&mut data, 193, 3, 0);
    set_bits(&mut data, 196, 5, 2);
    set_bits(&mut data, 201, 3, 0);
    set_bits(&mut data, 204, 2, 3); // no such code
    assert!(matches!(decoded(&data), Err(Error::Codec(CodecError::InvalidCode))));
    set_bits(&mut data, 204, 2, 2); // the end of the block: no bytes, so no origin
    assert!(matches!(decoded(&data), Err(Error::Codec(CodecError::InvalidBlock))));
    set_bits(&mut data, 204, 6, 0b00_00_10); // A, A, A and the end
    assert!(matches!(
        decoded(&data),
        Err(Error::Codec(CodecError::CrcMismatch { expected: 0, actual: 0x9c70_cfe8 }))
    ));
    set_bits(&mut data, 80, 32, 0x9c70_cfe8);
    set_bits(&mut data, 210, 48, 0x1772_4538_5090);
    set_bits(&mut data, 258, 32, 0x9c70_cfe8);
    data.truncate(37);
    assert_eq!(decoded(&data).unwrap(), b"AAA");
    set_bits(&mut data, 169, 3, 7); // seven tables
    assert!(matches!(decoded(&data), Err(Error::Codec(CodecError::CorruptData))));
}

#[test]
fn checked_compression_gives_the_same_stream() {
    for data in [&b""[..], b"AAA", &e_text(), &noise(70_000, 31), &EVERY_VALUE_ONCE] {
        for level in [1usize, 9] {
            let plain = compress(data, level).unwrap();
            let checked = bzip2rs::compress_checked(data, level).unwrap();
            assert_eq!(plain, checked);
            assert_eq!(decoded(&checked).unwrap(), data);
        }
    }
}

#[test]
fn the_check_values_of_the_blocks_fold_in_order() {
    let mut data = noise7(100_000, 41);
    data.extend(noise7(100_000, 42));
    let packed = compress(&data, 1).unwrap();
    let first = checksum(&data[..99_999]);
    assert_eq!(find_bits(&packed, 32, first as u64).first(), Some(&80));
    let ends = find_bits(&packed, 48, 0x1772_4538_5090);
    let end = *ends.last().unwrap();
    let mut stored = 0u64;
    for k in 0..32 {
        stored = stored << 1 | bit(&packed, end + 48 + k) as u64;
    }
    let mut folded = 0u32;
    let mut at = 0;
    for len in [99_999usize, 99_999, 2] {
        folded = bzip2rs::crc::combine(folded, checksum(&data[at..at + len]));
        at += len;
    }
    assert_eq!(stored, folded as u64);
}

#[test]
fn a_flipped_bit_never_changes_the_content_unseen() {
    let mut sound = Vec::new();
    for bit in 0..AAA_BZ2.len() * 8 {
        let mut data = AAA_BZ2.to_vec();
        data[bit / 8] ^= 0x80 >> (bit % 8);
        match decoded(&data) {
            Ok(out) => {
                assert_eq!(out, b"AAA", "bit {}", bit);
                sound.push(bit);
            }
            Err(Error::Codec(_)) => {}
            Err(other) => panic!("bit {}: {:?}", bit, other),
        }
    }
    // the level; the flag, in a block too short for a flipped byte; the
    // origin pointer turned from 2 to 0, in a block of equal bytes; the padding
    for bit in [28, 29, 30, 112, 135, 293, 294, 295] {
        assert!(sound.contains(&bit), "bit {} of {:?}", bit, sound);
    }
    // an origin pointer of 3 lies outside the block
    assert!(!sound.contains(&136));
    // no marker and no check value
    assert!(!sound.iter().any(|&bit| (32..112).contains(&bit)));
    assert!(!sound.iter().any(|&bit| (213..293).contains(&bit)));
}

#[test]
fn an_empty_stream_between_streams_adds_nothing() {
    let mut data = AAA_BZ2.to_vec();
    data.extend(EMPTY_BZ2);
    data.extend(HELLO_WORLD_BZ2);
    data.extend(compress(b"", 4).unwrap());
    assert_eq!(decoded(&data).unwrap(), b"AAAhello, world");
    assert_eq!(test_integrity(&data).unwrap(), 15);
}

#[test]
fn a_failure_in_a_later_stream_keeps_the_earlier_ones() {
    let mut data = HELLO_WORLD_BZ2.to_vec();
    let n = data.len();
    data[n - 1] ^= 0x40;
    let mut out = Vec::new();
    assert!(matches!(
        decompress(&data, &mut out),
        Err(Error::Codec(CodecError::CrcMismatch { .. }))
    ));
    assert_eq!(out, b"hello, world");
    data.truncate(60);
    let mut out = Vec::new();
    assert!(matches!(
        decompress(&data, &mut out),
        Err(Error::Codec(CodecError::TruncatedStream))
    ));
    assert_eq!(out, b"hello, ");
}

#[test]
fn where_the_other_decoder_does_less() {
    // it stops behind the first stream
    let mut other = Vec::new();
    bzip2_rs::DecoderReader::new(&HELLO_WORLD_BZ2[..])
        .read_to_end(&mut other)
        .unwrap();
    assert_eq!(other, b"hello, ");
    assert_eq!(decoded(&HELLO_WORLD_BZ2).unwrap(), b"hello, world");
    // it does not look at the check value of the stream
    let mut data = AAA_BZ2.to_vec();
    set_bits(&mut data, 261, 32, 0);
    let mut other = Vec::new();
    bzip2_rs::DecoderReader::new(&data[..])
        .read_to_end(&mut other)
        .unwrap();
    assert_eq!(other, b"AAA");
    assert!(matches!(
        decoded(&data),
        Err(Error::Codec(CodecError::CrcMismatch { expected: 0, actual: 0x9c70_cfe8 }))
    ));
    // it turns randomised blocks down
    let mut data = AAA_BZ2.to_vec();
    set_bits(&mut data, 112, 1, 1);
    let mut other = Vec::new();
    assert!(bzip2_rs::DecoderReader::new(&data[..])
        .read_to_end(&mut other)
        .is_err());
    assert_eq!(decoded(&data).unwrap(), b"AAA");
}

const EVERY_VALUE_ONCE: [u8; 256] = [
    78, 216, 59, 225, 46, 108, 221, 52, 231, 37, 210, 68, 18, 228, 41, 201,
    82, 168, 131, 187, 103, 229, 40, 177, 118, 206, 74, 96, 239, 25, 66, 24,
    162, 140, 173, 124, 197, 88, 251, 7, 63, 120, 203, 79, 198, 86, 253, 4,
    207, 73, 213, 64, 249, 10, 240, 23, 54, 42, 75, 186, 104, 227, 43, 171,
    127, 193, 94, 242, 20, 222, 50, 60, 36, 243, 19, 99, 235, 31, 153, 154,
    152, 155, 151, 157, 148, 161, 142, 170, 128, 191, 97, 238, 26, 141, 172, 125,
    196, 89, 250, 8, 114, 212, 65, 57, 45, 90, 248, 11, 189, 100, 233, 34,
    33, 84, 255, 1, 144, 167, 133, 184, 107, 223, 49, 174, 122, 200, 83, 156,
    149, 160, 143, 169, 130, 188, 101, 232, 35, 21, 123, 199, 85, 254, 2, 138,
    176, 119, 205, 76, 135, 181, 112, 215, 61, 3, 132, 185, 106, 224, 47, 180,
    113, 214, 62, 192, 95, 241, 22, 129, 190, 98, 236, 29, 72, 111, 217, 58,
    12, 126, 194, 92, 245, 16, 150, 158, 146, 164, 137, 178, 116, 209, 70, 237,
    28, 147, 163, 139, 175, 121, 202, 80, 183, 109, 220, 53, 51, 93, 244, 17,
    69, 195, 91, 247, 13, 48, 246, 14, 15, 117, 208, 71, 165, 136, 179, 115,
    211, 67, 204, 77, 30, 87, 252, 5, 234, 32, 27, 6, 105, 226, 44, 159,
    145, 166, 134, 182, 110, 218, 56, 9, 102, 230, 38, 219, 55, 39, 81, 0,
];

#[test]
fn input_that_spares_a_value_is_one_piece() {
    assert_eq!(piece_length(b""), 0);
    assert_eq!(piece_length(b"A"), 1);
    assert_eq!(piece_length(&[255]), 1);
    assert_eq!(piece_length(&e_text()), e_text().len());
    assert_eq!(piece_length(&vec![0u8; 5000]), 5000);
    assert_eq!(piece_length(&noise7(50_000, 3)), 50_000);
    // every value but 252, and a long run
    let mut data: Vec<u8> = (0..=255u8).filter(|&b| b != 252).collect();
    data.extend(vec![9u8; 300]);
    assert_eq!(piece_length(&data), data.len());
}

#[test]
fn a_piece_ends_in_front_of_the_byte_that_leaves_no_value_spare() {
    assert_eq!(piece_length(&EVERY_VALUE_ONCE), 255);
    let all: Vec<u8> = (0..=255u8).collect();
    assert_eq!(piece_length(&all), 255);
    let mut twice = all.clone();
    twice.extend(&all);
    assert_eq!(piece_length(&twice), 255);
    assert_eq!(piece_length(&twice[255..]), 255);
    // every value but 3, and a run that a count of 3 could stand in
    let mut data: Vec<u8> = (0..=255u8).filter(|&b| b != 3).collect();
    data.extend(vec![9u8; 10]);
    assert_eq!(piece_length(&data), 255 + 6);
    // every value but 3 and 200: runs of up to 203 bytes are in order
    let mut data: Vec<u8> = (0..=255u8).filter(|&b| b != 3 && b != 200).collect();
    data.extend(vec![9u8; 250]);
    assert_eq!(piece_length(&data), 254 + 203);
}

fn stream_starts(data: &[u8]) -> Vec<usize> {
    (0..data.len().saturating_sub(3))
        .filter(|&i| &data[i..i + 3] == b"BZh" && (b'1'..=b'9').contains(&data[i + 3]))
        .filter(|&i| i + 10 <= data.len() && find_bits(&data[i + 4..i + 10], 48, 0x3141_5926_5359) == [0])
        .collect()
}

fn stored_stream_crc(packed: &[u8]) -> u32 {
    let end = *find_bits(packed, 48, 0x1772_4538_5090).last().unwrap();
    assert!(end + 80 <= packed.len() * 8 && packed.len() * 8 < end + 88);
    let mut stored = 0u32;
    for k in 0..32 {
        stored = stored << 1 | bit(packed, end + 48 + k) as u32;
    }
    for k in end + 80..packed.len() * 8 {
        assert!(!bit(packed, k));
    }
    stored
}

#[test]
fn input_with_every_byte_value_becomes_one_stream() {
    let data = EVERY_VALUE_ONCE;
    let packed = compress(&data, 9).unwrap();
    assert_eq!(&packed[..4], b"BZh9");
    assert_eq!(stream_starts(&packed), [0]);
    assert_eq!(decoded(&packed).unwrap(), data);
    assert_eq!(other_decoder(&packed), data);
    // the blocks are those that the encoder makes of the two pieces
    assert_eq!(find_bits(&packed, 48, 0x3141_5926_5359).len(), 2);
    let first = compress(&data[..255], 9).unwrap();
    assert_eq!(packed[..first.len() - 11], first[..first.len() - 11]);
    let folded = bzip2rs::crc::combine(
        bzip2rs::crc::combine(0, checksum(&data[..255])),
        checksum(&data[255..]),
    );
    assert_eq!(stored_stream_crc(&packed), folded);
}

#[test]
fn the_blocks_of_all_pieces_stand_in_one_stream() {
    let data = noise(10_000, 77);
    let packed = compress(&data, 3).unwrap();
    assert_eq!(stream_starts(&packed), [0]);
    let mut folded = 0u32;
    let mut at = 0;
    let mut pieces = 0;
    while at < data.len() {
        let n = piece_length(&data[at..]);
        assert!(n >= 1);
        folded = bzip2rs::crc::combine(folded, checksum(&data[at..at + n]));
        at += n;
        pieces += 1;
    }
    assert!(pieces > 1);
    assert_eq!(stored_stream_crc(&packed), folded);
    assert_eq!(decoded(&packed).unwrap(), data);
    assert_eq!(other_decoder(&packed), data);
    // cut behind any byte, what is left is no sound input
    for k in (0..packed.len()).step_by(97) {
        assert!(test_integrity(&packed[..k]).is_err());
    }
}

#[test]
fn a_cut_fails_unless_it_lies_behind_a_stream() {
    for k in 0..HELLO_WORLD_BZ2.len() {
        let mut out = Vec::new();
        let result = decompress(&HELLO_WORLD_BZ2[..k], &mut out);
        if k == 42 {
            assert_eq!(result.unwrap(), 7);
            assert_eq!(out, b"hello, ");
        } else {
            assert!(
                matches!(result, Err(Error::Codec(CodecError::TruncatedStream))),
                "cut behind {} bytes",
                k
            );
            // the blocks in front of the cut stay
            if k <= 31 {
                assert_eq!(out, b"");
            } else if 33 <= k && k <= 73 {
                assert_eq!(out, b"hello, ");
            } else if k >= 75 {
                assert_eq!(out, b"hello, world");
            }
        }
    }
}
