use bzip2rs::bits::{read_bit, read_bits, Cursor};
use bzip2rs::block::{decode_content, read_block, read_symbol_map, read_unary};
use bzip2rs::bwt::invert;
use bzip2rs::crc::{checksum, combine, update_byte};
use bzip2rs::huffman::{read_table, CodeTable};
use bzip2rs::mtf::{decode_ranks, unpack};
use bzip2rs::rand::{derandomize, RAND_GAPS};
use bzip2rs::rle::expand;
use bzip2rs::stream::{read_blocks, read_header};
use bzip2rs::writer::BitWriter;
use bzip2rs::CodecError;

fn start() -> Cursor {
    Cursor { byte: 0, bit: 0 }
}

fn sorted_rotations(block: &[u8]) -> (Vec<u8>, usize) {
    let n = block.len();
    let mut rows: Vec<usize> = (0..n).collect();
    rows.sort_by(|&i, &j| {
        let a = block[i..].iter().chain(block[..i].iter());
        let b = block[j..].iter().chain(block[..j].iter());
        a.cmp(b).then(i.cmp(&j))
    });
    let last = rows.iter().map(|&i| block[(i + n - 1) % n]).collect();
    let origin = rows.iter().position(|&i| i == 0).unwrap();
    (last, origin)
}

fn run_symbols(mut n: usize) -> Vec<u16> {
    let mut digits = Vec::new();
    while n > 0 {
        digits.push(((n - 1) % 2) as u16);
        n = (n - 1) / 2;
    }
    digits
}

#[test]
fn bits_are_read_from_the_top() {
    let data = [0xd9u8, 0x0c];
    let (v, at) = read_bits(&data, start(), 3).unwrap();
    assert_eq!(v, 6);
    assert_eq!((at.byte, at.bit), (0, 3));
    let (v, at) = read_bits(&data, at, 8).unwrap();
    assert_eq!(v, 200);
    let (b, at) = read_bit(&data, at).unwrap();
    assert!(!b);
    let (v, at) = read_bits(&data, at, 4).unwrap();
    assert_eq!(v, 0xc);
    assert_eq!((at.byte, at.bit), (2, 0));
    assert_eq!(read_bits(&data, at, 0).unwrap().0, 0);
}

#[test]
fn long_numbers_are_read_whole() {
    let data = [0x12u8, 0x34, 0x56, 0x78, 0x9a, 0xbc, 0xde, 0xf0, 0xff];
    assert_eq!(read_bits(&data, start(), 64).unwrap().0, 0x1234_5678_9abc_def0);
    assert_eq!(read_bits(&data, start(), 32).unwrap().0, 0x1234_5678);
    let at = Cursor { byte: 0, bit: 4 };
    assert_eq!(read_bits(&data, at, 64).unwrap().0, 0x2345_6789_abcd_ef0f);
}

#[test]
fn reading_past_the_end_is_truncation() {
    let data = [0xffu8];
    assert_eq!(read_bits(&data, start(), 9).unwrap_err(), CodecError::TruncatedStream);
    let end = Cursor { byte: 1, bit: 0 };
    assert_eq!(read_bit(&data, end).unwrap_err(), CodecError::TruncatedStream);
    assert_eq!(read_bit(&[], start()).unwrap_err(), CodecError::TruncatedStream);
}

#[test]
fn the_check_value_is_the_known_one() {
    assert_eq!(checksum(b"123456789"), 0xfc89_1918);
    assert_eq!(checksum(b""), 0);
    assert_eq!(checksum(b"AAA"), 0x9c70_cfe8);
    assert_eq!(update_byte(0, 1), 0x04c1_1db7);
}

#[test]
fn the_stream_value_is_rotated_before_a_block_is_folded_in() {
    assert_eq!(combine(0, 0x1234_5678), 0x1234_5678);
    assert_eq!(combine(0x8000_0001, 0), 3);
    assert_eq!(combine(0x8000_0001, 0xff), 0xfc);
    assert_ne!(combine(combine(0, 1), 2), combine(combine(0, 2), 1));
}

#[test]
fn shorter_codes_come_first() {
    let table = CodeTable::build(&[2, 1, 3, 3]);
    // 0 | 10 | 110 | 111
    let data = [0b0101_1011u8, 0b1000_0000];
    let (s, at) = table.decode(&data, start()).unwrap();
    assert_eq!((s, at.byte, at.bit), (1, 0, 1));
    let (s, at) = table.decode(&data, at).unwrap();
    assert_eq!((s, at.byte, at.bit), (0, 0, 3));
    let (s, at) = table.decode(&data, at).unwrap();
    assert_eq!((s, at.byte, at.bit), (2, 0, 6));
    let (s, at) = table.decode(&data, at).unwrap();
    assert_eq!((s, at.byte, at.bit), (3, 1, 1));
}

#[test]
fn bits_that_match_no_code_are_an_invalid_code() {
    let table = CodeTable::build(&[2, 2, 2]);
    assert_eq!(table.decode(&[0x00, 0, 0], start()).unwrap().0, 0);
    assert_eq!(table.decode(&[0x40, 0, 0], start()).unwrap().0, 1);
    assert_eq!(table.decode(&[0x80, 0, 0], start()).unwrap().0, 2);
    assert_eq!(table.decode(&[0xc0, 0, 0], start()).unwrap_err(), CodecError::InvalidCode);
    assert_eq!(table.decode(&[0xc0, 0], start()).unwrap_err(), CodecError::TruncatedStream);
}

#[test]
fn code_lengths_are_steps_from_the_one_before() {
    // 00010 | 0 | 10 0 | 11 0
    let (lens, at) = read_table(&[0x12, 0x60], start(), 3).unwrap();
    assert_eq!(lens, vec![2, 3, 2]);
    assert_eq!((at.byte, at.bit), (1, 4));
}

#[test]
fn code_lengths_stay_within_one_and_twenty() {
    // start 0
    assert_eq!(read_table(&[0x00, 0], start(), 1).unwrap_err(), CodecError::InvalidBlock);
    // start 1, lowered to 0
    assert_eq!(read_table(&[0x0e, 0], start(), 1).unwrap_err(), CodecError::InvalidBlock);
    // start 20, raised to 21
    assert_eq!(read_table(&[0xa4, 0], start(), 1).unwrap_err(), CodecError::InvalidBlock);
    // start 21
    assert_eq!(read_table(&[0xa8, 0], start(), 1).unwrap_err(), CodecError::InvalidBlock);
    // the steps never end
    assert_eq!(read_table(&[0x15], start(), 1).unwrap_err(), CodecError::TruncatedStream);
}

#[test]
fn unary_numbers_stay_below_the_limit() {
    assert_eq!(read_unary(&[0x00], start(), 2).unwrap().0, 0);
    assert_eq!(read_unary(&[0x80], start(), 2).unwrap().0, 1);
    assert_eq!(read_unary(&[0xc0], start(), 2).unwrap_err(), CodecError::CorruptData);
    assert_eq!(read_unary(&[0xf8], start(), 6).unwrap().0, 5);
    assert_eq!(read_unary(&[0xff], start(), 9).unwrap_err(), CodecError::TruncatedStream);
}

#[test]
fn the_symbol_map_lists_the_values_in_use() {
    // groups 4 and 6 are present: 'A' (0x41) and 'a', 'b' (0x61, 0x62)
    let data = [0x0a, 0x00, 0x40, 0x00, 0x60, 0x00];
    let (used, at) = read_symbol_map(&data, start()).unwrap();
    assert_eq!(used, vec![0x41, 0x61, 0x62]);
    assert_eq!((at.byte, at.bit), (6, 0));
    assert_eq!(read_symbol_map(&data[..5], start()).unwrap_err(), CodecError::TruncatedStream);
    assert_eq!(read_symbol_map(&[0, 0], start()).unwrap_err(), CodecError::CorruptData);
    assert_eq!(
        read_symbol_map(&[0x80, 0x00, 0x00, 0x00], start()).unwrap_err(),
        CodecError::CorruptData
    );
}

#[test]
fn ranks_move_to_the_front() {
    assert_eq!(decode_ranks(&[1, 0, 1], 3), vec![1, 1, 0]);
    assert_eq!(decode_ranks(&[2, 2, 2], 3), vec![2, 1, 0]);
    assert_eq!(decode_ranks(&[], 2), Vec::<u8>::new());
}

#[test]
fn runs_of_rank_zero_of_every_length_are_written_out() {
    assert_eq!(unpack(&[], &[65], 10).unwrap(), b"");
    assert_eq!(unpack(&[0], &[65], 10).unwrap(), b"A");
    assert_eq!(unpack(&[1], &[65], 10).unwrap(), b"AA");
    assert_eq!(unpack(&[0, 0], &[65], 10).unwrap(), b"AAA");
    assert_eq!(unpack(&[1, 0], &[65], 10).unwrap(), b"AAAA");
    assert_eq!(unpack(&[0, 1], &[65], 10).unwrap(), b"AAAAA");
    assert_eq!(unpack(&[2, 0, 3], &[65, 66, 67], 10).unwrap(), b"BBC");
    assert_eq!(unpack(&[2, 2, 2], &[65, 66, 67], 10).unwrap(), b"BAB");
    for n in [0usize, 1, 2, 3, 6, 7, 8, 255, 256, 4095, 4096, 4097] {
        let mut syms = vec![3u16];
        syms.extend(run_symbols(n));
        syms.push(2);
        let mut expected = vec![b'c'];
        expected.extend(vec![b'c'; n]);
        expected.push(b'a');
        assert_eq!(unpack(&syms, b"abc", 900_000).unwrap(), expected, "run of {}", n);
    }
}

#[test]
fn a_run_may_fill_the_largest_block_and_no_more() {
    let full = unpack(&run_symbols(900_000), &[0], 900_000).unwrap();
    assert_eq!(full.len(), 900_000);
    assert!(full.iter().all(|&b| b == 0));
    assert_eq!(
        unpack(&run_symbols(900_001), &[0], 900_000).unwrap_err(),
        CodecError::CorruptData
    );
    assert_eq!(unpack(&[1u16; 64], &[0], 900_000).unwrap_err(), CodecError::CorruptData);
    assert_eq!(unpack(&[2, 2], b"ab", 1).unwrap_err(), CodecError::CorruptData);
    assert_eq!(unpack(&[0, 0], b"ab", 2).unwrap_err(), CodecError::CorruptData);
}

#[test]
fn the_transform_is_inverted() {
    assert_eq!(invert(b"nnbaaa", 3).unwrap(), b"banana");
    assert_eq!(invert(b"x", 0).unwrap(), b"x");
    for block in [
        &b"banana"[..],
        b"a",
        b"ab",
        b"ba",
        b"aaaaaaa",
        b"abababab",
        b"abcabcabc",
        b"mississippi",
        b"the quick brown fox jumps over the lazy dog",
        &[0, 255, 0, 255, 1, 254],
    ] {
        let (last, origin) = sorted_rotations(block);
        assert_eq!(invert(&last, origin).unwrap(), block);
    }
}

#[test]
fn an_origin_pointer_outside_the_column_is_invalid() {
    assert_eq!(invert(b"nnbaaa", 6).unwrap_err(), CodecError::InvalidBlock);
    assert_eq!(invert(b"", 0).unwrap_err(), CodecError::InvalidBlock);
    assert_eq!(invert(b"a", usize::MAX).unwrap_err(), CodecError::InvalidBlock);
}

#[test]
fn four_equal_bytes_are_followed_by_a_count() {
    assert_eq!(expand(b""), b"");
    assert_eq!(expand(b"aaa"), b"aaa");
    assert_eq!(expand(b"aaaa"), b"aaaa");
    assert_eq!(expand(b"aaaa\x00"), b"aaaa");
    assert_eq!(expand(b"aaaa\x02b"), b"aaaaaab");
    assert_eq!(expand(b"aaaa\x00aaaa\x01"), b"aaaaaaaaa");
    assert_eq!(expand(b"\x04\x04\x04\x04\x04"), vec![4u8; 8]);
    assert_eq!(expand(b"zaaaa\xffaa").len(), 1 + 4 + 255 + 2);
    assert_eq!(expand(b"abababab"), b"abababab");
}

#[test]
fn the_flipped_bits_lie_where_the_table_says() {
    assert_eq!(RAND_GAPS[0], 619);
    assert_eq!(RAND_GAPS[1], 720);
    assert_eq!(RAND_GAPS[511], 638);
    let plain = derandomize(&vec![0u8; 2000]);
    let flipped: Vec<usize> = (0..2000).filter(|&i| plain[i] != 0).collect();
    assert_eq!(flipped, vec![617, 617 + 720, 617 + 720 + 127, 617 + 720 + 127 + 481]);
    assert!(plain.iter().all(|&b| b <= 1));
    assert_eq!(derandomize(&plain), vec![0u8; 2000]);
}

#[test]
fn symbols_become_content() {
    // "AAA": the column "AAA" as a run of three, origin 0
    assert_eq!(decode_content(&[0, 0], b"A", 0, false, 1).unwrap(), b"AAA");
    assert_eq!(decode_content(&[0, 0], b"A", 3, false, 1).unwrap_err(), CodecError::InvalidBlock);
    assert_eq!(decode_content(&[], b"A", 0, false, 1).unwrap_err(), CodecError::InvalidBlock);
    // the column "nnbaaa" over a, b, n
    let syms = [3, 0, 3, 3, 1];
    assert_eq!(decode_content(&syms, b"abn", 3, false, 1).unwrap(), b"banana");
}

#[test]
fn a_block_is_read_behind_its_marker() {
    let data = [
        66u8, 90, 104, 49, 49, 65, 89, 38, 83, 89, 156, 112, 207, 232, 0, 0, 1, 4, 0, 32, 0, 32,
        0, 48, 140, 20, 24, 187, 146, 41, 194, 132, 132, 227, 134, 127, 64,
    ];
    assert_eq!(read_header(&data, 0).unwrap(), 1);
    let (content, stored, at) = read_block(&data, Cursor { byte: 10, bit: 0 }, 1).unwrap();
    assert_eq!(content, b"AAA");
    assert_eq!(stored, 0x9c70_cfe8);
    let (magic, at) = read_bits(&data, at, 48).unwrap();
    assert_eq!(magic, 0x1772_4538_5090);
    assert_eq!(read_bits(&data, at, 32).unwrap().0, 0x9c70_cfe8);
    let mut out = Vec::new();
    let (end, folded) = read_blocks(&data, Cursor { byte: 4, bit: 0 }, 1, &mut out, 0).unwrap();
    assert_eq!(out, b"AAA");
    assert_eq!(folded, 0x9c70_cfe8);
    let mut again = Vec::new();
    let (_, folded) = read_blocks(&data, Cursor { byte: 4, bit: 0 }, 1, &mut again, 1).unwrap();
    assert_eq!(folded, 0x9c70_cfe8 ^ 2);
    assert_eq!(end.byte * 8 + end.bit as usize, 8 * 37 - 3);
}

#[test]
fn the_header_names_the_block_size() {
    for level in 1..=9u8 {
        assert_eq!(read_header(&[b'B', b'Z', b'h', b'0' + level], 0).unwrap(), level as usize);
    }
    assert_eq!(read_header(b"..BZh5", 2).unwrap(), 5);
    assert_eq!(read_header(b"BZh", 0).unwrap_err(), CodecError::TruncatedStream);
    assert_eq!(read_header(b"BZh1", 1).unwrap_err(), CodecError::TruncatedStream);
    assert_eq!(read_header(b"BZh0", 0).unwrap_err(), CodecError::CorruptData);
    assert_eq!(read_header(b"BZ01", 0).unwrap_err(), CodecError::CorruptData);
}

#[test]
fn a_cursor_names_the_byte_behind_it() {
    let data = [0u8; 3];
    assert_eq!(Cursor::at_byte(2).next_byte(&data), 2);
    assert_eq!(Cursor { byte: 1, bit: 1 }.next_byte(&data), 2);
    assert_eq!(Cursor { byte: 2, bit: 7 }.next_byte(&data), 3);
    assert_eq!(Cursor::at_byte(3).next_byte(&data), 3);
}

#[test]
fn bits_are_written_from_the_top() {
    let mut w = BitWriter::from_bytes(Vec::new());
    w.write_bits(6, 3);
    w.write_bits(200, 8);
    w.write_bit(false);
    w.write_bits(0xcafe_babe, 32);
    w.write_bits(1, 7);
    assert_eq!(w.finish(), [0xd9, 0x0c, 0xaf, 0xeb, 0xab, 0xe0, 0x20]);
    let mut w = BitWriter::from_bytes(vec![0xff]);
    w.write_bits(0xffff_ffff_ffff_fff5, 4);
    w.write_bits(0, 0);
    assert_eq!(w.finish(), [0xff, 0x50]);
    let mut w = BitWriter::from_bytes(vec![1, 2]);
    w.write_bits(0x0123_4567_89ab_cdef, 64);
    assert_eq!(w.finish(), [1, 2, 0x01, 0x23, 0x45, 0x67, 0x89, 0xab, 0xcd, 0xef]);
    assert_eq!(BitWriter::from_bytes(vec![7]).finish(), [7]);
}

#[test]
fn bits_are_copied_from_any_place_to_any_place() {
    let data = [0b1010_1100u8, 0b0011_0101, 0b1111_0000];
    let mut w = BitWriter::from_bytes(Vec::new());
    w.write_bits(1, 1);
    w.copy_bits(&data, Cursor { byte: 0, bit: 3 }, Cursor { byte: 2, bit: 2 });
    // 1 | 01100 00110101 11
    assert_eq!(w.finish(), [0b1011_0000, 0b1101_0111]);
    let mut w = BitWriter::from_bytes(vec![9]);
    w.copy_bits(&data, Cursor { byte: 1, bit: 0 }, Cursor { byte: 1, bit: 0 });
    w.copy_bits(&data, Cursor { byte: 0, bit: 0 }, Cursor { byte: 3, bit: 0 });
    assert_eq!(w.finish(), [9, 0b1010_1100, 0b0011_0101, 0b1111_0000]);
}
