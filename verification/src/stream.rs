//! Streams: a header, blocks, and a closing marker with the check value of
//! the whole; and inputs that hold several streams back to back.

use vstd::prelude::*;
use vstd::arithmetic::power2::*;
use crate::bits::{
    agree_at, bit_len, bits_value, flipped, is_cut, lemma_cut_take_bits, lemma_bits_value_bound, lemma_flip_same, lemma_flip_value,
    lemma_same_bits_tail, lemma_same_take_bits, read_bits, same_bits, take_bits, Cursor,
};
use crate::block::{
    lemma_block_advances, lemma_body_advances, lemma_cut_block, lemma_same_block, lemma_same_body, parse_block,
    read_block,
};
use crate::crc::{combine, crc32, crc_combine};
use crate::error::{CodecError, Error};

verus! {

/// The marker in front of each block.
pub const BLOCK_MAGIC: u64 = 0x3141_5926_5359;

/// The marker behind the last block of a stream.
pub const END_MAGIC: u64 = 0x1772_4538_5090;

/// What decoding gives: the bytes decoded, and the failure that ended it, if
/// one did. The bytes of the blocks in front of a failure stay.
pub struct Decoding {
    pub output: Seq<u8>,
    pub error: Option<CodecError>,
}

/// The header of the stream that starts at byte `start`: the letters `BZh`
/// and a digit from 1 to 9, the block size in units of 100,000 bytes.
pub open spec fn parse_header(data: Seq<u8>, start: int) -> Result<nat, CodecError> {
    if start + 4 > data.len() {
        Err(CodecError::TruncatedStream)
    } else if data[start] != 0x42 || data[start + 1] != 0x5a || data[start + 2] != 0x68
        || data[start + 3] < 0x31 || data[start + 3] > 0x39 {
        Err(CodecError::CorruptData)
    } else {
        Ok((data[start + 3] - 0x30) as nat)
    }
}

/// The blocks of a stream from bit `pos` on, behind the bytes `out` of the
/// blocks before, whose check values fold to `crc`: the bytes decoded, and
/// the position behind the stream or the failure. Each block adds its content
/// and folds its check value in; the closing marker is followed by the check
/// value of the stream, which must be the folded one.
pub open spec fn parse_blocks(data: Seq<u8>, pos: int, level: nat, out: Seq<u8>, crc: u32) -> (
    Seq<u8>,
    Result<int, CodecError>,
)
    decreases bit_len(data) - pos,
{
    match take_bits(data, pos, 48) {
        Err(e) => (out, Err(e)),
        Ok((magic, p1)) => if magic == BLOCK_MAGIC {
            match parse_block(data, p1, level) {
                Err(e) => (out, Err(e)),
                Ok((content, stored, p2)) => {
                    proof {
                        lemma_block_advances(data, p1, level);
                    }
                    parse_blocks(data, p2, level, out + content, crc_combine(crc, stored))
                },
            }
        } else if magic == END_MAGIC {
            match take_bits(data, p1, 32) {
                Err(e) => (out, Err(e)),
                Ok((stored, p2)) => if stored != crc {
                    (out, Err(CodecError::CrcMismatch { expected: stored as u32, actual: crc }))
                } else {
                    (out, Ok(p2))
                },
            }
        } else {
            (out, Err(CodecError::CorruptData))
        },
    }
}

/// The streams from byte `start` on, behind the bytes `out` of the streams
/// before. A stream ends with the byte that holds its last bit; where bytes
/// follow, the next stream starts there.
pub open spec fn parse_streams(data: Seq<u8>, start: int, out: Seq<u8>) -> Decoding
    decreases data.len() - start,
{
    match parse_header(data, start) {
        Err(e) => Decoding { output: out, error: Some(e) },
        Ok(level) => {
            let blocks = parse_blocks(data, 8 * (start + 4), level, out, 0);
            match blocks.1 {
                Err(e) => Decoding { output: blocks.0, error: Some(e) },
                Ok(end) => {
                    let next = (end + 7) / 8;
                    if next >= data.len() {
                        Decoding { output: blocks.0, error: None }
                    } else {
                        proof {
                            lemma_blocks_advance(data, 8 * (start + 4), level, out, 0);
                        }
                        parse_streams(data, next, blocks.0)
                    }
                },
            }
        },
    }
}

/// What decoding `data` gives.
pub open spec fn decoding(data: Seq<u8>) -> Decoding {
    parse_streams(data, 0, Seq::empty())
}

/// A stream's blocks and closing marker take at least 80 bits.
pub proof fn lemma_blocks_advance(data: Seq<u8>, pos: int, level: nat, out: Seq<u8>, crc: u32)
    ensures
        parse_blocks(data, pos, level, out, crc).1 matches Ok(end) ==> pos + 80 <= end <= bit_len(
            data,
        ),
    decreases bit_len(data) - pos,
{
    match take_bits(data, pos, 48) {
        Err(e) => {},
        Ok((magic, p1)) => {
            if magic == BLOCK_MAGIC {
                match parse_block(data, p1, level) {
                    Err(e) => {},
                    Ok((content, stored, p2)) => {
                        lemma_block_advances(data, p1, level);
                        lemma_blocks_advance(
                            data,
                            p2,
                            level,
                            out + content,
                            crc_combine(crc, stored),
                        );
                    },
                }
            }
        },
    }
}

/// The bytes decoded before do not change what follows them.
pub proof fn lemma_blocks_prefix(data: Seq<u8>, pos: int, level: nat, out: Seq<u8>, crc: u32)
    ensures
        parse_blocks(data, pos, level, out, crc).0 == out + parse_blocks(
            data,
            pos,
            level,
            Seq::empty(),
            crc,
        ).0,
        parse_blocks(data, pos, level, out, crc).1 == parse_blocks(
            data,
            pos,
            level,
            Seq::empty(),
            crc,
        ).1,
    decreases bit_len(data) - pos,
{
    let none = Seq::<u8>::empty();
    assert(out + none =~= out);
    match take_bits(data, pos, 48) {
        Err(e) => {},
        Ok((magic, p1)) => {
            if magic == BLOCK_MAGIC {
                match parse_block(data, p1, level) {
                    Err(e) => {},
                    Ok((content, stored, p2)) => {
                        lemma_block_advances(data, p1, level);
                        let crc2 = crc_combine(crc, stored);
                        lemma_blocks_prefix(data, p2, level, out + content, crc2);
                        lemma_blocks_prefix(data, p2, level, none + content, crc2);
                        lemma_blocks_prefix(data, p2, level, content, crc2);
                        assert(none + content =~= content);
                        let rest = parse_blocks(data, p2, level, none, crc2).0;
                        assert((out + content) + rest =~= out + (content + rest));
                    },
                }
            }
        },
    }
}

/// The bytes decoded before do not change what the streams that follow give.
pub proof fn lemma_streams_prefix(data: Seq<u8>, start: int, out: Seq<u8>)
    ensures
        parse_streams(data, start, out).output == out + parse_streams(
            data,
            start,
            Seq::empty(),
        ).output,
        parse_streams(data, start, out).error == parse_streams(data, start, Seq::empty()).error,
    decreases data.len() - start,
{
    let none = Seq::<u8>::empty();
    assert(out + none =~= out);
    match parse_header(data, start) {
        Err(e) => {},
        Ok(level) => {
            let pos = 8 * (start + 4);
            lemma_blocks_prefix(data, pos, level, out, 0);
            let blocks = parse_blocks(data, pos, level, out, 0);
            let plain = parse_blocks(data, pos, level, none, 0);
            match blocks.1 {
                Err(e) => {},
                Ok(end) => {
                    let next = (end + 7) / 8;
                    if next < data.len() {
                        lemma_blocks_advance(data, pos, level, out, 0);
                        lemma_streams_prefix(data, next, blocks.0);
                        lemma_streams_prefix(data, next, plain.0);
                        let rest = parse_streams(data, next, none).output;
                        assert((out + plain.0) + rest =~= out + (plain.0 + rest));
                    }
                },
            }
        },
    }
}

/// The blocks of a stream read the same in an equal stretch of bits.
pub proof fn lemma_same_blocks(
    a: Seq<u8>,
    p: int,
    b: Seq<u8>,
    q: int,
    n: int,
    level: nat,
    out: Seq<u8>,
    crc: u32,
)
    requires
        same_bits(a, p, b, q, n),
        parse_blocks(a, p, level, out, crc).1 matches Ok(end) && end <= p + n,
    ensures
        parse_blocks(b, q, level, out, crc).0 == parse_blocks(a, p, level, out, crc).0,
        parse_blocks(b, q, level, out, crc).1 matches Ok(end) && parse_blocks(
            a,
            p,
            level,
            out,
            crc,
        ).1 == Ok::<int, CodecError>(end - q + p),
    decreases bit_len(a) - p,
{
    match take_bits(a, p, 48) {
        Err(e) => {},
        Ok((magic, p1)) => {
            lemma_blocks_advance(a, p, level, out, crc);
            lemma_same_take_bits(a, p, b, q, n, 48);
            lemma_same_bits_tail(a, p, b, q, n, 48);
            if magic == BLOCK_MAGIC {
                match parse_block(a, p1, level) {
                    Err(e) => {},
                    Ok((content, stored, p2)) => {
                        lemma_block_advances(a, p1, level);
                        let crc2 = crc_combine(crc, stored);
                        lemma_blocks_advance(a, p2, level, out + content, crc2);
                        lemma_same_block(a, p1, b, q + 48, n - 48, level);
                        lemma_same_bits_tail(a, p, b, q, n, p2 - p);
                        lemma_same_blocks(
                            a,
                            p2,
                            b,
                            p2 - p + q,
                            n - (p2 - p),
                            level,
                            out + content,
                            crc2,
                        );
                    },
                }
            } else if magic == END_MAGIC {
                lemma_same_take_bits(a, p1, b, q + 48, n - 48, 32);
            }
        },
    }
}

/// The bits of the first of two joined inputs are its own.
pub proof fn lemma_joined_head(s1: Seq<u8>, s2: Seq<u8>, p: int)
    requires
        0 <= p <= bit_len(s1),
    ensures
        same_bits(s1, p, s1 + s2, p, bit_len(s1) - p),
{
    assert forall|i: int| 0 <= i < bit_len(s1) - p implies #[trigger] agree_at(
        s1,
        p,
        s1 + s2,
        p,
        i,
    ) by {
        assert((s1 + s2)[(p + i) / 8] == s1[(p + i) / 8]);
    }
}

/// The bits of the second of two joined inputs follow those of the first.
pub proof fn lemma_joined_tail(s1: Seq<u8>, s2: Seq<u8>, p: int)
    requires
        0 <= p <= bit_len(s2),
    ensures
        same_bits(s2, p, s1 + s2, bit_len(s1) + p, bit_len(s2) - p),
{
    assert forall|i: int| 0 <= i < bit_len(s2) - p implies #[trigger] agree_at(
        s2,
        p,
        s1 + s2,
        bit_len(s1) + p,
        i,
    ) by {
        assert((bit_len(s1) + p + i) / 8 == s1.len() + (p + i) / 8);
        assert((bit_len(s1) + p + i) % 8 == (p + i) % 8);
        assert((s1 + s2)[s1.len() + (p + i) / 8] == s2[(p + i) / 8]);
    }
}

/// Streams that decode alone decode the same with more input behind them,
/// and decoding goes on with that input.
pub proof fn lemma_streams_head(s1: Seq<u8>, s2: Seq<u8>, start: int, out: Seq<u8>)
    requires
        0 <= start,
        s2.len() > 0,
        parse_streams(s1, start, out).error is None,
    ensures
        parse_streams(s1 + s2, start, out) == parse_streams(
            s1 + s2,
            s1.len() as int,
            parse_streams(s1, start, out).output,
        ),
    decreases s1.len() - start,
{
    let d = s1 + s2;
    match parse_header(s1, start) {
        Err(e) => {},
        Ok(level) => {
            assert(d[start] == s1[start]);
            assert(d[start + 1] == s1[start + 1]);
            assert(d[start + 2] == s1[start + 2]);
            assert(d[start + 3] == s1[start + 3]);
            let pos = 8 * (start + 4);
            let blocks = parse_blocks(s1, pos, level, out, 0);
            match blocks.1 {
                Err(e) => {},
                Ok(end) => {
                    lemma_blocks_advance(s1, pos, level, out, 0);
                    lemma_joined_head(s1, s2, pos);
                    lemma_same_blocks(s1, pos, d, pos, bit_len(s1) - pos, level, out, 0);
                    let next = (end + 7) / 8;
                    if next < s1.len() {
                        lemma_streams_head(s1, s2, next, blocks.0);
                    }
                },
            }
        },
    }
}

/// Streams that decode alone decode the same behind other input.
pub proof fn lemma_streams_tail(s1: Seq<u8>, s2: Seq<u8>, start: int, out: Seq<u8>)
    requires
        0 <= start,
        parse_streams(s2, start, out).error is None,
    ensures
        parse_streams(s1 + s2, s1.len() + start, out) == parse_streams(s2, start, out),
    decreases s2.len() - start,
{
    let d = s1 + s2;
    let shift = s1.len() as int;
    match parse_header(s2, start) {
        Err(e) => {},
        Ok(level) => {
            assert(d[shift + start] == s2[start]);
            assert(d[shift + start + 1] == s2[start + 1]);
            assert(d[shift + start + 2] == s2[start + 2]);
            assert(d[shift + start + 3] == s2[start + 3]);
            let pos = 8 * (start + 4);
            let blocks = parse_blocks(s2, pos, level, out, 0);
            match blocks.1 {
                Err(e) => {},
                Ok(end) => {
                    lemma_blocks_advance(s2, pos, level, out, 0);
                    lemma_joined_tail(s1, s2, pos);
                    lemma_same_blocks(
                        s2,
                        pos,
                        d,
                        bit_len(s1) + pos,
                        bit_len(s2) - pos,
                        level,
                        out,
                        0,
                    );
                    let next = (end + 7) / 8;
                    assert((end + bit_len(s1) + 7) / 8 == next + shift);
                    if next < s2.len() {
                        lemma_streams_tail(s1, s2, next, blocks.0);
                    }
                },
            }
        },
    }
}

/// Two inputs that decode without failure, joined, decode to the bytes of
/// the first followed by the bytes of the second.
pub proof fn lemma_concatenation(s1: Seq<u8>, s2: Seq<u8>)
    requires
        decoding(s1).error is None,
        decoding(s2).error is None,
    ensures
        decoding(s1 + s2).output == decoding(s1).output + decoding(s2).output,
        decoding(s1 + s2).error is None,
{
    let none = Seq::<u8>::empty();
    lemma_streams_head(s1, s2, 0, none);
    lemma_streams_prefix(s1 + s2, s1.len() as int, decoding(s1).output);
    lemma_streams_tail(s1, s2, 0, none);
}

/// Bit `f` belongs to the check value stored with one of the blocks from bit
/// `pos` on, and the blocks up to that one are sound.
pub open spec fn crc_bit_in_blocks(data: Seq<u8>, pos: int, level: nat, f: int) -> bool
    decreases bit_len(data) - pos,
{
    match take_bits(data, pos, 48) {
        Err(e) => false,
        Ok((magic, p1)) => magic == BLOCK_MAGIC && match parse_block(data, p1, level) {
            Err(e) => false,
            Ok((content, stored, p2)) => {
                proof {
                    lemma_block_advances(data, p1, level);
                }
                (p1 <= f < p1 + 32) || crc_bit_in_blocks(data, p2, level, f)
            },
        },
    }
}

/// Bit `f` belongs to the check value stored with one of the blocks of the
/// streams from byte `start` on, and the streams and blocks up to that block
/// are sound.
pub open spec fn crc_bit_in_streams(data: Seq<u8>, start: int, f: int) -> bool
    decreases data.len() - start,
{
    match parse_header(data, start) {
        Err(e) => false,
        Ok(level) => {
            let pos = 8 * (start + 4);
            crc_bit_in_blocks(data, pos, level, f) || match parse_blocks(
                data,
                pos,
                level,
                Seq::empty(),
                0,
            ).1 {
                Err(e) => false,
                Ok(end) => {
                    proof {
                        lemma_blocks_advance(data, pos, level, Seq::empty(), 0);
                    }
                    (end + 7) / 8 < data.len() && crc_bit_in_streams(data, (end + 7) / 8, f)
                },
            }
        },
    }
}

/// The block whose stored check value holds bit `f`, among the blocks from
/// bit `pos` on: the position of its check value, and its content.
pub open spec fn crc_block_in_blocks(data: Seq<u8>, pos: int, level: nat, f: int) -> (int, Seq<u8>)
    decreases bit_len(data) - pos,
{
    match take_bits(data, pos, 48) {
        Err(e) => (0, Seq::empty()),
        Ok((magic, p1)) => match parse_block(data, p1, level) {
            Err(e) => (0, Seq::empty()),
            Ok((content, stored, p2)) => {
                proof {
                    lemma_block_advances(data, p1, level);
                }
                if p1 <= f < p1 + 32 {
                    (p1, content)
                } else {
                    crc_block_in_blocks(data, p2, level, f)
                }
            },
        },
    }
}

/// The block whose stored check value holds bit `f`, among the blocks of the
/// streams from byte `start` on: the position of its check value, and its
/// content.
pub open spec fn crc_block_in_streams(data: Seq<u8>, start: int, f: int) -> (int, Seq<u8>)
    decreases data.len() - start,
{
    match parse_header(data, start) {
        Err(e) => (0, Seq::empty()),
        Ok(level) => {
            let pos = 8 * (start + 4);
            if crc_bit_in_blocks(data, pos, level, f) {
                crc_block_in_blocks(data, pos, level, f)
            } else {
                match parse_blocks(data, pos, level, Seq::empty(), 0).1 {
                    Err(e) => (0, Seq::empty()),
                    Ok(end) => {
                        proof {
                            lemma_blocks_advance(data, pos, level, Seq::empty(), 0);
                        }
                        crc_block_in_streams(data, (end + 7) / 8, f)
                    },
                }
            }
        },
    }
}

/// The failure that a flipped bit in the check value of a block leads to:
/// the value stored after the flip was expected, the check value of the
/// block's content is the actual one.
pub open spec fn flip_failure(data: Seq<u8>, f: int, block: (int, Seq<u8>)) -> CodecError {
    CodecError::CrcMismatch {
        expected: bits_value(flipped(data, f), block.0, 32) as u32,
        actual: crc32(block.1),
    }
}

/// The check value of a block lies behind the block's marker and within the
/// data.
pub proof fn lemma_crc_bit_in_blocks_bound(data: Seq<u8>, pos: int, level: nat, f: int)
    requires
        crc_bit_in_blocks(data, pos, level, f),
    ensures
        pos + 48 <= f < bit_len(data),
    decreases bit_len(data) - pos,
{
    match take_bits(data, pos, 48) {
        Err(e) => {},
        Ok((magic, p1)) => {
            match parse_block(data, p1, level) {
                Err(e) => {},
                Ok((content, stored, p2)) => {
                    lemma_block_advances(data, p1, level);
                    if !(p1 <= f < p1 + 32) {
                        lemma_crc_bit_in_blocks_bound(data, p2, level, f);
                    }
                },
            }
        },
    }
}

/// The check value of a block lies behind the header of its stream and
/// within the data.
pub proof fn lemma_crc_bit_in_streams_bound(data: Seq<u8>, start: int, f: int)
    requires
        0 <= start,
        crc_bit_in_streams(data, start, f),
    ensures
        8 * (start + 4) + 48 <= f < bit_len(data),
    decreases data.len() - start,
{
    match parse_header(data, start) {
        Err(e) => {},
        Ok(level) => {
            let pos = 8 * (start + 4);
            if crc_bit_in_blocks(data, pos, level, f) {
                lemma_crc_bit_in_blocks_bound(data, pos, level, f);
            } else {
                match parse_blocks(data, pos, level, Seq::empty(), 0).1 {
                    Err(e) => {},
                    Ok(end) => {
                        lemma_blocks_advance(data, pos, level, Seq::empty(), 0);
                        lemma_crc_bit_in_streams_bound(data, (end + 7) / 8, f);
                    },
                }
            }
        },
    }
}

/// With one bit of a block's check value flipped, the blocks fail with a
/// mismatch of check values.
pub proof fn lemma_flip_blocks(
    data: Seq<u8>,
    pos: int,
    level: nat,
    out: Seq<u8>,
    crc: u32,
    f: int,
)
    requires
        0 <= pos,
        crc_bit_in_blocks(data, pos, level, f),
    ensures
        parse_blocks(flipped(data, f), pos, level, out, crc).1 == Err::<int, CodecError>(
            flip_failure(data, f, crc_block_in_blocks(data, pos, level, f)),
        ),
    decreases bit_len(data) - pos,
{
    let other = flipped(data, f);
    lemma_crc_bit_in_blocks_bound(data, pos, level, f);
    match take_bits(data, pos, 48) {
        Err(e) => {},
        Ok((magic, p1)) => {
            match parse_block(data, p1, level) {
                Err(e) => {},
                Ok((content, stored, p2)) => {
                    lemma_block_advances(data, p1, level);
                    lemma_flip_same(data, f, pos, 48);
                    lemma_same_take_bits(data, pos, other, pos, 48, 48);
                    if p1 <= f < p1 + 32 {
                        lemma_flip_value(data, f, p1, 32);
                        lemma_bits_value_bound(data, p1, 32);
                        lemma_bits_value_bound(other, p1, 32);
                        lemma2_to64();
                        lemma_body_advances(data, p1 + 32, level);
                        lemma_flip_same(data, f, p1 + 32, p2 - (p1 + 32));
                        lemma_same_body(data, p1 + 32, other, p1 + 32, p2 - (p1 + 32), level);
                    } else {
                        lemma_crc_bit_in_blocks_bound(data, p2, level, f);
                        lemma_flip_same(data, f, p1, p2 - p1);
                        lemma_same_block(data, p1, other, p1, p2 - p1, level);
                        lemma_flip_blocks(
                            data,
                            p2,
                            level,
                            out + content,
                            crc_combine(crc, stored),
                            f,
                        );
                    }
                },
            }
        },
    }
}

/// With one bit of a block's check value flipped, the streams fail with a
/// mismatch of check values.
pub proof fn lemma_flip_streams(data: Seq<u8>, start: int, out: Seq<u8>, f: int)
    requires
        0 <= start,
        crc_bit_in_streams(data, start, f),
    ensures
        parse_streams(flipped(data, f), start, out).error == Some(
            flip_failure(data, f, crc_block_in_streams(data, start, f)),
        ),
    decreases data.len() - start,
{
    let other = flipped(data, f);
    lemma_crc_bit_in_streams_bound(data, start, f);
    match parse_header(data, start) {
        Err(e) => {},
        Ok(level) => {
            let pos = 8 * (start + 4);
            assert(other[start] == data[start]);
            assert(other[start + 1] == data[start + 1]);
            assert(other[start + 2] == data[start + 2]);
            assert(other[start + 3] == data[start + 3]);
            if crc_bit_in_blocks(data, pos, level, f) {
                lemma_flip_blocks(data, pos, level, out, 0, f);
            } else {
                lemma_blocks_prefix(data, pos, level, out, 0);
                match parse_blocks(data, pos, level, Seq::empty(), 0).1 {
                    Err(e) => {},
                    Ok(end) => {
                        lemma_blocks_advance(data, pos, level, out, 0);
                        let next = (end + 7) / 8;
                        lemma_crc_bit_in_streams_bound(data, next, f);
                        lemma_flip_same(data, f, pos, end - pos);
                        lemma_same_blocks(data, pos, other, pos, end - pos, level, out, 0);
                        lemma_flip_streams(
                            data,
                            next,
                            parse_blocks(data, pos, level, out, 0).0,
                            f,
                        );
                    },
                }
            }
        },
    }
}

/// A flipped bit in the check value of a block is found: where decoding
/// reaches a block through sound streams and blocks, the input with one bit
/// of that block's stored check value flipped fails with `CrcMismatch`; the
/// failure carries the value stored after the flip as the expected one and
/// the check value of the block's content as the actual one.
pub proof fn lemma_crc_bit_flip(data: Seq<u8>, f: int)
    requires
        crc_bit_in_streams(data, 0, f),
    ensures
        decoding(flipped(data, f)).error == Some(
            flip_failure(data, f, crc_block_in_streams(data, 0, f)),
        ),
        decoding(flipped(data, f)).error matches Some(e) && e is CrcMismatch,
{
    lemma_flip_streams(data, 0, Seq::empty(), f);
}

/// Reading the blocks of a stream in a cut: the same where the stream ends
/// within the cut, else `TruncatedStream`.
pub proof fn lemma_cut_blocks(
    a: Seq<u8>,
    b: Seq<u8>,
    pos: int,
    level: nat,
    out: Seq<u8>,
    crc: u32,
)
    requires
        is_cut(b, a),
        0 <= pos,
        parse_blocks(a, pos, level, out, crc).1 is Ok,
    ensures
        parse_blocks(a, pos, level, out, crc).1->Ok_0 <= bit_len(b) ==> parse_blocks(
            b,
            pos,
            level,
            out,
            crc,
        ) == parse_blocks(a, pos, level, out, crc),
        parse_blocks(a, pos, level, out, crc).1->Ok_0 > bit_len(b) ==> parse_blocks(
            b,
            pos,
            level,
            out,
            crc,
        ).1 == Err::<int, CodecError>(CodecError::TruncatedStream),
    decreases bit_len(a) - pos,
{
    lemma_blocks_advance(a, pos, level, out, crc);
    lemma_cut_take_bits(a, b, pos, 48);
    match take_bits(a, pos, 48) {
        Err(e) => {},
        Ok((magic, p1)) => {
            if magic == BLOCK_MAGIC {
                match parse_block(a, p1, level) {
                    Err(e) => {},
                    Ok((content, stored, p2)) => {
                        let crc2 = crc_combine(crc, stored);
                        lemma_block_advances(a, p1, level);
                        lemma_cut_block(a, b, p1, level);
                        lemma_blocks_advance(a, p2, level, out + content, crc2);
                        lemma_cut_blocks(a, b, p2, level, out + content, crc2);
                    },
                }
            } else if magic == END_MAGIC {
                lemma_cut_take_bits(a, b, p1, 32);
            }
        },
    }
}

/// One of the streams of `data` from byte `start` on ends in front of byte
/// `k`.
pub open spec fn ends_a_stream(data: Seq<u8>, start: int, k: int) -> bool
    decreases data.len() - start,
{
    match parse_header(data, start) {
        Err(e) => false,
        Ok(level) => {
            let pos = 8 * (start + 4);
            match parse_blocks(data, pos, level, Seq::empty(), 0).1 {
                Err(e) => false,
                Ok(end) => {
                    proof {
                        lemma_blocks_advance(data, pos, level, Seq::empty(), 0);
                    }
                    (end + 7) / 8 == k || ((end + 7) / 8 < data.len() && ends_a_stream(
                        data,
                        (end + 7) / 8,
                        k,
                    ))
                },
            }
        },
    }
}

/// A stream takes at least fourteen bytes.
pub proof fn lemma_stream_end_bound(data: Seq<u8>, start: int, k: int)
    requires
        0 <= start,
        ends_a_stream(data, start, k),
    ensures
        start + 14 <= k <= data.len(),
    decreases data.len() - start,
{
    match parse_header(data, start) {
        Err(e) => {},
        Ok(level) => {
            let pos = 8 * (start + 4);
            match parse_blocks(data, pos, level, Seq::empty(), 0).1 {
                Err(e) => {},
                Ok(end) => {
                    lemma_blocks_advance(data, pos, level, Seq::empty(), 0);
                    if (end + 7) / 8 != k {
                        lemma_stream_end_bound(data, (end + 7) / 8, k);
                    }
                },
            }
        },
    }
}

/// Decoding streams in a cut: sound where the cut lies behind a stream, else
/// `TruncatedStream`.
pub proof fn lemma_cut_streams(a: Seq<u8>, b: Seq<u8>, start: int, out: Seq<u8>)
    requires
        is_cut(b, a),
        b.len() < a.len(),
        0 <= start,
        parse_streams(a, start, out).error is None,
    ensures
        parse_streams(b, start, out).error == (if ends_a_stream(a, start, b.len() as int) {
            None
        } else {
            Some(CodecError::TruncatedStream)
        }),
    decreases a.len() - start,
{
    let k = b.len() as int;
    if ends_a_stream(a, start, k) {
        lemma_stream_end_bound(a, start, k);
    }
    match parse_header(a, start) {
        Err(e) => {},
        Ok(level) => {
            let pos = 8 * (start + 4);
            if start + 4 <= k {
                assert(b[start] == a[start]);
                assert(b[start + 1] == a[start + 1]);
                assert(b[start + 2] == a[start + 2]);
                assert(b[start + 3] == a[start + 3]);
                lemma_blocks_prefix(a, pos, level, out, 0);
                lemma_blocks_advance(a, pos, level, out, 0);
                lemma_cut_blocks(a, b, pos, level, out, 0);
                match parse_blocks(a, pos, level, out, 0).1 {
                    Err(e) => {},
                    Ok(end) => {
                        let next = (end + 7) / 8;
                        if end > bit_len(b) {
                            if next < a.len() && ends_a_stream(a, next, k) {
                                lemma_stream_end_bound(a, next, k);
                            }
                        } else if next < k {
                            lemma_cut_streams(a, b, next, parse_blocks(a, pos, level, out, 0).0);
                        }
                    },
                }
            }
        },
    }
}

/// A cut is found: input that decodes, cut short behind any of its bytes,
/// fails with `TruncatedStream`, unless the cut lies just behind one of its
/// streams; the streams in front of such a cut decode without failure.
pub proof fn lemma_cut(data: Seq<u8>, k: int)
    requires
        decoding(data).error is None,
        0 <= k < data.len(),
    ensures
        decoding(data.take(k)).error == (if ends_a_stream(data, 0, k) {
            None
        } else {
            Some(CodecError::TruncatedStream)
        }),
{
    lemma_cut_streams(data, data.take(k), 0, Seq::empty());
}

/// The sound blocks from bit `pos` on, taken one after the other up to the
/// first position at which no sound block stands: their content behind
/// `out`, their check values folded into `crc`, and that position.
pub open spec fn blocks_walk(data: Seq<u8>, pos: int, level: nat, out: Seq<u8>, crc: u32) -> (
    Seq<u8>,
    u32,
    int,
)
    decreases bit_len(data) - pos,
{
    match take_bits(data, pos, 48) {
        Err(e) => (out, crc, pos),
        Ok((magic, p1)) => if magic == BLOCK_MAGIC {
            match parse_block(data, p1, level) {
                Err(e) => (out, crc, pos),
                Ok((content, stored, p2)) => {
                    proof {
                        lemma_block_advances(data, p1, level);
                    }
                    blocks_walk(data, p2, level, out + content, crc_combine(crc, stored))
                },
            }
        } else {
            (out, crc, pos)
        },
    }
}

/// Sound blocks are walked forwards and within the data.
pub proof fn lemma_walk_bounds(data: Seq<u8>, pos: int, level: nat, out: Seq<u8>, crc: u32)
    ensures
        pos <= blocks_walk(data, pos, level, out, crc).2,
        pos <= bit_len(data) ==> blocks_walk(data, pos, level, out, crc).2 <= bit_len(data),
    decreases bit_len(data) - pos,
{
    match take_bits(data, pos, 48) {
        Err(e) => {},
        Ok((magic, p1)) => {
            if magic == BLOCK_MAGIC {
                match parse_block(data, p1, level) {
                    Err(e) => {},
                    Ok((content, stored, p2)) => {
                        lemma_block_advances(data, p1, level);
                        lemma_walk_bounds(data, p2, level, out + content, crc_combine(crc, stored));
                    },
                }
            }
        },
    }
}

/// In a stream that reads, the walk takes every block and stops at the
/// closing marker, behind which the folded check value is stored.
pub proof fn lemma_walk_of_sound(data: Seq<u8>, pos: int, level: nat, out: Seq<u8>, crc: u32)
    requires
        parse_blocks(data, pos, level, out, crc).1 is Ok,
    ensures
        ({
            let end = parse_blocks(data, pos, level, out, crc).1->Ok_0;
            let w = blocks_walk(data, pos, level, out, crc);
            &&& w.0 == parse_blocks(data, pos, level, out, crc).0
            &&& w.2 == end - 80
            &&& take_bits(data, end - 80, 48) == Ok::<(nat, int), CodecError>(
                (END_MAGIC as nat, end - 32),
            )
            &&& take_bits(data, end - 32, 32) == Ok::<(nat, int), CodecError>((w.1 as nat, end))
        }),
    decreases bit_len(data) - pos,
{
    match take_bits(data, pos, 48) {
        Err(e) => {},
        Ok((magic, p1)) => {
            if magic == BLOCK_MAGIC {
                match parse_block(data, p1, level) {
                    Err(e) => {},
                    Ok((content, stored, p2)) => {
                        lemma_block_advances(data, p1, level);
                        lemma_walk_of_sound(data, p2, level, out + content, crc_combine(crc, stored));
                    },
                }
            }
        },
    }
}

/// Blocks that stand in other data, at another place, are read there as
/// they are walked here, and reading goes on behind them.
pub proof fn lemma_blocks_moved(
    a: Seq<u8>,
    p: int,
    b: Seq<u8>,
    q: int,
    level: nat,
    out: Seq<u8>,
    crc: u32,
)
    requires
        same_bits(a, p, b, q, blocks_walk(a, p, level, out, crc).2 - p),
    ensures
        parse_blocks(b, q, level, out, crc) == parse_blocks(
            b,
            q + blocks_walk(a, p, level, out, crc).2 - p,
            level,
            blocks_walk(a, p, level, out, crc).0,
            blocks_walk(a, p, level, out, crc).1,
        ),
    decreases bit_len(a) - p,
{
    let n = blocks_walk(a, p, level, out, crc).2 - p;
    match take_bits(a, p, 48) {
        Err(e) => {},
        Ok((magic, p1)) => {
            if magic == BLOCK_MAGIC {
                match parse_block(a, p1, level) {
                    Err(e) => {},
                    Ok((content, stored, p2)) => {
                        let crc2 = crc_combine(crc, stored);
                        lemma_block_advances(a, p1, level);
                        lemma_walk_bounds(a, p2, level, out + content, crc2);
                        lemma_same_take_bits(a, p, b, q, n, 48);
                        lemma_same_bits_tail(a, p, b, q, n, 48);
                        lemma_same_block(a, p1, b, q + 48, n - 48, level);
                        lemma_same_bits_tail(a, p, b, q, n, p2 - p);
                        lemma_blocks_moved(a, p2, b, q + (p2 - p), level, out + content, crc2);
                    },
                }
            }
        },
    }
}

/// Reads the header of the stream that starts at byte `start`.
pub fn read_header(data: &[u8], start: usize) -> (r: Result<usize, CodecError>)
    requires
        start <= data@.len(),
    ensures
        match r {
            Ok(level) => 1 <= level <= 9 && start + 4 <= data@.len() && parse_header(
                data@,
                start as int,
            ) == Ok::<nat, CodecError>(level as nat),
            Err(e) => parse_header(data@, start as int) == Err::<nat, CodecError>(e),
        },
{
    if data.len() - start < 4 {
        return Err(CodecError::TruncatedStream);
    }
    if data[start] != 0x42 || data[start + 1] != 0x5a || data[start + 2] != 0x68 || data[start + 3]
        < 0x31 || data[start + 3] > 0x39 {
        return Err(CodecError::CorruptData);
    }
    Ok((data[start + 3] - 0x30) as usize)
}

/// Decodes the blocks of a stream from the cursor on and adds their content
/// to `out`; gives the cursor behind the stream, and `fold` with the check
/// values of the blocks folded in.
pub fn read_blocks(data: &[u8], at: Cursor, level: usize, out: &mut Vec<u8>, fold: u32) -> (r:
    Result<(Cursor, u32), CodecError>)
    requires
        at.wf(data@),
        1 <= level <= 9,
    ensures
        final(out)@ == parse_blocks(data@, at.pos(), level as nat, old(out)@, 0).0,
        match r {
            Ok((end, folded)) => end.wf(data@) && parse_blocks(
                data@,
                at.pos(),
                level as nat,
                old(out)@,
                0,
            ).1 == Ok::<int, CodecError>(end.pos()) && blocks_walk(
                data@,
                at.pos(),
                level as nat,
                old(out)@,
                fold,
            ) == (final(out)@, folded, end.pos() - 80),
            Err(e) => parse_blocks(data@, at.pos(), level as nat, old(out)@, 0).1 == Err::<
                int,
                CodecError,
            >(e),
        },
{
    let mut cur: Cursor = at;
    let mut crc: u32 = 0;
    let mut folded: u32 = fold;
    loop
        invariant
            cur.wf(data@),
            1 <= level <= 9,
            parse_blocks(data@, at.pos(), level as nat, old(out)@, 0) == parse_blocks(
                data@,
                cur.pos(),
                level as nat,
                out@,
                crc,
            ),
            blocks_walk(data@, at.pos(), level as nat, old(out)@, fold) == blocks_walk(
                data@,
                cur.pos(),
                level as nat,
                out@,
                folded,
            ),
        decreases bit_len(data@) - cur.pos(),
    {
        let ghost here = cur.pos();
        let ghost held = out@;
        let ghost before = crc;
        let ghost carried = folded;
        let (magic, p1): (u64, Cursor) = match read_bits(data, cur, 48) {
            Err(e) => {
                return Err(e);
            },
            Ok(p) => p,
        };
        if magic == BLOCK_MAGIC {
            match read_block(data, p1, level) {
                Err(e) => {
                    return Err(e);
                },
                Ok((content, stored, p2)) => {
                    proof {
                        lemma_block_advances(data@, p1.pos(), level as nat);
                    }
                    out.extend_from_slice(content.as_slice());
                    crc = combine(crc, stored);
                    folded = combine(folded, stored);
                    cur = p2;
                    assert(take_bits(data@, here, 48) == Ok::<(nat, int), CodecError>(
                        (magic as nat, p1.pos()),
                    ));
                    assert(parse_block(data@, p1.pos(), level as nat) == Ok::<
                        (Seq<u8>, u32, int),
                        CodecError,
                    >((content@, stored, p2.pos())));
                    assert(out@ == held + content@);
                    assert(parse_blocks(data@, here, level as nat, held, before) == parse_blocks(
                        data@,
                        p2.pos(),
                        level as nat,
                        held + content@,
                        crc_combine(before, stored),
                    ));
                    assert(blocks_walk(data@, here, level as nat, held, carried) == blocks_walk(
                        data@,
                        p2.pos(),
                        level as nat,
                        held + content@,
                        crc_combine(carried, stored),
                    ));
                },
            }
        } else if magic == END_MAGIC {
            let (stored, p2): (u64, Cursor) = match read_bits(data, p1, 32) {
                Err(e) => {
                    return Err(e);
                },
                Ok(p) => p,
            };
            proof {
                lemma_bits_value_bound(data@, p1.pos(), 32);
                lemma2_to64();
            }
            if stored != crc as u64 {
                return Err(CodecError::CrcMismatch { expected: stored as u32, actual: crc });
            }
            return Ok((p2, folded));
        } else {
            return Err(CodecError::CorruptData);
        }
    }
}

/// Decodes `data`, one stream or several back to back, and adds the bytes
/// decoded to `out`. Gives their number, or the failure that ended the
/// decoding; `out` then holds the content of the blocks in front of it.
pub fn decompress(data: &[u8], out: &mut Vec<u8>) -> (r: Result<u64, Error>)
    ensures
        final(out)@ == old(out)@ + decoding(data@).output,
        match decoding(data@).error {
            None => r matches Ok(n) && n == decoding(data@).output.len(),
            Some(e) => r matches Err(Error::Codec(f)) && f == e,
        },
{
    let before: usize = out.len();
    let size: usize = data.len();
    let mut start: usize = 0;
    proof {
        lemma_streams_prefix(data@, 0, old(out)@);
    }
    loop
        invariant
            start <= data@.len(),
            size == data@.len(),
            before == old(out)@.len(),
            parse_streams(data@, 0, old(out)@) == parse_streams(data@, start as int, out@),
            old(out)@ + decoding(data@).output == parse_streams(data@, 0, old(out)@).output,
            decoding(data@).error == parse_streams(data@, 0, old(out)@).error,
        decreases data@.len() - start,
    {
        let level: usize = match read_header(data, start) {
            Err(e) => {
                return Err(Error::Codec(e));
            },
            Ok(l) => l,
        };
        let at: Cursor = Cursor::at_byte(start + 4);
        proof {
            lemma_blocks_advance(data@, at.pos(), level as nat, out@, 0);
        }
        match read_blocks(data, at, level, out, 0) {
            Err(e) => {
                return Err(Error::Codec(e));
            },
            Ok((end, folded)) => {
                let next: usize = end.next_byte(data);
                if next >= size {
                    let total: usize = out.len();
                    return Ok((total - before) as u64);
                }
                start = next;
            },
        }
    }
}

/// Decodes `data` and tells whether it is sound: the number of bytes it
/// holds, or the failure.
pub fn test_integrity(data: &[u8]) -> (r: Result<u64, Error>)
    ensures
        match decoding(data@).error {
            None => r matches Ok(n) && n == decoding(data@).output.len(),
            Some(e) => r matches Err(Error::Codec(f)) && f == e,
        },
{
    let mut sink: Vec<u8> = Vec::new();
    decompress(data, &mut sink)
}

} // verus!
