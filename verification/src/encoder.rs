//! The encoder: the `banzai` crate, behind one trusted call.
//!
//! The outside encoder is handed only input that leaves one byte value out of
//! every block it builds. Input that holds all values is cut into pieces that
//! each spare a value. The blocks that the encoder makes of the pieces are
//! read, checked, and written one behind the other into one stream: one
//! header, the blocks, one closing marker, and the check value that folds
//! every block in order.

use vstd::prelude::*;
use vstd::arithmetic::power2::*;
use vstd::slice::slice_subrange;
use crate::bits::{
    agree_at, bit_at, bit_len, is_cut, lemma_number_read, lemma_spells_joined, number_written, same_bits,
    spells, take_bits, Cursor,
};
use crate::error::{CodecError, Error};
use crate::stream::{
    blocks_walk, decoding, lemma_blocks_advance, lemma_cut, lemma_walk_of_sound, lemma_blocks_moved, lemma_blocks_prefix,
    lemma_walk_bounds, parse_blocks, parse_header, parse_streams, read_blocks, read_header,
    Decoding, END_MAGIC,
};
use crate::writer::{bits_of, packs, BitWriter};

verus! {

/// The byte `v` occurs among the first `m` bytes of `data`.
pub open spec fn occurs(data: Seq<u8>, m: int, v: int) -> bool
    decreases m,
{
    m > 0 && (data[m - 1] == v || occurs(data, m - 1, v))
}

/// The length of the run of equal bytes that ends with the byte at index `i`.
pub open spec fn run_ending(data: Seq<u8>, i: int) -> nat
    decreases i,
{
    if i > 0 && data[i] == data[i - 1] {
        run_ending(data, i - 1) + 1
    } else {
        1
    }
}

/// The length of the longest run of equal bytes among the first `m` bytes of
/// `data`.
pub open spec fn longest_run(data: Seq<u8>, m: int) -> nat
    decreases m,
{
    if m <= 0 {
        0
    } else if run_ending(data, m - 1) > longest_run(data, m - 1) {
        run_ending(data, m - 1)
    } else {
        longest_run(data, m - 1)
    }
}

/// The first `m` bytes of `data` spare the byte value `v` for the encoder:
/// the value does not occur among them, and their runs of equal bytes are too
/// short to be counted by it. A run is written as four bytes and the count of
/// the bytes that follow, at most 251, so that a run of fewer than `v + 4`
/// bytes has a count below `v`, and no count reaches 252.
pub open spec fn spares(data: Seq<u8>, m: int, v: int) -> bool {
    &&& 0 <= v < 256
    &&& !occurs(data, m, v)
    &&& (v >= 252 || longest_run(data, m) < v + 4)
}

/// Some byte value is spared by `data`.
pub open spec fn encodable(data: Seq<u8>) -> bool {
    exists|v: int| spares(data, data.len() as int, v)
}

/// The first `m` bytes of `data` spare the greatest byte value that does not
/// occur among them.
pub open spec fn fits(data: Seq<u8>, m: int) -> bool {
    exists|top: int| spares(data, m, top) && greatest_absent(data, m, top)
}

/// Every byte value above `top` occurs among the first `m` bytes of `data`.
pub open spec fn greatest_absent(data: Seq<u8>, m: int, top: int) -> bool {
    forall|v: int| top < v < 256 ==> #[trigger] occurs(data, m, v)
}

/// The length of the longest piece at the front of `data` that fits, counted
/// on from `n` bytes that fit.
pub open spec fn longest_fit(data: Seq<u8>, n: int) -> int
    decreases data.len() - n,
{
    if n < data.len() && fits(data, n + 1) {
        longest_fit(data, n + 1)
    } else {
        n
    }
}

/// The length of the piece that is cut off the front of `data`.
pub open spec fn piece_len(data: Seq<u8>) -> int {
    longest_fit(data, 0)
}

/// What `banzai::encode` makes of `data` at block size `level`: the bytes
/// of the bzip2 stream, or nothing where a write failed.
pub uninterp spec fn banzai_stream(data: Seq<u8>, level: int) -> Option<Seq<u8>>;

/// A stream in the making: the bits laid out, the content of the blocks
/// among them, and the check values of the blocks folded in order.
pub struct Layout {
    pub bits: Seq<bool>,
    pub content: Seq<u8>,
    pub crc: u32,
}

/// Why no stream is made.
pub enum Fault {
    /// A write of the encoder failed.
    Write,
    /// What the encoder wrote for a piece does not read as a stream.
    Stream(CodecError),
}

/// The header of a stream: the letters `BZh` and the digit of the level.
pub open spec fn header_bytes(level: int) -> Seq<u8> {
    seq![0x42u8, 0x5au8, 0x68u8, (0x30 + level) as u8]
}

/// The layout that holds the header and no block.
pub open spec fn start_layout(level: int) -> Layout {
    Layout { bits: bits_of(header_bytes(level), 0, 32), content: Seq::empty(), crc: 0 }
}

/// The failure on which the encoder's stream for a piece is turned down: its
/// header must read and name the level, its blocks and its closing marker
/// must read.
pub open spec fn stream_fault(stream: Seq<u8>, level: int) -> Option<CodecError> {
    match parse_header(stream, 0) {
        Err(e) => Some(e),
        Ok(l) => if l != level {
            Some(CodecError::CorruptData)
        } else {
            match parse_blocks(stream, 32, level as nat, Seq::empty(), 0).1 {
                Err(e) => Some(e),
                Ok(end) => None,
            }
        },
    }
}

/// The layout with the blocks of `stream` added: their bits as they stand
/// behind the header of `stream`, their content, and their check values
/// folded in.
pub open spec fn with_blocks(lay: Layout, stream: Seq<u8>, level: int) -> Layout {
    let w = blocks_walk(stream, 32, level as nat, lay.content, lay.crc);
    Layout { bits: lay.bits + bits_of(stream, 32, w.2), content: w.0, crc: w.1 }
}

/// The layout with the blocks of every piece of `data` added in order, or
/// the first failure.
pub open spec fn laid_out(data: Seq<u8>, level: int, lay: Layout) -> Result<Layout, Fault>
    decreases data.len(),
{
    let n = piece_len(data);
    match banzai_stream(data.take(n), level) {
        None => Err(Fault::Write),
        Some(stream) => match stream_fault(stream, level) {
            Some(e) => Err(Fault::Stream(e)),
            None => if n >= data.len() {
                Ok(with_blocks(lay, stream, level))
            } else {
                proof {
                    lemma_piece_len(data);
                }
                laid_out(data.skip(n), level, with_blocks(lay, stream, level))
            },
        },
    }
}

/// What compressing `data` lays out: the header and the blocks of all its
/// pieces.
pub open spec fn compressed(data: Seq<u8>, level: int) -> Result<Layout, Fault> {
    laid_out(data, level, start_layout(level))
}

/// The bits of the finished stream: what was laid out, the closing marker,
/// and the folded check value.
pub open spec fn closed(lay: Layout) -> Seq<bool> {
    lay.bits + number_written(END_MAGIC as nat, 48) + number_written(lay.crc as nat, 32)
}

/// The bytes `v` are the one stream of the layout: they hold its closed bits
/// and zero bits to the end of the last byte; they start with the header of
/// the level; the blocks behind the header read up to the end of the bytes;
/// and they decode to the content of the layout.
pub open spec fn is_stream_of(v: Seq<u8>, lay: Layout, level: int) -> bool {
    &&& packs(v, closed(lay))
    &&& parse_header(v, 0) == Ok::<nat, CodecError>(level as nat)
    &&& parse_blocks(v, 32, level as nat, Seq::empty(), 0) == (
        lay.content,
        Ok::<int, CodecError>(closed(lay).len() as int),
    )
    &&& (closed(lay).len() + 7) / 8 == v.len()
    &&& decoding(v) == (Decoding { output: lay.content, error: None })
}

/// The bytes `v` are one stream of the level and no more: the header of the
/// level, and blocks and a closing marker that read up to the last byte.
pub open spec fn one_stream(v: Seq<u8>, level: int) -> bool {
    parse_header(v, 0) == Ok::<nat, CodecError>(level as nat) && match parse_blocks(
        v,
        32,
        level as nat,
        Seq::empty(),
        0,
    ).1 {
        Ok(end) => (end + 7) / 8 == v.len(),
        Err(e) => false,
    }
}

/// Data that holds the bits of the layout reads, from the header on, as the
/// layout says: behind its bits reading goes on with its content and its
/// folded check value.
pub open spec fn reads_as(lay: Layout, level: int) -> bool {
    forall|v: Seq<u8>| #[trigger]
        spells(v, 0, lay.bits) ==> parse_blocks(v, 32, level as nat, Seq::empty(), 0)
            == parse_blocks(v, lay.bits.len() as int, level as nat, lay.content, lay.crc)
}

/// What occurs among the first bytes of a prefix occurs among those of the
/// whole, runs and all.
pub proof fn lemma_prefix_same(data: Seq<u8>, n: int, m: int, v: int)
    requires
        0 <= m <= n <= data.len(),
    ensures
        occurs(data.take(n), m, v) == occurs(data, m, v),
        longest_run(data.take(n), m) == longest_run(data, m),
        m > 0 ==> run_ending(data.take(n), m - 1) == run_ending(data, m - 1),
    decreases m,
{
    if m > 0 {
        lemma_prefix_same(data, n, m - 1, v);
        assert(data.take(n)[m - 1] == data[m - 1]);
        if m > 1 {
            assert(data.take(n)[m - 2] == data[m - 2]);
        }
    }
}

/// A piece that fits is one that the encoder can be handed.
pub proof fn lemma_fits_encodable(data: Seq<u8>, n: int)
    requires
        0 <= n <= data.len(),
        fits(data, n),
    ensures
        encodable(data.take(n)),
{
    let top = choose|top: int| spares(data, n, top) && greatest_absent(data, n, top);
    lemma_prefix_same(data, n, n, top);
    assert(spares(data.take(n), data.take(n).len() as int, top));
}

/// A single byte fits, and so does no byte at all.
pub proof fn lemma_one_fits(data: Seq<u8>, m: int)
    requires
        0 <= m <= 1,
        m <= data.len(),
    ensures
        fits(data, m),
{
    let top: int = if m == 1 && data[0] == 255 {
        254
    } else {
        255
    };
    assert(!occurs(data, 0, top));
    assert(!occurs(data, m, top));
    assert forall|v: int| top < v < 256 implies #[trigger] occurs(data, m, v) by {
        assert(v == 255 && m == 1 && data[0] == 255);
    }
    assert(spares(data, m, top) && greatest_absent(data, m, top));
}

/// A piece takes at least one byte where there is one, and never more than
/// there are; and it fits.
pub proof fn lemma_piece_len(data: Seq<u8>)
    ensures
        0 <= piece_len(data) <= data.len(),
        data.len() > 0 ==> piece_len(data) >= 1,
        fits(data, piece_len(data)),
{
    lemma_one_fits(data, 0);
    if data.len() > 0 {
        lemma_one_fits(data, 1);
        lemma_longest_fit(data, 1);
    }
}

/// Counting on from bytes that fit ends within the data on bytes that fit.
pub proof fn lemma_longest_fit(data: Seq<u8>, n: int)
    requires
        0 <= n <= data.len(),
        fits(data, n),
    ensures
        n <= longest_fit(data, n) <= data.len(),
        fits(data, longest_fit(data, n)),
    decreases data.len() - n,
{
    if n < data.len() && fits(data, n + 1) {
        lemma_longest_fit(data, n + 1);
    }
}

/// Measures the piece that is cut off the front of `data`: the longest that
/// spares the greatest byte value absent from it.
pub fn piece_length(data: &[u8]) -> (n: usize)
    ensures
        n == piece_len(data@),
        n <= data@.len(),
        data@.len() > 0 ==> n >= 1,
        encodable(data@.take(n as int)),
{
    let mut seen: Vec<bool> = Vec::new();
    let mut k: usize = 0;
    while k < 256
        invariant
            k <= 256,
            seen@.len() == k,
            forall|v: int| 0 <= v < k ==> !(#[trigger] seen@[v]),
        decreases 256 - k,
    {
        seen.push(false);
        k += 1;
    }
    let mut top: usize = 255;
    let mut last: u8 = 0;
    let mut run: usize = 0;
    let mut longest: usize = 0;
    let mut n: usize = 0;
    proof {
        lemma_one_fits(data@, 0);
    }
    while n < data.len()
        invariant
            n <= data@.len(),
            seen@.len() == 256,
            top < 256,
            forall|v: int| 0 <= v < 256 ==> #[trigger] seen@[v] == occurs(data@, n as int, v),
            !seen@[top as int],
            forall|v: int| top < v < 256 ==> #[trigger] seen@[v],
            n > 0 ==> last == data@[n - 1] && run == run_ending(data@, n - 1),
            run <= n,
            longest <= n,
            longest == longest_run(data@, n as int),
            fits(data@, n as int),
            piece_len(data@) == longest_fit(data@, n as int),
        decreases data@.len() - n,
    {
        let b: u8 = data[n];
        run = if n > 0 && b == last {
            run + 1
        } else {
            1
        };
        last = b;
        if run > longest {
            longest = run;
        }
        seen.set(b as usize, true);
        let ghost m = n + 1;
        assert forall|v: int| 0 <= v < 256 implies #[trigger] seen@[v] == occurs(data@, m, v) by {
            assert(occurs(data@, m, v) == (data@[n as int] == v || occurs(data@, n as int, v)));
        }
        let mut found: bool = true;
        if b as usize == top {
            found = false;
            let mut t: usize = top;
            while t > 0 && !found
                invariant
                    t <= top < 256,
                    seen@.len() == 256,
                    found ==> !seen@[t as int],
                    !found ==> seen@[t as int],
                    forall|v: int| t < v < 256 ==> #[trigger] seen@[v],
                decreases t + (if found { 0int } else { 1int }),
            {
                t -= 1;
                if !seen[t] {
                    found = true;
                }
            }
            if !found {
                assert forall|top2: int| !(spares(data@, m, top2)) by {
                    if 0 <= top2 < 256 {
                        assert(seen@[top2]);
                    }
                }
                proof {
                    lemma_piece_len(data@);
                    lemma_fits_encodable(data@, n as int);
                }
                return n;
            }
            top = t;
        }
        if !(top >= 252 || longest < top + 4) {
            assert forall|top2: int| !(spares(data@, m, top2) && greatest_absent(data@, m, top2)) by {
                if spares(data@, m, top2) && greatest_absent(data@, m, top2) {
                    if top2 < top {
                        assert(occurs(data@, m, top as int));
                    } else if top2 > top {
                        assert(seen@[top2]);
                    }
                }
            }
            proof {
                lemma_piece_len(data@);
                lemma_fits_encodable(data@, n as int);
            }
            return n;
        }
        assert(spares(data@, m, top as int) && greatest_absent(data@, m, top as int)) by {
            assert forall|v: int| top < v < 256 implies #[trigger] occurs(data@, m, v) by {
                assert(seen@[v]);
            }
        }
        n += 1;
    }
    proof {
        lemma_fits_encodable(data@, n as int);
    }
    n
}

/// Calls `banzai::encode`, which reads from the slice `data` and writes into
/// a fresh vector. Trusted of it: that for a level from 1 to 9 and input that
/// spares a byte value it returns, and that what it wrote, or that a write
/// failed, depends on `data` and `level` alone.
///
/// For any other level it panics. It also panics on a block that holds all
/// 256 byte values where the second of its three code tables takes the end
/// symbol alone: the third is then laid out from index 258 of a table of 258
/// frequencies. A block is made of bytes of `data` and of the counts of its
/// runs, a count standing behind four equal bytes for the equal bytes that
/// follow, 251 at most. A value that `data` spares is therefore in no block;
/// a block then has 257 symbols at most, and the tables are laid out within
/// the 258 entries. `requires` leaves both cases out. Of the suffix sort the
/// contract takes the source's word: it asserts the invariants that it
/// relies on. The description of a failed write is handed on as it comes.
#[verifier::external_body]
fn encode_stream(data: &[u8], level: usize) -> (r: Result<Vec<u8>, String>)
    requires
        1 <= level <= 9,
        encodable(data@),
    ensures
        match r {
            Ok(stream) => banzai_stream(data@, level as int) == Some(stream@),
            Err(reason) => banzai_stream(data@, level as int) is None,
        },
{
    let mut stream: Vec<u8> = Vec::new();
    match banzai::encode(data, std::io::BufWriter::new(&mut stream), level) {
        Ok(_) => Ok(stream),
        Err(e) => Err(e.to_string()),
    }
}

/// The greatest byte value up to `u` that does not occur among the first `m`
/// bytes of `data`.
pub open spec fn top_absent(data: Seq<u8>, m: int, u: int) -> int
    decreases u,
{
    if u <= 0 {
        0
    } else if !occurs(data, m, u) {
        u
    } else {
        top_absent(data, m, u - 1)
    }
}

/// Where a value does not occur, there is a greatest one that does not.
pub proof fn lemma_top_absent(data: Seq<u8>, m: int, v: int, u: int)
    requires
        0 <= v <= u < 256,
        !occurs(data, m, v),
    ensures
        v <= top_absent(data, m, u) <= u,
        !occurs(data, m, top_absent(data, m, u)),
        forall|x: int| top_absent(data, m, u) < x <= u ==> #[trigger] occurs(data, m, x),
    decreases u,
{
    if u > 0 && occurs(data, m, u) {
        lemma_top_absent(data, m, v, u - 1);
    }
}

/// What occurs among fewer bytes occurs among more, and runs grow no
/// shorter.
pub proof fn lemma_more_bytes(data: Seq<u8>, m: int, n: int, v: int)
    requires
        m <= n,
    ensures
        occurs(data, m, v) ==> occurs(data, n, v),
        longest_run(data, m) <= longest_run(data, n),
    decreases n - m,
{
    if m < n {
        lemma_more_bytes(data, m, n - 1, v);
    }
}

/// Where the whole spares a value, every piece at its front fits.
pub proof fn lemma_spared_fits(data: Seq<u8>, v: int, m: int)
    requires
        spares(data, data.len() as int, v),
        0 <= m <= data.len(),
    ensures
        fits(data, m),
{
    lemma_more_bytes(data, m, data.len() as int, v);
    lemma_top_absent(data, m, v, 255);
    let top = top_absent(data, m, 255);
    assert(spares(data, m, top) && greatest_absent(data, m, top));
}

/// Where the whole spares a value, the piece at its front is the whole.
pub proof fn lemma_spared_longest(data: Seq<u8>, v: int, n: int)
    requires
        spares(data, data.len() as int, v),
        0 <= n <= data.len(),
    ensures
        longest_fit(data, n) == data.len(),
    decreases data.len() - n,
{
    if n < data.len() {
        lemma_spared_fits(data, v, n + 1);
        lemma_spared_longest(data, v, n + 1);
    }
}

/// Input that spares a byte value is handed to the encoder whole: it is one
/// piece, and the stream is laid out from the blocks of the one stream that
/// the encoder makes of it.
pub proof fn lemma_spared_whole(data: Seq<u8>, level: int)
    requires
        encodable(data),
    ensures
        piece_len(data) == data.len(),
        compressed(data, level) == (match banzai_stream(data, level) {
            None => Err::<Layout, Fault>(Fault::Write),
            Some(stream) => match stream_fault(stream, level) {
                Some(e) => Err::<Layout, Fault>(Fault::Stream(e)),
                None => Ok::<Layout, Fault>(with_blocks(start_layout(level), stream, level)),
            },
        }),
{
    let v = choose|v: int| spares(data, data.len() as int, v);
    lemma_spared_longest(data, v, 0);
    assert(data.take(data.len() as int) =~= data);
}

/// The stream laid out from one stream of the encoder is that stream: where
/// the encoder's stream reads up to its last byte and ends in zero bits, the
/// bytes that hold the closed layout of its blocks are the encoder's own.
pub proof fn lemma_same_stream(v: Seq<u8>, stream: Seq<u8>, level: int)
    requires
        1 <= level <= 9,
        stream_fault(stream, level) is None,
        one_stream(stream, level),
        forall|i: int|
            parse_blocks(stream, 32, level as nat, Seq::empty(), 0).1->Ok_0 <= i < bit_len(
                stream,
            ) ==> !bit_at(stream, i),
        packs(v, closed(with_blocks(start_layout(level), stream, level))),
    ensures
        v == stream,
{
    let lay = with_blocks(start_layout(level), stream, level);
    let none = Seq::<u8>::empty();
    let end = parse_blocks(stream, 32, level as nat, none, 0).1->Ok_0;
    let w = blocks_walk(stream, 32, level as nat, none, 0);
    let head = header_bytes(level);
    let marker = number_written(END_MAGIC as nat, 48);
    let value = number_written(lay.crc as nat, 32);
    lemma_walk_of_sound(stream, 32, level as nat, none, 0);
    lemma_blocks_advance(stream, 32, level as nat, none, 0);
    crate::bits::lemma_number_len(END_MAGIC as nat, 48);
    crate::bits::lemma_number_len(lay.crc as nat, 32);
    assert(closed(lay).len() == end);
    assert forall|i: int| 0 <= i < bit_len(v) implies bit_at(v, i) == bit_at(stream, i) by {
        if i < end {
            assert(bit_at(v, 0 + i) == closed(lay)[i]);
            if i < 32 {
                assert(closed(lay)[i] == bit_at(head, i));
                assert(head[i / 8] == stream[i / 8]);
            } else if i < end - 80 {
                assert(closed(lay)[i] == bits_of(stream, 32, w.2)[i - 32]);
            } else if i < end - 32 {
                assert(closed(lay)[i] == marker[i - (end - 80)]);
                crate::bits::lemma_number_bits(stream, end - 80, 48, i - (end - 80));
            } else {
                assert(closed(lay)[i] == value[i - (end - 32)]);
                crate::bits::lemma_number_bits(stream, end - 32, 32, i - (end - 32));
            }
        }
    }
    crate::bits::lemma_bytes_by_bits(v, stream);
}

/// One stream cut short is no sound input: bytes that are one stream and
/// decode, cut behind any of their bytes, fail with `TruncatedStream`.
pub proof fn lemma_stream_cut_fails(v: Seq<u8>, level: int, k: int)
    requires
        one_stream(v, level),
        decoding(v).error is None,
        0 <= k < v.len(),
    ensures
        decoding(v.take(k)).error == Some(CodecError::TruncatedStream),
{
    lemma_cut(v, k);
    lemma_blocks_advance(v, 32, level as nat, Seq::empty(), 0);
}

/// Adding the blocks of a stream keeps a layout readable.
pub proof fn lemma_with_blocks_reads(lay: Layout, stream: Seq<u8>, level: int)
    requires
        reads_as(lay, level),
        stream.len() >= 4,
    ensures
        reads_as(with_blocks(lay, stream, level), level),
{
    let w = blocks_walk(stream, 32, level as nat, lay.content, lay.crc);
    let more = bits_of(stream, 32, w.2);
    let next = with_blocks(lay, stream, level);
    lemma_walk_bounds(stream, 32, level as nat, lay.content, lay.crc);
    assert forall|v: Seq<u8>| #[trigger] spells(v, 0, next.bits) implies parse_blocks(
        v,
        32,
        level as nat,
        Seq::empty(),
        0,
    ) == parse_blocks(v, next.bits.len() as int, level as nat, next.content, next.crc) by {
        lemma_spells_joined(v, 0, lay.bits, more);
        let q = lay.bits.len() as int;
        assert(same_bits(stream, 32, v, q, w.2 - 32)) by {
            assert forall|i: int| 0 <= i < w.2 - 32 implies #[trigger] agree_at(
                stream,
                32,
                v,
                q,
                i,
            ) by {
                assert(more[i] == bit_at(stream, 32 + i));
            }
        }
        lemma_blocks_moved(stream, 32, v, q, level as nat, lay.content, lay.crc);
    }
}

/// Bytes that hold the closed bits of a readable layout behind the header
/// are its one stream.
pub proof fn lemma_closed_reads(v: Seq<u8>, lay: Layout, level: int)
    requires
        1 <= level <= 9,
        reads_as(lay, level),
        lay.bits.len() >= 32,
        packs(v, closed(lay)),
        is_cut(header_bytes(level), v),
    ensures
        is_stream_of(v, lay, level),
{
    let marker = number_written(END_MAGIC as nat, 48);
    let value = number_written(lay.crc as nat, 32);
    let here = lay.bits.len() as int;
    lemma2_to64();
    lemma2_to64_rest();
    lemma_spells_joined(v, 0, lay.bits + marker, value);
    lemma_spells_joined(v, 0, lay.bits, marker);
    lemma_number_read(v, here, END_MAGIC as nat, 48);
    lemma_number_read(v, here + 48, lay.crc as nat, 32);
    assert(take_bits(v, here, 48) == Ok::<(nat, int), CodecError>((END_MAGIC as nat, here + 48)));
    assert(take_bits(v, here + 48, 32) == Ok::<(nat, int), CodecError>(
        (lay.crc as nat, here + 80),
    ));
    assert(parse_blocks(v, here, level as nat, lay.content, lay.crc) == (
        lay.content,
        Ok::<int, CodecError>(here + 80),
    ));
    assert(v[0] == header_bytes(level)[0]);
    assert(v[1] == header_bytes(level)[1]);
    assert(v[2] == header_bytes(level)[2]);
    assert(v[3] == header_bytes(level)[3]);
    assert(parse_header(v, 0) == Ok::<nat, CodecError>(level as nat));
    assert(closed(lay).len() == here + 80);
    assert(parse_streams(v, 0, Seq::empty()) == (Decoding { output: lay.content, error: None }));
}

/// Lays out the one stream of `data`: encodes its pieces, reads the blocks
/// of each, and writes them behind one header and in front of one closing
/// marker. Gives the stream and the content of its blocks.
fn build(data: &[u8], level: usize) -> (r: Result<(Vec<u8>, Vec<u8>), Error>)
    requires
        1 <= level <= 9,
    ensures
        match compressed(data@, level as int) {
            Ok(lay) => r matches Ok((v, content)) && is_stream_of(v@, lay, level as int)
                && content@ == lay.content,
            Err(Fault::Write) => r matches Err(Error::Io(_)),
            Err(Fault::Stream(e)) => r matches Err(Error::Codec(f)) && f == e,
        },
{
    let size: usize = data.len();
    let mut header: Vec<u8> = Vec::new();
    header.push(0x42);
    header.push(0x5a);
    header.push(0x68);
    header.push(0x30 + level as u8);
    assert(header@ =~= header_bytes(level as int));
    let mut w: BitWriter = BitWriter::from_bytes(header);
    let mut content: Vec<u8> = Vec::new();
    let mut crc: u32 = 0;
    let mut start: usize = 0;
    let ghost mut lay: Layout = start_layout(level as int);
    assert(data@.skip(0) =~= data@);
    loop
        invariant
            start <= size,
            size == data@.len(),
            1 <= level <= 9,
            w.wf(),
            w.bits() == lay.bits,
            lay.bits.len() >= 32,
            content@ == lay.content,
            crc == lay.crc,
            is_cut(header_bytes(level as int), w.whole()),
            reads_as(lay, level as int),
            compressed(data@, level as int) == laid_out(
                data@.skip(start as int),
                level as int,
                lay,
            ),
        decreases size - start,
    {
        let rest: &[u8] = slice_subrange(data, start, size);
        assert(rest@ =~= data@.skip(start as int));
        let n: usize = piece_length(rest);
        let piece: &[u8] = slice_subrange(rest, 0, n);
        assert(piece@ =~= rest@.take(n as int));
        let stream: Vec<u8> = match encode_stream(piece, level) {
            Err(reason) => {
                return Err(Error::Io(reason));
            },
            Ok(stream) => stream,
        };
        match read_header(stream.as_slice(), 0) {
            Err(e) => {
                return Err(Error::Codec(e));
            },
            Ok(named) => {
                if named != level {
                    return Err(Error::Codec(CodecError::CorruptData));
                }
            },
        }
        let at: Cursor = Cursor::at_byte(4);
        proof {
            lemma_blocks_prefix(stream@, 32, level as nat, content@, 0);
            lemma_blocks_advance(stream@, 32, level as nat, content@, 0);
        }
        match read_blocks(stream.as_slice(), at, level, &mut content, crc) {
            Err(e) => {
                return Err(Error::Codec(e));
            },
            Ok((end, folded)) => {
                let ghost held = w.whole();
                let last: Cursor = Cursor { byte: end.byte - 10, bit: end.bit };
                w.copy_bits(stream.as_slice(), at, last);
                crc = folded;
                proof {
                    lemma_with_blocks_reads(lay, stream@, level as int);
                    lay = with_blocks(lay, stream@, level as int);
                    assert(is_cut(header_bytes(level as int), w.whole())) by {
                        assert forall|i: int| 0 <= i < 4 implies w.whole()[i] == header_bytes(
                            level as int,
                        )[i] by {
                            assert(held[i] == header_bytes(level as int)[i]);
                        }
                    }
                }
            },
        }
        if n >= rest.len() {
            let ghost held = w.whole();
            w.write_bits(END_MAGIC, 48);
            let ghost between = w.whole();
            w.write_bits(crc as u64, 32);
            let ghost full = w.whole();
            let v: Vec<u8> = w.finish();
            proof {
                assert(is_cut(header_bytes(level as int), v@)) by {
                    assert forall|i: int| 0 <= i < 4 implies v@[i] == header_bytes(
                        level as int,
                    )[i] by {
                        assert(held[i] == header_bytes(level as int)[i]);
                        assert(between[i] == held[i]);
                        assert(full[i] == between[i]);
                    }
                }
                lemma_closed_reads(v@, lay, level as int);
            }
            return Ok((v, content));
        }
        assert(rest@.skip(n as int) =~= data@.skip(start + n));
        start += n;
    }
}

/// Compresses `data` into one bzip2 stream with blocks that hold at most
/// `level` times 100,000 bytes. The blocks are the encoder's; where the
/// encoder is handed `data` in pieces, the blocks of all pieces stand in the
/// one stream. The failure of a write is given as `Error::Io`; blocks of the
/// encoder that do not read are given as the failure of reading them.
pub fn compress(data: &[u8], level: usize) -> (r: Result<Vec<u8>, Error>)
    requires
        1 <= level <= 9,
    ensures
        match compressed(data@, level as int) {
            Ok(lay) => r matches Ok(v) && is_stream_of(v@, lay, level as int),
            Err(Fault::Write) => r matches Err(Error::Io(_)),
            Err(Fault::Stream(e)) => r matches Err(Error::Codec(f)) && f == e,
        },
        r matches Ok(v) ==> one_stream(v@, level as int),
{
    match build(data, level) {
        Ok((v, content)) => Ok(v),
        Err(e) => Err(e),
    }
}

/// Tells whether two byte strings are the same.
pub fn same_bytes(a: &[u8], b: &[u8]) -> (r: bool)
    ensures
        r == (a@ == b@),
{
    if a.len() != b.len() {
        return false;
    }
    let mut i: usize = 0;
    while i < a.len()
        invariant
            i <= a@.len(),
            a@.len() == b@.len(),
            forall|k: int| 0 <= k < i ==> a@[k] == b@[k],
        decreases a@.len() - i,
    {
        if a[i] != b[i] {
            return false;
        }
        i += 1;
    }
    assert(a@ =~= b@);
    true
}

/// Compresses `data` as `compress` does and holds the content of the blocks
/// against `data`: the stream is given out only where it decodes to `data`,
/// and `CorruptData` where it decodes to other bytes.
pub fn compress_checked(data: &[u8], level: usize) -> (r: Result<Vec<u8>, Error>)
    requires
        1 <= level <= 9,
    ensures
        match compressed(data@, level as int) {
            Ok(lay) => if lay.content == data@ {
                r matches Ok(v) && is_stream_of(v@, lay, level as int)
            } else {
                r matches Err(Error::Codec(f)) && f == CodecError::CorruptData
            },
            Err(Fault::Write) => r matches Err(Error::Io(_)),
            Err(Fault::Stream(e)) => r matches Err(Error::Codec(f)) && f == e,
        },
        r matches Ok(v) ==> one_stream(v@, level as int),
        r matches Ok(v) ==> decoding(v@) == (Decoding { output: data@, error: None }),
{
    match build(data, level) {
        Ok((v, content)) => {
            if same_bytes(content.as_slice(), data) {
                Ok(v)
            } else {
                Err(Error::Codec(CodecError::CorruptData))
            }
        },
        Err(e) => Err(e),
    }
}

} // verus!
