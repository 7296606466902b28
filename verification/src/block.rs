//! One block of a stream: its tables, its symbols, and the bytes they stand
//! for.
//!
//! Behind the block's marker stand the check value of its content, the flag
//! of the legacy randomisation, the origin pointer, the map of the byte
//! values in use, the number of code tables, the table chosen for each group
//! of 50 symbols, the code lengths of each table, and the coded symbols up to
//! the symbol that ends the block.

use vstd::prelude::*;
use vstd::arithmetic::power2::*;
use crate::bits::{
    agree_at, bit_at, bit_len, cut_reading, lemma_number_len, lemma_spells_joined, spells, is_cut, lemma_bits_value_bound, lemma_cut_same,
    lemma_cut_take_bit, lemma_cut_take_bits, lemma_same_bits_tail, lemma_same_take_bit,
    lemma_same_take_bits, moved, read_bit, read_bits, same_bits, take_bit, take_bits, Cursor,
};
use crate::bwt::{invert, invert_checked};
use crate::crc::{checksum, crc32};
use crate::error::CodecError;
use crate::huffman::{
    code_of, code_written, decode_symbol, lemma_code_read, lemma_table_read, table_written, lemma_cut_decode, lemma_cut_table, lemma_decode_advances, lemma_same_decode,
    lemma_same_table,
    lemma_table_advances, parse_table, read_table, CodeTable, MAX_ALPHABET,
};
use crate::mtf::{decode_ranks, identity_list, ranks_decoded, unpack, unpack_checked};
use crate::rand::{derandomize, derandomized};
use crate::rle::{expand, expanded};

verus! {

/// The number of symbols that one choice of table covers.
pub const GROUP_SIZE: usize = 50;

/// Among the first `k` groups of 16 byte values, the number marked as
/// present by the 16 bits at `pos`.
pub open spec fn groups_before(data: Seq<u8>, pos: int, k: int) -> nat
    decreases k,
{
    if k <= 0 {
        0
    } else {
        groups_before(data, pos, k - 1) + if bit_at(data, pos + k - 1) {
            1nat
        } else {
            0nat
        }
    }
}

/// The byte value `b` is in use: its group is marked as present, and so is
/// the value in the 16 bits of its group. The groups present follow the
/// first 16 bits in ascending order.
pub open spec fn in_use(data: Seq<u8>, pos: int, b: int) -> bool {
    bit_at(data, pos + b / 16) && bit_at(
        data,
        pos + 16 + 16 * groups_before(data, pos, b / 16) + b % 16,
    )
}

/// The byte values below `upto` in use, ascending.
pub open spec fn used_below(data: Seq<u8>, pos: int, upto: int) -> Seq<u8>
    decreases upto,
{
    if upto <= 0 {
        Seq::empty()
    } else {
        let rest = used_below(data, pos, upto - 1);
        if in_use(data, pos, upto - 1) {
            rest.push((upto - 1) as u8)
        } else {
            rest
        }
    }
}

/// The map of the byte values in use: the values, ascending, and the
/// position behind the map. A block that uses no value is corrupt.
pub open spec fn parse_symbol_map(data: Seq<u8>, pos: int) -> Result<(Seq<u8>, int), CodecError> {
    let end = pos + 16 + 16 * groups_before(data, pos, 16);
    if pos + 16 > bit_len(data) || end > bit_len(data) {
        Err(CodecError::TruncatedStream)
    } else if used_below(data, pos, 256).len() == 0 {
        Err(CodecError::CorruptData)
    } else {
        Ok((used_below(data, pos, 256), end))
    }
}

/// A number below `limit` written as so many one bits and a zero bit, read
/// behind `count` one bits.
pub open spec fn parse_unary(data: Seq<u8>, pos: int, limit: int, count: int) -> Result<
    (u8, int),
    CodecError,
>
    decreases limit - count,
{
    if pos >= bit_len(data) {
        Err(CodecError::TruncatedStream)
    } else if !bit_at(data, pos) {
        Ok((count as u8, pos + 1))
    } else if count + 1 >= limit {
        Err(CodecError::CorruptData)
    } else {
        parse_unary(data, pos + 1, limit, count + 1)
    }
}

/// `count` numbers below `limit` behind those in `acc`.
pub open spec fn parse_ranks(data: Seq<u8>, pos: int, limit: int, count: nat, acc: Seq<u8>) -> Result<
    (Seq<u8>, int),
    CodecError,
>
    decreases count,
{
    if count == 0 {
        Ok((acc, pos))
    } else {
        match parse_unary(data, pos, limit, 0) {
            Err(e) => Err(e),
            Ok((rank, next)) => parse_ranks(data, next, limit, (count - 1) as nat, acc.push(rank)),
        }
    }
}

/// The code lengths of `count` tables behind those in `acc`.
pub open spec fn parse_code_tables(
    data: Seq<u8>,
    pos: int,
    alphabet: nat,
    count: nat,
    acc: Seq<Seq<u8>>,
) -> Result<(Seq<Seq<u8>>, int), CodecError>
    decreases count,
{
    if count == 0 {
        Ok((acc, pos))
    } else {
        match parse_table(data, pos, alphabet) {
            Err(e) => Err(e),
            Ok((lens, next)) => parse_code_tables(
                data,
                next,
                alphabet,
                (count - 1) as nat,
                acc.push(lens),
            ),
        }
    }
}

/// What a block says of its coding: the byte values in use, the table
/// chosen for each group of symbols, and the code lengths of each table.
pub struct Coding {
    pub used: Seq<u8>,
    pub selectors: Seq<u8>,
    pub lens: Seq<Seq<u8>>,
}

/// The coding of a block: the map of values in use; three bits for the
/// number of tables, 2 to 6; fifteen bits for the number of groups, at least
/// one; the table of each group as a move-to-front rank in unary; and the
/// code lengths of each table over the values in use and two more symbols.
pub open spec fn parse_coding(data: Seq<u8>, pos: int) -> Result<(Coding, int), CodecError> {
    match parse_symbol_map(data, pos) {
        Err(e) => Err(e),
        Ok((used, p1)) => match take_bits(data, p1, 3) {
            Err(e) => Err(e),
            Ok((groups, p2)) => if groups < 2 || groups > 6 {
                Err(CodecError::CorruptData)
            } else {
                match take_bits(data, p2, 15) {
                    Err(e) => Err(e),
                    Ok((count, p3)) => if count < 1 {
                        Err(CodecError::CorruptData)
                    } else {
                        match parse_ranks(data, p3, groups as int, count, Seq::empty()) {
                            Err(e) => Err(e),
                            Ok((ranks, p4)) => match parse_code_tables(
                                data,
                                p4,
                                used.len() + 2,
                                groups,
                                Seq::empty(),
                            ) {
                                Err(e) => Err(e),
                                Ok((lens, p5)) => Ok(
                                    (
                                        Coding {
                                            used,
                                            selectors: ranks_decoded(identity_list(groups), ranks),
                                            lens,
                                        },
                                        p5,
                                    ),
                                ),
                            },
                        }
                    },
                }
            },
        },
    }
}

/// The symbols of a block behind those in `acc`, up to the symbol `eob` that
/// ends it. Each group of 50 symbols, the ending one counted, is coded with
/// the table chosen for it; symbols beyond the last group are corrupt.
pub open spec fn parse_symbols(
    data: Seq<u8>,
    pos: int,
    coding: Coding,
    eob: int,
    acc: Seq<u16>,
) -> Result<(Seq<u16>, int), CodecError>
    decreases coding.selectors.len() * GROUP_SIZE - acc.len(),
{
    let group = acc.len() as int / GROUP_SIZE as int;
    if group >= coding.selectors.len() {
        Err(CodecError::CorruptData)
    } else {
        match decode_symbol(coding.lens[coding.selectors[group] as int], data, pos) {
            Err(e) => Err(e),
            Ok((sym, next)) => if sym == eob {
                Ok((acc, next))
            } else {
                parse_symbols(data, next, coding, eob, acc.push(sym))
            },
        }
    }
}

/// The content of a block, from its symbols: ranks and runs of rank zero
/// are undone within the block size of `level` times 100,000 bytes, the
/// Burrows-Wheeler transform is inverted, the legacy randomisation is undone
/// where flagged, and the runs of equal bytes are written out.
pub open spec fn block_content(
    syms: Seq<u16>,
    used: Seq<u8>,
    origin: int,
    randomised: bool,
    level: nat,
) -> Result<Seq<u8>, CodecError> {
    match unpack_checked(syms, used, level * 100_000) {
        Err(e) => Err(e),
        Ok(last) => match invert_checked(last, origin) {
            Err(e) => Err(e),
            Ok(raw) => Ok(
                expanded(
                    if randomised {
                        derandomized(raw)
                    } else {
                        raw
                    },
                ),
            ),
        },
    }
}

/// A block behind its check value: its content and the position behind it.
/// The flag of the legacy randomisation and the 24 bits of the origin pointer
/// come first, the coding and the symbols follow.
#[verifier::opaque]
pub open spec fn parse_block_body(data: Seq<u8>, pos: int, level: nat) -> Result<
    (Seq<u8>, int),
    CodecError,
> {
    match take_bit(data, pos) {
        Err(e) => Err(e),
        Ok((randomised, p2)) => match take_bits(data, p2, 24) {
            Err(e) => Err(e),
            Ok((origin, p3)) => match parse_coding(data, p3) {
                Err(e) => Err(e),
                Ok((coding, p4)) => match parse_symbols(
                    data,
                    p4,
                    coding,
                    (coding.used.len() + 1) as int,
                    Seq::empty(),
                ) {
                    Err(e) => Err(e),
                    Ok((syms, p5)) => match block_content(
                        syms,
                        coding.used,
                        origin as int,
                        randomised,
                        level,
                    ) {
                        Err(e) => Err(e),
                        Ok(content) => Ok((content, p5)),
                    },
                },
            },
        },
    }
}

/// A block behind its marker: its content, the check value stored with it,
/// and the position behind it. The 32 bits of the check value come first;
/// the content must have that check value.
pub open spec fn parse_block(data: Seq<u8>, pos: int, level: nat) -> Result<
    (Seq<u8>, u32, int),
    CodecError,
> {
    match take_bits(data, pos, 32) {
        Err(e) => Err(e),
        Ok((stored, p1)) => match parse_block_body(data, p1, level) {
            Err(e) => Err(e),
            Ok((content, next)) => if crc32(content) != stored as u32 {
                Err(CodecError::CrcMismatch { expected: stored as u32, actual: crc32(content) })
            } else {
                Ok((content, stored as u32, next))
            },
        },
    }
}

/// Later groups have no fewer groups before them.
pub proof fn lemma_groups_grow(data: Seq<u8>, pos: int, i: int, j: int)
    requires
        i <= j,
    ensures
        groups_before(data, pos, i) <= groups_before(data, pos, j),
    decreases j - i,
{
    if i < j {
        lemma_groups_grow(data, pos, i, j - 1);
    }
}

/// A group that is not present holds no value in use.
pub proof fn lemma_group_absent(data: Seq<u8>, pos: int, g: int, j: int)
    requires
        0 <= g,
        0 <= j <= 16,
        !bit_at(data, pos + g),
    ensures
        used_below(data, pos, 16 * g + j) == used_below(data, pos, 16 * g),
    decreases j,
{
    if j > 0 {
        lemma_group_absent(data, pos, g, j - 1);
        assert((16 * g + j - 1) / 16 == g);
    }
}

/// A number in unary takes at least one bit.
pub proof fn lemma_unary_advances(data: Seq<u8>, pos: int, limit: int, count: int)
    ensures
        parse_unary(data, pos, limit, count) matches Ok((_, next)) ==> next > pos,
    decreases limit - count,
{
    if pos < bit_len(data) && bit_at(data, pos) && count + 1 < limit {
        lemma_unary_advances(data, pos + 1, limit, count + 1);
    }
}

/// Ranks are read forwards.
pub proof fn lemma_ranks_advance(data: Seq<u8>, pos: int, limit: int, count: nat, acc: Seq<u8>)
    ensures
        parse_ranks(data, pos, limit, count, acc) matches Ok((_, next)) ==> next >= pos,
    decreases count,
{
    if count > 0 {
        lemma_unary_advances(data, pos, limit, 0);
        match parse_unary(data, pos, limit, 0) {
            Err(e) => {},
            Ok((rank, next)) => {
                lemma_ranks_advance(data, next, limit, (count - 1) as nat, acc.push(rank));
            },
        }
    }
}

/// Code tables are read forwards.
pub proof fn lemma_code_tables_advance(
    data: Seq<u8>,
    pos: int,
    alphabet: nat,
    count: nat,
    acc: Seq<Seq<u8>>,
)
    ensures
        parse_code_tables(data, pos, alphabet, count, acc) matches Ok((_, next)) ==> next >= pos,
    decreases count,
{
    if count > 0 {
        lemma_table_advances(data, pos, alphabet);
        match parse_table(data, pos, alphabet) {
            Err(e) => {},
            Ok((lens, next)) => {
                lemma_code_tables_advance(data, next, alphabet, (count - 1) as nat, acc.push(lens));
            },
        }
    }
}

/// The coding of a block is read forwards.
pub proof fn lemma_coding_advances(data: Seq<u8>, pos: int)
    ensures
        parse_coding(data, pos) matches Ok((_, next)) ==> next >= pos,
{
    match parse_symbol_map(data, pos) {
        Err(e) => {},
        Ok((used, p1)) => {
            match take_bits(data, p1, 3) {
                Err(e) => {},
                Ok((groups, p2)) => {
                    match take_bits(data, p2, 15) {
                        Err(e) => {},
                        Ok((count, p3)) => {
                            lemma_ranks_advance(data, p3, groups as int, count, Seq::empty());
                            match parse_ranks(data, p3, groups as int, count, Seq::empty()) {
                                Err(e) => {},
                                Ok((ranks, p4)) => {
                                    lemma_code_tables_advance(
                                        data,
                                        p4,
                                        used.len() + 2,
                                        groups,
                                        Seq::empty(),
                                    );
                                },
                            }
                        },
                    }
                },
            }
        },
    }
}

/// The symbols of a block are read forwards.
pub proof fn lemma_symbols_advance(data: Seq<u8>, pos: int, coding: Coding, eob: int, acc: Seq<u16>)
    ensures
        parse_symbols(data, pos, coding, eob, acc) matches Ok((_, next)) ==> pos < next <= bit_len(
            data,
        ),
    decreases coding.selectors.len() * GROUP_SIZE - acc.len(),
{
    let group = acc.len() as int / GROUP_SIZE as int;
    if group < coding.selectors.len() {
        let lens = coding.lens[coding.selectors[group] as int];
        lemma_decode_advances(lens, data, pos, 0, 0);
        match decode_symbol(lens, data, pos) {
            Err(e) => {},
            Ok((sym, next)) => {
                if sym != eob {
                    lemma_symbols_advance(data, next, coding, eob, acc.push(sym));
                }
            },
        }
    }
}

/// The body of a block takes more than 25 bits and ends within the data.
pub proof fn lemma_body_advances(data: Seq<u8>, pos: int, level: nat)
    ensures
        parse_block_body(data, pos, level) matches Ok((_, next)) ==> pos + 25 < next <= bit_len(
            data,
        ),
{
    reveal(parse_block_body);
    match take_bit(data, pos) {
        Err(e) => {},
        Ok((randomised, p2)) => {
            match take_bits(data, p2, 24) {
                Err(e) => {},
                Ok((origin, p3)) => {
                    lemma_coding_advances(data, p3);
                    match parse_coding(data, p3) {
                        Err(e) => {},
                        Ok((coding, p4)) => {
                            lemma_symbols_advance(
                                data,
                                p4,
                                coding,
                                (coding.used.len() + 1) as int,
                                Seq::empty(),
                            );
                        },
                    }
                },
            }
        },
    }
}

/// A block takes more than 57 bits and ends within the data.
pub proof fn lemma_block_advances(data: Seq<u8>, pos: int, level: nat)
    ensures
        parse_block(data, pos, level) matches Ok((_, _, next)) ==> pos + 57 < next <= bit_len(data),
{
    match take_bits(data, pos, 32) {
        Err(e) => {},
        Ok((stored, p1)) => {
            lemma_body_advances(data, p1, level);
        },
    }
}

/// A number in unary reads the same in an equal stretch of bits.
pub proof fn lemma_same_unary(
    a: Seq<u8>,
    p: int,
    b: Seq<u8>,
    q: int,
    n: int,
    limit: int,
    count: int,
)
    requires
        same_bits(a, p, b, q, n),
        parse_unary(a, p, limit, count) matches Ok((_, next)) && next <= p + n,
    ensures
        parse_unary(b, q, limit, count) == moved(parse_unary(a, p, limit, count), q - p),
    decreases limit - count,
{
    if p < bit_len(a) {
        lemma_unary_advances(a, p, limit, count);
        assert(agree_at(a, p, b, q, 0));
        if bit_at(a, p) && count + 1 < limit {
            lemma_same_bits_tail(a, p, b, q, n, 1);
            lemma_same_unary(a, p + 1, b, q + 1, n - 1, limit, count + 1);
        }
    }
}

/// Ranks read the same in an equal stretch of bits.
pub proof fn lemma_same_ranks(
    a: Seq<u8>,
    p: int,
    b: Seq<u8>,
    q: int,
    n: int,
    limit: int,
    count: nat,
    acc: Seq<u8>,
)
    requires
        same_bits(a, p, b, q, n),
        parse_ranks(a, p, limit, count, acc) matches Ok((_, next)) && next <= p + n,
    ensures
        parse_ranks(b, q, limit, count, acc) == moved(parse_ranks(a, p, limit, count, acc), q - p),
    decreases count,
{
    if count > 0 {
        lemma_unary_advances(a, p, limit, 0);
        match parse_unary(a, p, limit, 0) {
            Err(e) => {},
            Ok((rank, next)) => {
                lemma_ranks_advance(a, next, limit, (count - 1) as nat, acc.push(rank));
                lemma_same_unary(a, p, b, q, n, limit, 0);
                lemma_same_bits_tail(a, p, b, q, n, next - p);
                lemma_same_ranks(
                    a,
                    next,
                    b,
                    next - p + q,
                    n - (next - p),
                    limit,
                    (count - 1) as nat,
                    acc.push(rank),
                );
            },
        }
    }
}

/// Equal stretches mark the same groups as present.
pub proof fn lemma_same_groups(a: Seq<u8>, p: int, b: Seq<u8>, q: int, n: int, k: int)
    requires
        same_bits(a, p, b, q, n),
        0 <= k <= 16 <= n,
    ensures
        groups_before(a, p, k) == groups_before(b, q, k),
    decreases k,
{
    if k > 0 {
        lemma_same_groups(a, p, b, q, n, k - 1);
        assert(agree_at(a, p, b, q, k - 1));
    }
}

/// Equal stretches have the same byte values in use.
pub proof fn lemma_same_used(a: Seq<u8>, p: int, b: Seq<u8>, q: int, n: int, upto: int)
    requires
        same_bits(a, p, b, q, n),
        0 <= upto <= 256,
        16 + 16 * groups_before(a, p, 16) <= n,
    ensures
        used_below(a, p, upto) == used_below(b, q, upto),
    decreases upto,
{
    if upto > 0 {
        lemma_same_used(a, p, b, q, n, upto - 1);
        let v = upto - 1;
        let g = v / 16;
        lemma_same_groups(a, p, b, q, n, g);
        assert(agree_at(a, p, b, q, g));
        if bit_at(a, p + g) {
            lemma_groups_grow(a, p, g + 1, 16);
            assert(agree_at(a, p, b, q, 16 + 16 * groups_before(a, p, g) + v % 16));
        }
    }
}

/// The map of the values in use reads the same in an equal stretch of bits.
pub proof fn lemma_same_symbol_map(a: Seq<u8>, p: int, b: Seq<u8>, q: int, n: int)
    requires
        same_bits(a, p, b, q, n),
        parse_symbol_map(a, p) matches Ok((_, next)) && next <= p + n,
    ensures
        parse_symbol_map(b, q) == moved(parse_symbol_map(a, p), q - p),
{
    lemma_same_groups(a, p, b, q, n, 16);
    lemma_same_used(a, p, b, q, n, 256);
}

/// Code tables read the same in an equal stretch of bits.
pub proof fn lemma_same_code_tables(
    a: Seq<u8>,
    p: int,
    b: Seq<u8>,
    q: int,
    n: int,
    alphabet: nat,
    count: nat,
    acc: Seq<Seq<u8>>,
)
    requires
        same_bits(a, p, b, q, n),
        parse_code_tables(a, p, alphabet, count, acc) matches Ok((_, next)) && next <= p + n,
    ensures
        parse_code_tables(b, q, alphabet, count, acc) == moved(
            parse_code_tables(a, p, alphabet, count, acc),
            q - p,
        ),
    decreases count,
{
    if count > 0 {
        lemma_table_advances(a, p, alphabet);
        match parse_table(a, p, alphabet) {
            Err(e) => {},
            Ok((lens, next)) => {
                lemma_code_tables_advance(a, next, alphabet, (count - 1) as nat, acc.push(lens));
                lemma_same_table(a, p, b, q, n, alphabet);
                lemma_same_bits_tail(a, p, b, q, n, next - p);
                lemma_same_code_tables(
                    a,
                    next,
                    b,
                    next - p + q,
                    n - (next - p),
                    alphabet,
                    (count - 1) as nat,
                    acc.push(lens),
                );
            },
        }
    }
}

/// The coding of a block reads the same in an equal stretch of bits.
pub proof fn lemma_same_coding(a: Seq<u8>, p: int, b: Seq<u8>, q: int, n: int)
    requires
        same_bits(a, p, b, q, n),
        parse_coding(a, p) matches Ok((_, next)) && next <= p + n,
    ensures
        parse_coding(b, q) == moved(parse_coding(a, p), q - p),
{
    let d = q - p;
    match parse_symbol_map(a, p) {
        Err(e) => {},
        Ok((used, p1)) => {
            match take_bits(a, p1, 3) {
                Err(e) => {},
                Ok((groups, p2)) => {
                    match take_bits(a, p2, 15) {
                        Err(e) => {},
                        Ok((count, p3)) => {
                            lemma_ranks_advance(a, p3, groups as int, count, Seq::empty());
                            match parse_ranks(a, p3, groups as int, count, Seq::empty()) {
                                Err(e) => {},
                                Ok((ranks, p4)) => {
                                    lemma_code_tables_advance(
                                        a,
                                        p4,
                                        used.len() + 2,
                                        groups,
                                        Seq::empty(),
                                    );
                                    lemma_same_symbol_map(a, p, b, q, n);
                                    lemma_same_bits_tail(a, p, b, q, n, p1 - p);
                                    lemma_same_take_bits(a, p1, b, p1 + d, n - (p1 - p), 3);
                                    lemma_same_bits_tail(a, p, b, q, n, p2 - p);
                                    lemma_same_take_bits(a, p2, b, p2 + d, n - (p2 - p), 15);
                                    lemma_same_bits_tail(a, p, b, q, n, p3 - p);
                                    lemma_same_ranks(
                                        a,
                                        p3,
                                        b,
                                        p3 + d,
                                        n - (p3 - p),
                                        groups as int,
                                        count,
                                        Seq::empty(),
                                    );
                                    lemma_same_bits_tail(a, p, b, q, n, p4 - p);
                                    lemma_same_code_tables(
                                        a,
                                        p4,
                                        b,
                                        p4 + d,
                                        n - (p4 - p),
                                        used.len() + 2,
                                        groups,
                                        Seq::empty(),
                                    );
                                },
                            }
                        },
                    }
                },
            }
        },
    }
}

/// The symbols of a block read the same in an equal stretch of bits.
pub proof fn lemma_same_symbols(
    a: Seq<u8>,
    p: int,
    b: Seq<u8>,
    q: int,
    n: int,
    coding: Coding,
    eob: int,
    acc: Seq<u16>,
)
    requires
        same_bits(a, p, b, q, n),
        parse_symbols(a, p, coding, eob, acc) matches Ok((_, next)) && next <= p + n,
    ensures
        parse_symbols(b, q, coding, eob, acc) == moved(
            parse_symbols(a, p, coding, eob, acc),
            q - p,
        ),
    decreases coding.selectors.len() * GROUP_SIZE - acc.len(),
{
    let group = acc.len() as int / GROUP_SIZE as int;
    if group < coding.selectors.len() {
        let lens = coding.lens[coding.selectors[group] as int];
        lemma_decode_advances(lens, a, p, 0, 0);
        match decode_symbol(lens, a, p) {
            Err(e) => {},
            Ok((sym, next)) => {
                if sym != eob {
                    lemma_symbols_advance(a, next, coding, eob, acc.push(sym));
                }
                lemma_same_decode(lens, a, p, b, q, n, 0, 0);
                if sym != eob {
                    lemma_same_bits_tail(a, p, b, q, n, next - p);
                    lemma_same_symbols(
                        a,
                        next,
                        b,
                        next - p + q,
                        n - (next - p),
                        coding,
                        eob,
                        acc.push(sym),
                    );
                }
            },
        }
    }
}

/// The body of a block reads the same in an equal stretch of bits.
pub proof fn lemma_same_body(a: Seq<u8>, p: int, b: Seq<u8>, q: int, n: int, level: nat)
    requires
        same_bits(a, p, b, q, n),
        parse_block_body(a, p, level) matches Ok((_, next)) && next <= p + n,
    ensures
        parse_block_body(b, q, level) == moved(parse_block_body(a, p, level), q - p),
{
    reveal(parse_block_body);
    let d = q - p;
    match take_bit(a, p) {
        Err(e) => {},
        Ok((randomised, p2)) => {
            match take_bits(a, p2, 24) {
                Err(e) => {},
                Ok((origin, p3)) => {
                    lemma_coding_advances(a, p3);
                    match parse_coding(a, p3) {
                        Err(e) => {},
                        Ok((coding, p4)) => {
                            let eob = (coding.used.len() + 1) as int;
                            lemma_symbols_advance(a, p4, coding, eob, Seq::empty());
                            match parse_symbols(a, p4, coding, eob, Seq::empty()) {
                                Err(e) => {},
                                Ok((syms, p5)) => {
                                    lemma_same_take_bit(a, p, b, q, n);
                                    lemma_same_bits_tail(a, p, b, q, n, 1);
                                    lemma_same_take_bits(a, p2, b, p2 + d, n - 1, 24);
                                    lemma_same_bits_tail(a, p, b, q, n, 25);
                                    lemma_same_coding(a, p3, b, p3 + d, n - 25);
                                    lemma_same_bits_tail(a, p, b, q, n, p4 - p);
                                    lemma_same_symbols(
                                        a,
                                        p4,
                                        b,
                                        p4 + d,
                                        n - (p4 - p),
                                        coding,
                                        eob,
                                        Seq::empty(),
                                    );
                                },
                            }
                        },
                    }
                },
            }
        },
    }
}

/// A block reads the same in an equal stretch of bits.
pub proof fn lemma_same_block(a: Seq<u8>, p: int, b: Seq<u8>, q: int, n: int, level: nat)
    requires
        same_bits(a, p, b, q, n),
        parse_block(a, p, level) matches Ok((_, _, next)) && next <= p + n,
    ensures
        parse_block(b, q, level) matches Ok((content, stored, next)) && parse_block(a, p, level)
            == Ok::<(Seq<u8>, u32, int), CodecError>((content, stored, next - q + p)),
{
    match take_bits(a, p, 32) {
        Err(e) => {},
        Ok((stored, p1)) => {
            lemma_body_advances(a, p1, level);
            lemma_same_take_bits(a, p, b, q, n, 32);
            lemma_same_bits_tail(a, p, b, q, n, 32);
            lemma_same_body(a, p1, b, q + 32, n - 32, level);
        },
    }
}

/// Reading a number in unary in a cut.
pub proof fn lemma_cut_unary(a: Seq<u8>, b: Seq<u8>, p: int, limit: int, count: int)
    requires
        is_cut(b, a),
        0 <= p,
        parse_unary(a, p, limit, count) is Ok,
    ensures
        parse_unary(b, p, limit, count) == cut_reading(
            parse_unary(a, p, limit, count),
            bit_len(b),
        ),
    decreases limit - count,
{
    lemma_unary_advances(a, p, limit, count);
    if p < bit_len(b) {
        lemma_cut_same(a, b, p, 1);
        assert(agree_at(a, p, b, p, 0));
        if bit_at(a, p) && count + 1 < limit {
            lemma_cut_unary(a, b, p + 1, limit, count + 1);
        }
    }
}

/// Reading ranks in a cut.
pub proof fn lemma_cut_ranks(
    a: Seq<u8>,
    b: Seq<u8>,
    p: int,
    limit: int,
    count: nat,
    acc: Seq<u8>,
)
    requires
        is_cut(b, a),
        0 <= p <= bit_len(b),
        parse_ranks(a, p, limit, count, acc) is Ok,
    ensures
        parse_ranks(b, p, limit, count, acc) == cut_reading(
            parse_ranks(a, p, limit, count, acc),
            bit_len(b),
        ),
    decreases count,
{
    if count > 0 {
        lemma_unary_advances(a, p, limit, 0);
        lemma_cut_unary(a, b, p, limit, 0);
        match parse_unary(a, p, limit, 0) {
            Err(e) => {},
            Ok((rank, next)) => {
                lemma_ranks_advance(a, next, limit, (count - 1) as nat, acc.push(rank));
                if next <= bit_len(b) {
                    lemma_cut_ranks(a, b, next, limit, (count - 1) as nat, acc.push(rank));
                }
            },
        }
    }
}

/// Reading the map of the values in use in a cut.
pub proof fn lemma_cut_symbol_map(a: Seq<u8>, b: Seq<u8>, p: int)
    requires
        is_cut(b, a),
        0 <= p,
        parse_symbol_map(a, p) is Ok,
    ensures
        parse_symbol_map(b, p) == cut_reading(parse_symbol_map(a, p), bit_len(b)),
{
    let end = p + 16 + 16 * groups_before(a, p, 16);
    if end <= bit_len(b) {
        lemma_cut_same(a, b, p, end - p);
        lemma_same_symbol_map(a, p, b, p, end - p);
    } else if p + 16 <= bit_len(b) {
        lemma_cut_same(a, b, p, 16);
        lemma_same_groups(a, p, b, p, 16, 16);
    }
}

/// Reading code tables in a cut.
pub proof fn lemma_cut_code_tables(
    a: Seq<u8>,
    b: Seq<u8>,
    p: int,
    alphabet: nat,
    count: nat,
    acc: Seq<Seq<u8>>,
)
    requires
        is_cut(b, a),
        0 <= p <= bit_len(b),
        parse_code_tables(a, p, alphabet, count, acc) is Ok,
    ensures
        parse_code_tables(b, p, alphabet, count, acc) == cut_reading(
            parse_code_tables(a, p, alphabet, count, acc),
            bit_len(b),
        ),
    decreases count,
{
    if count > 0 {
        lemma_table_advances(a, p, alphabet);
        lemma_cut_table(a, b, p, alphabet);
        match parse_table(a, p, alphabet) {
            Err(e) => {},
            Ok((lens, next)) => {
                lemma_code_tables_advance(a, next, alphabet, (count - 1) as nat, acc.push(lens));
                if next <= bit_len(b) {
                    lemma_cut_code_tables(
                        a,
                        b,
                        next,
                        alphabet,
                        (count - 1) as nat,
                        acc.push(lens),
                    );
                }
            },
        }
    }
}

/// Reading the coding of a block in a cut.
pub proof fn lemma_cut_coding(a: Seq<u8>, b: Seq<u8>, p: int)
    requires
        is_cut(b, a),
        0 <= p,
        parse_coding(a, p) is Ok,
    ensures
        parse_coding(b, p) == cut_reading(parse_coding(a, p), bit_len(b)),
{
    lemma_cut_symbol_map(a, b, p);
    match parse_symbol_map(a, p) {
        Err(e) => {},
        Ok((used, p1)) => {
            lemma_cut_take_bits(a, b, p1, 3);
            match take_bits(a, p1, 3) {
                Err(e) => {},
                Ok((groups, p2)) => {
                    lemma_cut_take_bits(a, b, p2, 15);
                    match take_bits(a, p2, 15) {
                        Err(e) => {},
                        Ok((count, p3)) => {
                            lemma_ranks_advance(a, p3, groups as int, count, Seq::empty());
                            if p3 <= bit_len(b) {
                                lemma_cut_ranks(a, b, p3, groups as int, count, Seq::empty());
                            }
                            match parse_ranks(a, p3, groups as int, count, Seq::empty()) {
                                Err(e) => {},
                                Ok((ranks, p4)) => {
                                    lemma_code_tables_advance(
                                        a,
                                        p4,
                                        used.len() + 2,
                                        groups,
                                        Seq::empty(),
                                    );
                                    if p4 <= bit_len(b) {
                                        lemma_cut_code_tables(
                                            a,
                                            b,
                                            p4,
                                            used.len() + 2,
                                            groups,
                                            Seq::empty(),
                                        );
                                    }
                                },
                            }
                        },
                    }
                },
            }
        },
    }
}

/// Reading the symbols of a block in a cut.
pub proof fn lemma_cut_symbols(
    a: Seq<u8>,
    b: Seq<u8>,
    p: int,
    coding: Coding,
    eob: int,
    acc: Seq<u16>,
)
    requires
        is_cut(b, a),
        0 <= p,
        parse_symbols(a, p, coding, eob, acc) is Ok,
    ensures
        parse_symbols(b, p, coding, eob, acc) == cut_reading(
            parse_symbols(a, p, coding, eob, acc),
            bit_len(b),
        ),
    decreases coding.selectors.len() * GROUP_SIZE - acc.len(),
{
    let group = acc.len() as int / GROUP_SIZE as int;
    if group < coding.selectors.len() {
        let lens = coding.lens[coding.selectors[group] as int];
        lemma_decode_advances(lens, a, p, 0, 0);
        lemma_cut_decode(lens, a, b, p, 0, 0);
        match decode_symbol(lens, a, p) {
            Err(e) => {},
            Ok((sym, next)) => {
                if sym != eob {
                    lemma_symbols_advance(a, next, coding, eob, acc.push(sym));
                    lemma_cut_symbols(a, b, next, coding, eob, acc.push(sym));
                }
            },
        }
    }
}

/// Reading the body of a block in a cut.
pub proof fn lemma_cut_body(a: Seq<u8>, b: Seq<u8>, p: int, level: nat)
    requires
        is_cut(b, a),
        0 <= p,
        parse_block_body(a, p, level) is Ok,
    ensures
        parse_block_body(b, p, level) == cut_reading(parse_block_body(a, p, level), bit_len(b)),
{
    reveal(parse_block_body);
    lemma_cut_take_bit(a, b, p);
    match take_bit(a, p) {
        Err(e) => {},
        Ok((randomised, p2)) => {
            lemma_cut_take_bits(a, b, p2, 24);
            match take_bits(a, p2, 24) {
                Err(e) => {},
                Ok((origin, p3)) => {
                    lemma_coding_advances(a, p3);
                    lemma_cut_coding(a, b, p3);
                    match parse_coding(a, p3) {
                        Err(e) => {},
                        Ok((coding, p4)) => {
                            let eob = (coding.used.len() + 1) as int;
                            lemma_symbols_advance(a, p4, coding, eob, Seq::empty());
                            lemma_cut_symbols(a, b, p4, coding, eob, Seq::empty());
                        },
                    }
                },
            }
        },
    }
}

/// Reading a block in a cut: the same where the block ends within the cut,
/// else `TruncatedStream`.
pub proof fn lemma_cut_block(a: Seq<u8>, b: Seq<u8>, p: int, level: nat)
    requires
        is_cut(b, a),
        0 <= p,
        parse_block(a, p, level) is Ok,
    ensures
        parse_block(a, p, level)->Ok_0.2 <= bit_len(b) ==> parse_block(b, p, level) == parse_block(
            a,
            p,
            level,
        ),
        parse_block(a, p, level)->Ok_0.2 > bit_len(b) ==> parse_block(b, p, level) == Err::<
            (Seq<u8>, u32, int),
            CodecError,
        >(CodecError::TruncatedStream),
{
    lemma_cut_take_bits(a, b, p, 32);
    match take_bits(a, p, 32) {
        Err(e) => {},
        Ok((stored, p1)) => {
            lemma_body_advances(a, p1, level);
            lemma_cut_body(a, b, p1, level);
        },
    }
}

/// Tables of code lengths as they are stored, one behind the other.
pub open spec fn tables_written(tables: Seq<Seq<u8>>) -> Seq<bool>
    decreases tables.len(),
{
    if tables.len() == 0 {
        Seq::empty()
    } else {
        table_written(tables[0]) + tables_written(tables.skip(1))
    }
}

/// The table can be written and read: it is not empty, every code length
/// lies within 1 to 20, and every code fits the bits of its length.
pub open spec fn sound_table(lens: Seq<u8>) -> bool {
    &&& 1 <= lens.len() <= MAX_ALPHABET
    &&& forall|s: int|
        0 <= s < lens.len() ==> 1 <= #[trigger] lens[s] <= 20 && code_of(lens, s) < pow2(
            lens[s] as nat,
        )
}

/// The symbols of a block as they are stored behind `k` symbols: each with
/// the code that the table of its group gives it, and the ending symbol
/// last.
pub open spec fn symbols_written(coding: Coding, syms: Seq<u16>, eob: int, k: int) -> Seq<bool>
    decreases syms.len(),
{
    let lens = coding.lens[coding.selectors[k / (GROUP_SIZE as int)] as int];
    if syms.len() == 0 {
        code_written(lens, eob)
    } else {
        code_written(lens, syms[0] as int) + symbols_written(coding, syms.skip(1), eob, k + 1)
    }
}

/// The tables of a block that were written are read back.
pub proof fn lemma_tables_read(
    data: Seq<u8>,
    pos: int,
    alphabet: nat,
    tables: Seq<Seq<u8>>,
    acc: Seq<Seq<u8>>,
)
    requires
        forall|t: int|
            0 <= t < tables.len() ==> sound_table(#[trigger] tables[t]) && tables[t].len()
                == alphabet,
        spells(data, pos, tables_written(tables)),
    ensures
        parse_code_tables(data, pos, alphabet, tables.len(), acc) == Ok::<
            (Seq<Seq<u8>>, int),
            CodecError,
        >((acc + tables, pos + tables_written(tables).len())),
    decreases tables.len(),
{
    if tables.len() == 0 {
        assert(acc + tables =~= acc);
    } else {
        let first = tables[0];
        let rest = tables.skip(1);
        assert(sound_table(first));
        lemma_spells_joined(data, pos, table_written(first), tables_written(rest));
        lemma_table_read(data, pos, first);
        assert forall|t: int| 0 <= t < rest.len() implies sound_table(#[trigger] rest[t])
            && rest[t].len() == alphabet by {
            assert(rest[t] == tables[t + 1]);
        }
        lemma_tables_read(data, pos + table_written(first).len(), alphabet, rest, acc.push(first));
        assert(acc.push(first) + rest =~= acc + tables);
    }
}

/// The symbols of a block that were written are read back: where every
/// symbol has a group with a sound table, what is stored for the symbols and
/// the ending symbol reads as the symbols, and reading stops behind the
/// ending symbol.
pub proof fn lemma_symbols_read(
    data: Seq<u8>,
    pos: int,
    coding: Coding,
    eob: int,
    acc: Seq<u16>,
    syms: Seq<u16>,
)
    requires
        0 <= pos,
        0 <= eob < 65536,
        (acc.len() + syms.len()) as int / (GROUP_SIZE as int) < coding.selectors.len(),
        forall|g: int|
            0 <= g < coding.selectors.len() ==> (#[trigger] coding.selectors[g])
                < coding.lens.len(),
        forall|t: int|
            0 <= t < coding.lens.len() ==> sound_table(#[trigger] coding.lens[t]) && eob
                < coding.lens[t].len(),
        forall|i: int|
            0 <= i < syms.len() ==> (#[trigger] syms[i]) != eob && forall|t: int|
                0 <= t < coding.lens.len() ==> syms[i] < (#[trigger] coding.lens[t]).len(),
        spells(data, pos, symbols_written(coding, syms, eob, acc.len() as int)),
    ensures
        parse_symbols(data, pos, coding, eob, acc) == Ok::<(Seq<u16>, int), CodecError>(
            (acc + syms, pos + symbols_written(coding, syms, eob, acc.len() as int).len()),
        ),
    decreases syms.len(),
{
    let k = acc.len() as int;
    let group = k / (GROUP_SIZE as int);
    assert(0 <= group < coding.selectors.len());
    let t = coding.selectors[group] as int;
    let lens = coding.lens[t];
    assert(sound_table(lens));
    if syms.len() == 0 {
        assert(1 <= lens[eob] <= 20);
        lemma_code_read(lens, data, pos, eob);
        lemma_number_len(code_of(lens, eob), lens[eob] as nat);
        assert(acc + syms =~= acc);
    } else {
        let s = syms[0] as int;
        let rest = syms.skip(1);
        assert(syms[0] < coding.lens[t].len());
        assert(1 <= lens[s] <= 20);
        lemma_spells_joined(
            data,
            pos,
            code_written(lens, s),
            symbols_written(coding, rest, eob, k + 1),
        );
        lemma_code_read(lens, data, pos, s);
        lemma_number_len(code_of(lens, s), lens[s] as nat);
        assert forall|i: int| 0 <= i < rest.len() implies (#[trigger] rest[i]) != eob
            && forall|t: int|
            0 <= t < coding.lens.len() ==> rest[i] < (#[trigger] coding.lens[t]).len() by {
            assert(rest[i] == syms[i + 1]);
        }
        assert(acc.push(syms[0]).len() == k + 1);
        lemma_symbols_read(data, pos + lens[s], coding, eob, acc.push(syms[0]), rest);
        assert(acc.push(syms[0]) + rest =~= acc + syms);
    }
}

/// The coding of a block, laid out for decoding.
pub struct Codes {
    pub used: Vec<u8>,
    pub selectors: Vec<u8>,
    pub tables: Vec<CodeTable>,
}

/// The code lengths that the tables were built from.
pub open spec fn lens_of(tables: Seq<CodeTable>) -> Seq<Seq<u8>> {
    Seq::new(tables.len(), |t: int| tables[t].lens())
}

impl Codes {
    /// What the block says of its coding.
    pub open spec fn coding(&self) -> Coding {
        Coding { used: self.used@, selectors: self.selectors@, lens: lens_of(self.tables@) }
    }

    /// Every group has a table, and every table is laid out over the values
    /// in use and two more symbols.
    pub open spec fn wf(&self) -> bool {
        &&& 1 <= self.used@.len() <= 256
        &&& 1 <= self.selectors@.len() < 32768
        &&& 2 <= self.tables@.len() <= 6
        &&& forall|i: int|
            0 <= i < self.selectors@.len() ==> #[trigger] self.selectors@[i] < self.tables@.len()
        &&& forall|t: int|
            0 <= t < self.tables@.len() ==> (#[trigger] self.tables@[t]).wf()
                && self.tables@[t].lens().len() == self.used@.len() + 2
    }
}

/// Reads the map of the byte values in use.
pub fn read_symbol_map(data: &[u8], at: Cursor) -> (r: Result<(Vec<u8>, Cursor), CodecError>)
    requires
        at.wf(data@),
    ensures
        match r {
            Ok((used, next)) => next.wf(data@) && 1 <= used@.len() <= 256 && parse_symbol_map(
                data@,
                at.pos(),
            ) == Ok::<(Seq<u8>, int), CodecError>((used@, next.pos())),
            Err(e) => parse_symbol_map(data@, at.pos()) == Err::<(Seq<u8>, int), CodecError>(e),
        },
{
    let ghost pos = at.pos();
    let mut flags: Vec<bool> = Vec::new();
    let mut cur: Cursor = at;
    let mut g: usize = 0;
    while g < 16
        invariant
            g <= 16,
            cur.wf(data@),
            cur.pos() == pos + g,
            pos == at.pos(),
            flags@.len() == g,
            forall|k: int| 0 <= k < g ==> #[trigger] flags@[k] == bit_at(data@, pos + k),
        decreases 16 - g,
    {
        match read_bit(data, cur) {
            Err(e) => {
                return Err(e);
            },
            Ok((b, next)) => {
                flags.push(b);
                cur = next;
            },
        }
        g += 1;
    }
    let mut used: Vec<u8> = Vec::new();
    let mut g: usize = 0;
    while g < 16
        invariant
            g <= 16,
            cur.wf(data@),
            pos == at.pos(),
            pos + 16 <= bit_len(data@),
            cur.pos() == pos + 16 + 16 * groups_before(data@, pos, g as int),
            used@ == used_below(data@, pos, 16 * g),
            used@.len() <= 16 * g,
            flags@.len() == 16,
            forall|k: int| 0 <= k < 16 ==> #[trigger] flags@[k] == bit_at(data@, pos + k),
        decreases 16 - g,
    {
        if flags[g] {
            let mut j: usize = 0;
            while j < 16
                invariant
                    j <= 16,
                    g < 16,
                    cur.wf(data@),
                    pos == at.pos(),
                    pos + 16 <= bit_len(data@),
                    bit_at(data@, pos + g),
                    cur.pos() == pos + 16 + 16 * groups_before(data@, pos, g as int) + j,
                    used@ == used_below(data@, pos, 16 * g + j),
                    used@.len() <= 16 * g + j,
                decreases 16 - j,
            {
                proof {
                    assert((16 * g + j) / 16 == g);
                    assert((16 * g + j) % 16 == j);
                }
                match read_bit(data, cur) {
                    Err(e) => {
                        proof {
                            lemma_groups_grow(data@, pos, g + 1, 16);
                        }
                        return Err(e);
                    },
                    Ok((b, next)) => {
                        if b {
                            used.push((16 * g + j) as u8);
                        }
                        cur = next;
                    },
                }
                j += 1;
            }
        } else {
            proof {
                lemma_group_absent(data@, pos, g as int, 16);
            }
        }
        g += 1;
    }
    if used.len() == 0 {
        return Err(CodecError::CorruptData);
    }
    Ok((used, cur))
}

/// Reads a number below `limit` written in unary.
pub fn read_unary(data: &[u8], at: Cursor, limit: u8) -> (r: Result<(u8, Cursor), CodecError>)
    requires
        at.wf(data@),
        limit >= 1,
    ensures
        match r {
            Ok((v, next)) => next.wf(data@) && v < limit && parse_unary(
                data@,
                at.pos(),
                limit as int,
                0,
            ) == Ok::<(u8, int), CodecError>((v, next.pos())),
            Err(e) => parse_unary(data@, at.pos(), limit as int, 0) == Err::<(u8, int), CodecError>(
                e,
            ),
        },
{
    let mut count: u8 = 0;
    let mut cur: Cursor = at;
    loop
        invariant
            cur.wf(data@),
            count < limit,
            parse_unary(data@, at.pos(), limit as int, 0) == parse_unary(
                data@,
                cur.pos(),
                limit as int,
                count as int,
            ),
        decreases limit - count,
    {
        match read_bit(data, cur) {
            Err(e) => {
                return Err(e);
            },
            Ok((b, next)) => {
                if !b {
                    return Ok((count, next));
                }
                if count + 1 >= limit {
                    return Err(CodecError::CorruptData);
                }
                count += 1;
                cur = next;
            },
        }
    }
}

/// Reads `count` numbers below `limit`, each written in unary.
pub fn read_ranks(data: &[u8], at: Cursor, limit: u8, count: usize) -> (r: Result<
    (Vec<u8>, Cursor),
    CodecError,
>)
    requires
        at.wf(data@),
        limit >= 1,
    ensures
        match r {
            Ok((ranks, next)) => next.wf(data@) && ranks@.len() == count && (forall|i: int|
                0 <= i < ranks@.len() ==> ranks@[i] < limit) && parse_ranks(
                data@,
                at.pos(),
                limit as int,
                count as nat,
                Seq::empty(),
            ) == Ok::<(Seq<u8>, int), CodecError>((ranks@, next.pos())),
            Err(e) => parse_ranks(data@, at.pos(), limit as int, count as nat, Seq::empty())
                == Err::<(Seq<u8>, int), CodecError>(e),
        },
{
    let mut ranks: Vec<u8> = Vec::new();
    let mut cur: Cursor = at;
    let mut i: usize = 0;
    while i < count
        invariant
            i <= count,
            limit >= 1,
            cur.wf(data@),
            ranks@.len() == i,
            forall|k: int| 0 <= k < ranks@.len() ==> ranks@[k] < limit,
            parse_ranks(data@, at.pos(), limit as int, count as nat, Seq::empty()) == parse_ranks(
                data@,
                cur.pos(),
                limit as int,
                (count - i) as nat,
                ranks@,
            ),
        decreases count - i,
    {
        match read_unary(data, cur, limit) {
            Err(e) => {
                return Err(e);
            },
            Ok((v, next)) => {
                ranks.push(v);
                cur = next;
            },
        }
        i += 1;
    }
    Ok((ranks, cur))
}

/// Reads the code lengths of `count` tables and lays the tables out.
pub fn read_code_tables(data: &[u8], at: Cursor, alphabet: usize, count: usize) -> (r: Result<
    (Vec<CodeTable>, Cursor),
    CodecError,
>)
    requires
        at.wf(data@),
        alphabet <= MAX_ALPHABET,
    ensures
        match r {
            Ok((tables, next)) => next.wf(data@) && tables@.len() == count && (forall|t: int|
                0 <= t < tables@.len() ==> (#[trigger] tables@[t]).wf() && tables@[t].lens().len()
                    == alphabet) && parse_code_tables(
                data@,
                at.pos(),
                alphabet as nat,
                count as nat,
                Seq::empty(),
            ) == Ok::<(Seq<Seq<u8>>, int), CodecError>((lens_of(tables@), next.pos())),
            Err(e) => parse_code_tables(
                data@,
                at.pos(),
                alphabet as nat,
                count as nat,
                Seq::empty(),
            ) == Err::<(Seq<Seq<u8>>, int), CodecError>(e),
        },
{
    let mut tables: Vec<CodeTable> = Vec::new();
    let mut cur: Cursor = at;
    let mut i: usize = 0;
    assert(lens_of(tables@) =~= Seq::<Seq<u8>>::empty());
    while i < count
        invariant
            i <= count,
            alphabet <= MAX_ALPHABET,
            cur.wf(data@),
            tables@.len() == i,
            forall|t: int|
                0 <= t < tables@.len() ==> (#[trigger] tables@[t]).wf() && tables@[t].lens().len()
                    == alphabet,
            parse_code_tables(data@, at.pos(), alphabet as nat, count as nat, Seq::empty())
                == parse_code_tables(
                data@,
                cur.pos(),
                alphabet as nat,
                (count - i) as nat,
                lens_of(tables@),
            ),
        decreases count - i,
    {
        match read_table(data, cur, alphabet) {
            Err(e) => {
                return Err(e);
            },
            Ok((lens, next)) => {
                let ghost before = tables@;
                let table: CodeTable = CodeTable::build(lens.as_slice());
                tables.push(table);
                assert(lens_of(tables@) =~= lens_of(before).push(lens@));
                cur = next;
            },
        }
        i += 1;
    }
    Ok((tables, cur))
}

/// Reads what a block says of its coding.
pub fn read_coding(data: &[u8], at: Cursor) -> (r: Result<(Codes, Cursor), CodecError>)
    requires
        at.wf(data@),
    ensures
        match r {
            Ok((codes, next)) => next.wf(data@) && codes.wf() && parse_coding(data@, at.pos())
                == Ok::<(Coding, int), CodecError>((codes.coding(), next.pos())),
            Err(e) => parse_coding(data@, at.pos()) == Err::<(Coding, int), CodecError>(e),
        },
{
    let (used, p1): (Vec<u8>, Cursor) = match read_symbol_map(data, at) {
        Err(e) => {
            return Err(e);
        },
        Ok(p) => p,
    };
    let (groups, p2): (u64, Cursor) = match read_bits(data, p1, 3) {
        Err(e) => {
            return Err(e);
        },
        Ok(p) => p,
    };
    if groups < 2 || groups > 6 {
        return Err(CodecError::CorruptData);
    }
    let (count, p3): (u64, Cursor) = match read_bits(data, p2, 15) {
        Err(e) => {
            return Err(e);
        },
        Ok(p) => p,
    };
    proof {
        lemma_bits_value_bound(data@, p2.pos(), 15);
        lemma2_to64();
    }
    if count < 1 {
        return Err(CodecError::CorruptData);
    }
    let (ranks, p4): (Vec<u8>, Cursor) = match read_ranks(data, p3, groups as u8, count as usize) {
        Err(e) => {
            return Err(e);
        },
        Ok(p) => p,
    };
    let selectors: Vec<u8> = decode_ranks(ranks.as_slice(), groups as usize);
    let (tables, p5): (Vec<CodeTable>, Cursor) = match read_code_tables(
        data,
        p4,
        used.len() + 2,
        groups as usize,
    ) {
        Err(e) => {
            return Err(e);
        },
        Ok(p) => p,
    };
    Ok((Codes { used, selectors, tables }, p5))
}

/// Reads the symbols of a block up to the one that ends it.
pub fn read_symbols(data: &[u8], at: Cursor, codes: &Codes) -> (r: Result<
    (Vec<u16>, Cursor),
    CodecError,
>)
    requires
        at.wf(data@),
        codes.wf(),
    ensures
        match r {
            Ok((syms, next)) => next.wf(data@) && (forall|i: int|
                0 <= i < syms@.len() ==> syms@[i] <= codes.used@.len()) && parse_symbols(
                data@,
                at.pos(),
                codes.coding(),
                (codes.used@.len() + 1) as int,
                Seq::empty(),
            ) == Ok::<(Seq<u16>, int), CodecError>((syms@, next.pos())),
            Err(e) => parse_symbols(
                data@,
                at.pos(),
                codes.coding(),
                (codes.used@.len() + 1) as int,
                Seq::empty(),
            ) == Err::<(Seq<u16>, int), CodecError>(e),
        },
{
    let eob: u16 = (codes.used.len() + 1) as u16;
    let groups: usize = codes.selectors.len();
    let mut syms: Vec<u16> = Vec::new();
    let mut cur: Cursor = at;
    loop
        invariant
            cur.wf(data@),
            codes.wf(),
            eob == codes.used@.len() + 1,
            groups == codes.selectors@.len(),
            syms@.len() <= groups * GROUP_SIZE,
            forall|i: int| 0 <= i < syms@.len() ==> syms@[i] <= codes.used@.len(),
            parse_symbols(data@, at.pos(), codes.coding(), eob as int, Seq::empty())
                == parse_symbols(data@, cur.pos(), codes.coding(), eob as int, syms@),
        decreases groups * GROUP_SIZE - syms@.len(),
    {
        let group: usize = syms.len() / GROUP_SIZE;
        if group >= groups {
            return Err(CodecError::CorruptData);
        }
        let t: usize = codes.selectors[group] as usize;
        assert(codes.tables@[t as int].wf());
        assert(codes.coding().lens[codes.coding().selectors[group as int] as int]
            == codes.tables@[t as int].lens());
        match codes.tables[t].decode(data, cur) {
            Err(e) => {
                return Err(e);
            },
            Ok((s, next)) => {
                if s == eob {
                    return Ok((syms, next));
                }
                syms.push(s);
                cur = next;
            },
        }
    }
}

/// Turns the symbols of a block into its content.
pub fn decode_content(syms: &[u16], used: &[u8], origin: usize, randomised: bool, level: usize) -> (r:
    Result<Vec<u8>, CodecError>)
    requires
        1 <= level <= 9,
    ensures
        match r {
            Ok(content) => block_content(syms@, used@, origin as int, randomised, level as nat)
                == Ok::<Seq<u8>, CodecError>(content@),
            Err(e) => block_content(syms@, used@, origin as int, randomised, level as nat) == Err::<
                Seq<u8>,
                CodecError,
            >(e),
        },
{
    let last: Vec<u8> = match unpack(syms, used, level * 100_000) {
        Err(e) => {
            return Err(e);
        },
        Ok(v) => v,
    };
    let raw: Vec<u8> = match invert(last.as_slice(), origin) {
        Err(e) => {
            return Err(e);
        },
        Ok(v) => v,
    };
    if randomised {
        let plain: Vec<u8> = derandomize(raw.as_slice());
        Ok(expand(plain.as_slice()))
    } else {
        Ok(expand(raw.as_slice()))
    }
}

/// Reads the block behind a block marker and checks its content against the
/// check value stored with it.
pub fn read_block(data: &[u8], at: Cursor, level: usize) -> (r: Result<
    (Vec<u8>, u32, Cursor),
    CodecError,
>)
    requires
        at.wf(data@),
        1 <= level <= 9,
    ensures
        match r {
            Ok((content, stored, next)) => next.wf(data@) && parse_block(
                data@,
                at.pos(),
                level as nat,
            ) == Ok::<(Seq<u8>, u32, int), CodecError>((content@, stored, next.pos())),
            Err(e) => parse_block(data@, at.pos(), level as nat) == Err::<
                (Seq<u8>, u32, int),
                CodecError,
            >(e),
        },
{
    proof {
        reveal(parse_block_body);
    }
    let (stored, p1): (u64, Cursor) = match read_bits(data, at, 32) {
        Err(e) => {
            return Err(e);
        },
        Ok(p) => p,
    };
    proof {
        lemma_bits_value_bound(data@, at.pos(), 32);
        lemma_bits_value_bound(data@, p1.pos() + 1, 24);
        lemma2_to64();
    }
    let (randomised, p2): (bool, Cursor) = match read_bit(data, p1) {
        Err(e) => {
            return Err(e);
        },
        Ok(p) => p,
    };
    let (origin, p3): (u64, Cursor) = match read_bits(data, p2, 24) {
        Err(e) => {
            return Err(e);
        },
        Ok(p) => p,
    };
    let (codes, p4): (Codes, Cursor) = match read_coding(data, p3) {
        Err(e) => {
            return Err(e);
        },
        Ok(p) => p,
    };
    let (syms, p5): (Vec<u16>, Cursor) = match read_symbols(data, p4, &codes) {
        Err(e) => {
            return Err(e);
        },
        Ok(p) => p,
    };
    let content: Vec<u8> = match decode_content(
        syms.as_slice(),
        codes.used.as_slice(),
        origin as usize,
        randomised,
        level,
    ) {
        Err(e) => {
            return Err(e);
        },
        Ok(v) => v,
    };
    let actual: u32 = checksum(content.as_slice());
    if actual != stored as u32 {
        return Err(CodecError::CrcMismatch { expected: stored as u32, actual });
    }
    Ok((content, stored as u32, p5))
}

} // verus!
