//! Canonical prefix codes: the codes are fixed by the code length of each
//! symbol alone. Shorter codes come first; among codes of one length the
//! symbols ascend.

use vstd::prelude::*;
use vstd::arithmetic::power2::*;
use crate::bits::{
    agree_at, bit_at, bit_len, bits_value, cut_reading, is_cut, lemma_cut_same,
    lemma_cut_take_bits, lemma_number_read, lemma_same_bits_tail,
    lemma_same_take_bits, lemma_spells_joined, moved, number_written, read_bit, read_bits,
    same_bits, spells, take_bits, Cursor,
};
use crate::error::CodecError;

verus! {

/// The longest code that the format allows.
pub const MAX_CODE_LEN: usize = 20;

/// The largest alphabet: a symbol for each of the 256 byte values and two
/// more.
pub const MAX_ALPHABET: usize = 258;

/// The symbols below `upto` whose code has length `l`, ascending.
pub open spec fn symbols_of_len(lens: Seq<u8>, l: int, upto: int) -> Seq<u16>
    decreases upto,
{
    if upto <= 0 {
        Seq::empty()
    } else {
        let rest = symbols_of_len(lens, l, upto - 1);
        if lens[upto - 1] == l {
            rest.push((upto - 1) as u16)
        } else {
            rest
        }
    }
}

/// The symbols whose code has length `l`, ascending.
pub open spec fn class(lens: Seq<u8>, l: int) -> Seq<u16> {
    symbols_of_len(lens, l, lens.len() as int)
}

/// The first code of length `l`: behind the last code of the length before,
/// with one more bit.
pub open spec fn first_code(lens: Seq<u8>, l: int) -> nat
    decreases l,
{
    if l <= 1 {
        0
    } else {
        2 * (first_code(lens, l - 1) + class(lens, l - 1).len())
    }
}

/// Decoding goes on behind `l` bits of value `v` that matched no code: the
/// next bit is added, and the symbol is found where the value lies among the
/// codes of the new length. After 20 bits without a match the code is
/// invalid.
pub open spec fn decode_from(lens: Seq<u8>, data: Seq<u8>, pos: int, l: int, v: nat) -> Result<
    (u16, int),
    CodecError,
>
    decreases MAX_CODE_LEN - l,
{
    if l >= MAX_CODE_LEN {
        Err(CodecError::InvalidCode)
    } else if pos >= bit_len(data) {
        Err(CodecError::TruncatedStream)
    } else {
        let v1 = 2 * v + if bit_at(data, pos) {
            1nat
        } else {
            0nat
        };
        let first = first_code(lens, l + 1);
        let syms = class(lens, l + 1);
        if first <= v1 < first + syms.len() {
            Ok((syms[v1 - first], pos + 1))
        } else {
            decode_from(lens, data, pos + 1, l + 1, v1)
        }
    }
}

/// The symbol whose code stands at `pos`, and the position behind the code.
pub open spec fn decode_symbol(lens: Seq<u8>, data: Seq<u8>, pos: int) -> Result<
    (u16, int),
    CodecError,
> {
    decode_from(lens, data, pos, 0, 0)
}

/// One code length, stored as steps from the length `cur` before it: a one
/// bit and a zero bit raise it by one, two one bits lower it by one, a
/// single zero bit ends the steps. The length stays within 1 to 20.
pub open spec fn parse_length(data: Seq<u8>, pos: int, cur: int) -> Result<(u8, int), CodecError>
    decreases bit_len(data) - pos,
{
    if cur < 1 || cur > MAX_CODE_LEN {
        Err(CodecError::InvalidBlock)
    } else if pos >= bit_len(data) {
        Err(CodecError::TruncatedStream)
    } else if !bit_at(data, pos) {
        Ok((cur as u8, pos + 1))
    } else if pos + 1 >= bit_len(data) {
        Err(CodecError::TruncatedStream)
    } else {
        parse_length(
            data,
            pos + 2,
            if bit_at(data, pos + 1) {
                cur - 1
            } else {
                cur + 1
            },
        )
    }
}

/// `count` code lengths behind those in `acc`, each stored as steps from the
/// one before.
pub open spec fn parse_lengths(data: Seq<u8>, pos: int, cur: int, count: nat, acc: Seq<u8>) -> Result<
    (Seq<u8>, int),
    CodecError,
>
    decreases count,
{
    if count == 0 {
        Ok((acc, pos))
    } else {
        match parse_length(data, pos, cur) {
            Err(e) => Err(e),
            Ok((len, next)) => parse_lengths(
                data,
                next,
                len as int,
                (count - 1) as nat,
                acc.push(len),
            ),
        }
    }
}

/// The code lengths of an alphabet of `alphabet` symbols: five bits for the
/// length to start from, and each length as steps from the one before.
pub open spec fn parse_table(data: Seq<u8>, pos: int, alphabet: nat) -> Result<
    (Seq<u8>, int),
    CodecError,
> {
    match take_bits(data, pos, 5) {
        Err(e) => Err(e),
        Ok((start, next)) => parse_lengths(data, next, start as int, alphabet, Seq::empty()),
    }
}

/// A class holds no more symbols than were looked at.
pub proof fn lemma_class_len(lens: Seq<u8>, l: int, upto: int)
    requires
        0 <= upto,
    ensures
        symbols_of_len(lens, l, upto).len() <= upto,
    decreases upto,
{
    if upto > 0 {
        lemma_class_len(lens, l, upto - 1);
    }
}

/// Each symbol of a class lies below the bound it was gathered under.
pub proof fn lemma_class_members(lens: Seq<u8>, l: int, upto: int, k: int)
    requires
        0 <= upto <= 65536,
        0 <= k < symbols_of_len(lens, l, upto).len(),
    ensures
        symbols_of_len(lens, l, upto)[k] < upto,
    decreases upto,
{
    if upto > 0 {
        let rest = symbols_of_len(lens, l, upto - 1);
        if k < rest.len() {
            lemma_class_members(lens, l, upto - 1, k);
        }
    }
}

/// A code takes at least one bit.
pub proof fn lemma_decode_advances(lens: Seq<u8>, data: Seq<u8>, pos: int, l: int, v: nat)
    ensures
        decode_from(lens, data, pos, l, v) matches Ok((_, next)) ==> pos < next <= bit_len(data),
    decreases MAX_CODE_LEN - l,
{
    if l < MAX_CODE_LEN && pos < bit_len(data) {
        let v1 = 2 * v + if bit_at(data, pos) {
            1nat
        } else {
            0nat
        };
        lemma_decode_advances(lens, data, pos + 1, l + 1, v1);
    }
}

/// A code length takes at least one bit.
pub proof fn lemma_length_advances(data: Seq<u8>, pos: int, cur: int)
    ensures
        parse_length(data, pos, cur) matches Ok((_, next)) ==> next > pos,
    decreases bit_len(data) - pos,
{
    if 1 <= cur <= MAX_CODE_LEN && pos + 1 < bit_len(data) && bit_at(data, pos) {
        lemma_length_advances(
            data,
            pos + 2,
            if bit_at(data, pos + 1) {
                cur - 1
            } else {
                cur + 1
            },
        );
    }
}

/// Code lengths are read forwards.
pub proof fn lemma_lengths_advance(data: Seq<u8>, pos: int, cur: int, count: nat, acc: Seq<u8>)
    ensures
        parse_lengths(data, pos, cur, count, acc) matches Ok((_, next)) ==> next >= pos,
    decreases count,
{
    if count > 0 {
        lemma_length_advances(data, pos, cur);
        match parse_length(data, pos, cur) {
            Err(e) => {},
            Ok((len, next)) => {
                lemma_lengths_advance(data, next, len as int, (count - 1) as nat, acc.push(len));
            },
        }
    }
}

/// A table of code lengths takes at least five bits.
pub proof fn lemma_table_advances(data: Seq<u8>, pos: int, alphabet: nat)
    ensures
        parse_table(data, pos, alphabet) matches Ok((_, next)) ==> next >= pos + 5,
{
    match take_bits(data, pos, 5) {
        Err(e) => {},
        Ok((start, next)) => {
            lemma_lengths_advance(data, next, start as int, alphabet, Seq::empty());
        },
    }
}

/// The first code of length `l` stays below `516 * 2^l` for alphabets of up
/// to 258 symbols.
pub proof fn lemma_first_code_bound(lens: Seq<u8>, l: int)
    requires
        lens.len() <= MAX_ALPHABET,
        0 <= l,
    ensures
        first_code(lens, l) + 516 <= 516 * pow2(l as nat),
    decreases l,
{
    if l <= 1 {
        lemma2_to64();
        if l == 1 {
            lemma_pow2_unfold(1);
        }
    } else {
        lemma_first_code_bound(lens, l - 1);
        lemma_class_len(lens, l - 1, lens.len() as int);
        lemma_pow2_unfold(l as nat);
    }
}

/// A code decodes to the same symbol in an equal stretch of bits.
pub proof fn lemma_same_decode(
    lens: Seq<u8>,
    a: Seq<u8>,
    p: int,
    b: Seq<u8>,
    q: int,
    n: int,
    l: int,
    v: nat,
)
    requires
        same_bits(a, p, b, q, n),
        decode_from(lens, a, p, l, v) matches Ok((_, next)) && next <= p + n,
    ensures
        decode_from(lens, b, q, l, v) == moved(decode_from(lens, a, p, l, v), q - p),
    decreases MAX_CODE_LEN - l,
{
    if l < MAX_CODE_LEN && p < bit_len(a) {
        lemma_decode_advances(lens, a, p, l, v);
        assert(agree_at(a, p, b, q, 0));
        let v1 = 2 * v + if bit_at(a, p) {
            1nat
        } else {
            0nat
        };
        let first = first_code(lens, l + 1);
        let syms = class(lens, l + 1);
        if !(first <= v1 < first + syms.len()) {
            lemma_same_bits_tail(a, p, b, q, n, 1);
            lemma_same_decode(lens, a, p + 1, b, q + 1, n - 1, l + 1, v1);
        }
    }
}

/// A code length reads the same in an equal stretch of bits.
pub proof fn lemma_same_length(a: Seq<u8>, p: int, b: Seq<u8>, q: int, n: int, cur: int)
    requires
        same_bits(a, p, b, q, n),
        parse_length(a, p, cur) matches Ok((_, next)) && next <= p + n,
    ensures
        parse_length(b, q, cur) == moved(parse_length(a, p, cur), q - p),
    decreases bit_len(a) - p,
{
    if 1 <= cur <= MAX_CODE_LEN && p < bit_len(a) {
        lemma_length_advances(a, p, cur);
        assert(agree_at(a, p, b, q, 0));
        if bit_at(a, p) && p + 1 < bit_len(a) {
            let step = if bit_at(a, p + 1) {
                cur - 1
            } else {
                cur + 1
            };
            lemma_length_advances(a, p + 2, step);
            assert(agree_at(a, p, b, q, 1));
            lemma_same_bits_tail(a, p, b, q, n, 2);
            lemma_same_length(a, p + 2, b, q + 2, n - 2, step);
        }
    }
}

/// Code lengths read the same in an equal stretch of bits.
pub proof fn lemma_same_lengths(
    a: Seq<u8>,
    p: int,
    b: Seq<u8>,
    q: int,
    n: int,
    cur: int,
    count: nat,
    acc: Seq<u8>,
)
    requires
        same_bits(a, p, b, q, n),
        parse_lengths(a, p, cur, count, acc) matches Ok((_, next)) && next <= p + n,
    ensures
        parse_lengths(b, q, cur, count, acc) == moved(parse_lengths(a, p, cur, count, acc), q - p),
    decreases count,
{
    if count > 0 {
        lemma_length_advances(a, p, cur);
        match parse_length(a, p, cur) {
            Err(e) => {},
            Ok((len, next)) => {
                lemma_lengths_advance(a, next, len as int, (count - 1) as nat, acc.push(len));
                lemma_same_length(a, p, b, q, n, cur);
                lemma_same_bits_tail(a, p, b, q, n, next - p);
                lemma_same_lengths(
                    a,
                    next,
                    b,
                    next - p + q,
                    n - (next - p),
                    len as int,
                    (count - 1) as nat,
                    acc.push(len),
                );
            },
        }
    }
}

/// A table of code lengths reads the same in an equal stretch of bits.
pub proof fn lemma_same_table(a: Seq<u8>, p: int, b: Seq<u8>, q: int, n: int, alphabet: nat)
    requires
        same_bits(a, p, b, q, n),
        parse_table(a, p, alphabet) matches Ok((_, next)) && next <= p + n,
    ensures
        parse_table(b, q, alphabet) == moved(parse_table(a, p, alphabet), q - p),
{
    match take_bits(a, p, 5) {
        Err(e) => {},
        Ok((start, next)) => {
            lemma_lengths_advance(a, next, start as int, alphabet, Seq::empty());
            lemma_same_take_bits(a, p, b, q, n, 5);
            lemma_same_bits_tail(a, p, b, q, n, 5);
            lemma_same_lengths(a, next, b, q + 5, n - 5, start as int, alphabet, Seq::empty());
        },
    }
}

/// Decoding a code in a cut.
pub proof fn lemma_cut_decode(lens: Seq<u8>, a: Seq<u8>, b: Seq<u8>, p: int, l: int, v: nat)
    requires
        is_cut(b, a),
        0 <= p,
        decode_from(lens, a, p, l, v) is Ok,
    ensures
        decode_from(lens, b, p, l, v) == cut_reading(decode_from(lens, a, p, l, v), bit_len(b)),
    decreases MAX_CODE_LEN - l,
{
    lemma_decode_advances(lens, a, p, l, v);
    if p < bit_len(b) {
        lemma_cut_same(a, b, p, 1);
        assert(agree_at(a, p, b, p, 0));
        let v1 = 2 * v + if bit_at(a, p) {
            1nat
        } else {
            0nat
        };
        let first = first_code(lens, l + 1);
        let syms = class(lens, l + 1);
        if !(first <= v1 < first + syms.len()) {
            lemma_cut_decode(lens, a, b, p + 1, l + 1, v1);
        }
    }
}

/// Reading a code length in a cut.
pub proof fn lemma_cut_length(a: Seq<u8>, b: Seq<u8>, p: int, cur: int)
    requires
        is_cut(b, a),
        0 <= p,
        parse_length(a, p, cur) is Ok,
    ensures
        parse_length(b, p, cur) == cut_reading(parse_length(a, p, cur), bit_len(b)),
    decreases bit_len(a) - p,
{
    lemma_length_advances(a, p, cur);
    if p < bit_len(b) {
        lemma_cut_same(a, b, p, 1);
        assert(agree_at(a, p, b, p, 0));
        if bit_at(a, p) {
            let step = if bit_at(a, p + 1) {
                cur - 1
            } else {
                cur + 1
            };
            lemma_length_advances(a, p + 2, step);
            if p + 1 < bit_len(b) {
                lemma_cut_same(a, b, p + 1, 1);
                assert(agree_at(a, p + 1, b, p + 1, 0));
                lemma_cut_length(a, b, p + 2, step);
            }
        }
    }
}

/// Reading code lengths in a cut.
pub proof fn lemma_cut_lengths(
    a: Seq<u8>,
    b: Seq<u8>,
    p: int,
    cur: int,
    count: nat,
    acc: Seq<u8>,
)
    requires
        is_cut(b, a),
        0 <= p <= bit_len(b),
        parse_lengths(a, p, cur, count, acc) is Ok,
    ensures
        parse_lengths(b, p, cur, count, acc) == cut_reading(
            parse_lengths(a, p, cur, count, acc),
            bit_len(b),
        ),
    decreases count,
{
    if count > 0 {
        lemma_length_advances(a, p, cur);
        lemma_cut_length(a, b, p, cur);
        match parse_length(a, p, cur) {
            Err(e) => {},
            Ok((len, next)) => {
                lemma_lengths_advance(a, next, len as int, (count - 1) as nat, acc.push(len));
                if next <= bit_len(b) {
                    lemma_cut_lengths(a, b, next, len as int, (count - 1) as nat, acc.push(len));
                }
            },
        }
    }
}

/// Reading a table of code lengths in a cut.
pub proof fn lemma_cut_table(a: Seq<u8>, b: Seq<u8>, p: int, alphabet: nat)
    requires
        is_cut(b, a),
        0 <= p,
        parse_table(a, p, alphabet) is Ok,
    ensures
        parse_table(b, p, alphabet) == cut_reading(parse_table(a, p, alphabet), bit_len(b)),
{
    lemma_cut_take_bits(a, b, p, 5);
    match take_bits(a, p, 5) {
        Err(e) => {},
        Ok((start, next)) => {
            lemma_lengths_advance(a, next, start as int, alphabet, Seq::empty());
            if next <= bit_len(b) {
                lemma_cut_lengths(a, b, next, start as int, alphabet, Seq::empty());
            }
        },
    }
}

/// The code of the symbol `s`: the first code of its length, plus the number
/// of smaller symbols with a code of that length.
pub open spec fn code_of(lens: Seq<u8>, s: int) -> nat {
    first_code(lens, lens[s] as int) + symbols_of_len(lens, lens[s] as int, s).len()
}

/// A symbol stands in its class behind the smaller symbols of the class.
pub proof fn lemma_class_holds(lens: Seq<u8>, s: int, upto: int)
    requires
        0 <= s < upto <= 65536,
    ensures
        symbols_of_len(lens, lens[s] as int, s).len() < symbols_of_len(
            lens,
            lens[s] as int,
            upto,
        ).len(),
        symbols_of_len(lens, lens[s] as int, upto)[symbols_of_len(
            lens,
            lens[s] as int,
            s,
        ).len() as int] == s,
    decreases upto,
{
    if upto > s + 1 {
        lemma_class_holds(lens, s, upto - 1);
    }
}

/// Bits that fall short of the codes of one length fall short of the codes
/// of every greater length.
pub proof fn lemma_short_stays_short(lens: Seq<u8>, data: Seq<u8>, pos: int, j: int, k: int)
    requires
        1 <= j < k,
        bits_value(data, pos, j as nat) < first_code(lens, j) + class(lens, j).len(),
    ensures
        bits_value(data, pos, k as nat) < first_code(lens, k),
    decreases k - j,
{
    if j + 1 < k {
        lemma_short_stays_short(lens, data, pos, j, k - 1);
    }
}

/// From any shorter prefix of a symbol's code, decoding arrives at the
/// symbol.
pub proof fn lemma_decode_reaches(lens: Seq<u8>, data: Seq<u8>, pos: int, s: int, j: int)
    requires
        0 <= s < lens.len() <= MAX_ALPHABET,
        1 <= lens[s] <= MAX_CODE_LEN,
        0 <= j < lens[s],
        0 <= pos,
        pos + lens[s] <= bit_len(data),
        bits_value(data, pos, lens[s] as nat) == code_of(lens, s),
    ensures
        decode_from(lens, data, pos + j, j, bits_value(data, pos, j as nat)) == Ok::<
            (u16, int),
            CodecError,
        >((s as u16, pos + lens[s])),
    decreases lens[s] - j,
{
    let l = lens[s] as int;
    lemma_class_holds(lens, s, lens.len() as int);
    if j + 1 < l {
        if bits_value(data, pos, (j + 1) as nat) < first_code(lens, j + 1) + class(
            lens,
            j + 1,
        ).len() {
            lemma_short_stays_short(lens, data, pos, j + 1, l);
        }
        lemma_decode_reaches(lens, data, pos, s, j + 1);
    }
}

/// Decoding gives back what was coded: where the bits at `pos` spell the
/// code of a symbol, in as many bits as its code length says, decoding gives
/// that symbol and stops behind the code.
pub proof fn lemma_decode_code(lens: Seq<u8>, data: Seq<u8>, pos: int, s: int)
    requires
        0 <= s < lens.len() <= MAX_ALPHABET,
        1 <= lens[s] <= MAX_CODE_LEN,
        0 <= pos,
        pos + lens[s] <= bit_len(data),
        bits_value(data, pos, lens[s] as nat) == code_of(lens, s),
    ensures
        decode_symbol(lens, data, pos) == Ok::<(u16, int), CodecError>(
            (s as u16, pos + lens[s]),
        ),
{
    lemma_decode_reaches(lens, data, pos, s, 0);
}

/// The steps that lead from the code length `cur` to the code length `len`,
/// and the zero bit that ends them.
pub open spec fn length_steps(cur: int, len: int) -> Seq<bool>
    decreases
            (if len >= cur {
                len - cur
            } else {
                cur - len
            }),
{
    if cur < len {
        seq![true, false] + length_steps(cur + 1, len)
    } else if cur > len {
        seq![true, true] + length_steps(cur - 1, len)
    } else {
        seq![false]
    }
}

/// The code lengths `lens` as steps, the first from `cur`, each other from
/// the one before.
pub open spec fn lengths_written(cur: int, lens: Seq<u8>) -> Seq<bool>
    decreases lens.len(),
{
    if lens.len() == 0 {
        Seq::empty()
    } else {
        length_steps(cur, lens[0] as int) + lengths_written(lens[0] as int, lens.skip(1))
    }
}

/// A table of code lengths as it is stored: the first length in five bits,
/// and every length as steps from the one before.
pub open spec fn table_written(lens: Seq<u8>) -> Seq<bool> {
    number_written(lens[0] as nat, 5) + lengths_written(lens[0] as int, lens)
}

/// The code of the symbol `s` as it is stored.
pub open spec fn code_written(lens: Seq<u8>, s: int) -> Seq<bool> {
    number_written(code_of(lens, s), lens[s] as nat)
}

/// A code length that was written as steps is read back.
pub proof fn lemma_length_read(data: Seq<u8>, pos: int, cur: int, len: int)
    requires
        1 <= cur <= MAX_CODE_LEN,
        1 <= len <= MAX_CODE_LEN,
        spells(data, pos, length_steps(cur, len)),
    ensures
        parse_length(data, pos, cur) == Ok::<(u8, int), CodecError>(
            (len as u8, pos + length_steps(cur, len).len()),
        ),
    decreases
            (if len >= cur {
                len - cur
            } else {
                cur - len
            }),
{
    if cur != len {
        let next = if cur < len {
            cur + 1
        } else {
            cur - 1
        };
        let head = if cur < len {
            seq![true, false]
        } else {
            seq![true, true]
        };
        lemma_spells_joined(data, pos, head, length_steps(next, len));
        assert(bit_at(data, pos + 0) == head[0]);
        assert(bit_at(data, pos + 1) == head[1]);
        lemma_length_read(data, pos + 2, next, len);
    } else {
        assert(bit_at(data, pos + 0) == length_steps(cur, len)[0]);
    }
}

/// Code lengths that were written as steps are read back.
pub proof fn lemma_lengths_read(data: Seq<u8>, pos: int, cur: int, lens: Seq<u8>, acc: Seq<u8>)
    requires
        1 <= cur <= MAX_CODE_LEN,
        forall|i: int| 0 <= i < lens.len() ==> 1 <= #[trigger] lens[i] <= MAX_CODE_LEN,
        spells(data, pos, lengths_written(cur, lens)),
    ensures
        parse_lengths(data, pos, cur, lens.len(), acc) == Ok::<(Seq<u8>, int), CodecError>(
            (acc + lens, pos + lengths_written(cur, lens).len()),
        ),
    decreases lens.len(),
{
    if lens.len() == 0 {
        assert(acc + lens =~= acc);
    } else {
        let first = lens[0];
        let rest = lens.skip(1);
        lemma_spells_joined(
            data,
            pos,
            length_steps(cur, first as int),
            lengths_written(first as int, rest),
        );
        lemma_length_read(data, pos, cur, first as int);
        assert forall|i: int| 0 <= i < rest.len() implies 1 <= #[trigger] rest[i]
            <= MAX_CODE_LEN by {
            assert(rest[i] == lens[i + 1]);
        }
        lemma_lengths_read(
            data,
            pos + length_steps(cur, first as int).len(),
            first as int,
            rest,
            acc.push(first),
        );
        assert(acc.push(first) + rest =~= acc + lens);
    }
}

/// A table of code lengths that was written is read back: where the data
/// spells the table as it is stored, reading the table gives the lengths and
/// stops behind them.
pub proof fn lemma_table_read(data: Seq<u8>, pos: int, lens: Seq<u8>)
    requires
        lens.len() >= 1,
        forall|i: int| 0 <= i < lens.len() ==> 1 <= #[trigger] lens[i] <= MAX_CODE_LEN,
        spells(data, pos, table_written(lens)),
    ensures
        parse_table(data, pos, lens.len()) == Ok::<(Seq<u8>, int), CodecError>(
            (lens, pos + table_written(lens).len()),
        ),
{
    let start = lens[0] as nat;
    lemma_spells_joined(
        data,
        pos,
        number_written(start, 5),
        lengths_written(start as int, lens),
    );
    lemma2_to64();
    lemma_number_read(data, pos, start, 5);
    lemma_lengths_read(data, pos + 5, start as int, lens, Seq::empty());
    assert(Seq::<u8>::empty() + lens =~= lens);
}

/// A code that was written is read back: where the data spells the code of
/// a symbol, and the code fits the bits of its length, decoding gives the
/// symbol and stops behind the code.
pub proof fn lemma_code_read(lens: Seq<u8>, data: Seq<u8>, pos: int, s: int)
    requires
        0 <= s < lens.len() <= MAX_ALPHABET,
        1 <= lens[s] <= MAX_CODE_LEN,
        code_of(lens, s) < pow2(lens[s] as nat),
        spells(data, pos, code_written(lens, s)),
    ensures
        decode_symbol(lens, data, pos) == Ok::<(u16, int), CodecError>(
            (s as u16, pos + lens[s]),
        ),
{
    lemma_number_read(data, pos, code_of(lens, s), lens[s] as nat);
    lemma_decode_code(lens, data, pos, s);
}

/// The codes of an alphabet, laid out for decoding.
pub struct CodeTable {
    firsts: Vec<u32>,
    counts: Vec<u32>,
    starts: Vec<usize>,
    perm: Vec<u16>,
    lens: Ghost<Seq<u8>>,
}

impl CodeTable {
    /// The code length of each symbol. In a table that is well formed the
    /// lengths fix all else that the table holds.
    pub closed spec fn lens(&self) -> Seq<u8> {
        self.lens@
    }

    /// The table holds, for each length, the first code, the number of
    /// codes, and the symbols in the order of their codes.
    pub closed spec fn wf(&self) -> bool {
        &&& self.lens@.len() <= MAX_ALPHABET
        &&& self.firsts@.len() == MAX_CODE_LEN + 1
        &&& self.counts@.len() == MAX_CODE_LEN + 1
        &&& self.starts@.len() == MAX_CODE_LEN + 1
        &&& forall|l: int|
            1 <= l <= MAX_CODE_LEN ==> {
                &&& #[trigger] self.firsts@[l] == first_code(self.lens@, l)
                &&& self.counts@[l] == class(self.lens@, l).len()
                &&& self.starts@[l] + self.counts@[l] <= self.perm@.len()
                &&& self.perm@.subrange(
                    self.starts@[l] as int,
                    self.starts@[l] + self.counts@[l],
                ) == class(self.lens@, l)
            }
    }

    /// Lays out the codes that the lengths `lens` fix.
    pub fn build(lens: &[u8]) -> (t: CodeTable)
        requires
            lens@.len() <= MAX_ALPHABET,
        ensures
            t.wf(),
            t.lens() == lens@,
    {
        let n: usize = lens.len();
        let mut counts: Vec<u32> = Vec::new();
        let mut starts: Vec<usize> = Vec::new();
        let mut perm: Vec<u16> = Vec::new();
        counts.push(0);
        starts.push(0);
        let mut l: usize = 1;
        while l <= MAX_CODE_LEN
            invariant
                1 <= l <= MAX_CODE_LEN + 1,
                n == lens@.len(),
                n <= MAX_ALPHABET,
                counts@.len() == l,
                starts@.len() == l,
                perm@.len() <= (l - 1) * MAX_ALPHABET,
                forall|k: int|
                    1 <= k < l ==> {
                        &&& #[trigger] counts@[k] == class(lens@, k).len()
                        &&& starts@[k] + counts@[k] <= perm@.len()
                        &&& perm@.subrange(starts@[k] as int, starts@[k] + counts@[k]) == class(
                            lens@,
                            k,
                        )
                    },
            decreases MAX_CODE_LEN + 1 - l,
        {
            let start: usize = perm.len();
            let ghost base = perm@;
            let mut s: usize = 0;
            while s < n
                invariant
                    s <= n,
                    n == lens@.len(),
                    n <= MAX_ALPHABET,
                    1 <= l <= MAX_CODE_LEN,
                    start == base.len(),
                    start <= (l - 1) * MAX_ALPHABET,
                    perm@ == base + symbols_of_len(lens@, l as int, s as int),
                decreases n - s,
            {
                proof {
                    lemma_class_len(lens@, l as int, s as int);
                }
                if lens[s] as usize == l {
                    perm.push(s as u16);
                    assert(perm@ =~= base + symbols_of_len(lens@, l as int, s as int + 1));
                }
                s += 1;
            }
            proof {
                lemma_class_len(lens@, l as int, n as int);
                assert(perm@.subrange(start as int, perm@.len() as int) =~= class(lens@, l as int));
                assert forall|k: int| 1 <= k < l implies perm@.subrange(
                    starts@[k] as int,
                    starts@[k] + counts@[k],
                ) == class(lens@, k) by {
                    assert(perm@.subrange(starts@[k] as int, starts@[k] + counts@[k])
                        =~= base.subrange(starts@[k] as int, starts@[k] + counts@[k]));
                }
            }
            counts.push((perm.len() - start) as u32);
            starts.push(start);
            l += 1;
        }
        let mut firsts: Vec<u32> = Vec::new();
        firsts.push(0);
        firsts.push(0);
        let mut l: usize = 2;
        while l <= MAX_CODE_LEN
            invariant
                2 <= l <= MAX_CODE_LEN + 1,
                lens@.len() <= MAX_ALPHABET,
                counts@.len() == MAX_CODE_LEN + 1,
                firsts@.len() == l,
                forall|k: int| 1 <= k <= MAX_CODE_LEN ==> #[trigger] counts@[k] == class(lens@, k).len(),
                forall|k: int| 1 <= k < l ==> #[trigger] firsts@[k] == first_code(lens@, k),
            decreases MAX_CODE_LEN + 1 - l,
        {
            proof {
                lemma_first_code_bound(lens@, l as int);
                lemma_pow2_strictly_increases(l as nat, 21);
                lemma2_to64();
                assert(firsts@[l - 1] == first_code(lens@, l - 1));
                assert(counts@[l - 1] == class(lens@, l - 1).len());
            }
            let next: u32 = 2 * (firsts[l - 1] + counts[l - 1]);
            firsts.push(next);
            l += 1;
        }
        CodeTable { firsts, counts, starts, perm, lens: Ghost(lens@) }
    }

    /// Reads one code at the cursor and gives its symbol.
    pub fn decode(&self, data: &[u8], at: Cursor) -> (r: Result<(u16, Cursor), CodecError>)
        requires
            self.wf(),
            at.wf(data@),
        ensures
            match r {
                Ok((s, next)) => next.wf(data@) && s < self.lens().len() && decode_symbol(
                    self.lens(),
                    data@,
                    at.pos(),
                ) == Ok::<(u16, int), CodecError>((s, next.pos())),
                Err(e) => decode_symbol(self.lens(), data@, at.pos()) == Err::<
                    (u16, int),
                    CodecError,
                >(e),
            },
    {
        let mut v: u32 = 0;
        let mut l: usize = 0;
        let mut cur: Cursor = at;
        proof {
            lemma2_to64();
        }
        while l < MAX_CODE_LEN
            invariant
                l <= MAX_CODE_LEN,
                self.wf(),
                cur.wf(data@),
                v < pow2(l as nat),
                decode_symbol(self.lens(), data@, at.pos()) == decode_from(
                    self.lens(),
                    data@,
                    cur.pos(),
                    l as int,
                    v as nat,
                ),
            decreases MAX_CODE_LEN - l,
        {
            proof {
                lemma_pow2_unfold((l + 1) as nat);
                lemma_pow2_strictly_increases((l + 1) as nat, 21);
                lemma2_to64();
            }
            match read_bit(data, cur) {
                Err(e) => {
                    return Err(e);
                },
                Ok((b, next)) => {
                    v = 2 * v + if b {
                        1
                    } else {
                        0
                    };
                    l += 1;
                    cur = next;
                    let first: u32 = self.firsts[l];
                    if v >= first && v - first < self.counts[l] {
                        let k: usize = (v - first) as usize;
                        let total: usize = self.perm.len();
                        proof {
                            lemma_class_members(
                                self.lens@,
                                l as int,
                                self.lens@.len() as int,
                                k as int,
                            );
                        }
                        assert(self.firsts@[l as int] == first_code(self.lens@, l as int));
                        assert(self.starts@[l as int] + self.counts@[l as int]
                            <= self.perm@.len());
                        let s: u16 = self.perm[self.starts[l] + k];
                        assert(self.perm@.subrange(
                            self.starts@[l as int] as int,
                            self.starts@[l as int] + self.counts@[l as int],
                        )[k as int] == s);
                        return Ok((s, cur));
                    }
                },
            }
        }
        Err(CodecError::InvalidCode)
    }
}

/// Reads one code length, stored as steps from the length `cur`.
pub fn read_length(data: &[u8], at: Cursor, cur: u8) -> (r: Result<(u8, Cursor), CodecError>)
    requires
        at.wf(data@),
    ensures
        match r {
            Ok((len, next)) => next.wf(data@) && 1 <= len <= MAX_CODE_LEN && parse_length(
                data@,
                at.pos(),
                cur as int,
            ) == Ok::<(u8, int), CodecError>((len, next.pos())),
            Err(e) => parse_length(data@, at.pos(), cur as int) == Err::<(u8, int), CodecError>(e),
        },
{
    let mut len: u8 = cur;
    let mut c: Cursor = at;
    loop
        invariant
            c.wf(data@),
            parse_length(data@, at.pos(), cur as int) == parse_length(data@, c.pos(), len as int),
        decreases bit_len(data@) - c.pos(),
    {
        if len < 1 || len > 20 {
            return Err(CodecError::InvalidBlock);
        }
        match read_bit(data, c) {
            Err(e) => {
                return Err(e);
            },
            Ok((more, next)) => {
                if !more {
                    return Ok((len, next));
                }
                match read_bit(data, next) {
                    Err(e) => {
                        return Err(e);
                    },
                    Ok((down, behind)) => {
                        if down {
                            len = len - 1;
                        } else {
                            len = len + 1;
                        }
                        c = behind;
                    },
                }
            },
        }
    }
}

/// Reads the code lengths of an alphabet of `alphabet` symbols.
pub fn read_table(data: &[u8], at: Cursor, alphabet: usize) -> (r: Result<
    (Vec<u8>, Cursor),
    CodecError,
>)
    requires
        at.wf(data@),
    ensures
        match r {
            Ok((lens, next)) => next.wf(data@) && lens@.len() == alphabet && parse_table(
                data@,
                at.pos(),
                alphabet as nat,
            ) == Ok::<(Seq<u8>, int), CodecError>((lens@, next.pos())),
            Err(e) => parse_table(data@, at.pos(), alphabet as nat) == Err::<
                (Seq<u8>, int),
                CodecError,
            >(e),
        },
{
    let (start, first): (u64, Cursor) = match read_bits(data, at, 5) {
        Err(e) => {
            return Err(e);
        },
        Ok(p) => p,
    };
    proof {
        crate::bits::lemma_bits_value_bound(data@, at.pos(), 5);
        lemma2_to64();
    }
    let mut len: u8 = start as u8;
    let mut c: Cursor = first;
    let mut lens: Vec<u8> = Vec::new();
    let mut i: usize = 0;
    while i < alphabet
        invariant
            i <= alphabet,
            c.wf(data@),
            lens@.len() == i,
            parse_table(data@, at.pos(), alphabet as nat) == parse_lengths(
                data@,
                c.pos(),
                len as int,
                (alphabet - i) as nat,
                lens@,
            ),
        decreases alphabet - i,
    {
        match read_length(data, c, len) {
            Err(e) => {
                return Err(e);
            },
            Ok((l, next)) => {
                lens.push(l);
                len = l;
                c = next;
            },
        }
        i += 1;
    }
    Ok((lens, c))
}

} // verus!
