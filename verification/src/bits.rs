//! Reading a byte string bit by bit, most significant bit first.

use vstd::prelude::*;
use vstd::arithmetic::power2::*;
use crate::error::CodecError;

verus! {

/// The number of bits that `data` holds.
pub open spec fn bit_len(data: Seq<u8>) -> int {
    8 * (data.len() as int)
}

/// Bit `k` of a byte, counted from its most significant bit.
pub open spec fn bit_of(b: u8, k: u8) -> bool {
    (b >> ((7 - k) as u8)) & 1u8 == 1u8
}

/// Bit `i` of `data`, counted from the most significant bit of its first
/// byte.
pub open spec fn bit_at(data: Seq<u8>, i: int) -> bool {
    bit_of(data[i / 8], (i % 8) as u8)
}

/// The number that the `n` bits from `pos` on spell, the first bit being the
/// most significant.
pub open spec fn bits_value(data: Seq<u8>, pos: int, n: nat) -> nat
    decreases n,
{
    if n == 0 {
        0
    } else {
        2 * bits_value(data, pos, (n - 1) as nat) + if bit_at(data, pos + n - 1) {
            1nat
        } else {
            0nat
        }
    }
}

/// Reading one bit at `pos`: the bit and the position behind it, or
/// `TruncatedStream` at the end of `data`.
pub open spec fn take_bit(data: Seq<u8>, pos: int) -> Result<(bool, int), CodecError> {
    if pos >= bit_len(data) {
        Err(CodecError::TruncatedStream)
    } else {
        Ok((bit_at(data, pos), pos + 1))
    }
}

/// Reading `n` bits at `pos`: their value and the position behind them, or
/// `TruncatedStream` where fewer than `n` are left.
pub open spec fn take_bits(data: Seq<u8>, pos: int, n: nat) -> Result<(nat, int), CodecError> {
    if pos + n > bit_len(data) {
        Err(CodecError::TruncatedStream)
    } else {
        Ok((bits_value(data, pos, n), pos + n))
    }
}

/// Bit `i` behind `p` in `a` is bit `i` behind `q` in `b`.
pub open spec fn agree_at(a: Seq<u8>, p: int, b: Seq<u8>, q: int, i: int) -> bool {
    bit_at(a, p + i) == bit_at(b, q + i)
}

/// The `n` bits of `a` from `p` on are the `n` bits of `b` from `q` on.
pub open spec fn same_bits(a: Seq<u8>, p: int, b: Seq<u8>, q: int, n: int) -> bool {
    &&& 0 <= p
    &&& 0 <= q
    &&& 0 <= n
    &&& p + n <= bit_len(a)
    &&& q + n <= bit_len(b)
    &&& forall|i: int| 0 <= i < n ==> #[trigger] agree_at(a, p, b, q, i)
}

/// What was read, with the position behind it moved by `d` bits.
pub open spec fn moved<T>(r: Result<(T, int), CodecError>, d: int) -> Result<(T, int), CodecError> {
    match r {
        Ok((v, next)) => Ok((v, next + d)),
        Err(e) => Err(e),
    }
}

/// Equal stretches have equal tails.
pub proof fn lemma_same_bits_tail(a: Seq<u8>, p: int, b: Seq<u8>, q: int, n: int, k: int)
    requires
        same_bits(a, p, b, q, n),
        0 <= k <= n,
    ensures
        same_bits(a, p + k, b, q + k, n - k),
{
    assert forall|i: int| 0 <= i < n - k implies #[trigger] agree_at(a, p + k, b, q + k, i) by {
        assert(agree_at(a, p, b, q, i + k));
    }
}

/// Equal stretches spell equal numbers.
pub proof fn lemma_same_value(a: Seq<u8>, p: int, b: Seq<u8>, q: int, n: int, k: nat)
    requires
        same_bits(a, p, b, q, n),
        k <= n,
    ensures
        bits_value(a, p, k) == bits_value(b, q, k),
    decreases k,
{
    if k > 0 {
        lemma_same_value(a, p, b, q, n, (k - 1) as nat);
        assert(agree_at(a, p, b, q, k - 1));
    }
}

/// Reading a number gives the same in an equal stretch.
pub proof fn lemma_same_take_bits(a: Seq<u8>, p: int, b: Seq<u8>, q: int, n: int, k: nat)
    requires
        same_bits(a, p, b, q, n),
        k <= n,
    ensures
        take_bits(b, q, k) == moved(take_bits(a, p, k), q - p),
        take_bits(a, p, k) is Ok,
{
    lemma_same_value(a, p, b, q, n, k);
}

/// Reading a bit gives the same in an equal stretch.
pub proof fn lemma_same_take_bit(a: Seq<u8>, p: int, b: Seq<u8>, q: int, n: int)
    requires
        same_bits(a, p, b, q, n),
        1 <= n,
    ensures
        take_bit(b, q) == moved(take_bit(a, p), q - p),
        take_bit(a, p) is Ok,
{
    assert(agree_at(a, p, b, q, 0));
}

/// `data` with bit `f` flipped.
pub open spec fn flipped(data: Seq<u8>, f: int) -> Seq<u8> {
    data.update(f / 8, data[f / 8] ^ (0x80u8 >> ((f % 8) as u8)))
}

/// Flipping bit `k` of a byte changes that bit and no other.
pub proof fn lemma_flip_byte(x: u8, k: u8, j: u8)
    by (bit_vector)
    requires
        k < 8,
        j < 8,
    ensures
        bit_of(x ^ (0x80u8 >> k), j) == (bit_of(x, j) != (j == k)),
{
}

/// Flipping bit `f` changes that bit and no other.
pub proof fn lemma_flip_bit(data: Seq<u8>, f: int, i: int)
    requires
        0 <= f < bit_len(data),
        0 <= i < bit_len(data),
    ensures
        bit_at(flipped(data, f), i) == (bit_at(data, i) != (i == f)),
{
    if i / 8 == f / 8 {
        lemma_flip_byte(data[f / 8], (f % 8) as u8, (i % 8) as u8);
    }
}

/// A stretch that does not hold the flipped bit stays as it is.
pub proof fn lemma_flip_same(data: Seq<u8>, f: int, p: int, n: int)
    requires
        0 <= f < bit_len(data),
        0 <= p,
        0 <= n,
        p + n <= bit_len(data),
        f < p || f >= p + n,
    ensures
        same_bits(data, p, flipped(data, f), p, n),
{
    assert forall|i: int| 0 <= i < n implies #[trigger] agree_at(
        data,
        p,
        flipped(data, f),
        p,
        i,
    ) by {
        lemma_flip_bit(data, f, p + i);
    }
}

/// A stretch that holds the flipped bit spells another number.
pub proof fn lemma_flip_value(data: Seq<u8>, f: int, p: int, k: nat)
    requires
        0 <= p <= f < p + k <= bit_len(data),
    ensures
        bits_value(flipped(data, f), p, k) != bits_value(data, p, k),
    decreases k,
{
    lemma_flip_bit(data, f, p + k - 1);
    if f == p + k - 1 {
        lemma_flip_same(data, f, p, k - 1);
        lemma_same_value(data, p, flipped(data, f), p, k - 1, (k - 1) as nat);
    } else {
        lemma_flip_value(data, f, p, (k - 1) as nat);
    }
}

/// The number `v` in `n` bits, the most significant first.
pub open spec fn number_written(v: nat, n: nat) -> Seq<bool>
    decreases n,
{
    if n == 0 {
        Seq::empty()
    } else {
        number_written(v / 2, (n - 1) as nat).push(v % 2 == 1)
    }
}

/// The bits of `data` from `pos` on are `bs`.
pub open spec fn spells(data: Seq<u8>, pos: int, bs: Seq<bool>) -> bool {
    &&& 0 <= pos
    &&& pos + bs.len() <= bit_len(data)
    &&& forall|i: int| 0 <= i < bs.len() ==> bit_at(data, pos + i) == #[trigger] bs[i]
}

/// Where data spells two sequences joined, it spells the first, and the
/// second behind it.
pub proof fn lemma_spells_joined(data: Seq<u8>, pos: int, a: Seq<bool>, b: Seq<bool>)
    requires
        spells(data, pos, a + b),
    ensures
        spells(data, pos, a),
        spells(data, pos + a.len(), b),
{
    assert forall|i: int| 0 <= i < a.len() implies bit_at(data, pos + i) == #[trigger] a[i] by {
        assert((a + b)[i] == a[i]);
    }
    assert forall|i: int| 0 <= i < b.len() implies bit_at(data, pos + a.len() + i)
        == #[trigger] b[i] by {
        assert((a + b)[a.len() + i] == b[i]);
    }
}

/// A number written in `n` bits takes `n` bits.
pub proof fn lemma_number_len(v: nat, n: nat)
    ensures
        number_written(v, n).len() == n,
    decreases n,
{
    if n > 0 {
        lemma_number_len(v / 2, (n - 1) as nat);
    }
}

/// The bits that spell a number are the number written.
pub proof fn lemma_number_bits(data: Seq<u8>, pos: int, n: nat, j: int)
    requires
        0 <= j < n,
    ensures
        number_written(bits_value(data, pos, n), n).len() == n,
        number_written(bits_value(data, pos, n), n)[j] == bit_at(data, pos + j),
    decreases n,
{
    let v = bits_value(data, pos, n);
    lemma_number_len(v, n);
    lemma_number_len(v / 2, (n - 1) as nat);
    assert(v / 2 == bits_value(data, pos, (n - 1) as nat));
    if j < n - 1 {
        lemma_number_bits(data, pos, (n - 1) as nat, j);
    }
}

/// Two bytes with the same bits are the same byte.
pub proof fn lemma_byte_by_bits(x: u8, y: u8)
    by (bit_vector)
    requires
        bit_of(x, 0) == bit_of(y, 0),
        bit_of(x, 1) == bit_of(y, 1),
        bit_of(x, 2) == bit_of(y, 2),
        bit_of(x, 3) == bit_of(y, 3),
        bit_of(x, 4) == bit_of(y, 4),
        bit_of(x, 5) == bit_of(y, 5),
        bit_of(x, 6) == bit_of(y, 6),
        bit_of(x, 7) == bit_of(y, 7),
    ensures
        x == y,
{
}

/// Byte strings of one length with the same bits are the same.
pub proof fn lemma_bytes_by_bits(a: Seq<u8>, b: Seq<u8>)
    requires
        a.len() == b.len(),
        forall|i: int| 0 <= i < bit_len(a) ==> bit_at(a, i) == bit_at(b, i),
    ensures
        a == b,
{
    assert forall|k: int| 0 <= k < a.len() implies a[k] == b[k] by {
        assert(bit_at(a, 8 * k) == bit_at(b, 8 * k));
        assert(bit_at(a, 8 * k + 1) == bit_at(b, 8 * k + 1));
        assert(bit_at(a, 8 * k + 2) == bit_at(b, 8 * k + 2));
        assert(bit_at(a, 8 * k + 3) == bit_at(b, 8 * k + 3));
        assert(bit_at(a, 8 * k + 4) == bit_at(b, 8 * k + 4));
        assert(bit_at(a, 8 * k + 5) == bit_at(b, 8 * k + 5));
        assert(bit_at(a, 8 * k + 6) == bit_at(b, 8 * k + 6));
        assert(bit_at(a, 8 * k + 7) == bit_at(b, 8 * k + 7));
        lemma_byte_by_bits(a[k], b[k]);
    }
    assert(a =~= b);
}

/// A number that was written in enough bits is read back.
pub proof fn lemma_number_read(data: Seq<u8>, pos: int, v: nat, n: nat)
    requires
        v < pow2(n),
        spells(data, pos, number_written(v, n)),
    ensures
        number_written(v, n).len() == n,
        bits_value(data, pos, n) == v,
    decreases n,
{
    if n == 0 {
        lemma2_to64();
    } else {
        let front = number_written(v / 2, (n - 1) as nat);
        let last = seq![v % 2 == 1];
        assert(number_written(v, n) =~= front + last);
        lemma_spells_joined(data, pos, front, last);
        lemma_pow2_unfold(n);
        lemma_number_read(data, pos, v / 2, (n - 1) as nat);
        assert(last[0] == (v % 2 == 1));
    }
}

/// `b` is the front of `a`: `a` cut behind as many bytes as `b` holds.
pub open spec fn is_cut(b: Seq<u8>, a: Seq<u8>) -> bool {
    b.len() <= a.len() && forall|i: int| 0 <= i < b.len() ==> b[i] == a[i]
}

/// What a reading that succeeds gives where only `len` bits are left of the
/// data: the same where it ends within them, else `TruncatedStream`.
pub open spec fn cut_reading<T>(r: Result<(T, int), CodecError>, len: int) -> Result<
    (T, int),
    CodecError,
> {
    match r {
        Ok((v, next)) => if next <= len {
            r
        } else {
            Err(CodecError::TruncatedStream)
        },
        Err(e) => r,
    }
}

/// The bits of a cut are those of the whole.
pub proof fn lemma_cut_same(a: Seq<u8>, b: Seq<u8>, p: int, n: int)
    requires
        is_cut(b, a),
        0 <= p,
        0 <= n,
        p + n <= bit_len(b),
    ensures
        same_bits(a, p, b, p, n),
{
    assert forall|i: int| 0 <= i < n implies #[trigger] agree_at(a, p, b, p, i) by {
        assert(b[(p + i) / 8] == a[(p + i) / 8]);
    }
}

/// Reading a number in a cut.
pub proof fn lemma_cut_take_bits(a: Seq<u8>, b: Seq<u8>, p: int, n: nat)
    requires
        is_cut(b, a),
        0 <= p,
        take_bits(a, p, n) is Ok,
    ensures
        take_bits(b, p, n) == cut_reading(take_bits(a, p, n), bit_len(b)),
{
    if p + n <= bit_len(b) {
        lemma_cut_same(a, b, p, n as int);
        lemma_same_value(a, p, b, p, n as int, n);
    }
}

/// Reading a bit in a cut.
pub proof fn lemma_cut_take_bit(a: Seq<u8>, b: Seq<u8>, p: int)
    requires
        is_cut(b, a),
        0 <= p,
        take_bit(a, p) is Ok,
    ensures
        take_bit(b, p) == cut_reading(take_bit(a, p), bit_len(b)),
{
    if p + 1 <= bit_len(b) {
        lemma_cut_same(a, b, p, 1);
        assert(agree_at(a, p, b, p, 0));
    }
}

/// A place in a byte string: `bit` bits into the byte at index `byte`.
#[derive(Clone, Copy, Debug)]
pub struct Cursor {
    pub byte: usize,
    pub bit: u8,
}

impl Cursor {
    /// The number of bits in front of the cursor.
    pub open spec fn pos(self) -> int {
        8 * self.byte + self.bit
    }

    /// The cursor lies within `data` or at its end.
    pub open spec fn wf(self, data: Seq<u8>) -> bool {
        self.bit < 8 && 0 <= self.pos() <= bit_len(data)
    }

    /// The cursor in front of the byte at index `byte`.
    pub fn at_byte(byte: usize) -> (r: Cursor)
        ensures
            r.pos() == 8 * byte,
            r.byte == byte,
            r.bit == 0,
    {
        Cursor { byte, bit: 0 }
    }

    /// The index of the first byte that lies wholly behind the cursor.
    pub fn next_byte(self, data: &[u8]) -> (r: usize)
        requires
            self.wf(data@),
        ensures
            r <= data@.len(),
            8 * (r - 1) < self.pos() <= 8 * r,
    {
        let n: usize = data.len();
        if self.bit == 0 {
            self.byte
        } else {
            assert(self.byte < n);
            self.byte + 1
        }
    }
}

/// `n` bits spell a number below `2^n`.
pub proof fn lemma_bits_value_bound(data: Seq<u8>, pos: int, n: nat)
    ensures
        bits_value(data, pos, n) < pow2(n),
    decreases n,
{
    if n == 0 {
        lemma2_to64();
    } else {
        lemma_bits_value_bound(data, pos, (n - 1) as nat);
        lemma_pow2_unfold(n);
    }
}

/// Reads the bit at the cursor.
pub fn read_bit(data: &[u8], at: Cursor) -> (r: Result<(bool, Cursor), CodecError>)
    requires
        at.wf(data@),
    ensures
        match r {
            Ok((b, next)) => next.wf(data@) && take_bit(data@, at.pos()) == Ok::<
                (bool, int),
                CodecError,
            >((b, next.pos())),
            Err(e) => take_bit(data@, at.pos()) == Err::<(bool, int), CodecError>(e),
        },
{
    if at.byte >= data.len() {
        return Err(CodecError::TruncatedStream);
    }
    let b: bool = (data[at.byte] >> (7 - at.bit)) & 1 == 1;
    let next: Cursor = if at.bit == 7 {
        Cursor { byte: at.byte + 1, bit: 0 }
    } else {
        Cursor { byte: at.byte, bit: at.bit + 1 }
    };
    assert(at.pos() / 8 == at.byte && at.pos() % 8 == at.bit);
    Ok((b, next))
}

/// Reads `n` bits at the cursor as one number.
pub fn read_bits(data: &[u8], at: Cursor, n: u32) -> (r: Result<(u64, Cursor), CodecError>)
    requires
        at.wf(data@),
        n <= 64,
    ensures
        match r {
            Ok((v, next)) => next.wf(data@) && take_bits(data@, at.pos(), n as nat) == Ok::<
                (nat, int),
                CodecError,
            >((v as nat, next.pos())),
            Err(e) => take_bits(data@, at.pos(), n as nat) == Err::<(nat, int), CodecError>(e),
        },
{
    let mut v: u64 = 0;
    let mut cur: Cursor = at;
    let mut i: u32 = 0;
    while i < n
        invariant
            i <= n <= 64,
            cur.wf(data@),
            cur.pos() == at.pos() + i,
            v as nat == bits_value(data@, at.pos(), i as nat),
        decreases n - i,
    {
        proof {
            lemma_bits_value_bound(data@, at.pos(), i as nat);
            lemma_pow2_strictly_increases(i as nat, 64);
            lemma_bits_value_bound(data@, at.pos(), (i + 1) as nat);
            lemma_pow2_strictly_increases((i + 1) as nat, 65);
            if i + 1 < 64 {
                lemma_pow2_strictly_increases((i + 1) as nat, 64);
            }
            lemma2_to64_rest();
        }
        match read_bit(data, cur) {
            Ok((b, next)) => {
                v = 2 * v + if b {
                    1
                } else {
                    0
                };
                cur = next;
            },
            Err(e) => {
                return Err(e);
            },
        }
        i += 1;
    }
    Ok((v, cur))
}

} // verus!
