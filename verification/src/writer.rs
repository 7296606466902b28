//! Writing a byte string bit by bit, most significant bit first.

use vstd::prelude::*;
use crate::bits::{bit_at, bit_len, bit_of, is_cut, number_written, read_bit, spells, Cursor};

verus! {

/// The bits of `data` from bit `from` up to bit `to`.
pub open spec fn bits_of(data: Seq<u8>, from: int, to: int) -> Seq<bool> {
    Seq::new((to - from) as nat, |i: int| bit_at(data, from + i))
}

/// The bytes `v` hold the bits `bits` and nothing else: as many bytes as the
/// bits need, the bits in order, and zero bits behind them to the end of the
/// last byte.
pub open spec fn packs(v: Seq<u8>, bits: Seq<bool>) -> bool {
    &&& v.len() == (bits.len() + 7) / 8
    &&& spells(v, 0, bits)
    &&& forall|i: int| bits.len() <= i < bit_len(v) ==> !(#[trigger] bit_at(v, i))
}

/// Setting bit `fill` of a byte sets that bit and changes no other.
pub proof fn lemma_set_bit(acc: u8, fill: u8, k: u8)
    by (bit_vector)
    requires
        fill < 8,
        k < 8,
    ensures
        bit_of(acc | (0x80u8 >> fill), k) == (bit_of(acc, k) || k == fill),
{
}

/// The byte zero has no bit set.
pub proof fn lemma_no_bit(k: u8)
    by (bit_vector)
    requires
        k < 8,
    ensures
        !bit_of(0u8, k),
{
}

/// Bytes filled bit by bit: the whole bytes written, and the bits of the byte
/// that is being filled.
pub struct BitWriter {
    bytes: Vec<u8>,
    acc: u8,
    fill: u8,
    bits: Ghost<Seq<bool>>,
}

impl BitWriter {
    /// The bits written, in order.
    pub closed spec fn bits(&self) -> Seq<bool> {
        self.bits@
    }

    /// The whole bytes written.
    pub closed spec fn whole(&self) -> Seq<u8> {
        self.bytes@
    }

    /// The bytes hold the bits written; the byte that is being filled holds
    /// the bits behind them and zero bits else.
    pub closed spec fn wf(&self) -> bool {
        &&& self.fill < 8
        &&& self.bits@.len() == 8 * self.bytes@.len() + self.fill
        &&& forall|i: int|
            0 <= i < 8 * self.bytes@.len() ==> bit_at(self.bytes@, i) == #[trigger] self.bits@[i]
        &&& forall|k: u8|
            k < 8 ==> #[trigger] bit_of(self.acc, k) == (k < self.fill && self.bits@[8
                * self.bytes@.len() + k])
    }

    /// A writer that starts behind the whole bytes `bytes`.
    pub fn from_bytes(bytes: Vec<u8>) -> (w: BitWriter)
        ensures
            w.wf(),
            w.whole() == bytes@,
            w.bits() == bits_of(bytes@, 0, bit_len(bytes@)),
    {
        proof {
            assert forall|k: u8| k < 8 implies !(#[trigger] bit_of(0u8, k)) by {
                lemma_no_bit(k);
            }
        }
        BitWriter { bits: Ghost(bits_of(bytes@, 0, bit_len(bytes@))), bytes, acc: 0, fill: 0 }
    }

    /// Writes one bit.
    pub fn write_bit(&mut self, b: bool)
        requires
            old(self).wf(),
        ensures
            final(self).wf(),
            final(self).bits() == old(self).bits().push(b),
            is_cut(old(self).whole(), final(self).whole()),
    {
        let ghost before = self.bits@;
        let ghost held = self.bytes@;
        let ghost n = self.bytes@.len() as int;
        let fill: u8 = self.fill;
        let acc: u8 = self.acc;
        let next: u8 = if b {
            acc | (0x80u8 >> fill)
        } else {
            acc
        };
        proof {
            assert forall|k: u8| k < 8 implies #[trigger] bit_of(next, k) == (if k == fill {
                b
            } else {
                bit_of(acc, k)
            }) by {
                lemma_set_bit(acc, fill, k);
                assert(!bit_of(acc, fill));
            }
        }
        self.bits = Ghost(before.push(b));
        if fill == 7 {
            self.bytes.push(next);
            self.acc = 0;
            self.fill = 0;
            proof {
                assert forall|k: u8| k < 8 implies !(#[trigger] bit_of(0u8, k)) by {
                    lemma_no_bit(k);
                }
                assert forall|i: int| 0 <= i < 8 * (n + 1) implies bit_at(self.bytes@, i)
                    == #[trigger] self.bits@[i] by {
                    if i < 8 * n {
                        assert(self.bytes@[i / 8] == held[i / 8]);
                        assert(bit_at(held, i) == before[i]);
                    } else {
                        let k = (i - 8 * n) as u8;
                        assert(i / 8 == n && i % 8 == k);
                        assert(bit_of(next, k) == (if k == fill {
                            b
                        } else {
                            bit_of(acc, k)
                        }));
                    }
                }
            }
        } else {
            self.acc = next;
            self.fill = fill + 1;
        }
    }

    /// Writes the lowest `n` bits of `value`, the most significant first.
    pub fn write_bits(&mut self, value: u64, n: u32)
        requires
            old(self).wf(),
            n <= 64,
        ensures
            final(self).wf(),
            final(self).bits() == old(self).bits() + number_written(value as nat, n as nat),
            is_cut(old(self).whole(), final(self).whole()),
        decreases n,
    {
        if n > 0 {
            self.write_bits(value / 2, n - 1);
            self.write_bit(value % 2 == 1);
            assert((old(self).bits() + number_written((value / 2) as nat, (n - 1) as nat)).push(
                value % 2 == 1,
            ) =~= old(self).bits() + number_written(value as nat, n as nat));
        } else {
            assert(old(self).bits() + number_written(value as nat, 0) =~= old(self).bits());
        }
    }

    /// Writes the bits of `data` from the cursor `from` up to the cursor `to`.
    pub fn copy_bits(&mut self, data: &[u8], from: Cursor, to: Cursor)
        requires
            old(self).wf(),
            from.wf(data@),
            to.wf(data@),
            from.pos() <= to.pos(),
        ensures
            final(self).wf(),
            final(self).bits() == old(self).bits() + bits_of(data@, from.pos(), to.pos()),
            is_cut(old(self).whole(), final(self).whole()),
    {
        let mut cur: Cursor = from;
        assert(old(self).bits() + bits_of(data@, from.pos(), from.pos()) =~= old(self).bits());
        while cur.byte != to.byte || cur.bit != to.bit
            invariant
                self.wf(),
                cur.wf(data@),
                to.wf(data@),
                from.pos() <= cur.pos() <= to.pos(),
                self.bits() == old(self).bits() + bits_of(data@, from.pos(), cur.pos()),
                is_cut(old(self).whole(), self.whole()),
            decreases to.pos() - cur.pos(),
        {
            let ghost here = cur.pos();
            let ghost held = self.bits();
            match read_bit(data, cur) {
                Err(e) => {
                    assert(false);
                },
                Ok((b, next)) => {
                    self.write_bit(b);
                    cur = next;
                    assert(held.push(b) =~= old(self).bits() + bits_of(
                        data@,
                        from.pos(),
                        here + 1,
                    ));
                },
            }
        }
    }

    /// Closes the byte that is being filled with zero bits and gives the
    /// bytes.
    pub fn finish(self) -> (v: Vec<u8>)
        requires
            self.wf(),
        ensures
            packs(v@, self.bits()),
            is_cut(self.whole(), v@),
    {
        let BitWriter { bytes, acc, fill, bits } = self;
        let mut bytes = bytes;
        let ghost n = bytes@.len() as int;
        let ghost held = bytes@;
        if fill > 0 {
            bytes.push(acc);
            proof {
                assert forall|i: int| 0 <= i < bit_len(bytes@) implies #[trigger] bit_at(bytes@, i)
                    == (i < bits@.len() && bits@[i]) by {
                    if i < 8 * n {
                        assert(bytes@[i / 8] == held[i / 8]);
                        assert(bit_at(held, i) == bits@[i]);
                    } else {
                        let k = (i - 8 * n) as u8;
                        assert(i / 8 == n && i % 8 == k);
                        assert(bit_of(acc, k) == (k < fill && bits@[8 * n + k]));
                    }
                }
            }
        }
        bytes
    }
}

} // verus!
