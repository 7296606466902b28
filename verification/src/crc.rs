//! The check values of the format: a CRC-32 over the bytes of a block, most
//! significant bit first, and the value that folds the blocks of a stream.

use vstd::prelude::*;

verus! {

/// One step of the shift register: a zero bit enters, and the polynomial is
/// added where a one leaves.
pub open spec fn crc_shift(c: u32) -> u32 {
    if c & 0x8000_0000u32 != 0 {
        (c << 1u32) ^ 0x04c1_1db7u32
    } else {
        c << 1u32
    }
}

/// `n` steps of the shift register.
pub open spec fn crc_shifts(c: u32, n: nat) -> u32
    decreases n,
{
    if n == 0 {
        c
    } else {
        crc_shift(crc_shifts(c, (n - 1) as nat))
    }
}

/// The register after the byte `b` has entered.
pub open spec fn crc_byte(c: u32, b: u8) -> u32 {
    crc_shifts(c ^ ((b as u32) << 24u32), 8)
}

/// The register after all of `data` has entered.
pub open spec fn crc_fold(c: u32, data: Seq<u8>) -> u32
    decreases data.len(),
{
    if data.len() == 0 {
        c
    } else {
        crc_byte(crc_fold(c, data.drop_last()), data.last())
    }
}

/// The check value of `data`: the register starts with all bits set and is
/// inverted at the end.
pub open spec fn crc32(data: Seq<u8>) -> u32 {
    !crc_fold(0xffff_ffffu32, data)
}

/// The check value of a stream after one more block: the value so far,
/// rotated left by one bit, exclusive-or the block's own.
pub open spec fn crc_combine(stream: u32, block: u32) -> u32 {
    ((stream << 1u32) | (stream >> 31u32)) ^ block
}

/// Enters one byte into the register.
pub fn update_byte(c: u32, b: u8) -> (r: u32)
    ensures
        r == crc_byte(c, b),
{
    let start: u32 = c ^ ((b as u32) << 24);
    let mut x: u32 = start;
    let mut i: u32 = 0;
    while i < 8
        invariant
            i <= 8,
            x == crc_shifts(start, i as nat),
        decreases 8 - i,
    {
        x = if x & 0x8000_0000 != 0 {
            (x << 1) ^ 0x04c1_1db7
        } else {
            x << 1
        };
        i += 1;
    }
    x
}

/// Enters the bytes of `data` into the register.
pub fn update(c: u32, data: &[u8]) -> (r: u32)
    ensures
        r == crc_fold(c, data@),
{
    let mut x: u32 = c;
    let mut i: usize = 0;
    while i < data.len()
        invariant
            i <= data@.len(),
            x == crc_fold(c, data@.subrange(0, i as int)),
        decreases data@.len() - i,
    {
        proof {
            let head = data@.subrange(0, i as int + 1);
            assert(head.drop_last() =~= data@.subrange(0, i as int));
            assert(head.last() == data@[i as int]);
        }
        x = update_byte(x, data[i]);
        i += 1;
    }
    assert(data@.subrange(0, i as int) =~= data@);
    x
}

/// Computes the check value of `data`.
pub fn checksum(data: &[u8]) -> (r: u32)
    ensures
        r == crc32(data@),
{
    !update(0xffff_ffff, data)
}

/// Folds the check value of one more block into that of the stream.
pub fn combine(stream: u32, block: u32) -> (r: u32)
    ensures
        r == crc_combine(stream, block),
{
    ((stream << 1) | (stream >> 31)) ^ block
}

} // verus!
