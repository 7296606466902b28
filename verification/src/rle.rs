//! Runs of equal bytes: four equal bytes are followed by one byte that
//! counts how often the byte is repeated further.

use vstd::prelude::*;
use crate::mtf::repeat;

verus! {

/// Expanding in progress: the bytes given out, the byte of the run at hand
/// (or -1 where none is), and the number of times it was seen, up to four.
pub struct Expanding {
    pub out: Seq<u8>,
    pub last: int,
    pub seen: nat,
}

impl Expanding {
    /// The state before the first byte.
    pub open spec fn start() -> Expanding {
        Expanding { out: Seq::empty(), last: -1, seen: 0 }
    }

    /// The state after one more byte. Behind four equal bytes the byte is a
    /// count, and the run ends with it. Else the byte is given out; it goes on
    /// with the run at hand or begins one.
    pub open spec fn step(self, b: u8) -> Expanding {
        if self.seen == 4 {
            Expanding { out: self.out + repeat(self.last as u8, b as nat), last: -1, seen: 0 }
        } else if self.last == b {
            Expanding { out: self.out.push(b), last: self.last, seen: self.seen + 1 }
        } else {
            Expanding { out: self.out.push(b), last: b as int, seen: 1 }
        }
    }

    /// The state after the bytes `data`.
    pub open spec fn after(self, data: Seq<u8>) -> Expanding
        decreases data.len(),
    {
        if data.len() == 0 {
            self
        } else {
            self.after(data.drop_last()).step(data.last())
        }
    }
}

/// The bytes that `data` stands for, with its runs written out.
pub open spec fn expanded(data: Seq<u8>) -> Seq<u8> {
    Expanding::start().after(data).out
}

/// Writes out the runs of `data`.
pub fn expand(data: &[u8]) -> (r: Vec<u8>)
    ensures
        r@ == expanded(data@),
{
    let mut out: Vec<u8> = Vec::new();
    let mut last: u8 = 0;
    let mut seen: u8 = 0;
    let mut i: usize = 0;
    assert(data@.take(0) =~= Seq::<u8>::empty());
    while i < data.len()
        invariant
            i <= data@.len(),
            seen <= 4,
            out@ == Expanding::start().after(data@.take(i as int)).out,
            seen == Expanding::start().after(data@.take(i as int)).seen,
            seen > 0 ==> last == Expanding::start().after(data@.take(i as int)).last,
            seen == 0 ==> Expanding::start().after(data@.take(i as int)).last == -1,
        decreases data@.len() - i,
    {
        proof {
            assert(data@.take(i + 1).drop_last() =~= data@.take(i as int));
        }
        let b: u8 = data[i];
        if seen == 4 {
            let ghost base = out@;
            let mut k: u8 = 0;
            while k < b
                invariant
                    k <= b,
                    out@ == base + repeat(last, k as nat),
                decreases b - k,
            {
                out.push(last);
                assert(out@ =~= base + repeat(last, (k + 1) as nat));
                k += 1;
            }
            seen = 0;
        } else if seen > 0 && b == last {
            out.push(b);
            seen += 1;
        } else {
            out.push(b);
            last = b;
            seen = 1;
        }
        i += 1;
    }
    assert(data@.take(i as int) =~= data@);
    out
}

} // verus!
