//! Move-to-front ranks and runs of rank zero.
//!
//! A symbol of two or more stands for the rank one below it; the symbols 0
//! and 1 are the digits of a run of rank zero, written in bijective base two
//! with the lowest digit first.

use vstd::prelude::*;
use crate::error::CodecError;

verus! {

/// `n` copies of `b`.
pub open spec fn repeat(b: u8, n: nat) -> Seq<u8> {
    Seq::new(n, |i: int| b)
}

/// The list with the entry at rank `r` moved to its front.
pub open spec fn move_to_front(list: Seq<u8>, r: int) -> Seq<u8> {
    list.remove(r).insert(0, list[r])
}

/// Decoding in progress: the list of bytes by rank, the bytes given out, and
/// the run of rank zero that is being read: its length so far and the weight
/// of its next digit.
pub struct Unpacking {
    pub list: Seq<u8>,
    pub out: Seq<u8>,
    pub run: nat,
    pub weight: nat,
}

impl Unpacking {
    /// The state before the first symbol, with the bytes in use ascending.
    pub open spec fn start(used: Seq<u8>) -> Unpacking {
        Unpacking { list: used, out: Seq::empty(), run: 0, weight: 1 }
    }

    /// The bytes given out once the run being read is closed.
    pub open spec fn flushed(self) -> Seq<u8> {
        self.out + repeat(self.list[0], self.run)
    }

    /// The state after one more symbol. A digit adds its value, 1 or 2, times
    /// its weight to the run, and doubles the weight. Any other symbol closes
    /// the run, gives out the byte at its rank and moves that byte to the
    /// front.
    pub open spec fn step(self, sym: u16) -> Unpacking {
        if sym < 2 {
            Unpacking {
                list: self.list,
                out: self.out,
                run: self.run + ((sym + 1) as nat) * self.weight,
                weight: 2 * self.weight,
            }
        } else {
            Unpacking {
                list: move_to_front(self.list, sym - 1),
                out: self.flushed().push(self.list[sym - 1]),
                run: 0,
                weight: 1,
            }
        }
    }

    /// The state after the symbols `syms`.
    pub open spec fn after(self, syms: Seq<u16>) -> Unpacking
        decreases syms.len(),
    {
        if syms.len() == 0 {
            self
        } else {
            self.after(syms.drop_last()).step(syms.last())
        }
    }
}

/// The bytes that the symbols `syms` stand for, over the bytes in use `used`.
pub open spec fn unpacked(syms: Seq<u16>, used: Seq<u8>) -> Seq<u8> {
    Unpacking::start(used).after(syms).flushed()
}

/// The symbols stay within the alphabet: some byte is in use, and no symbol
/// stands for a rank beyond the bytes in use.
pub open spec fn within_alphabet(syms: Seq<u16>, used: Seq<u8>) -> bool {
    used.len() >= 1 && forall|i: int| 0 <= i < syms.len() ==> syms[i] <= used.len()
}

/// The bytes that `syms` stand for, or `CorruptData` where a symbol lies
/// beyond the alphabet or the bytes are more than `limit`.
pub open spec fn unpack_checked(syms: Seq<u16>, used: Seq<u8>, limit: nat) -> Result<
    Seq<u8>,
    CodecError,
> {
    if !within_alphabet(syms, used) || unpacked(syms, used).len() > limit {
        Err(CodecError::CorruptData)
    } else {
        Ok(unpacked(syms, used))
    }
}

/// The bytes that the ranks `ranks` stand for, with `list` as the list of
/// bytes by rank at the start.
pub open spec fn ranks_decoded(list: Seq<u8>, ranks: Seq<u8>) -> Seq<u8>
    decreases ranks.len(),
{
    if ranks.len() == 0 {
        Seq::empty()
    } else {
        ranks_decoded(list, ranks.drop_last()).push(
            list_after(list, ranks.drop_last())[ranks.last() as int],
        )
    }
}

/// The list of bytes by rank after the ranks `ranks`.
pub open spec fn list_after(list: Seq<u8>, ranks: Seq<u8>) -> Seq<u8>
    decreases ranks.len(),
{
    if ranks.len() == 0 {
        list
    } else {
        move_to_front(list_after(list, ranks.drop_last()), ranks.last() as int)
    }
}

/// The bytes `0`, `1`, up to `n - 1`.
pub open spec fn identity_list(n: nat) -> Seq<u8> {
    Seq::new(n, |i: int| i as u8)
}

/// The digits of a run of `n` ranks zero, lowest first: `n` in bijective base
/// two, the digit one written as the symbol 0 and the digit two as the
/// symbol 1.
pub open spec fn run_digits(n: nat) -> Seq<u16>
    decreases n,
{
    if n == 0 {
        Seq::empty()
    } else {
        seq![((n - 1) % 2) as u16] + run_digits(((n - 1) / 2) as nat)
    }
}

/// Packing in progress: the symbols written, and the length of the run of
/// rank zero that is open.
pub struct Packing {
    pub syms: Seq<u16>,
    pub run: nat,
}

impl Packing {
    /// The state before the first rank.
    pub open spec fn start() -> Packing {
        Packing { syms: Seq::empty(), run: 0 }
    }

    /// The symbols once the open run is written.
    pub open spec fn closed(self) -> Seq<u16> {
        self.syms + run_digits(self.run)
    }

    /// The state after one more rank: rank zero lengthens the run; any other
    /// rank closes it and is written as the symbol one above it.
    pub open spec fn step(self, rank: u8) -> Packing {
        if rank == 0 {
            Packing { syms: self.syms, run: self.run + 1 }
        } else {
            Packing { syms: self.closed().push((rank + 1) as u16), run: 0 }
        }
    }

    /// The state after the ranks `ranks`.
    pub open spec fn after(self, ranks: Seq<u8>) -> Packing
        decreases ranks.len(),
    {
        if ranks.len() == 0 {
            self
        } else {
            self.after(ranks.drop_last()).step(ranks.last())
        }
    }
}

/// The symbols that stand for the ranks `ranks`.
pub open spec fn packed(ranks: Seq<u8>) -> Seq<u16> {
    Packing::start().after(ranks).closed()
}

/// A single symbol is one step.
pub proof fn lemma_unpack_one(st: Unpacking, sym: u16)
    ensures
        st.after(seq![sym]) == st.step(sym),
{
    let one = seq![sym];
    assert(one.drop_last() =~= Seq::<u16>::empty());
    assert(st.after(one.drop_last()) == st);
}

/// Symbols taken one sequence after another are taken as one sequence.
pub proof fn lemma_unpack_concat(st: Unpacking, a: Seq<u16>, b: Seq<u16>)
    ensures
        st.after(a + b) == st.after(a).after(b),
    decreases b.len(),
{
    if b.len() == 0 {
        assert(a + b =~= a);
    } else {
        lemma_unpack_concat(st, a, b.drop_last());
        assert((a + b).drop_last() =~= a + b.drop_last());
    }
}

/// The digits of `n` add `n` times the weight to the run and leave list and
/// bytes alone.
pub proof fn lemma_unpack_digits(st: Unpacking, n: nat)
    ensures
        st.after(run_digits(n)).list == st.list,
        st.after(run_digits(n)).out == st.out,
        st.after(run_digits(n)).run == st.run + n * st.weight,
    decreases n,
{
    if n > 0 {
        let d = ((n - 1) % 2) as u16;
        let m = ((n - 1) / 2) as nat;
        let first = seq![d];
        lemma_unpack_one(st, d);
        lemma_unpack_concat(st, first, run_digits(m));
        lemma_unpack_digits(st.step(d), m);
        assert(st.run + (d + 1) * st.weight + m * (2 * st.weight) == st.run + n * st.weight)
            by (nonlinear_arith)
            requires
                n - 1 == 2 * m + d,
        ;
    }
}

/// Rank zero leaves the list as it is.
pub proof fn lemma_front_stays(list: Seq<u8>)
    requires
        list.len() >= 1,
    ensures
        move_to_front(list, 0) == list,
{
    assert(list.remove(0).insert(0, list[0]) =~= list);
}

/// The list keeps its length under ranks within it.
pub proof fn lemma_list_len(list: Seq<u8>, ranks: Seq<u8>)
    requires
        list.len() >= 1,
        forall|i: int| 0 <= i < ranks.len() ==> ranks[i] < list.len(),
    ensures
        list_after(list, ranks).len() == list.len(),
    decreases ranks.len(),
{
    if ranks.len() > 0 {
        lemma_list_len(list, ranks.drop_last());
    }
}

/// Behind the symbols written for `ranks`, the decoder holds no open run; its
/// list is the one that the ranks lead to; and its bytes, with the byte at
/// the front added once for each rank of the run still open in the packing,
/// are the bytes that the ranks stand for.
pub proof fn lemma_unpack_follows(ranks: Seq<u8>, used: Seq<u8>)
    requires
        used.len() >= 1,
        forall|i: int| 0 <= i < ranks.len() ==> ranks[i] < used.len(),
    ensures
        ({
            let p = Packing::start().after(ranks);
            let u = Unpacking::start(used).after(p.syms);
            &&& u.run == 0
            &&& u.weight == 1
            &&& u.list == list_after(used, ranks)
            &&& u.out + repeat(u.list[0], p.run) == ranks_decoded(used, ranks)
        }),
    decreases ranks.len(),
{
    let start = Unpacking::start(used);
    if ranks.len() == 0 {
        assert(start.out + repeat(start.list[0], 0) =~= Seq::<u8>::empty());
    } else {
        let front = ranks.drop_last();
        let x = ranks.last();
        lemma_unpack_follows(front, used);
        lemma_list_len(used, front);
        let p0 = Packing::start().after(front);
        let u0 = start.after(p0.syms);
        if x == 0 {
            lemma_front_stays(u0.list);
            assert(u0.out + repeat(u0.list[0], p0.run + 1) =~= (u0.out + repeat(
                u0.list[0],
                p0.run,
            )).push(u0.list[0]));
        } else {
            let sym = (x + 1) as u16;
            let last = seq![sym];
            assert(p0.closed().push(sym) =~= (p0.syms + run_digits(p0.run)) + last);
            lemma_unpack_concat(start, p0.syms + run_digits(p0.run), last);
            lemma_unpack_concat(start, p0.syms, run_digits(p0.run));
            lemma_unpack_digits(u0, p0.run);
            let u1 = u0.after(run_digits(p0.run));
            lemma_unpack_one(u1, sym);
            assert(u1.run == p0.run) by (nonlinear_arith)
                requires
                    u1.run == u0.run + p0.run * u0.weight,
                    u0.run == 0,
                    u0.weight == 1,
            ;
            let u = u1.step(sym);
            assert(u.out + repeat(u.list[0], 0) =~= u.out);
        }
    }
}

/// Unpacking gives back what was packed: the symbols written for a sequence
/// of ranks, with runs of rank zero of any length, stand for the bytes that
/// the ranks stand for.
pub proof fn lemma_unpack_packed(ranks: Seq<u8>, used: Seq<u8>)
    requires
        used.len() >= 1,
        forall|i: int| 0 <= i < ranks.len() ==> ranks[i] < used.len(),
    ensures
        unpacked(packed(ranks), used) == ranks_decoded(used, ranks),
{
    let p = Packing::start().after(ranks);
    let start = Unpacking::start(used);
    lemma_unpack_follows(ranks, used);
    lemma_unpack_concat(start, p.syms, run_digits(p.run));
    let u = start.after(p.syms);
    lemma_unpack_digits(u, p.run);
    assert(u.run + p.run * u.weight == p.run) by (nonlinear_arith)
        requires
            u.run == 0,
            u.weight == 1,
    ;
}

/// The digits of a run are the symbols 0 and 1.
pub proof fn lemma_digits_small(n: nat)
    ensures
        forall|i: int| 0 <= i < run_digits(n).len() ==> #[trigger] run_digits(n)[i] < 2,
    decreases n,
{
    if n > 0 {
        let rest = run_digits(((n - 1) / 2) as nat);
        lemma_digits_small(((n - 1) / 2) as nat);
        assert forall|i: int| 0 <= i < run_digits(n).len() implies #[trigger] run_digits(n)[i]
            < 2 by {
            if i > 0 {
                assert(run_digits(n)[i] == rest[i - 1]);
            }
        }
    }
}

/// Ranks within the list are written as symbols within the alphabet.
pub proof fn lemma_packed_within(ranks: Seq<u8>, bound: int)
    requires
        bound >= 1,
        forall|i: int| 0 <= i < ranks.len() ==> ranks[i] < bound,
    ensures
        forall|i: int|
            0 <= i < Packing::start().after(ranks).syms.len() ==> #[trigger] Packing::start().after(
                ranks,
            ).syms[i] <= bound,
        forall|i: int| 0 <= i < packed(ranks).len() ==> #[trigger] packed(ranks)[i] <= bound,
    decreases ranks.len(),
{
    if ranks.len() > 0 {
        let front = ranks.drop_last();
        lemma_packed_within(front, bound);
        lemma_digits_small(Packing::start().after(front).run);
    }
    lemma_digits_small(Packing::start().after(ranks).run);
}

/// Each rank stands for one byte.
pub proof fn lemma_ranks_decoded_len(list: Seq<u8>, ranks: Seq<u8>)
    ensures
        ranks_decoded(list, ranks).len() == ranks.len(),
    decreases ranks.len(),
{
    if ranks.len() > 0 {
        lemma_ranks_decoded_len(list, ranks.drop_last());
    }
}

/// Unpacking accepts what was packed: the symbols written for ranks within
/// the list stay within the alphabet, and where the ranks are no more than
/// `limit`, unpacking gives the bytes that the ranks stand for.
pub proof fn lemma_unpack_checked_packed(ranks: Seq<u8>, used: Seq<u8>, limit: nat)
    requires
        used.len() >= 1,
        forall|i: int| 0 <= i < ranks.len() ==> ranks[i] < used.len(),
        ranks.len() <= limit,
    ensures
        within_alphabet(packed(ranks), used),
        unpack_checked(packed(ranks), used, limit) == Ok::<Seq<u8>, CodecError>(
            ranks_decoded(used, ranks),
        ),
{
    lemma_packed_within(ranks, used.len() as int);
    lemma_unpack_packed(ranks, used);
    lemma_ranks_decoded_len(used, ranks);
}

/// More symbols never take bytes back.
pub proof fn lemma_unpack_grows(st: Unpacking, syms: Seq<u16>, i: int)
    requires
        0 <= i <= syms.len(),
    ensures
        st.after(syms.take(i)).flushed().len() <= st.after(syms).flushed().len(),
    decreases syms.len() - i,
{
    if i < syms.len() {
        lemma_unpack_grows(st, syms, i + 1);
        assert(syms.take(i + 1).drop_last() =~= syms.take(i));
    } else {
        assert(syms.take(i) =~= syms);
    }
}

/// Turns symbols into bytes: ranks are looked up in the list of bytes in use,
/// which `used` gives ascending, and runs of rank zero are written out.
pub fn unpack(syms: &[u16], used: &[u8], limit: usize) -> (r: Result<Vec<u8>, CodecError>)
    ensures
        match r {
            Ok(v) => unpack_checked(syms@, used@, limit as nat) == Ok::<Seq<u8>, CodecError>(v@),
            Err(e) => unpack_checked(syms@, used@, limit as nat) == Err::<Seq<u8>, CodecError>(e),
        },
{
    if used.len() == 0 {
        return Err(CodecError::CorruptData);
    }
    let mut list: Vec<u8> = Vec::new();
    let mut j: usize = 0;
    while j < used.len()
        invariant
            j <= used@.len(),
            list@ == used@.subrange(0, j as int),
        decreases used@.len() - j,
    {
        list.push(used[j]);
        assert(list@ =~= used@.subrange(0, j as int + 1));
        j += 1;
    }
    assert(list@ =~= used@);
    let mut out: Vec<u8> = Vec::new();
    let mut run: usize = 0;
    let mut weight: u128 = 1;
    let ghost start = Unpacking::start(used@);
    let mut i: usize = 0;
    assert(syms@.take(0) =~= Seq::<u16>::empty());
    while i < syms.len()
        invariant
            i <= syms@.len(),
            1 <= used@.len(),
            forall|k: int| 0 <= k < i ==> syms@[k] <= used@.len(),
            start == Unpacking::start(used@),
            list@.len() == used@.len(),
            list@ == start.after(syms@.take(i as int)).list,
            out@ == start.after(syms@.take(i as int)).out,
            run == start.after(syms@.take(i as int)).run,
            weight == start.after(syms@.take(i as int)).weight,
            out@.len() + run <= limit,
            1 <= weight <= 2 * limit + 1,
        decreases syms@.len() - i,
    {
        let sym: u16 = syms[i];
        let ghost before = start.after(syms@.take(i as int));
        proof {
            assert(syms@.take(i + 1).drop_last() =~= syms@.take(i as int));
            assert(start.after(syms@.take(i + 1)) == before.step(sym));
            lemma_unpack_grows(start, syms@, i + 1);
        }
        if sym < 2 {
            if weight > limit as u128 {
                assert(before.step(sym).run >= weight) by (nonlinear_arith)
                    requires
                        before.step(sym).run == before.run + ((sym + 1) as nat) * before.weight,
                        before.weight == weight,
                ;
                return Err(CodecError::CorruptData);
            }
            let digit: u128 = if sym == 0 {
                1
            } else {
                2
            };
            assert(digit * weight <= 2 * limit) by (nonlinear_arith)
                requires
                    digit <= 2,
                    weight <= limit,
            ;
            let longer: u128 = run as u128 + digit * weight;
            weight = 2 * weight;
            if longer > (limit - out.len()) as u128 {
                return Err(CodecError::CorruptData);
            }
            run = longer as usize;
        } else {
            let rank: usize = (sym - 1) as usize;
            if rank >= list.len() {
                return Err(CodecError::CorruptData);
            }
            if run >= limit - out.len() {
                assert(before.step(sym).flushed().len() == before.out.len() + before.run + 1);
                return Err(CodecError::CorruptData);
            }
            let zero: u8 = list[0];
            let ghost base = out@;
            let mut k: usize = 0;
            while k < run
                invariant
                    k <= run,
                    out@ == base + repeat(zero, k as nat),
                decreases run - k,
            {
                out.push(zero);
                assert(out@ =~= base + repeat(zero, (k + 1) as nat));
                k += 1;
            }
            let b: u8 = list.remove(rank);
            list.insert(0, b);
            out.push(b);
            run = 0;
            weight = 1;
        }
        i += 1;
    }
    assert(syms@.take(i as int) =~= syms@);
    let zero: u8 = list[0];
    let ghost base = out@;
    let mut k: usize = 0;
    while k < run
        invariant
            k <= run,
            out@ == base + repeat(zero, k as nat),
        decreases run - k,
    {
        out.push(zero);
        assert(out@ =~= base + repeat(zero, (k + 1) as nat));
        k += 1;
    }
    Ok(out)
}

/// Turns ranks into bytes, starting from the list `0`, `1`, up to
/// `count - 1`.
pub fn decode_ranks(ranks: &[u8], count: usize) -> (r: Vec<u8>)
    requires
        1 <= count <= 256,
        forall|i: int| 0 <= i < ranks@.len() ==> ranks@[i] < count,
    ensures
        r@ == ranks_decoded(identity_list(count as nat), ranks@),
        r@.len() == ranks@.len(),
        forall|i: int| 0 <= i < r@.len() ==> r@[i] < count,
{
    let mut list: Vec<u8> = Vec::new();
    let mut j: usize = 0;
    while j < count
        invariant
            j <= count <= 256,
            list@ == identity_list(j as nat),
        decreases count - j,
    {
        list.push(j as u8);
        assert(list@ =~= identity_list((j + 1) as nat));
        j += 1;
    }
    let ghost first = identity_list(count as nat);
    let mut out: Vec<u8> = Vec::new();
    let mut i: usize = 0;
    assert(ranks@.take(0) =~= Seq::<u8>::empty());
    while i < ranks.len()
        invariant
            i <= ranks@.len(),
            1 <= count <= 256,
            forall|k: int| 0 <= k < ranks@.len() ==> ranks@[k] < count,
            first == identity_list(count as nat),
            list@.len() == count,
            list@ == list_after(first, ranks@.take(i as int)),
            out@ == ranks_decoded(first, ranks@.take(i as int)),
            out@.len() == i,
            forall|k: int| 0 <= k < count ==> #[trigger] list@[k] < count,
            forall|k: int| 0 <= k < out@.len() ==> out@[k] < count,
        decreases ranks@.len() - i,
    {
        proof {
            assert(ranks@.take(i + 1).drop_last() =~= ranks@.take(i as int));
        }
        let rank: usize = ranks[i] as usize;
        let ghost old_list = list@;
        let b: u8 = list.remove(rank);
        list.insert(0, b);
        assert forall|k: int| 0 <= k < count implies #[trigger] list@[k] < count by {
            if k == 0 {
            } else if k <= rank {
                assert(list@[k] == old_list[k - 1]);
            } else {
                assert(list@[k] == old_list[k]);
            }
        }
        out.push(b);
        i += 1;
    }
    assert(ranks@.take(i as int) =~= ranks@);
    out
}

} // verus!
