//! The inverse of the Burrows-Wheeler transform.
//!
//! The rotations of a block, sorted, form a matrix. The transform keeps its
//! last column and the row that holds the block itself. The byte in front of
//! a row's last byte is the last byte of another row, and that row is found
//! by counting.

use vstd::prelude::*;
use crate::error::CodecError;

verus! {

/// The number of places below `upto` that hold the byte `c`.
pub open spec fn occurrences(last: Seq<u8>, c: int, upto: int) -> nat
    decreases upto,
{
    if upto <= 0 {
        0
    } else {
        occurrences(last, c, upto - 1) + if last[upto - 1] == c {
            1nat
        } else {
            0nat
        }
    }
}

/// The number of places that hold a byte below `c`.
pub open spec fn smaller(last: Seq<u8>, c: int) -> nat
    decreases c,
{
    if c <= 0 {
        0
    } else {
        smaller(last, c - 1) + occurrences(last, c - 1, last.len() as int)
    }
}

/// The row whose rotation starts with the last byte of row `i`: the rows
/// that start with a smaller byte come first, and among the rows that start
/// with the same byte the order is that of the last column.
pub open spec fn lf(last: Seq<u8>, i: int) -> int {
    (smaller(last, last[i] as int) + occurrences(last, last[i] as int, i)) as int
}

/// The row reached from `origin` in `k` steps.
pub open spec fn row_back(last: Seq<u8>, origin: int, k: nat) -> int
    decreases k,
{
    if k == 0 {
        origin
    } else {
        lf(last, row_back(last, origin, (k - 1) as nat))
    }
}

/// The block whose transform has the last column `last` and the origin
/// pointer `origin`: its last byte ends row `origin`, and each byte before
/// ends the row one step further.
pub open spec fn inverse_bwt(last: Seq<u8>, origin: int) -> Seq<u8> {
    Seq::new(last.len(), |j: int| last[row_back(last, origin, (last.len() - 1 - j) as nat)])
}

/// Undoing the transform: `InvalidBlock` where the origin pointer lies
/// outside the block.
pub open spec fn invert_checked(last: Seq<u8>, origin: int) -> Result<Seq<u8>, CodecError> {
    if 0 <= origin < last.len() {
        Ok(inverse_bwt(last, origin))
    } else {
        Err(CodecError::InvalidBlock)
    }
}

/// The number of places below `upto` that hold a byte below `c`.
pub open spec fn smaller_upto(last: Seq<u8>, c: int, upto: int) -> nat
    decreases c,
{
    if c <= 0 {
        0
    } else {
        smaller_upto(last, c - 1, upto) + occurrences(last, c - 1, upto)
    }
}

/// Counting the smaller bytes place by place.
pub proof fn lemma_smaller_step(last: Seq<u8>, c: int, upto: int)
    requires
        0 < upto,
    ensures
        smaller_upto(last, c, upto) == smaller_upto(last, c, upto - 1) + if last[upto - 1] < c {
            1nat
        } else {
            0nat
        },
    decreases c,
{
    if c > 0 {
        lemma_smaller_step(last, c - 1, upto);
    }
}

/// The bytes below `c` and the bytes equal to `c` fill no more places than
/// were counted.
pub proof fn lemma_smaller_bound(last: Seq<u8>, c: int, upto: int)
    requires
        0 <= upto,
    ensures
        smaller_upto(last, c, upto) + occurrences(last, c, upto) <= upto,
    decreases upto,
{
    if upto <= 0 {
        lemma_smaller_zero(last, c);
    } else {
        lemma_smaller_bound(last, c, upto - 1);
        lemma_smaller_step(last, c, upto);
    }
}

/// Nothing is counted below the first place.
pub proof fn lemma_smaller_zero(last: Seq<u8>, c: int)
    ensures
        smaller_upto(last, c, 0) == 0,
    decreases c,
{
    if c > 0 {
        lemma_smaller_zero(last, c - 1);
    }
}

/// Counted over the whole column, `smaller_upto` is `smaller`.
pub proof fn lemma_smaller_whole(last: Seq<u8>, c: int)
    ensures
        smaller_upto(last, c, last.len() as int) == smaller(last, c),
    decreases c,
{
    if c > 0 {
        lemma_smaller_whole(last, c - 1);
    }
}

/// A count grows with the places counted.
pub proof fn lemma_occurrences_grow(last: Seq<u8>, c: int, i: int, j: int)
    requires
        i <= j,
    ensures
        occurrences(last, c, i) <= occurrences(last, c, j),
    decreases j - i,
{
    if i < j {
        lemma_occurrences_grow(last, c, i, j - 1);
    }
}

/// Each row leads to a row of the matrix.
pub proof fn lemma_lf_in_range(last: Seq<u8>, i: int)
    requires
        0 <= i < last.len(),
    ensures
        0 <= lf(last, i) < last.len(),
{
    let c = last[i] as int;
    lemma_occurrences_grow(last, c, i + 1, last.len() as int);
    lemma_smaller_bound(last, c, last.len() as int);
    lemma_smaller_whole(last, c);
}

/// Rebuilds a block from the last column of its sorted rotations and the
/// origin pointer.
pub fn invert(last: &[u8], origin: usize) -> (r: Result<Vec<u8>, CodecError>)
    ensures
        match r {
            Ok(v) => invert_checked(last@, origin as int) == Ok::<Seq<u8>, CodecError>(v@),
            Err(e) => invert_checked(last@, origin as int) == Err::<Seq<u8>, CodecError>(e),
        },
{
    let n: usize = last.len();
    if origin >= n {
        return Err(CodecError::InvalidBlock);
    }
    let mut counts: Vec<usize> = Vec::new();
    let mut c: usize = 0;
    while c < 256
        invariant
            c <= 256,
            counts@.len() == c,
            forall|k: int| 0 <= k < c ==> #[trigger] counts@[k] == 0,
        decreases 256 - c,
    {
        counts.push(0);
        c += 1;
    }
    let mut i: usize = 0;
    while i < n
        invariant
            i <= n,
            n == last@.len(),
            counts@.len() == 256,
            forall|k: int| 0 <= k < 256 ==> #[trigger] counts@[k] == occurrences(last@, k, i as int),
        decreases n - i,
    {
        let b: usize = last[i] as usize;
        proof {
            lemma_smaller_bound(last@, b as int, i as int);
        }
        let v: usize = counts[b];
        counts.set(b, v + 1);
        i += 1;
    }
    let mut next: Vec<usize> = Vec::new();
    let mut sum: usize = 0;
    let mut c: usize = 0;
    while c < 256
        invariant
            c <= 256,
            n == last@.len(),
            counts@.len() == 256,
            next@.len() == c,
            sum == smaller(last@, c as int),
            forall|k: int| 0 <= k < 256 ==> #[trigger] counts@[k] == occurrences(last@, k, n as int),
            forall|k: int| 0 <= k < c ==> #[trigger] next@[k] == smaller(last@, k),
        decreases 256 - c,
    {
        proof {
            lemma_smaller_bound(last@, c as int, n as int);
            lemma_smaller_whole(last@, c as int);
        }
        next.push(sum);
        sum = sum + counts[c];
        c += 1;
    }
    let mut rows: Vec<usize> = Vec::new();
    let mut i: usize = 0;
    while i < n
        invariant
            i <= n,
            n == last@.len(),
            next@.len() == 256,
            rows@.len() == i,
            forall|k: int|
                0 <= k < 256 ==> #[trigger] next@[k] == smaller(last@, k) + occurrences(
                    last@,
                    k,
                    i as int,
                ),
            forall|k: int| 0 <= k < i ==> #[trigger] rows@[k] == lf(last@, k),
        decreases n - i,
    {
        let b: usize = last[i] as usize;
        proof {
            lemma_lf_in_range(last@, i as int);
        }
        let row: usize = next[b];
        rows.push(row);
        next.set(b, row + 1);
        i += 1;
    }
    let mut out: Vec<u8> = Vec::new();
    let mut k: usize = 0;
    while k < n
        invariant
            k <= n,
            out@.len() == k,
        decreases n - k,
    {
        out.push(0);
        k += 1;
    }
    let mut row: usize = origin;
    let mut k: usize = 0;
    while k < n
        invariant
            k <= n,
            n == last@.len(),
            rows@.len() == n,
            out@.len() == n,
            row < n,
            row == row_back(last@, origin as int, k as nat),
            forall|j: int| 0 <= j < n ==> #[trigger] rows@[j] == lf(last@, j),
            forall|j: int|
                n - k <= j < n ==> #[trigger] out@[j] == last@[row_back(
                    last@,
                    origin as int,
                    (n - 1 - j) as nat,
                )],
        decreases n - k,
    {
        proof {
            lemma_lf_in_range(last@, row as int);
        }
        out.set(n - 1 - k, last[row]);
        row = rows[row];
        k += 1;
    }
    assert(out@ =~= inverse_bwt(last@, origin as int));
    Ok(out)
}

} // verus!
