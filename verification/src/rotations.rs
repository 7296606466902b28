//! The Burrows-Wheeler transform as a definition: the rotations of a block in
//! lexicographic order, the last byte of each, and the place of the block
//! itself among them. The inverse in `bwt` gives the block back.

use vstd::prelude::*;
use vstd::relations::injective_on;
use vstd::set_lib::*;
use crate::bwt::{inverse_bwt, lemma_lf_in_range, lf, occurrences, row_back, smaller};

verus! {

/// The start of the rotation that begins one byte earlier.
pub open spec fn before(n: int, i: int) -> int {
    if i == 0 {
        n - 1
    } else {
        i - 1
    }
}

/// Byte `k` of the rotation of `s` that starts at `i`.
pub open spec fn at(s: Seq<u8>, i: int, k: int) -> u8 {
    if i + k < s.len() {
        s[i + k]
    } else {
        s[i + k - s.len()]
    }
}

/// The rotation from `i` does not come behind the rotation from `j`, judged
/// by their bytes from `k` up to `e`.
pub open spec fn le_between(s: Seq<u8>, i: int, j: int, k: int, e: int) -> bool
    decreases e - k,
{
    if k >= e {
        true
    } else if at(s, i, k) < at(s, j, k) {
        true
    } else if at(s, i, k) > at(s, j, k) {
        false
    } else {
        le_between(s, i, j, k + 1, e)
    }
}

/// The rotation from `i` does not come behind the rotation from `j` in
/// lexicographic order.
pub open spec fn rot_le(s: Seq<u8>, i: int, j: int) -> bool {
    le_between(s, i, j, 0, s.len() as int)
}

/// The rotations from `i` and from `j` are the same string.
pub open spec fn rot_eq(s: Seq<u8>, i: int, j: int) -> bool {
    forall|k: int| 0 <= k < s.len() ==> #[trigger] at(s, i, k) == at(s, j, k)
}

/// Rotations that do not come behind each other agree.
pub proof fn lemma_le_antisym(s: Seq<u8>, i: int, j: int, k: int, e: int)
    requires
        le_between(s, i, j, k, e),
        le_between(s, j, i, k, e),
    ensures
        forall|m: int| k <= m < e ==> #[trigger] at(s, i, m) == at(s, j, m),
    decreases e - k,
{
    if k < e {
        lemma_le_antisym(s, i, j, k + 1, e);
    }
}

/// Rotations that agree do not come behind each other.
pub proof fn lemma_le_of_eq(s: Seq<u8>, i: int, j: int, k: int, e: int)
    requires
        forall|m: int| k <= m < e ==> #[trigger] at(s, i, m) == at(s, j, m),
    ensures
        le_between(s, i, j, k, e),
    decreases e - k,
{
    if k < e {
        assert(at(s, i, k) == at(s, j, k));
        lemma_le_of_eq(s, i, j, k + 1, e);
    }
}

/// The order of rotations is transitive.
pub proof fn lemma_le_trans(s: Seq<u8>, a: int, b: int, c: int, k: int, e: int)
    requires
        le_between(s, a, b, k, e),
        le_between(s, b, c, k, e),
    ensures
        le_between(s, a, c, k, e),
    decreases e - k,
{
    if k < e {
        if at(s, a, k) == at(s, b, k) && at(s, b, k) == at(s, c, k) {
            lemma_le_trans(s, a, b, c, k + 1, e);
        }
    }
}

/// An equal byte at the end does not change the order.
pub proof fn lemma_le_drop_last(s: Seq<u8>, i: int, j: int, k: int, e: int)
    requires
        k < e,
        at(s, i, e - 1) == at(s, j, e - 1),
    ensures
        le_between(s, i, j, k, e) == le_between(s, i, j, k, e - 1),
    decreases e - k,
{
    if k + 1 < e {
        lemma_le_drop_last(s, i, j, k + 1, e);
    } else {
        assert(le_between(s, i, j, k + 1, e));
        assert(le_between(s, i, j, k, e - 1));
    }
}

/// Behind their first byte, the rotations that begin one byte earlier are
/// ordered as the rotations themselves without their last byte.
pub proof fn lemma_le_shift(s: Seq<u8>, i: int, j: int, k: int)
    requires
        0 <= i < s.len(),
        0 <= j < s.len(),
        0 <= k < s.len(),
    ensures
        le_between(s, before(s.len() as int, i), before(s.len() as int, j), k + 1, s.len() as int)
            == le_between(s, i, j, k, s.len() - 1),
    decreases s.len() - k,
{
    if k + 1 < s.len() {
        lemma_le_shift(s, i, j, k + 1);
    }
}

/// The rotations that begin one byte earlier are ordered by that byte first,
/// and where it is the same, as the rotations themselves.
pub proof fn lemma_le_before(s: Seq<u8>, i: int, j: int)
    requires
        0 <= i < s.len(),
        0 <= j < s.len(),
    ensures
        ({
            let n = s.len() as int;
            let a = s[before(n, i)];
            let b = s[before(n, j)];
            &&& a < b ==> rot_le(s, before(n, i), before(n, j)) && !rot_le(
                s,
                before(n, j),
                before(n, i),
            )
            &&& a == b ==> rot_le(s, before(n, i), before(n, j)) == rot_le(s, i, j)
        }),
{
    let n = s.len() as int;
    let a = s[before(n, i)];
    let b = s[before(n, j)];
    assert(at(s, before(n, i), 0) == a);
    assert(at(s, before(n, j), 0) == b);
    if a == b {
        lemma_le_shift(s, i, j, 0);
        assert(at(s, i, n - 1) == a);
        assert(at(s, j, n - 1) == b);
        lemma_le_drop_last(s, i, j, 0, n);
    }
}

/// The rotations of `s` in order: `order` names the start of each rotation
/// once, and no rotation comes behind a later one. Equal rotations may stand
/// in any order.
pub open spec fn is_sorted_order(s: Seq<u8>, order: Seq<int>) -> bool {
    &&& order.len() == s.len()
    &&& forall|k: int| 0 <= k < order.len() ==> 0 <= #[trigger] order[k] < s.len()
    &&& forall|a: int, b: int|
        0 <= a < b < order.len() ==> #[trigger] order[a] != #[trigger] order[b]
    &&& forall|a: int, b: int|
        0 <= a <= b < order.len() ==> rot_le(s, #[trigger] order[a], #[trigger] order[b])
}

/// The last byte of each rotation, in the order of the rotations.
pub open spec fn last_column(s: Seq<u8>, order: Seq<int>) -> Seq<u8> {
    Seq::new(s.len(), |k: int| s[before(s.len() as int, order[k])])
}

/// The numbers below `n` of which `p` holds.
pub open spec fn those(n: int, p: spec_fn(int) -> bool) -> Set<int> {
    Set::new(|i: int| 0 <= i < n && p(i))
}

/// The rows of whose rotation `p` holds.
pub open spec fn those_rows(order: Seq<int>, p: spec_fn(int) -> bool) -> Set<int> {
    Set::new(|k: int| 0 <= k < order.len() && p(order[k]))
}

/// The rows for which `p` holds of the rotation that begins one byte earlier.
pub open spec fn those_rows_before(order: Seq<int>, p: spec_fn(int) -> bool) -> Set<int> {
    Set::new(|k: int| 0 <= k < order.len() && p(before(order.len() as int, order[k])))
}

/// The row of the rotation that starts at `i`.
pub open spec fn row_of(order: Seq<int>, i: int) -> int {
    choose|k: int| 0 <= k < order.len() && order[k] == i
}

/// A set of numbers below `n` is finite and holds at most `n`.
pub proof fn lemma_below_finite(x: Set<int>, n: int)
    requires
        0 <= n,
        forall|i: int| x.contains(i) ==> 0 <= i < n,
    ensures
        x.finite(),
        x.len() <= n,
{
    lemma_int_range(0, n);
    lemma_len_subset(x, set_int_range(0, n));
}

/// Each rotation has its row.
pub proof fn lemma_order_onto(s: Seq<u8>, order: Seq<int>)
    requires
        is_sorted_order(s, order),
    ensures
        forall|i: int|
            0 <= i < s.len() ==> 0 <= #[trigger] row_of(order, i) < s.len() && order[row_of(
                order,
                i,
            )] == i,
{
    let n = s.len() as int;
    let x = set_int_range(0, n);
    let f = |k: int| order[k];
    let y = x.map(f);
    lemma_int_range(0, n);
    assert(injective_on(f, x)) by {
        assert forall|a: int, b: int|
            x.contains(a) && x.contains(b) && #[trigger] f(a) == #[trigger] f(b) implies a
            == b by {
            if a < b {
                assert(order[a] != order[b]);
            } else if b < a {
                assert(order[b] != order[a]);
            }
        }
    }
    lemma_map_size(x, y, f);
    assert(y.subset_of(x)) by {
        assert forall|b: int| y.contains(b) implies x.contains(b) by {
            let a = choose|a: int| x.contains(a) && b == f(a);
            assert(0 <= order[a] < n);
        }
    }
    lemma_subset_equality(y, x);
    assert forall|i: int| 0 <= i < n implies 0 <= #[trigger] row_of(order, i) < n && order[row_of(
        order,
        i,
    )] == i by {
        assert(y.contains(i));
        let a = choose|a: int| x.contains(a) && i == f(a);
        assert(0 <= a < order.len() && order[a] == i);
    }
}

/// As many rows have a rotation of which `p` holds as there are rotations of
/// which `p` holds.
pub proof fn lemma_count_rows(s: Seq<u8>, order: Seq<int>, p: spec_fn(int) -> bool)
    requires
        is_sorted_order(s, order),
    ensures
        those_rows(order, p).finite(),
        those_rows(order, p).len() == those(s.len() as int, p).len(),
{
    let n = s.len() as int;
    let x = those_rows(order, p);
    let y = those(n, p);
    let f = |k: int| order[k];
    lemma_below_finite(x, n);
    lemma_order_onto(s, order);
    assert(injective_on(f, x)) by {
        assert forall|a: int, b: int|
            x.contains(a) && x.contains(b) && #[trigger] f(a) == #[trigger] f(b) implies a
            == b by {
            if a < b {
                assert(order[a] != order[b]);
            } else if b < a {
                assert(order[b] != order[a]);
            }
        }
    }
    assert(x.map(f) =~= y) by {
        assert forall|b: int| y.contains(b) implies x.map(f).contains(b) by {
            let a = row_of(order, b);
            assert(x.contains(a) && b == f(a));
        }
        assert forall|b: int| x.map(f).contains(b) implies y.contains(b) by {
            let a = choose|a: int| x.contains(a) && b == f(a);
            assert(0 <= order[a] < n);
        }
    }
    lemma_map_size(x, y, f);
}

/// As many rotations have `p` hold of the rotation one byte earlier as there
/// are rotations of which `p` holds.
pub proof fn lemma_count_before(n: int, p: spec_fn(int) -> bool)
    requires
        1 <= n,
    ensures
        those(n, |i: int| p(before(n, i))).len() == those(n, p).len(),
{
    let q = |i: int| p(before(n, i));
    let x = those(n, q);
    let y = those(n, p);
    let f = |i: int| before(n, i);
    lemma_below_finite(x, n);
    assert(injective_on(f, x));
    assert(x.map(f) =~= y) by {
        assert forall|b: int| y.contains(b) implies x.map(f).contains(b) by {
            let a = if b == n - 1 {
                0
            } else {
                b + 1
            };
            assert(x.contains(a) && b == f(a));
        }
        assert forall|b: int| x.map(f).contains(b) implies y.contains(b) by {
            let a = choose|a: int| x.contains(a) && b == f(a);
            assert(q(a));
        }
    }
    lemma_map_size(x, y, f);
}

/// As many rows have `p` hold of the rotation one byte earlier as have `p`
/// hold of their own.
pub proof fn lemma_count_rows_before(s: Seq<u8>, order: Seq<int>, p: spec_fn(int) -> bool)
    requires
        1 <= s.len(),
        is_sorted_order(s, order),
    ensures
        those_rows_before(order, p).finite(),
        those_rows(order, p).finite(),
        those_rows_before(order, p).len() == those_rows(order, p).len(),
{
    let n = s.len() as int;
    let q = |i: int| p(before(n, i));
    assert(those_rows(order, q) =~= those_rows_before(order, p));
    lemma_count_rows(s, order, q);
    lemma_count_before(n, p);
    assert(those(n, |i: int| p(before(n, i))) =~= those(n, q));
    lemma_count_rows(s, order, p);
}

/// The places below `upto` that hold the byte `c`.
pub open spec fn places(last: Seq<u8>, c: int, upto: int) -> Set<int> {
    Set::new(|j: int| 0 <= j < upto && last[j] == c)
}

/// The places that hold a byte below `c`.
pub open spec fn places_below(last: Seq<u8>, c: int) -> Set<int> {
    Set::new(|j: int| 0 <= j < last.len() && last[j] < c)
}

/// `occurrences` counts the places that hold the byte.
pub proof fn lemma_occurrences_len(last: Seq<u8>, c: int, upto: int)
    requires
        0 <= upto,
    ensures
        places(last, c, upto).finite(),
        places(last, c, upto).len() == occurrences(last, c, upto),
    decreases upto,
{
    if upto == 0 {
        assert(places(last, c, upto) =~= Set::<int>::empty());
    } else {
        lemma_occurrences_len(last, c, upto - 1);
        if last[upto - 1] == c {
            assert(places(last, c, upto) =~= places(last, c, upto - 1).insert(upto - 1));
        } else {
            assert(places(last, c, upto) =~= places(last, c, upto - 1));
        }
    }
}

/// `smaller` counts the places that hold a smaller byte.
pub proof fn lemma_smaller_len(last: Seq<u8>, c: int)
    ensures
        places_below(last, c).finite(),
        places_below(last, c).len() == smaller(last, c),
    decreases c,
{
    if c <= 0 {
        assert(places_below(last, c) =~= Set::<int>::empty());
    } else {
        lemma_smaller_len(last, c - 1);
        lemma_occurrences_len(last, c - 1, last.len() as int);
        let a = places_below(last, c - 1);
        let b = places(last, c - 1, last.len() as int);
        assert(places_below(last, c) =~= a + b);
        assert(a.disjoint(b));
        lemma_set_disjoint_lens(a, b);
    }
}

/// The rows whose rotation comes before the rotation that begins one byte
/// earlier than that of row `k`.
pub open spec fn rows_below(s: Seq<u8>, order: Seq<int>, k: int) -> Set<int> {
    Set::new(
        |m: int| 0 <= m < order.len() && !rot_le(s, before(s.len() as int, order[k]), order[m]),
    )
}

/// The rows whose rotation does not come behind the rotation that begins one
/// byte earlier than that of row `k`.
pub open spec fn rows_up_to(s: Seq<u8>, order: Seq<int>, k: int) -> Set<int> {
    Set::new(
        |m: int| 0 <= m < order.len() && rot_le(s, order[m], before(s.len() as int, order[k])),
    )
}

/// No more rows come before the rotation one byte earlier than that of row
/// `k` than `lf` counts.
pub proof fn lemma_lf_lower(s: Seq<u8>, order: Seq<int>, k: int)
    requires
        1 <= s.len(),
        is_sorted_order(s, order),
        0 <= k < s.len(),
    ensures
        rows_below(s, order, k).finite(),
        rows_below(s, order, k).len() <= lf(last_column(s, order), k),
{
    let n = s.len() as int;
    let last = last_column(s, order);
    let c = last[k] as int;
    let tb = before(n, order[k]);
    let p = |i: int| !rot_le(s, tb, i);
    assert(those_rows(order, p) =~= rows_below(s, order, k));
    lemma_count_rows_before(s, order, p);
    let pre = those_rows_before(order, p);
    let lo = places_below(last, c);
    let eq = places(last, c, k);
    lemma_smaller_len(last, c);
    lemma_occurrences_len(last, c, k);
    assert(lo.disjoint(eq));
    lemma_set_disjoint_lens(lo, eq);
    assert(pre.subset_of(lo + eq)) by {
        assert forall|j: int| pre.contains(j) implies (lo + eq).contains(j) by {
            lemma_le_before(s, order[k], order[j]);
            if last[j] == c {
                if k <= j {
                    assert(rot_le(s, order[k], order[j]));
                }
            }
        }
    }
    lemma_len_subset(pre, lo + eq);
}

/// More rows than `lf` counts do not come behind the rotation one byte
/// earlier than that of row `k`.
pub proof fn lemma_lf_upper(s: Seq<u8>, order: Seq<int>, k: int)
    requires
        1 <= s.len(),
        is_sorted_order(s, order),
        0 <= k < s.len(),
    ensures
        rows_up_to(s, order, k).finite(),
        lf(last_column(s, order), k) < rows_up_to(s, order, k).len(),
{
    let n = s.len() as int;
    let last = last_column(s, order);
    let c = last[k] as int;
    let tb = before(n, order[k]);
    let p = |i: int| rot_le(s, i, tb);
    assert(those_rows(order, p) =~= rows_up_to(s, order, k));
    lemma_count_rows_before(s, order, p);
    let pre = those_rows_before(order, p);
    let lo = places_below(last, c);
    let eq = places(last, c, k);
    lemma_smaller_len(last, c);
    lemma_occurrences_len(last, c, k);
    assert(lo.disjoint(eq));
    lemma_set_disjoint_lens(lo, eq);
    let all = (lo + eq).insert(k);
    assert(!(lo + eq).contains(k));
    assert(all.subset_of(pre)) by {
        assert forall|j: int| all.contains(j) implies pre.contains(j) by {
            lemma_le_before(s, order[j], order[k]);
            if j == k {
                lemma_le_of_eq(s, tb, tb, 0, n);
            } else if last[j] == c {
                assert(rot_le(s, order[j], order[k]));
            }
        }
    }
    lemma_len_subset(all, pre);
}

/// The row that `lf` leads to from row `k` holds the rotation that begins
/// one byte earlier than that of row `k`, or one equal to it.
pub proof fn lemma_lf_row(s: Seq<u8>, order: Seq<int>, k: int)
    requires
        1 <= s.len(),
        is_sorted_order(s, order),
        0 <= k < s.len(),
    ensures
        0 <= lf(last_column(s, order), k) < s.len(),
        rot_eq(s, order[lf(last_column(s, order), k)], before(s.len() as int, order[k])),
{
    let n = s.len() as int;
    let last = last_column(s, order);
    let tb = before(n, order[k]);
    lemma_lf_in_range(last, k);
    let r = lf(last, k);
    lemma_lf_lower(s, order, k);
    lemma_lf_upper(s, order, k);
    if !rot_le(s, tb, order[r]) {
        let below = rows_below(s, order, k);
        let first = set_int_range(0, r + 1);
        lemma_int_range(0, r + 1);
        assert(first.subset_of(below)) by {
            assert forall|m: int| first.contains(m) implies below.contains(m) by {
                assert(rot_le(s, order[m], order[r]));
                if rot_le(s, tb, order[m]) {
                    lemma_le_trans(s, tb, order[m], order[r], 0, n);
                }
            }
        }
        lemma_len_subset(first, below);
        assert(false);
    }
    if !rot_le(s, order[r], tb) {
        let upto = rows_up_to(s, order, k);
        let first = set_int_range(0, r);
        lemma_int_range(0, r);
        assert(upto.subset_of(first)) by {
            assert forall|m: int| upto.contains(m) implies first.contains(m) by {
                if r <= m {
                    assert(rot_le(s, order[r], order[m]));
                    lemma_le_trans(s, order[r], order[m], tb, 0, n);
                }
            }
        }
        lemma_len_subset(upto, first);
        assert(false);
    }
    lemma_le_antisym(s, order[r], tb, 0, n);
}

/// The start of the rotation that begins `j` bytes before the block.
pub open spec fn back(n: int, j: nat) -> int
    decreases j,
{
    if j == 0 {
        0
    } else {
        before(n, back(n, (j - 1) as nat))
    }
}

/// Equal rotations stay equal when both begin one byte earlier.
pub proof fn lemma_eq_before(s: Seq<u8>, i: int, j: int)
    requires
        0 <= i < s.len(),
        0 <= j < s.len(),
        rot_eq(s, i, j),
    ensures
        rot_eq(s, before(s.len() as int, i), before(s.len() as int, j)),
{
    let n = s.len() as int;
    assert forall|k: int| 0 <= k < n implies #[trigger] at(s, before(n, i), k) == at(
        s,
        before(n, j),
        k,
    ) by {
        if k == 0 {
            assert(at(s, i, n - 1) == at(s, j, n - 1));
        } else {
            assert(at(s, i, k - 1) == at(s, j, k - 1));
        }
    }
}

/// Going back `j` bytes from the start of a block of `n` bytes arrives at
/// byte `n - j`, and at the start itself for no byte.
pub proof fn lemma_back(n: int, j: nat)
    requires
        1 <= n,
        j < n,
    ensures
        back(n, j) == (if j == 0 {
            0
        } else {
            n - j
        }),
    decreases j,
{
    if j > 0 {
        lemma_back(n, (j - 1) as nat);
    }
}

/// The row reached in `j` steps holds the rotation that begins `j` bytes
/// before the block, or one equal to it.
pub proof fn lemma_row_back(s: Seq<u8>, order: Seq<int>, origin: int, j: nat)
    requires
        1 <= s.len(),
        is_sorted_order(s, order),
        0 <= origin < s.len(),
        order[origin] == 0,
        j < s.len(),
    ensures
        0 <= row_back(last_column(s, order), origin, j) < s.len(),
        rot_eq(s, order[row_back(last_column(s, order), origin, j)], back(s.len() as int, j)),
    decreases j,
{
    let n = s.len() as int;
    let last = last_column(s, order);
    if j > 0 {
        lemma_row_back(s, order, origin, (j - 1) as nat);
        lemma_back(n, (j - 1) as nat);
        let r = row_back(last, origin, (j - 1) as nat);
        lemma_lf_row(s, order, r);
        lemma_eq_before(s, order[r], back(n, (j - 1) as nat));
        let a = order[lf(last, r)];
        let b = before(n, order[r]);
        let c = back(n, j);
        assert forall|k: int| 0 <= k < n implies #[trigger] at(s, a, k) == at(s, c, k) by {
            assert(at(s, a, k) == at(s, b, k));
            assert(at(s, b, k) == at(s, c, k));
        }
    }
}

/// The inverse undoes the transform: for a block of at least one byte, the
/// last column of its rotations in lexicographic order, with the place of the
/// block itself among them as the origin pointer, is turned back into the
/// block. Equal rotations may stand in any order.
pub proof fn lemma_inverse_of_forward(s: Seq<u8>, order: Seq<int>, origin: int)
    requires
        1 <= s.len(),
        is_sorted_order(s, order),
        0 <= origin < s.len(),
        order[origin] == 0,
    ensures
        inverse_bwt(last_column(s, order), origin) == s,
{
    let n = s.len() as int;
    let last = last_column(s, order);
    let out = inverse_bwt(last, origin);
    assert forall|i: int| 0 <= i < n implies out[i] == s[i] by {
        let j = (n - 1 - i) as nat;
        lemma_row_back(s, order, origin, j);
        lemma_back(n, j);
        let r = row_back(last, origin, j);
        assert(at(s, order[r], n - 1) == at(s, back(n, j), n - 1));
        assert(last[r] == s[before(n, order[r])]);
        assert(at(s, order[r], n - 1) == s[before(n, order[r])]);
    }
    assert(out =~= s);
}

} // verus!
