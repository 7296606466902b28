//! Small operations on names: suffixes and path components.

use vstd::prelude::*;
use vstd::string::*;

verus! {

/// `suffix` is the tail of `s`.
pub open spec fn ends_with(s: Seq<char>, suffix: Seq<char>) -> bool {
    suffix.len() <= s.len() && s.subrange(s.len() - suffix.len(), s.len() as int) == suffix
}

/// The part of `s` behind its last `/`, or all of `s` where it holds none.
pub open spec fn last_component(s: Seq<char>) -> Seq<char>
    decreases s.len(),
{
    if s.len() == 0 {
        s
    } else if s.last() == '/' {
        Seq::empty()
    } else {
        last_component(s.drop_last()).push(s.last())
    }
}

/// Tells whether `s` ends with `suffix`, comparing character by character.
pub fn has_suffix(s: &str, suffix: &str) -> (r: bool)
    ensures
        r == ends_with(s@, suffix@),
{
    let n: usize = s.unicode_len();
    let m: usize = suffix.unicode_len();
    if m > n {
        return false;
    }
    let start: usize = n - m;
    let mut i: usize = 0;
    while i < m
        invariant
            i <= m,
            m <= n,
            start == n - m,
            n == s@.len(),
            m == suffix@.len(),
            forall|k: int| 0 <= k < i ==> s@[start + k] == suffix@[k],
        decreases m - i,
    {
        if s.get_char(start + i) != suffix.get_char(i) {
            assert(s@.subrange(n - m, n as int)[i as int] != suffix@[i as int]);
            return false;
        }
        i += 1;
    }
    assert(s@.subrange(n - m, n as int) =~= suffix@);
    true
}

/// Tells whether two strings hold the same characters.
pub fn same_text(a: &str, b: &str) -> (r: bool)
    ensures
        r == (a@ == b@),
{
    let n: usize = a.unicode_len();
    let m: usize = b.unicode_len();
    if n != m {
        return false;
    }
    let r: bool = has_suffix(a, b);
    assert(a@.subrange(0, n as int) =~= a@);
    r
}

/// Cuts `count` characters off the end of `s`.
pub fn without_tail(s: &str, count: usize) -> (r: String)
    requires
        count <= s@.len(),
    ensures
        r@ == s@.subrange(0, s@.len() - count),
{
    let n: usize = s.unicode_len();
    String::from_str(s.substring_char(0, n - count))
}

/// Joins two strings.
pub fn joined(a: &str, b: &str) -> (r: String)
    ensures
        r@ == a@ + b@,
{
    let mut r: String = String::from_str(a);
    r.append(b);
    r
}

/// The last component of a path whose parts are separated by `/`.
pub fn file_name(path: &str) -> (r: String)
    ensures
        r@ == last_component(path@),
{
    let n: usize = path.unicode_len();
    let mut start: usize = n;
    while start > 0 && path.get_char(start - 1) != '/'
        invariant
            start <= n,
            n == path@.len(),
            last_component(path@.subrange(start as int, n as int)) == path@.subrange(
                start as int,
                n as int,
            ),
            forall|k: int| start <= k < n ==> path@[k] != '/',
        decreases start,
    {
        proof {
            lemma_component_of_plain(path@.subrange(start - 1, n as int));
        }
        start -= 1;
    }
    proof {
        lemma_component_split(path@, start as int);
    }
    String::from_str(path.substring_char(start, n))
}

/// A string without `/` is its own last component.
pub proof fn lemma_component_of_plain(s: Seq<char>)
    requires
        forall|k: int| 0 <= k < s.len() ==> s[k] != '/',
    ensures
        last_component(s) == s,
    decreases s.len(),
{
    if s.len() > 0 {
        lemma_component_of_plain(s.drop_last());
        assert(s.drop_last().push(s.last()) =~= s);
    }
}

/// Behind a `/` at `start - 1`, or from the beginning, a tail without `/` is
/// the last component of the whole.
pub proof fn lemma_component_split(s: Seq<char>, start: int)
    requires
        0 <= start <= s.len(),
        start > 0 ==> s[start - 1] == '/',
        forall|k: int| start <= k < s.len() ==> s[k] != '/',
    ensures
        last_component(s) == s.subrange(start, s.len() as int),
    decreases s.len(),
{
    if s.len() == 0 {
        assert(s.subrange(start, s.len() as int) =~= s);
    } else if start == s.len() {
        assert(s.subrange(start, s.len() as int) =~= Seq::<char>::empty());
    } else {
        lemma_component_split(s.drop_last(), start);
        assert(s.drop_last().subrange(start, s.len() - 1).push(s.last()) =~= s.subrange(
            start,
            s.len() as int,
        ));
    }
}

} // verus!
