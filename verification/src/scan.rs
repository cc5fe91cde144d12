//! Finding the first occurrence of a byte in a byte string.

use vstd::prelude::*;
use crate::byteseq;

verus! {

/// Whether `i` is the place of the first `b` in `d`.
pub open spec fn is_first(d: Seq<u8>, b: u8, i: int) -> bool {
    &&& 0 <= i < d.len()
    &&& d[i] == b
    &&& forall|j: int| 0 <= j < i ==> d[j] != b
}

/// The place of the first `b` in `d`, or the length of `d` where it holds
/// none.
pub open spec fn first_index(d: Seq<u8>, b: u8) -> int {
    if exists|i: int| is_first(d, b, i) {
        choose|i: int| is_first(d, b, i)
    } else {
        d.len() as int
    }
}

/// The first occurrence is where `is_first` says.
pub proof fn lemma_first_index_at(d: Seq<u8>, b: u8, i: int)
    requires
        is_first(d, b, i),
    ensures
        first_index(d, b) == i,
{
    let k = choose|k: int| is_first(d, b, k);
    assert(is_first(d, b, k));
    if k < i {
        assert(d[k] != b);
    }
    if i < k {
        assert(d[i] != b);
    }
}

/// A byte string without `b` has its first `b` at its length.
pub proof fn lemma_first_index_absent(d: Seq<u8>, b: u8)
    requires
        forall|j: int| 0 <= j < d.len() ==> d[j] != b,
    ensures
        first_index(d, b) == d.len(),
{
    if exists|i: int| is_first(d, b, i) {
        let k = choose|k: int| is_first(d, b, k);
        assert(d[k] != b);
    }
}

/// What `first_index` gives lies within the string, and nothing before it
/// is `b`.
pub proof fn lemma_first_index_range(d: Seq<u8>, b: u8)
    ensures
        0 <= first_index(d, b) <= d.len(),
        first_index(d, b) < d.len() ==> is_first(d, b, first_index(d, b)),
        forall|j: int| 0 <= j < first_index(d, b) ==> d[j] != b,
{
    if exists|i: int| is_first(d, b, i) {
        let k = choose|k: int| is_first(d, b, k);
        assert(is_first(d, b, k));
    } else {
        assert forall|j: int| 0 <= j < d.len() implies d[j] != b by {
            if d[j] == b {
                lemma_has_first(d, b, j);
            }
        }
    }
}

/// Where `b` occurs at `j`, a first occurrence exists at or before `j`.
pub proof fn lemma_has_first(d: Seq<u8>, b: u8, j: int)
    requires
        0 <= j < d.len(),
        d[j] == b,
    ensures
        exists|i: int| is_first(d, b, i) && i <= j,
    decreases j,
{
    if forall|k: int| 0 <= k < j ==> d[k] != b {
        assert(is_first(d, b, j));
    } else {
        let k = choose|k: int| 0 <= k < j && d[k] == b;
        lemma_has_first(d, b, k);
        let i = choose|i: int| is_first(d, b, i) && i <= k;
        assert(is_first(d, b, i) && i <= j);
    }
}

/// The place of the first `b` in `d` at or after `from`, counted from
/// `from`; the rest of the length where there is none.
pub fn find_from(d: &[u8], from: usize, b: u8) -> (n: usize)
    requires
        from <= d@.len(),
    ensures
        n == first_index(d@.skip(from as int), b),
        from + n <= d@.len(),
{
    let ghost rest = d@.skip(from as int);
    let mut i: usize = from;
    while i < d.len()
        invariant
            from <= i <= d@.len(),
            rest == d@.skip(from as int),
            forall|j: int| 0 <= j < i - from ==> rest[j] != b,
        decreases d@.len() - i,
    {
        if d[i] == b {
            proof {
                assert(rest[i - from] == d@[i as int]);
                lemma_first_index_at(rest, b, i - from);
            }
            return i - from;
        }
        assert(rest[i - from] == d@[i as int]);
        i += 1;
    }
    proof {
        lemma_first_index_absent(rest, b);
    }
    i - from
}

/// Whether `d` begins with `p`.
pub open spec fn starts_with(d: Seq<u8>, p: Seq<u8>) -> bool {
    p.len() <= d.len() && d.take(p.len() as int) == p
}

/// Whether `d` holds `p` at `pos`.
pub fn has_prefix_at(d: &[u8], pos: usize, p: &[u8]) -> (r: bool)
    requires
        pos <= d@.len(),
    ensures
        r == starts_with(d@.skip(pos as int), p@),
{
    if d.len() - pos < p.len() {
        return false;
    }
    let part = byteseq::slice(d, pos, pos + p.len());
    assert(part@ =~= d@.skip(pos as int).take(p@.len() as int));
    byteseq::equal(part.as_slice(), p)
}

} // verus!
