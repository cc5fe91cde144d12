//! The first element of a sequence that has a property.

use vstd::prelude::*;

verus! {

/// Whether `i` is the place of the first element of `s` for which `f`
/// holds.
pub open spec fn is_first_where<T>(s: Seq<T>, f: spec_fn(T) -> bool, i: int) -> bool {
    &&& 0 <= i < s.len()
    &&& f(s[i])
    &&& forall|j: int| 0 <= j < i ==> !f(s[j])
}

/// The place of the first element of `s` for which `f` holds, or the
/// length of `s` where it holds for none.
pub open spec fn first_where<T>(s: Seq<T>, f: spec_fn(T) -> bool) -> int {
    if exists|i: int| is_first_where(s, f, i) {
        choose|i: int| is_first_where(s, f, i)
    } else {
        s.len() as int
    }
}

/// The first such element of `s`, if there is one.
pub open spec fn find_where<T>(s: Seq<T>, f: spec_fn(T) -> bool) -> Option<T> {
    if first_where(s, f) < s.len() {
        Some(s[first_where(s, f)])
    } else {
        None
    }
}

/// The first place is where `is_first_where` says.
pub proof fn lemma_first_where_at<T>(s: Seq<T>, f: spec_fn(T) -> bool, i: int)
    requires
        is_first_where(s, f, i),
    ensures
        first_where(s, f) == i,
{
    let k = choose|k: int| is_first_where(s, f, k);
    assert(is_first_where(s, f, k));
    if k < i {
        assert(!f(s[k]));
    }
    if i < k {
        assert(!f(s[i]));
    }
}

/// Where `f` holds at `j`, a first place exists at or before `j`.
pub proof fn lemma_has_first_where<T>(s: Seq<T>, f: spec_fn(T) -> bool, j: int)
    requires
        0 <= j < s.len(),
        f(s[j]),
    ensures
        exists|i: int| is_first_where(s, f, i) && i <= j,
    decreases j,
{
    if forall|k: int| 0 <= k < j ==> !f(s[k]) {
        assert(is_first_where(s, f, j));
    } else {
        let k = choose|k: int| 0 <= k < j && f(s[k]);
        lemma_has_first_where(s, f, k);
        let i = choose|i: int| is_first_where(s, f, i) && i <= k;
        assert(is_first_where(s, f, i) && i <= j);
    }
}

/// What `first_where` gives lies within the sequence or is its length;
/// within, `f` holds there, and before it `f` holds nowhere.
pub proof fn lemma_first_where<T>(s: Seq<T>, f: spec_fn(T) -> bool)
    ensures
        0 <= first_where(s, f) <= s.len(),
        first_where(s, f) < s.len() ==> f(s[first_where(s, f)]),
        forall|j: int| 0 <= j < first_where(s, f) ==> !f(#[trigger] s[j]),
{
    if exists|i: int| is_first_where(s, f, i) {
        let k = choose|k: int| is_first_where(s, f, k);
        assert(is_first_where(s, f, k));
    } else {
        assert forall|j: int| 0 <= j < s.len() implies !f(#[trigger] s[j]) by {
            if f(s[j]) {
                lemma_has_first_where(s, f, j);
            }
        }
    }
}

/// Where `f` holds nowhere before `i`, and at `i` if `i` lies within the
/// sequence, `first_where` gives `i`.
pub proof fn lemma_first_where_is<T>(s: Seq<T>, f: spec_fn(T) -> bool, i: int)
    requires
        0 <= i <= s.len(),
        i < s.len() ==> f(s[i]),
        forall|j: int| 0 <= j < i ==> !f(#[trigger] s[j]),
    ensures
        first_where(s, f) == i,
{
    lemma_first_where(s, f);
    let p = first_where(s, f);
    if p < i {
        assert(f(s[p]));
        assert(!f(s[p]));
    }
    if i < p {
        assert(!f(s[i]));
    }
}

/// Every element that is left after taking elements out has the property
/// by which they were kept.
pub proof fn lemma_filter_kept<T>(s: Seq<T>, keep: spec_fn(T) -> bool)
    ensures
        forall|i: int| 0 <= i < s.filter(keep).len() ==> keep(#[trigger] s.filter(keep)[i]),
    decreases s.len(),
{
    reveal(Seq::filter);
    if s.len() > 0 {
        lemma_filter_kept(s.drop_last(), keep);
    }
}

/// Every element that is left after taking elements out was there before.
pub proof fn lemma_filter_from<T>(s: Seq<T>, keep: spec_fn(T) -> bool)
    ensures
        forall|i: int|
            0 <= i < s.filter(keep).len() ==> s.contains(#[trigger] s.filter(keep)[i]),
    decreases s.len(),
{
    reveal(Seq::filter);
    if s.len() > 0 {
        let t = s.drop_last();
        lemma_filter_from(t, keep);
        assert forall|i: int| 0 <= i < s.filter(keep).len() implies s.contains(
            #[trigger] s.filter(keep)[i],
        ) by {
            if i < t.filter(keep).len() {
                let x = t.filter(keep)[i];
                assert(t.contains(x));
                let j = choose|j: int| 0 <= j < t.len() && t[j] == x;
                assert(s[j] == x);
            } else {
                assert(s[s.len() - 1] == s.last());
            }
        }
    }
}

} // verus!
