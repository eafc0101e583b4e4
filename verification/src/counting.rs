use vstd::prelude::*;

verus! {

/// The number of elements of `s` that satisfy `f`.
pub open spec fn count_matching<T>(s: Seq<T>, f: spec_fn(T) -> bool) -> int
    decreases s.len(),
{
    if s.len() == 0 {
        0
    } else {
        count_matching(s.drop_last(), f) + if f(s.last()) {
            1int
        } else {
            0int
        }
    }
}

pub proof fn lemma_count_matching_bounds<T>(s: Seq<T>, f: spec_fn(T) -> bool)
    ensures
        0 <= count_matching(s, f) <= s.len(),
    decreases s.len(),
{
    if s.len() > 0 {
        lemma_count_matching_bounds(s.drop_last(), f);
    }
}

pub proof fn lemma_count_matching_push<T>(s: Seq<T>, f: spec_fn(T) -> bool, v: T)
    ensures
        count_matching(s.push(v), f) == count_matching(s, f) + if f(v) {
            1int
        } else {
            0int
        },
{
    assert(s.push(v).drop_last() =~= s);
    assert(s.push(v).last() == v);
}

pub proof fn lemma_count_matching_update<T>(s: Seq<T>, f: spec_fn(T) -> bool, i: int, v: T)
    requires
        0 <= i < s.len(),
    ensures
        count_matching(s.update(i, v), f) == count_matching(s, f) - (if f(s[i]) {
            1int
        } else {
            0int
        }) + if f(v) {
            1int
        } else {
            0int
        },
    decreases s.len(),
{
    let su = s.update(i, v);
    if i == s.len() - 1 {
        assert(su.drop_last() =~= s.drop_last());
        assert(su.last() == v);
        assert(s.last() == s[i]);
    } else {
        assert(su.drop_last() =~= s.drop_last().update(i, v));
        lemma_count_matching_update(s.drop_last(), f, i, v);
        assert(su.last() == s.last());
        assert(s.drop_last()[i] == s[i]);
    }
}

/// An element that satisfies `f` contributes to the count: the count of a
/// sequence with such an element is at least one.
pub proof fn lemma_count_matching_pos<T>(s: Seq<T>, f: spec_fn(T) -> bool, i: int)
    requires
        0 <= i < s.len(),
        f(s[i]),
    ensures
        count_matching(s, f) >= 1,
    decreases s.len(),
{
    lemma_count_matching_bounds(s.drop_last(), f);
    if i < s.len() - 1 {
        lemma_count_matching_pos(s.drop_last(), f, i);
    }
}

/// A sequence without a matching element counts to zero.
pub proof fn lemma_count_matching_none<T>(s: Seq<T>, f: spec_fn(T) -> bool)
    requires
        forall|i: int| 0 <= i < s.len() ==> !f(#[trigger] s[i]),
    ensures
        count_matching(s, f) == 0,
    decreases s.len(),
{
    if s.len() > 0 {
        lemma_count_matching_none(s.drop_last(), f);
    }
}

/// Counting over a prefix one element longer takes in exactly that element.
pub proof fn lemma_count_matching_take_step<T>(s: Seq<T>, f: spec_fn(T) -> bool, n: int)
    requires
        0 <= n < s.len(),
    ensures
        count_matching(s.take(n + 1), f) == count_matching(s.take(n), f) + if f(s[n]) {
            1int
        } else {
            0int
        },
{
    assert(s.take(n + 1).drop_last() =~= s.take(n));
    assert(s.take(n + 1).last() == s[n]);
}

pub proof fn lemma_count_matching_take_all<T>(s: Seq<T>, f: spec_fn(T) -> bool)
    ensures
        count_matching(s.take(s.len() as int), f) == count_matching(s, f),
{
    assert(s.take(s.len() as int) =~= s);
}

} // verus!
