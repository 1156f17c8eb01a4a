//! Sums over sequences, for counting who refers to what.
use vstd::prelude::*;

verus! {

/// The sum of `f` over a sequence.
pub open spec fn sum<T>(s: Seq<T>, f: spec_fn(T) -> int) -> int
    decreases s.len(),
{
    if s.len() == 0 {
        0
    } else {
        sum(s.drop_last(), f) + f(s.last())
    }
}

pub proof fn lemma_sum_empty<T>(f: spec_fn(T) -> int)
    ensures
        sum(Seq::<T>::empty(), f) == 0,
{
}

pub proof fn lemma_sum_push<T>(s: Seq<T>, x: T, f: spec_fn(T) -> int)
    ensures
        sum(s.push(x), f) == sum(s, f) + f(x),
{
    assert(s.push(x).drop_last() =~= s);
}

pub proof fn lemma_sum_update<T>(s: Seq<T>, i: int, x: T, f: spec_fn(T) -> int)
    requires
        0 <= i < s.len(),
    ensures
        sum(s.update(i, x), f) == sum(s, f) - f(s[i]) + f(x),
    decreases s.len(),
{
    let u = s.update(i, x);
    if i == s.len() - 1 {
        assert(u.drop_last() =~= s.drop_last());
    } else {
        assert(u.drop_last() =~= s.drop_last().update(i, x));
        lemma_sum_update(s.drop_last(), i, x, f);
    }
}

pub proof fn lemma_sum_insert<T>(s: Seq<T>, i: int, x: T, f: spec_fn(T) -> int)
    requires
        0 <= i <= s.len(),
    ensures
        sum(s.insert(i, x), f) == sum(s, f) + f(x),
    decreases s.len(),
{
    let u = s.insert(i, x);
    if i == s.len() {
        assert(u.drop_last() =~= s);
    } else {
        assert(u.drop_last() =~= s.drop_last().insert(i, x));
        lemma_sum_insert(s.drop_last(), i, x, f);
    }
}

pub proof fn lemma_sum_remove<T>(s: Seq<T>, i: int, f: spec_fn(T) -> int)
    requires
        0 <= i < s.len(),
    ensures
        sum(s.remove(i), f) == sum(s, f) - f(s[i]),
{
    assert(s.remove(i).insert(i, s[i]) =~= s);
    lemma_sum_insert(s.remove(i), i, s[i], f);
}

/// Taking the first element off.
pub proof fn lemma_sum_front<T>(s: Seq<T>, f: spec_fn(T) -> int)
    requires
        s.len() > 0,
    ensures
        sum(s.subrange(1, s.len() as int), f) == sum(s, f) - f(s[0]),
{
    assert(s.subrange(1, s.len() as int) =~= s.remove(0));
    lemma_sum_remove(s, 0, f);
}

/// Sequences that weigh the same element by element weigh the same.
pub proof fn lemma_sum_same<T>(s: Seq<T>, t: Seq<T>, f: spec_fn(T) -> int)
    requires
        s.len() == t.len(),
        forall|i: int| 0 <= i < s.len() ==> f(#[trigger] s[i]) == f(t[i]),
    ensures
        sum(s, f) == sum(t, f),
    decreases s.len(),
{
    if s.len() > 0 {
        assert forall|i: int| 0 <= i < s.drop_last().len() implies f(#[trigger] s.drop_last()[i]) == f(
            t.drop_last()[i],
        ) by {
            assert(f(s[i]) == f(t[i]));
        }
        lemma_sum_same(s.drop_last(), t.drop_last(), f);
        assert(f(s[s.len() - 1]) == f(t[t.len() - 1]));
    }
}

pub proof fn lemma_sum_nonneg<T>(s: Seq<T>, f: spec_fn(T) -> int)
    requires
        forall|x: T| #[trigger] f(x) >= 0,
    ensures
        sum(s, f) >= 0,
    decreases s.len(),
{
    if s.len() > 0 {
        lemma_sum_nonneg(s.drop_last(), f);
    }
}

/// Every element is part of the sum.
pub proof fn lemma_sum_part<T>(s: Seq<T>, i: int, f: spec_fn(T) -> int)
    requires
        0 <= i < s.len(),
        forall|x: T| #[trigger] f(x) >= 0,
    ensures
        f(s[i]) <= sum(s, f),
{
    lemma_sum_remove(s, i, f);
    lemma_sum_nonneg(s.remove(i), f);
}

} // verus!
