use vstd::prelude::*;

verus! {

/// Number of elements of `s` that satisfy `f`.
pub open spec fn count_where<A>(s: Seq<A>, f: spec_fn(A) -> bool) -> int
    decreases s.len(),
{
    if s.len() == 0 {
        0
    } else {
        count_where(s.drop_last(), f) + if f(s.last()) {
            1int
        } else {
            0int
        }
    }
}

/// Sum of `f` over the elements of `s`.
pub open spec fn sum_by<A>(s: Seq<A>, f: spec_fn(A) -> int) -> int
    decreases s.len(),
{
    if s.len() == 0 {
        0
    } else {
        sum_by(s.drop_last(), f) + f(s.last())
    }
}

pub proof fn lemma_count_where_bounds<A>(s: Seq<A>, f: spec_fn(A) -> bool)
    ensures
        0 <= count_where(s, f) <= s.len(),
    decreases s.len(),
{
    if s.len() > 0 {
        lemma_count_where_bounds(s.drop_last(), f);
    }
}

pub proof fn lemma_count_where_push<A>(s: Seq<A>, f: spec_fn(A) -> bool, v: A)
    ensures
        count_where(s.push(v), f) == count_where(s, f) + if f(v) {
            1int
        } else {
            0int
        },
{
    assert(s.push(v).drop_last() =~= s);
    assert(s.push(v).last() == v);
}

pub proof fn lemma_count_where_take_step<A>(s: Seq<A>, f: spec_fn(A) -> bool, i: int)
    requires
        0 <= i < s.len(),
    ensures
        count_where(s.take(i + 1), f) == count_where(s.take(i), f) + if f(s[i]) {
            1int
        } else {
            0int
        },
{
    assert(s.take(i + 1).drop_last() =~= s.take(i));
    assert(s.take(i + 1).last() == s[i]);
}

pub proof fn lemma_count_where_update<A>(s: Seq<A>, f: spec_fn(A) -> bool, i: int, v: A)
    requires
        0 <= i < s.len(),
    ensures
        count_where(s.update(i, v), f) == count_where(s, f) + (if f(v) {
            1int
        } else {
            0int
        }) - (if f(s[i]) {
            1int
        } else {
            0int
        }),
    decreases s.len(),
{
    if i == s.len() - 1 {
        assert(s.update(i, v).drop_last() =~= s.drop_last());
        assert(s.update(i, v).last() == v);
    } else {
        assert(s.update(i, v).drop_last() =~= s.drop_last().update(i, v));
        assert(s.update(i, v).last() == s.last());
        lemma_count_where_update(s.drop_last(), f, i, v);
    }
}

pub proof fn lemma_count_where_none<A>(s: Seq<A>, f: spec_fn(A) -> bool)
    requires
        forall|i: int| 0 <= i < s.len() ==> !f(#[trigger] s[i]),
    ensures
        count_where(s, f) == 0,
    decreases s.len(),
{
    if s.len() > 0 {
        lemma_count_where_none(s.drop_last(), f);
    }
}

pub proof fn lemma_count_where_all<A>(s: Seq<A>, f: spec_fn(A) -> bool)
    requires
        forall|i: int| 0 <= i < s.len() ==> f(#[trigger] s[i]),
    ensures
        count_where(s, f) == s.len(),
    decreases s.len(),
{
    if s.len() > 0 {
        lemma_count_where_all(s.drop_last(), f);
    }
}

/// If the count is positive, some element satisfies `f`; stated in the
/// contrapositive form that callers usually need.
pub proof fn lemma_count_where_member<A>(s: Seq<A>, f: spec_fn(A) -> bool)
    requires
        count_where(s, f) > 0,
    ensures
        exists|i: int| 0 <= i < s.len() && f(#[trigger] s[i]),
{
    if forall|i: int| 0 <= i < s.len() ==> !f(#[trigger] s[i]) {
        lemma_count_where_none(s, f);
    }
}

/// A witness that satisfies `f` makes the count positive.
pub proof fn lemma_count_where_member_at<A>(s: Seq<A>, f: spec_fn(A) -> bool, i: int)
    requires
        0 <= i < s.len(),
        f(s[i]),
    ensures
        count_where(s, f) >= 1,
    decreases s.len(),
{
    if i == s.len() - 1 {
        lemma_count_where_bounds(s.drop_last(), f);
    } else {
        lemma_count_where_member_at(s.drop_last(), f, i);
    }
}

pub proof fn lemma_sum_by_push<A>(s: Seq<A>, f: spec_fn(A) -> int, v: A)
    ensures
        sum_by(s.push(v), f) == sum_by(s, f) + f(v),
{
    assert(s.push(v).drop_last() =~= s);
    assert(s.push(v).last() == v);
}

pub proof fn lemma_sum_by_take_step<A>(s: Seq<A>, f: spec_fn(A) -> int, i: int)
    requires
        0 <= i < s.len(),
    ensures
        sum_by(s.take(i + 1), f) == sum_by(s.take(i), f) + f(s[i]),
{
    assert(s.take(i + 1).drop_last() =~= s.take(i));
    assert(s.take(i + 1).last() == s[i]);
}

pub proof fn lemma_sum_by_update<A>(s: Seq<A>, f: spec_fn(A) -> int, i: int, v: A)
    requires
        0 <= i < s.len(),
    ensures
        sum_by(s.update(i, v), f) == sum_by(s, f) + f(v) - f(s[i]),
    decreases s.len(),
{
    if i == s.len() - 1 {
        assert(s.update(i, v).drop_last() =~= s.drop_last());
        assert(s.update(i, v).last() == v);
    } else {
        assert(s.update(i, v).drop_last() =~= s.drop_last().update(i, v));
        assert(s.update(i, v).last() == s.last());
        lemma_sum_by_update(s.drop_last(), f, i, v);
    }
}

pub proof fn lemma_sum_by_zero<A>(s: Seq<A>, f: spec_fn(A) -> int)
    requires
        forall|i: int| 0 <= i < s.len() ==> f(#[trigger] s[i]) == 0,
    ensures
        sum_by(s, f) == 0,
    decreases s.len(),
{
    if s.len() > 0 {
        lemma_sum_by_zero(s.drop_last(), f);
    }
}

pub proof fn lemma_sum_by_nonneg<A>(s: Seq<A>, f: spec_fn(A) -> int)
    requires
        forall|i: int| 0 <= i < s.len() ==> f(#[trigger] s[i]) >= 0,
    ensures
        sum_by(s, f) >= 0,
    decreases s.len(),
{
    if s.len() > 0 {
        lemma_sum_by_nonneg(s.drop_last(), f);
    }
}

pub proof fn lemma_count_where_concat<A>(a: Seq<A>, b: Seq<A>, f: spec_fn(A) -> bool)
    ensures
        count_where(a + b, f) == count_where(a, f) + count_where(b, f),
    decreases b.len(),
{
    if b.len() == 0 {
        assert(a + b =~= a);
    } else {
        assert((a + b).drop_last() =~= a + b.drop_last());
        assert((a + b).last() == b.last());
        lemma_count_where_concat(a, b.drop_last(), f);
    }
}

/// Pointwise-equal classifications give equal counts.
pub proof fn lemma_count_where_congruent<A, B>(
    s1: Seq<A>,
    s2: Seq<B>,
    f1: spec_fn(A) -> bool,
    f2: spec_fn(B) -> bool,
)
    requires
        s1.len() == s2.len(),
        forall|i: int| 0 <= i < s1.len() ==> f1(#[trigger] s1[i]) == f2(#[trigger] s2[i]),
    ensures
        count_where(s1, f1) == count_where(s2, f2),
    decreases s1.len(),
{
    if s1.len() > 0 {
        lemma_count_where_congruent(s1.drop_last(), s2.drop_last(), f1, f2);
    }
}

/// Pointwise-equal measures give equal sums.
pub proof fn lemma_sum_by_congruent<A, B>(
    s1: Seq<A>,
    s2: Seq<B>,
    f1: spec_fn(A) -> int,
    f2: spec_fn(B) -> int,
)
    requires
        s1.len() == s2.len(),
        forall|i: int| 0 <= i < s1.len() ==> f1(#[trigger] s1[i]) == f2(#[trigger] s2[i]),
    ensures
        sum_by(s1, f1) == sum_by(s2, f2),
    decreases s1.len(),
{
    if s1.len() > 0 {
        lemma_sum_by_congruent(s1.drop_last(), s2.drop_last(), f1, f2);
    }
}

/// Pointwise-dominated measures give dominated sums.
pub proof fn lemma_sum_by_le<A>(s: Seq<A>, f: spec_fn(A) -> int, g: spec_fn(A) -> int)
    requires
        forall|i: int| 0 <= i < s.len() ==> f(#[trigger] s[i]) <= g(#[trigger] s[i]),
    ensures
        sum_by(s, f) <= sum_by(s, g),
    decreases s.len(),
{
    if s.len() > 0 {
        lemma_sum_by_le(s.drop_last(), f, g);
    }
}

/// A prefix of a nonnegative sum stays below the whole.
pub proof fn lemma_sum_by_take_le<A>(s: Seq<A>, f: spec_fn(A) -> int, i: int)
    requires
        0 <= i <= s.len(),
        forall|j: int| 0 <= j < s.len() ==> f(#[trigger] s[j]) >= 0,
    ensures
        sum_by(s.take(i), f) <= sum_by(s, f),
    decreases s.len(),
{
    if i == s.len() {
        assert(s.take(i) =~= s);
    } else {
        assert(s.take(i) =~= s.drop_last().take(i));
        lemma_sum_by_take_le(s.drop_last(), f, i);
    }
}

/// One nonnegative term bounds the whole nonnegative sum from below.
pub proof fn lemma_sum_by_member_le<A>(s: Seq<A>, f: spec_fn(A) -> int, i: int)
    requires
        0 <= i < s.len(),
        forall|j: int| 0 <= j < s.len() ==> f(#[trigger] s[j]) >= 0,
    ensures
        f(s[i]) <= sum_by(s, f),
    decreases s.len(),
{
    if i == s.len() - 1 {
        lemma_sum_by_nonneg(s.drop_last(), f);
    } else {
        lemma_sum_by_member_le(s.drop_last(), f, i);
    }
}

} // verus!
