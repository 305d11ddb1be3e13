use vstd::prelude::*;

verus! {

/// How many positions `i` with `a <= i < b` hold an element of `s` that
/// satisfies `f`.
pub open spec fn count_range<T>(s: Seq<T>, f: spec_fn(T) -> bool, a: int, b: int) -> nat
    decreases b - a,
{
    if b <= a {
        0
    } else {
        count_range(s, f, a, b - 1) + (if f(s[b - 1]) {
            1nat
        } else {
            0nat
        })
    }
}

/// How many elements of `s` satisfy `f`.
pub open spec fn count_where<T>(s: Seq<T>, f: spec_fn(T) -> bool) -> nat {
    count_range(s, f, 0, s.len() as int)
}

pub proof fn lemma_count_range_split<T>(s: Seq<T>, f: spec_fn(T) -> bool, a: int, m: int, b: int)
    requires
        a <= m <= b,
    ensures
        count_range(s, f, a, b) == count_range(s, f, a, m) + count_range(s, f, m, b),
    decreases b - m,
{
    if m < b {
        lemma_count_range_split(s, f, a, m, b - 1);
    }
}

pub proof fn lemma_count_range_agree<T>(s: Seq<T>, t: Seq<T>, f: spec_fn(T) -> bool, a: int, b: int)
    requires
        forall|i: int| a <= i < b ==> s[i] == t[i],
    ensures
        count_range(s, f, a, b) == count_range(t, f, a, b),
    decreases b - a,
{
    if a < b {
        lemma_count_range_agree(s, t, f, a, b - 1);
    }
}

pub proof fn lemma_count_where_push<T>(s: Seq<T>, f: spec_fn(T) -> bool, x: T)
    ensures
        count_where(s.push(x), f) == count_where(s, f) + (if f(x) {
            1nat
        } else {
            0nat
        }),
{
    assert(s.push(x)[s.len() as int] == x);
    lemma_count_range_agree(s.push(x), s, f, 0, s.len() as int);
}

pub proof fn lemma_count_where_drop_last<T>(s: Seq<T>, f: spec_fn(T) -> bool)
    requires
        s.len() > 0,
    ensures
        count_where(s, f) == count_where(s.drop_last(), f) + (if f(s.last()) {
            1nat
        } else {
            0nat
        }),
{
    lemma_count_range_agree(s, s.drop_last(), f, 0, s.len() - 1);
}


pub proof fn lemma_count_where_concat<T>(s: Seq<T>, t: Seq<T>, f: spec_fn(T) -> bool)
    ensures
        count_where(s + t, f) == count_where(s, f) + count_where(t, f),
    decreases t.len(),
{
    if t.len() == 0 {
        assert(s + t =~= s);
    } else {
        assert((s + t).drop_last() =~= s + t.drop_last());
        lemma_count_where_concat(s, t.drop_last(), f);
        lemma_count_where_drop_last(s + t, f);
        lemma_count_where_drop_last(t, f);
    }
}

pub proof fn lemma_count_where_subrange<T>(s: Seq<T>, f: spec_fn(T) -> bool, a: int, b: int)
    requires
        0 <= a <= b <= s.len(),
    ensures
        count_where(s.subrange(a, b), f) == count_range(s, f, a, b),
    decreases b - a,
{
    if a < b {
        assert(s.subrange(a, b).drop_last() =~= s.subrange(a, b - 1));
        lemma_count_where_subrange(s, f, a, b - 1);
        lemma_count_where_drop_last(s.subrange(a, b), f);
    }
}

/// Filtering throws away nothing that `f` counts when everything `f` counts
/// is kept.
pub proof fn lemma_count_where_filter_kept<T>(s: Seq<T>, keep: spec_fn(T) -> bool, f: spec_fn(T) -> bool)
    requires
        forall|x: T| #[trigger] f(x) ==> keep(x),
    ensures
        count_where(s.filter(keep), f) == count_where(s, f),
    decreases s.len(),
{
    reveal(Seq::filter);
    if s.len() > 0 {
        lemma_count_where_filter_kept(s.drop_last(), keep, f);
        lemma_count_where_drop_last(s, f);
        if keep(s.last()) {
            lemma_count_where_push(s.drop_last().filter(keep), f, s.last());
        }
    }
}

/// Filtering leaves none of what `f` counts when everything `f` counts is
/// dropped.
pub proof fn lemma_count_where_filter_dropped<T>(s: Seq<T>, keep: spec_fn(T) -> bool, f: spec_fn(T) -> bool)
    requires
        forall|x: T| #[trigger] f(x) ==> !keep(x),
    ensures
        count_where(s.filter(keep), f) == 0,
    decreases s.len(),
{
    reveal(Seq::filter);
    if s.len() > 0 {
        lemma_count_where_filter_dropped(s.drop_last(), keep, f);
        if keep(s.last()) {
            lemma_count_where_push(s.drop_last().filter(keep), f, s.last());
        }
    }
}

/// The total weight `w` of the first `n` elements of `s`.
pub open spec fn sum_over<T>(s: Seq<T>, w: spec_fn(T) -> nat, n: int) -> nat
    decreases n,
{
    if n <= 0 {
        0
    } else {
        sum_over(s, w, n - 1) + w(s[n - 1])
    }
}

pub proof fn lemma_sum_over_agree<T>(a: Seq<T>, b: Seq<T>, w: spec_fn(T) -> nat, n: int)
    requires
        forall|i: int| 0 <= i < n ==> a[i] == b[i],
    ensures
        sum_over(a, w, n) == sum_over(b, w, n),
    decreases n,
{
    if n > 0 {
        lemma_sum_over_agree(a, b, w, n - 1);
    }
}

/// Changing one entry changes the total by exactly that entry's weight.
pub proof fn lemma_sum_over_one_changed<T>(a: Seq<T>, b: Seq<T>, w: spec_fn(T) -> nat, i: int, n: int)
    requires
        0 <= i < n,
        forall|j: int| 0 <= j < n && j != i ==> a[j] == b[j],
    ensures
        sum_over(a, w, n) + w(b[i]) == sum_over(b, w, n) + w(a[i]),
    decreases n,
{
    if i == n - 1 {
        lemma_sum_over_agree(a, b, w, n - 1);
    } else {
        lemma_sum_over_one_changed(a, b, w, i, n - 1);
    }
}

pub proof fn lemma_sum_over_zero<T>(s: Seq<T>, w: spec_fn(T) -> nat, n: int)
    requires
        forall|i: int| 0 <= i < n ==> w(s[i]) == 0,
    ensures
        sum_over(s, w, n) == 0,
    decreases n,
{
    if n > 0 {
        lemma_sum_over_zero(s, w, n - 1);
    }
}

/// Every entry's weight is at most the total.
pub proof fn lemma_sum_over_lower<T>(s: Seq<T>, w: spec_fn(T) -> nat, i: int, n: int)
    requires
        0 <= i < n,
    ensures
        w(s[i]) <= sum_over(s, w, n),
    decreases n,
{
    if i < n - 1 {
        lemma_sum_over_lower(s, w, i, n - 1);
    }
}

/// A positive total points to a positive entry.
pub proof fn lemma_sum_over_pos<T>(s: Seq<T>, w: spec_fn(T) -> nat, n: int)
    requires
        sum_over(s, w, n) > 0,
    ensures
        exists|i: int| 0 <= i < n && w(s[i]) > 0,
    decreases n,
{
    if n > 0 && sum_over(s, w, n - 1) > 0 {
        lemma_sum_over_pos(s, w, n - 1);
    } else {
        assert(0 <= n - 1 < n && w(s[n - 1]) > 0);
    }
}

/// A count of zero means no element satisfies `f`, and the other way round.
pub proof fn lemma_count_where_zero<T>(s: Seq<T>, f: spec_fn(T) -> bool)
    ensures
        count_where(s, f) == 0 <==> (forall|i: int| 0 <= i < s.len() ==> !f(s[i])),
    decreases s.len(),
{
    if s.len() > 0 {
        lemma_count_where_zero(s.drop_last(), f);
        lemma_count_where_drop_last(s, f);
        assert(forall|i: int| 0 <= i < s.len() - 1 ==> s.drop_last()[i] == s[i]);
        assert(s.last() == s[s.len() - 1]);
    }
}

/// A pointwise lower weight gives a lower total.
pub proof fn lemma_sum_over_le<T>(s: Seq<T>, wlo: spec_fn(T) -> nat, whi: spec_fn(T) -> nat, n: int)
    requires
        forall|i: int| 0 <= i < n ==> wlo(s[i]) <= whi(s[i]),
    ensures
        sum_over(s, wlo, n) <= sum_over(s, whi, n),
    decreases n,
{
    if n > 0 {
        lemma_sum_over_le(s, wlo, whi, n - 1);
    }
}


/// When a pointwise dominant weight reaches only the same total, the two
/// weights agree everywhere.
pub proof fn lemma_sum_over_squeeze<T>(
    s: Seq<T>,
    wlo: spec_fn(T) -> nat,
    whi: spec_fn(T) -> nat,
    n: int,
)
    requires
        forall|i: int| 0 <= i < n ==> wlo(s[i]) <= whi(s[i]),
        sum_over(s, wlo, n) == sum_over(s, whi, n),
    ensures
        forall|i: int| 0 <= i < n ==> wlo(s[i]) == whi(s[i]),
    decreases n,
{
    if n > 0 {
        lemma_sum_over_le(s, wlo, whi, n - 1);
        lemma_sum_over_squeeze(s, wlo, whi, n - 1);
    }
}

/// Entries with pointwise equal weights across two sequences give equal
/// totals.
pub proof fn lemma_sum_over_elemwise<T>(a: Seq<T>, b: Seq<T>, w: spec_fn(T) -> nat, n: int)
    requires
        forall|i: int| 0 <= i < n ==> w(a[i]) == w(b[i]),
    ensures
        sum_over(a, w, n) == sum_over(b, w, n),
    decreases n,
{
    if n > 0 {
        lemma_sum_over_elemwise(a, b, w, n - 1);
    }
}

/// Filtering drops nothing when everything is kept.
pub proof fn lemma_filter_all_kept<T>(s: Seq<T>, keep: spec_fn(T) -> bool)
    requires
        forall|i: int| 0 <= i < s.len() ==> keep(s[i]),
    ensures
        s.filter(keep) == s,
    decreases s.len(),
{
    reveal(Seq::filter);
    if s.len() > 0 {
        assert(forall|i: int| 0 <= i < s.len() - 1 ==> s.drop_last()[i] == s[i]);
        lemma_filter_all_kept(s.drop_last(), keep);
        assert(keep(s[s.len() - 1]));
        assert(s.drop_last().push(s.last()) =~= s);
    }
}

/// Filtering removes exactly the last element when it alone is dropped.
pub proof fn lemma_filter_drops_last<T>(s: Seq<T>, keep: spec_fn(T) -> bool)
    requires
        s.len() > 0,
        forall|i: int| 0 <= i < s.len() - 1 ==> keep(s[i]),
        !keep(s.last()),
    ensures
        s.filter(keep) == s.drop_last(),
{
    reveal(Seq::filter);
    assert(forall|i: int| 0 <= i < s.len() - 1 ==> s.drop_last()[i] == s[i]);
    lemma_filter_all_kept(s.drop_last(), keep);
}

} // verus!
