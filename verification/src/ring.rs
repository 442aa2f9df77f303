//! Scans that go round a row of slots.
//!
//! The block pools and the waiter lists both keep their entries in a row of slots
//! and look for the next suitable one from where the last scan stopped, wrapping at
//! the end of the row. The functions here say what such a scan finds.
use vstd::prelude::*;

verus! {

/// The index after `i` in a row of `n`, wrapping at the end.
pub open spec fn next(n: int, i: int) -> int {
    if i + 1 >= n {
        0
    } else {
        i + 1
    }
}

/// The index that `k` steps from `i` lead to.
pub open spec fn walk(n: int, i: int, k: nat) -> int
    decreases k,
{
    if k == 0 {
        i
    } else {
        walk(n, next(n, i), (k - 1) as nat)
    }
}

/// The first index among `k` visited from `i` that satisfies `f`.
pub open spec fn find(n: int, i: int, k: nat, f: spec_fn(int) -> bool) -> Option<int>
    decreases k,
{
    if k == 0 {
        None
    } else if f(i) {
        Some(i)
    } else {
        find(n, next(n, i), (k - 1) as nat, f)
    }
}

/// Within one round a walk is an addition that wraps at most once.
pub proof fn lemma_walk(n: int, i: int, k: nat)
    requires
        0 <= i < n,
        k <= n,
    ensures
        walk(n, i, k) == (if i + k < n {
            i + k
        } else {
            i + k - n
        }),
    decreases k,
{
    if k > 0 {
        if i + 1 < n {
            lemma_walk(n, i + 1, (k - 1) as nat);
        } else {
            lemma_walk(n, 0, (k - 1) as nat);
        }
    }
}

/// What a scan finds lies in the row and satisfies the predicate.
pub proof fn lemma_find(n: int, i: int, k: nat, f: spec_fn(int) -> bool)
    requires
        0 <= i < n,
    ensures
        find(n, i, k, f) matches Some(j) ==> 0 <= j < n && f(j),
    decreases k,
{
    if k > 0 && !f(i) {
        lemma_find(n, next(n, i), (k - 1) as nat, f);
    }
}

/// A scan that finds nothing has refused every index it visited.
pub proof fn lemma_miss(n: int, i: int, k: nat, f: spec_fn(int) -> bool, d: nat)
    requires
        0 <= i < n,
        find(n, i, k, f) is None,
        d < k,
    ensures
        !f(walk(n, i, d)),
    decreases k,
{
    if d > 0 {
        lemma_miss(n, next(n, i), (k - 1) as nat, f, (d - 1) as nat);
    }
}

/// A scan of at least one full round that finds nothing proves that nothing is there.
pub proof fn lemma_full_miss(n: int, i: int, k: nat, f: spec_fn(int) -> bool)
    requires
        0 <= i < n,
        n <= k,
        find(n, i, k, f) is None,
    ensures
        forall|j: int| 0 <= j < n ==> !#[trigger] f(j),
{
    assert forall|j: int| 0 <= j < n implies !#[trigger] f(j) by {
        let d: nat = if j >= i {
            (j - i) as nat
        } else {
            (j - i + n) as nat
        };
        lemma_walk(n, i, d);
        lemma_miss(n, i, k, f, d);
    }
}

/// Number of elements of `s` that satisfy `f`.
pub open spec fn count_where<A>(s: Seq<A>, f: spec_fn(A) -> bool) -> nat
    decreases s.len(),
{
    if s.len() == 0 {
        0
    } else {
        count_where(s.drop_last(), f) + (if f(s.last()) {
            1nat
        } else {
            0nat
        })
    }
}

/// Replacing one element changes the count by what that element contributes.
pub proof fn lemma_count_update<A>(s: Seq<A>, f: spec_fn(A) -> bool, i: int, a: A)
    requires
        0 <= i < s.len(),
    ensures
        count_where(s.update(i, a), f) + (if f(s[i]) {
            1int
        } else {
            0int
        }) == count_where(s, f) + (if f(a) {
            1int
        } else {
            0int
        }),
    decreases s.len(),
{
    if i == s.len() - 1 {
        assert(s.update(i, a).drop_last() =~= s.drop_last());
    } else {
        assert(s.update(i, a).drop_last() =~= s.drop_last().update(i, a));
        lemma_count_update(s.drop_last(), f, i, a);
    }
}

/// A count lies between nothing and everything.
pub proof fn lemma_count_bounds<A>(s: Seq<A>, f: spec_fn(A) -> bool)
    ensures
        count_where(s, f) <= s.len(),
    decreases s.len(),
{
    if s.len() > 0 {
        lemma_count_bounds(s.drop_last(), f);
    }
}

/// One element that does not satisfy `f` keeps the count below the length.
pub proof fn lemma_count_strict<A>(s: Seq<A>, f: spec_fn(A) -> bool, i: int)
    requires
        0 <= i < s.len(),
        !f(s[i]),
    ensures
        count_where(s, f) < s.len(),
    decreases s.len(),
{
    if i == s.len() - 1 {
        lemma_count_bounds(s.drop_last(), f);
    } else {
        lemma_count_strict(s.drop_last(), f, i);
    }
}

/// The count is zero exactly when no element satisfies `f`.
pub proof fn lemma_count_zero<A>(s: Seq<A>, f: spec_fn(A) -> bool)
    ensures
        count_where(s, f) == 0 <==> forall|i: int| 0 <= i < s.len() ==> !f(#[trigger] s[i]),
    decreases s.len(),
{
    if s.len() > 0 {
        lemma_count_zero(s.drop_last(), f);
        assert forall|i: int| 0 <= i < s.drop_last().len() implies s.drop_last()[i] == #[trigger] s[i] by {}
        if count_where(s, f) == 0 {
            assert forall|i: int| 0 <= i < s.len() implies !f(#[trigger] s[i]) by {
                if i < s.len() - 1 {
                    assert(!f(s.drop_last()[i]));
                }
            }
        }
        if forall|i: int| 0 <= i < s.len() ==> !f(#[trigger] s[i]) {
            assert(!f(s[s.len() - 1]));
            assert forall|i: int| 0 <= i < s.drop_last().len() implies !f(
                #[trigger] s.drop_last()[i],
            ) by {
                assert(!f(s[i]));
            }
        }
    }
}

/// Appending elements adds their counts.
pub proof fn lemma_count_add<A>(s: Seq<A>, t: Seq<A>, f: spec_fn(A) -> bool)
    ensures
        count_where(s + t, f) == count_where(s, f) + count_where(t, f),
    decreases t.len(),
{
    if t.len() == 0 {
        assert(s + t =~= s);
    } else {
        assert((s + t).drop_last() =~= s + t.drop_last());
        lemma_count_add(s, t.drop_last(), f);
    }
}

} // verus!
