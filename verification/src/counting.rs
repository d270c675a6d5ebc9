//! Counting and adding up over a range.
use vstd::prelude::*;

verus! {

/// How many of the numbers below `n` have a property.
pub open spec fn count(n: nat, p: spec_fn(int) -> bool) -> nat
    decreases n,
{
    if n == 0 {
        0
    } else {
        count((n - 1) as nat, p) + if p(n - 1) {
            1nat
        } else {
            0nat
        }
    }
}

/// What the numbers below `n` add up to.
pub open spec fn total(n: nat, f: spec_fn(int) -> nat) -> nat
    decreases n,
{
    if n == 0 {
        0
    } else {
        total((n - 1) as nat, f) + f(n - 1)
    }
}

pub proof fn lemma_count_same(n: nat, p: spec_fn(int) -> bool, q: spec_fn(int) -> bool)
    requires
        forall|i: int| 0 <= i < n ==> #[trigger] p(i) == q(i),
    ensures
        count(n, p) == count(n, q),
    decreases n,
{
    if n > 0 {
        lemma_count_same((n - 1) as nat, p, q);
        assert(p(n - 1) == q(n - 1));
    }
}

/// A property that one number more has counts one more.
pub proof fn lemma_count_more(n: nat, p: spec_fn(int) -> bool, q: spec_fn(int) -> bool, k: int)
    requires
        0 <= k < n,
        forall|i: int| 0 <= i < n && i != k ==> #[trigger] p(i) == q(i),
        !p(k),
        q(k),
    ensures
        count(n, q) == count(n, p) + 1,
    decreases n,
{
    assert forall|i: int| 0 <= i < n - 1 && i != k implies #[trigger] p(i) == q(i) by {}
    if k == n - 1 {
        lemma_count_same((n - 1) as nat, p, q);
    } else {
        assert(p(n - 1) == q(n - 1));
        lemma_count_more((n - 1) as nat, p, q, k);
    }
}

/// A number that has the property is counted.
pub proof fn lemma_count_some(n: nat, p: spec_fn(int) -> bool, k: int)
    requires
        0 <= k < n,
        p(k),
    ensures
        count(n, p) >= 1,
    decreases n,
{
    if k < n - 1 {
        lemma_count_some((n - 1) as nat, p, k);
    }
}

/// Two numbers that have the property are counted.
pub proof fn lemma_count_two(n: nat, p: spec_fn(int) -> bool, k: int, l: int)
    requires
        0 <= k < l < n,
        p(k),
        p(l),
    ensures
        count(n, p) >= 2,
    decreases n,
{
    if l < n - 1 {
        lemma_count_two((n - 1) as nat, p, k, l);
    } else {
        lemma_count_some((n - 1) as nat, p, k);
    }
}

/// Where at least one is counted, there is one.
pub proof fn lemma_count_one(n: nat, p: spec_fn(int) -> bool) -> (k: int)
    requires
        count(n, p) >= 1,
    ensures
        0 <= k < n,
        p(k),
    decreases n,
{
    if p(n - 1) {
        n - 1
    } else {
        lemma_count_one((n - 1) as nat, p)
    }
}

/// Where two are counted, there is another.
pub proof fn lemma_count_another(n: nat, p: spec_fn(int) -> bool, k: int) -> (l: int)
    requires
        count(n, p) >= 2,
    ensures
        0 <= l < n,
        l != k,
        p(l),
    decreases n,
{
    if p(n - 1) && n - 1 != k {
        n - 1
    } else if p(n - 1) {
        lemma_count_one((n - 1) as nat, p)
    } else {
        lemma_count_another((n - 1) as nat, p, k)
    }
}

pub proof fn lemma_total_same(n: nat, f: spec_fn(int) -> nat, g: spec_fn(int) -> nat)
    requires
        forall|i: int| 0 <= i < n ==> #[trigger] f(i) == g(i),
    ensures
        total(n, f) == total(n, g),
    decreases n,
{
    if n > 0 {
        lemma_total_same((n - 1) as nat, f, g);
        assert(f(n - 1) == g(n - 1));
    }
}

/// A sum goes up by what one of its terms goes up by.
pub proof fn lemma_total_more(n: nat, f: spec_fn(int) -> nat, g: spec_fn(int) -> nat, k: int, d: nat)
    requires
        0 <= k < n,
        forall|i: int| 0 <= i < n && i != k ==> #[trigger] f(i) == g(i),
        g(k) == f(k) + d,
    ensures
        total(n, g) == total(n, f) + d,
    decreases n,
{
    assert forall|i: int| 0 <= i < n - 1 && i != k implies #[trigger] f(i) == g(i) by {}
    if k == n - 1 {
        lemma_total_same((n - 1) as nat, f, g);
    } else {
        assert(f(n - 1) == g(n - 1));
        lemma_total_more((n - 1) as nat, f, g, k, d);
    }
}

pub proof fn lemma_total_zero(n: nat, f: spec_fn(int) -> nat)
    requires
        forall|i: int| 0 <= i < n ==> #[trigger] f(i) == 0,
    ensures
        total(n, f) == 0,
    decreases n,
{
    if n > 0 {
        lemma_total_zero((n - 1) as nat, f);
        assert(f(n - 1) == 0);
    }
}

/// A sum of fewer terms is no greater.
pub proof fn lemma_total_grows(n: nat, whole: nat, f: spec_fn(int) -> nat)
    requires
        n <= whole,
    ensures
        total(n, f) <= total(whole, f),
    decreases whole,
{
    if n < whole {
        lemma_total_grows(n, (whole - 1) as nat, f);
    }
}

/// A property that implies another counts no more.
pub proof fn lemma_count_within(n: nat, p: spec_fn(int) -> bool, q: spec_fn(int) -> bool)
    requires
        forall|i: int| 0 <= i < n && #[trigger] p(i) ==> q(i),
    ensures
        count(n, p) <= count(n, q),
    decreases n,
{
    if n > 0 {
        lemma_count_within((n - 1) as nat, p, q);
        assert(p(n - 1) ==> q(n - 1));
    }
}

/// It counts less where a number has the other property alone.
pub proof fn lemma_count_strictly(n: nat, p: spec_fn(int) -> bool, q: spec_fn(int) -> bool, k: int)
    requires
        forall|i: int| 0 <= i < n && #[trigger] p(i) ==> q(i),
        0 <= k < n,
        q(k),
        !p(k),
    ensures
        count(n, p) < count(n, q),
    decreases n,
{
    assert(p(n - 1) ==> q(n - 1));
    if k == n - 1 {
        lemma_count_within((n - 1) as nat, p, q);
    } else {
        lemma_count_strictly((n - 1) as nat, p, q, k);
    }
}

/// A sum whose terms are no greater is no greater.
pub proof fn lemma_total_within(n: nat, f: spec_fn(int) -> nat, g: spec_fn(int) -> nat)
    requires
        forall|i: int| 0 <= i < n ==> #[trigger] f(i) <= g(i),
    ensures
        total(n, f) <= total(n, g),
    decreases n,
{
    if n > 0 {
        lemma_total_within((n - 1) as nat, f, g);
        assert(f(n - 1) <= g(n - 1));
    }
}

/// A property that no number has counts nothing.
pub proof fn lemma_count_none(n: nat, p: spec_fn(int) -> bool)
    requires
        forall|i: int| 0 <= i < n ==> !#[trigger] p(i),
    ensures
        count(n, p) == 0,
    decreases n,
{
    if n > 0 {
        lemma_count_none((n - 1) as nat, p);
        assert(!p(n - 1));
    }
}

} // verus!
