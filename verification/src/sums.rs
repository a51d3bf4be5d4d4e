use vstd::prelude::*;

verus! {

/// 1 where the condition holds, else 0.
pub open spec fn one_if(condition: bool) -> int {
    if condition {
        1
    } else {
        0
    }
}

/// The sum `f(0) + f(1) + ... + f(n - 1)`.
pub open spec fn sum_over(n: int, f: spec_fn(int) -> int) -> int
    decreases n,
{
    if n <= 0 {
        0
    } else {
        sum_over(n - 1, f) + f(n - 1)
    }
}

/// Two sums whose terms agree are equal.
pub proof fn lemma_sum_over_same(n: int, f: spec_fn(int) -> int, g: spec_fn(int) -> int)
    requires
        forall|i: int| 0 <= i < n ==> #[trigger] f(i) == g(i),
    ensures
        sum_over(n, f) == sum_over(n, g),
    decreases n,
{
    if n > 0 {
        lemma_sum_over_same(n - 1, f, g);
    }
}

/// Where the terms of two sums agree but at position `j`, the sums differ by
/// what the terms at `j` differ.
pub proof fn lemma_sum_over_change(
    n: int,
    f: spec_fn(int) -> int,
    g: spec_fn(int) -> int,
    j: int,
)
    requires
        0 <= j < n,
        forall|i: int| 0 <= i < n && i != j ==> #[trigger] f(i) == g(i),
    ensures
        sum_over(n, g) == sum_over(n, f) - f(j) + g(j),
    decreases n,
{
    if n - 1 == j {
        lemma_sum_over_same(n - 1, f, g);
    } else {
        lemma_sum_over_change(n - 1, f, g, j);
    }
}

/// A sum of terms that are not negative is not negative and does not shrink
/// when it is carried further.
pub proof fn lemma_sum_over_grows(m: int, n: int, f: spec_fn(int) -> int)
    requires
        m <= n,
        forall|i: int| 0 <= i < n ==> #[trigger] f(i) >= 0,
    ensures
        0 <= sum_over(m, f) <= sum_over(n, f),
    decreases n - m, n,
{
    if m < n {
        lemma_sum_over_grows(m, n - 1, f);
    } else if n > 0 {
        lemma_sum_over_grows(n - 1, n - 1, f);
    }
}

/// A sum of which every term is 0 is 0.
pub proof fn lemma_sum_over_zero(n: int, f: spec_fn(int) -> int)
    requires
        forall|i: int| 0 <= i < n ==> #[trigger] f(i) == 0,
    ensures
        sum_over(n, f) == 0,
    decreases n,
{
    if n > 0 {
        lemma_sum_over_zero(n - 1, f);
    }
}

/// A sum of which every term but one is 0 is that term.
pub proof fn lemma_sum_over_single(n: int, f: spec_fn(int) -> int, j: int)
    requires
        0 <= j < n,
        forall|i: int| 0 <= i < n && i != j ==> #[trigger] f(i) == 0,
    ensures
        sum_over(n, f) == f(j),
    decreases n,
{
    if n - 1 == j {
        lemma_sum_over_zero(n - 1, f);
    } else {
        lemma_sum_over_single(n - 1, f, j);
    }
}

/// No term of a sum of terms that are not negative is larger than the sum.
pub proof fn lemma_sum_over_term(n: int, f: spec_fn(int) -> int, j: int)
    requires
        0 <= j < n,
        forall|i: int| 0 <= i < n ==> #[trigger] f(i) >= 0,
    ensures
        0 <= f(j) <= sum_over(n, f),
{
    lemma_sum_over_grows(j + 1, n, f);
    lemma_sum_over_grows(j, j, f);
}

/// The sum of the sums of two series is the sum of the series of their sums.
pub proof fn lemma_sum_over_add(
    n: int,
    f: spec_fn(int) -> int,
    g: spec_fn(int) -> int,
    h: spec_fn(int) -> int,
)
    requires
        forall|i: int| 0 <= i < n ==> #[trigger] h(i) == f(i) + g(i),
    ensures
        sum_over(n, h) == sum_over(n, f) + sum_over(n, g),
    decreases n,
{
    if n > 0 {
        lemma_sum_over_add(n - 1, f, g, h);
    }
}

} // verus!
