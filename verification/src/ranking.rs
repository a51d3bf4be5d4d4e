use crate::sums::sum_over;
use crate::tally::{Score, Tally};
use vstd::prelude::*;

verus! {

/// The first score has the higher rate of wins: more wins for each playout
/// than the second.
pub open spec fn outranks(a: Score, b: Score) -> bool {
    a.wins as int * b.total as int > b.wins as int * a.total as int
}

/// A score that does not have a higher rate of wins than a second has none
/// higher than a third that outranks the second.
pub proof fn lemma_outranks_transitive(a: Score, b: Score, c: Score)
    requires
        a.total >= 1,
        b.total >= 1,
        c.total >= 1,
        !outranks(a, b),
        outranks(c, b),
    ensures
        !outranks(a, c),
        outranks(c, a),
{
    let (wa, ta) = (a.wins as int, a.total as int);
    let (wb, tb) = (b.wins as int, b.total as int);
    let (wc, tc) = (c.wins as int, c.total as int);
    assert(wa * tc * tb < wc * ta * tb) by (nonlinear_arith)
        requires
            wa * tb <= wb * ta,
            wc * tb > wb * tc,
            ta >= 1,
            tb >= 1,
            tc >= 1,
    {
        assert((wa * tb) * tc <= (wb * ta) * tc);
        assert((wc * tb) * ta > (wb * tc) * ta);
    }
    assert(wa * tc < wc * ta) by (nonlinear_arith)
        requires
            wa * tc * tb < wc * ta * tb,
            tb >= 1,
    {
    }
}

/// Whether the first score has the higher rate of wins.
pub fn is_higher(a: &Score, b: &Score) -> (r: bool)
    ensures
        r == outranks(*a, *b),
{
    proof {
        let (wa, ta) = (a.wins as int, a.total as int);
        let (wb, tb) = (b.wins as int, b.total as int);
        assert(-0x4000_0000_0000_0000 <= wa * tb <= 0x4000_0000_0000_0000) by (nonlinear_arith)
            requires
                -0x8000_0000 <= wa <= 0x7fff_ffff,
                -0x8000_0000 <= tb <= 0x7fff_ffff,
        {
        }
        assert(-0x4000_0000_0000_0000 <= wb * ta <= 0x4000_0000_0000_0000) by (nonlinear_arith)
            requires
                -0x8000_0000 <= wb <= 0x7fff_ffff,
                -0x8000_0000 <= ta <= 0x7fff_ffff,
        {
        }
    }
    (a.wins as i64) * (b.total as i64) > (b.wins as i64) * (a.total as i64)
}

impl Tally {
    /// The positions of the entries in the order of their rates of wins,
    /// the highest first: every position once, and none before one whose
    /// entry has a higher rate.
    pub fn ranking(&self) -> (order: Vec<usize>)
        requires
            self.wf(),
        ensures
            order@.len() == self.scores@.len(),
            forall|a: int| 0 <= a < order@.len() ==> #[trigger] order@[a] < self.scores@.len(),
            forall|a: int, b: int|
                0 <= a < b < order@.len() ==> #[trigger] order@[a] != #[trigger] order@[b],
            forall|a: int, b: int|
                0 <= a < b < order@.len() ==> !outranks(
                    self.scores@[#[trigger] order@[b] as int],
                    self.scores@[#[trigger] order@[a] as int],
                ),
    {
        let n = self.scores.len();
        let mut order: Vec<usize> = Vec::new();
        let mut i: usize = 0;
        while i < n
            invariant
                i <= n == self.scores@.len(),
                order@.len() == i,
                forall|a: int| 0 <= a < i ==> #[trigger] order@[a] == a,
            decreases n - i,
        {
            order.push(i);
            i = i + 1;
        }
        let mut k: usize = 0;
        while k < n
            invariant
                self.wf(),
                k <= n == self.scores@.len(),
                order@.len() == n,
                forall|a: int| 0 <= a < n ==> #[trigger] order@[a] < n,
                forall|a: int, b: int|
                    0 <= a < b < n ==> #[trigger] order@[a] != #[trigger] order@[b],
                forall|a: int, b: int|
                    0 <= a < k && a < b < n ==> !outranks(
                        self.scores@[#[trigger] order@[b] as int],
                        self.scores@[#[trigger] order@[a] as int],
                    ),
            decreases n - k,
        {
            let mut best: usize = k;
            let mut j: usize = k + 1;
            while j < n
                invariant
                    self.wf(),
                    k <= best < j <= n,
                    n == self.scores@.len(),
                    order@.len() == n,
                    forall|a: int| 0 <= a < n ==> #[trigger] order@[a] < n,
                    forall|b: int|
                        k <= b < j ==> !outranks(
                            self.scores@[#[trigger] order@[b] as int],
                            self.scores@[order@[best as int] as int],
                        ),
                decreases n - j,
            {
                if is_higher(&self.scores[order[j]], &self.scores[order[best]]) {
                    proof {
                        let top = self.scores@[order@[j as int] as int];
                        let old_top = self.scores@[order@[best as int] as int];
                        assert forall|b: int| k <= b < j + 1 implies !outranks(
                            self.scores@[#[trigger] order@[b] as int],
                            top,
                        ) by {
                            if b < j {
                                lemma_outranks_transitive(
                                    self.scores@[order@[b] as int],
                                    old_top,
                                    top,
                                );
                            }
                        }
                    }
                    best = j;
                }
                j = j + 1;
            }
            let ghost before = order@;
            let first = order[k];
            let chosen = order[best];
            order.set(k, chosen);
            order.set(best, first);
            proof {
                assert forall|a: int, b: int| 0 <= a < b < n implies #[trigger] order@[a]
                    != #[trigger] order@[b] by {
                    let pa = if a == k {
                        best as int
                    } else if a == best {
                        k as int
                    } else {
                        a
                    };
                    let pb = if b == k {
                        best as int
                    } else if b == best {
                        k as int
                    } else {
                        b
                    };
                    assert(order@[a] == before[pa]);
                    assert(order@[b] == before[pb]);
                    if pa < pb {
                        assert(before[pa] != before[pb]);
                    } else {
                        assert(before[pb] != before[pa]);
                    }
                }
                assert forall|a: int, b: int| 0 <= a < k + 1 && a < b < n implies !outranks(
                    self.scores@[#[trigger] order@[b] as int],
                    self.scores@[#[trigger] order@[a] as int],
                ) by {
                    let pb = if b == k {
                        best as int
                    } else if b == best {
                        k as int
                    } else {
                        b
                    };
                    assert(order@[b] == before[pb]);
                    if a < k {
                        assert(order@[a] == before[a]);
                        assert(!outranks(
                            self.scores@[before[pb] as int],
                            self.scores@[before[a] as int],
                        ));
                    } else {
                        assert(order@[a] == before[best as int]);
                        assert(!outranks(
                            self.scores@[before[pb] as int],
                            self.scores@[before[best as int] as int],
                        ));
                    }
                }
            }
            k = k + 1;
        }
        order
    }

    /// Number of playouts that the tally records in all: the playouts of
    /// its entries, added up.
    pub open spec fn playouts(&self) -> int {
        sum_over(self.scores@.len() as int, playouts_at(self.scores@))
    }

    /// Number of playouts that the tally records in all.
    pub fn evaluated(&self) -> (total: i64)
        requires
            self.wf(),
            self.scores@.len() <= i32::MAX,
        ensures
            total == self.playouts(),
    {
        let mut total: i64 = 0;
        let mut i: usize = 0;
        while i < self.scores.len()
            invariant
                self.wf(),
                i <= self.scores@.len() <= i32::MAX,
                total == sum_over(i as int, playouts_at(self.scores@)),
                0 <= total <= i * 0x7fff_ffff,
            decreases self.scores@.len() - i,
        {
            total = total + self.scores[i].total as i64;
            i = i + 1;
        }
        total
    }
}

/// For each entry, by position, the playouts that it records.
pub open spec fn playouts_at(scores: Seq<Score>) -> spec_fn(int) -> int {
    |i: int| scores[i].total as int
}

} // verus!
