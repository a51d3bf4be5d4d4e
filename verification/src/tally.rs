use crate::moves::SimplifiableMove;
use crate::sums::{
    lemma_sum_over_change, lemma_sum_over_grows, lemma_sum_over_same, lemma_sum_over_single,
    lemma_sum_over_zero, one_if, sum_over,
};
use vstd::prelude::*;

verus! {

/// The results of the playouts that began with one move: the canonical name
/// of the move, the number of playouts that were won, and their number in
/// all.
#[derive(Debug, Clone)]
pub struct Score {
    pub name: String,
    pub wins: i32,
    pub total: i32,
}

/// The results of playouts, gathered by the move they began with.
#[derive(Debug, Clone)]
pub struct Tally {
    pub scores: Vec<Score>,
}

/// For each entry, by position, the wins that it records for the move named
/// `key`.
pub open spec fn wins_at(scores: Seq<Score>, key: Seq<char>) -> spec_fn(int) -> int {
    |i: int|
        if scores[i].name@ == key {
            scores[i].wins as int
        } else {
            0
        }
}

/// For each entry, by position, the playouts that it records for the move
/// named `key`.
pub open spec fn totals_at(scores: Seq<Score>, key: Seq<char>) -> spec_fn(int) -> int {
    |i: int|
        if scores[i].name@ == key {
            scores[i].total as int
        } else {
            0
        }
}

/// For each tally, by position, the wins that it records for the move named
/// `key`.
pub open spec fn wins_of_each(tallies: Seq<Tally>, key: Seq<char>) -> spec_fn(int) -> int {
    |i: int| tallies[i].wins(key)
}

/// For each tally, by position, the playouts that it records for the move
/// named `key`.
pub open spec fn totals_of_each(tallies: Seq<Tally>, key: Seq<char>) -> spec_fn(int) -> int {
    |i: int| tallies[i].total(key)
}

impl View for Tally {
    type V = Map<Seq<char>, (int, int)>;

    /// The moves of which playouts are recorded, each with its wins and
    /// its playouts.
    open spec fn view(&self) -> Map<Seq<char>, (int, int)> {
        Map::new(
            |key: Seq<char>| self.total(key) > 0,
            |key: Seq<char>| (self.wins(key), self.total(key)),
        )
    }
}

impl Tally {
    /// Number of playouts won that began with the move named `key`.
    pub open spec fn wins(&self, key: Seq<char>) -> int {
        sum_over(self.scores@.len() as int, wins_at(self.scores@, key))
    }

    /// Number of playouts that began with the move named `key`.
    pub open spec fn total(&self, key: Seq<char>) -> int {
        sum_over(self.scores@.len() as int, totals_at(self.scores@, key))
    }

    /// Every entry records at least one playout and no more wins than
    /// playouts, and no two entries are of the same move.
    pub open spec fn wf(&self) -> bool {
        &&& forall|i: int|
            0 <= i < self.scores@.len() ==> 0 <= (#[trigger] self.scores@[i]).wins
                <= self.scores@[i].total && self.scores@[i].total >= 1
        &&& forall|i: int, j: int|
            0 <= i < j < self.scores@.len() ==> (#[trigger] self.scores@[i]).name@ != (
            #[trigger] self.scores@[j]).name@
    }

    /// The entry at position `i` holds all that the tally records of its
    /// move, and a move without entry has no playout.
    pub proof fn lemma_entries(&self, key: Seq<char>)
        requires
            self.wf(),
        ensures
            0 <= self.wins(key) <= self.total(key),
            forall|i: int|
                0 <= i < self.scores@.len() && (#[trigger] self.scores@[i]).name@ == key
                    ==> self.wins(key) == self.scores@[i].wins && self.total(key)
                    == self.scores@[i].total,
            (forall|i: int|
                0 <= i < self.scores@.len() ==> (#[trigger] self.scores@[i]).name@ != key)
                ==> self.wins(key) == 0 && self.total(key) == 0,
            self.total(key) <= i32::MAX,
    {
        let n = self.scores@.len() as int;
        let w = wins_at(self.scores@, key);
        let t = totals_at(self.scores@, key);
        if exists|i: int| 0 <= i < n && (#[trigger] self.scores@[i]).name@ == key {
            let j = choose|i: int| 0 <= i < n && (#[trigger] self.scores@[i]).name@ == key;
            assert forall|i: int| 0 <= i < n && i != j implies #[trigger] w(i) == 0 && #[trigger] t(
                i,
            ) == 0 by {
                if i < j {
                    assert(self.scores@[i].name@ != self.scores@[j].name@);
                } else {
                    assert(self.scores@[j].name@ != self.scores@[i].name@);
                }
            }
            lemma_sum_over_single(n, w, j);
            lemma_sum_over_single(n, t, j);
            assert forall|i: int|
                0 <= i < n && (#[trigger] self.scores@[i]).name@ == key implies self.wins(key)
                == self.scores@[i].wins && self.total(key) == self.scores@[i].total by {
                if i < j {
                    assert(self.scores@[i].name@ != self.scores@[j].name@);
                } else if j < i {
                    assert(self.scores@[j].name@ != self.scores@[i].name@);
                }
            }
        } else {
            assert forall|i: int| 0 <= i < n implies #[trigger] w(i) == 0 by {
                assert(self.scores@[i].name@ != key);
            }
            assert forall|i: int| 0 <= i < n implies #[trigger] t(i) == 0 by {
                assert(self.scores@[i].name@ != key);
            }
            lemma_sum_over_zero(n, w);
            lemma_sum_over_zero(n, t);
        }
    }

    /// A tally without playouts.
    pub fn new() -> (r: Tally)
        ensures
            r.wf(),
            r.scores@.len() == 0,
            forall|key: Seq<char>| #[trigger] r.total(key) == 0 && r.wins(key) == 0,
    {
        Tally { scores: Vec::new() }
    }

    /// The position of the entry of the move named `name`, if there is one.
    fn position(&self, name: &String) -> (r: Option<usize>)
        ensures
            match r {
                Some(i) => i < self.scores@.len() && self.scores@[i as int].name@ == name@,
                None => forall|i: int|
                    0 <= i < self.scores@.len() ==> (#[trigger] self.scores@[i]).name@ != name@,
            },
    {
        let mut i: usize = 0;
        while i < self.scores.len()
            invariant
                i <= self.scores@.len(),
                forall|k: int| 0 <= k < i ==> (#[trigger] self.scores@[k]).name@ != name@,
            decreases self.scores@.len() - i,
        {
            if self.scores[i].name == *name {
                return Some(i);
            }
            i = i + 1;
        }
        None
    }

    /// The wins and the playouts that are recorded for the move named
    /// `name`.
    pub fn get(&self, name: &String) -> (r: (i32, i32))
        requires
            self.wf(),
        ensures
            r.0 == self.wins(name@),
            r.1 == self.total(name@),
    {
        proof {
            self.lemma_entries(name@);
        }
        match self.position(name) {
            Some(i) => (self.scores[i].wins, self.scores[i].total),
            None => (0, 0),
        }
    }

    /// Adds `total` playouts, `wins` of them won, to what is recorded for
    /// the move named `name`.
    pub fn add(&mut self, name: String, wins: i32, total: i32)
        requires
            old(self).wf(),
            0 <= wins <= total,
            total >= 1,
            old(self).total(name@) + total <= i32::MAX,
        ensures
            final(self).wf(),
            forall|key: Seq<char>|
                #[trigger] final(self).total(key) == old(self).total(key) + if key == name@ {
                    total as int
                } else {
                    0
                },
            forall|key: Seq<char>|
                #[trigger] final(self).wins(key) == old(self).wins(key) + if key == name@ {
                    wins as int
                } else {
                    0
                },
    {
        let ghost before = self.scores@;
        let ghost n = before.len() as int;
        proof {
            self.lemma_entries(name@);
        }
        match self.position(&name) {
            Some(i) => {
                let entry_wins = self.scores[i].wins;
                let entry_total = self.scores[i].total;
                self.scores[i].wins = entry_wins + wins;
                self.scores[i].total = entry_total + total;
                proof {
                    assert(self.scores@[i as int].name == before[i as int].name);
                    assert forall|k: int| 0 <= k < n && k != i implies #[trigger] self.scores@[k]
                        == before[k] by {}
                    assert forall|key: Seq<char>|
                        #[trigger] self.total(key) == old(self).total(key) + if key == name@ {
                            total as int
                        } else {
                            0
                        } by {
                        lemma_sum_over_change(
                            n,
                            totals_at(before, key),
                            totals_at(self.scores@, key),
                            i as int,
                        );
                    }
                    assert forall|key: Seq<char>|
                        #[trigger] self.wins(key) == old(self).wins(key) + if key == name@ {
                            wins as int
                        } else {
                            0
                        } by {
                        lemma_sum_over_change(
                            n,
                            wins_at(before, key),
                            wins_at(self.scores@, key),
                            i as int,
                        );
                    }
                    assert forall|a: int, b: int| 0 <= a < b < n implies (
                    #[trigger] self.scores@[a]).name@ != (#[trigger] self.scores@[b]).name@ by {
                        assert(before[a].name@ != before[b].name@);
                    }
                }
            },
            None => {
                self.scores.push(Score { name, wins, total });
                proof {
                    assert forall|key: Seq<char>|
                        #[trigger] self.total(key) == old(self).total(key) + if key == name@ {
                            total as int
                        } else {
                            0
                        } by {
                        lemma_sum_over_same(
                            n,
                            totals_at(before, key),
                            totals_at(self.scores@, key),
                        );
                    }
                    assert forall|key: Seq<char>|
                        #[trigger] self.wins(key) == old(self).wins(key) + if key == name@ {
                            wins as int
                        } else {
                            0
                        } by {
                        lemma_sum_over_same(n, wins_at(before, key), wins_at(self.scores@, key));
                    }
                    assert forall|a: int, b: int| 0 <= a < b < n + 1 implies (
                    #[trigger] self.scores@[a]).name@ != (#[trigger] self.scores@[b]).name@ by {
                        if b < n {
                            assert(before[a].name@ != before[b].name@);
                        } else {
                            assert(before[a].name@ != name@);
                        }
                    }
                }
            },
        }
    }

    /// Records the outcome of one playout. A playout that was given up has
    /// no outcome and leaves the tally as it is; any other counts as one
    /// playout of the move it began with, and as a win where it was won.
    pub fn record<M: SimplifiableMove>(&mut self, outcome: Option<(M, bool)>)
        requires
            old(self).wf(),
            match outcome {
                Some((first_move, won)) => old(self).total(first_move.key()) < i32::MAX,
                None => true,
            },
        ensures
            final(self).wf(),
            match outcome {
                Some((first_move, won)) => {
                    &&& forall|key: Seq<char>|
                        #[trigger] final(self).total(key) == old(self).total(key) + one_if(
                            key == first_move.key(),
                        )
                    &&& forall|key: Seq<char>|
                        #[trigger] final(self).wins(key) == old(self).wins(key) + one_if(
                            key == first_move.key() && won,
                        )
                },
                None => final(self).scores@ == old(self).scores@,
            },
    {
        if let Some((first_move, won)) = outcome {
            let name = first_move.simplified();
            if won {
                self.add(name, 1, 1);
            } else {
                self.add(name, 0, 1);
            }
        }
    }

    /// Whether `merge` can add the playouts of `other`: no number of
    /// playouts of a move grows beyond what the counters hold.
    pub fn fits(&self, other: &Tally) -> (r: bool)
        requires
            self.wf(),
            other.wf(),
        ensures
            r == (forall|key: Seq<char>| self.total(key) + #[trigger] other.total(key) <= i32::MAX),
    {
        let mut j: usize = 0;
        while j < other.scores.len()
            invariant
                self.wf(),
                other.wf(),
                j <= other.scores@.len(),
                forall|k: int|
                    0 <= k < j ==> self.total((#[trigger] other.scores@[k]).name@)
                        + other.scores@[k].total <= i32::MAX,
            decreases other.scores@.len() - j,
        {
            let held = self.get(&other.scores[j].name);
            if held.1 as i64 + other.scores[j].total as i64 > i32::MAX as i64 {
                proof {
                    let key = other.scores@[j as int].name@;
                    other.lemma_entries(key);
                    assert(self.total(key) + other.total(key) > i32::MAX);
                }
                return false;
            }
            j = j + 1;
        }
        proof {
            assert forall|key: Seq<char>|
                self.total(key) + #[trigger] other.total(key) <= i32::MAX by {
                other.lemma_entries(key);
                self.lemma_entries(key);
                if exists|i: int|
                    0 <= i < other.scores@.len() && (#[trigger] other.scores@[i]).name@ == key {
                    let i = choose|i: int|
                        0 <= i < other.scores@.len() && (#[trigger] other.scores@[i]).name@
                            == key;
                    assert(self.total(other.scores@[i].name@) + other.scores@[i].total
                        <= i32::MAX);
                }
            }
        }
        true
    }

    /// Adds the playouts of `other`: of every move the wins and the
    /// playouts of both, added up. No move is lost.
    pub fn merge(&mut self, other: &Tally)
        requires
            old(self).wf(),
            other.wf(),
            forall|key: Seq<char>| old(self).total(key) + #[trigger] other.total(key) <= i32::MAX,
        ensures
            final(self).wf(),
            forall|key: Seq<char>|
                #[trigger] final(self).total(key) == old(self).total(key) + other.total(key),
            forall|key: Seq<char>|
                #[trigger] final(self).wins(key) == old(self).wins(key) + other.wins(key),
    {
        let n = other.scores.len();
        let mut j: usize = 0;
        while j < n
            invariant
                self.wf(),
                other.wf(),
                j <= n == other.scores@.len(),
                forall|key: Seq<char>|
                    old(self).total(key) + #[trigger] other.total(key) <= i32::MAX,
                forall|key: Seq<char>|
                    #[trigger] self.total(key) == old(self).total(key) + sum_over(
                        j as int,
                        totals_at(other.scores@, key),
                    ),
                forall|key: Seq<char>|
                    #[trigger] self.wins(key) == old(self).wins(key) + sum_over(
                        j as int,
                        wins_at(other.scores@, key),
                    ),
            decreases n - j,
        {
            let entry = &other.scores[j];
            let name = entry.name.clone();
            proof {
                let key = name@;
                assert(other.scores@[j as int].total >= 1);
                assert forall|i: int| 0 <= i < n implies #[trigger] totals_at(other.scores@, key)(
                    i,
                ) >= 0 by {
                    assert(other.scores@[i].total >= 1);
                }
                lemma_sum_over_grows(j + 1, n as int, totals_at(other.scores@, key));
                assert(old(self).total(key) + other.total(key) <= i32::MAX);
                assert(self.total(key) == old(self).total(key) + sum_over(
                    j as int,
                    totals_at(other.scores@, key),
                ));
            }
            let ghost before = *self;
            self.add(name, entry.wins, entry.total);
            proof {
                assert forall|key: Seq<char>|
                    #[trigger] self.total(key) == old(self).total(key) + sum_over(
                        j + 1,
                        totals_at(other.scores@, key),
                    ) by {
                    assert(before.total(key) == old(self).total(key) + sum_over(
                        j as int,
                        totals_at(other.scores@, key),
                    ));
                }
                assert forall|key: Seq<char>|
                    #[trigger] self.wins(key) == old(self).wins(key) + sum_over(
                        j + 1,
                        wins_at(other.scores@, key),
                    ) by {
                    assert(before.wins(key) == old(self).wins(key) + sum_over(
                        j as int,
                        wins_at(other.scores@, key),
                    ));
                }
            }
            j = j + 1;
        }
    }

    /// The tallies of several workers, added up: of every move the wins
    /// and the playouts that the workers report, summed over the workers.
    /// No move is lost.
    pub fn merge_all(tallies: &Vec<Tally>) -> (merged: Tally)
        requires
            forall|i: int| 0 <= i < tallies@.len() ==> (#[trigger] tallies@[i]).wf(),
            forall|key: Seq<char>|
                #[trigger] sum_over(tallies@.len() as int, totals_of_each(tallies@, key))
                    <= i32::MAX,
        ensures
            merged.wf(),
            forall|key: Seq<char>|
                #[trigger] merged.total(key) == sum_over(
                    tallies@.len() as int,
                    totals_of_each(tallies@, key),
                ),
            forall|key: Seq<char>|
                #[trigger] merged.wins(key) == sum_over(
                    tallies@.len() as int,
                    wins_of_each(tallies@, key),
                ),
    {
        let n = tallies.len();
        let mut merged = Tally::new();
        let mut i: usize = 0;
        while i < n
            invariant
                merged.wf(),
                i <= n == tallies@.len(),
                forall|k: int| 0 <= k < n ==> (#[trigger] tallies@[k]).wf(),
                forall|key: Seq<char>|
                    #[trigger] sum_over(n as int, totals_of_each(tallies@, key)) <= i32::MAX,
                forall|key: Seq<char>|
                    #[trigger] merged.total(key) == sum_over(
                        i as int,
                        totals_of_each(tallies@, key),
                    ),
                forall|key: Seq<char>|
                    #[trigger] merged.wins(key) == sum_over(
                        i as int,
                        wins_of_each(tallies@, key),
                    ),
            decreases n - i,
        {
            let ghost before = merged;
            proof {
                assert forall|key: Seq<char>|
                    merged.total(key) + #[trigger] tallies@[i as int].total(key)
                        <= i32::MAX by {
                    assert forall|k: int| 0 <= k < n implies #[trigger] totals_of_each(
                        tallies@,
                        key,
                    )(k) >= 0 by {
                        tallies@[k].lemma_entries(key);
                    }
                    lemma_sum_over_grows(i + 1, n as int, totals_of_each(tallies@, key));
                    assert(sum_over(n as int, totals_of_each(tallies@, key)) <= i32::MAX);
                    assert(merged.total(key) == sum_over(
                        i as int,
                        totals_of_each(tallies@, key),
                    ));
                }
            }
            merged.merge(&tallies[i]);
            proof {
                assert forall|key: Seq<char>|
                    #[trigger] merged.total(key) == sum_over(
                        i + 1,
                        totals_of_each(tallies@, key),
                    ) by {
                    assert(before.total(key) == sum_over(
                        i as int,
                        totals_of_each(tallies@, key),
                    ));
                }
                assert forall|key: Seq<char>|
                    #[trigger] merged.wins(key) == sum_over(
                        i + 1,
                        wins_of_each(tallies@, key),
                    ) by {
                    assert(before.wins(key) == sum_over(i as int, wins_of_each(tallies@, key)));
                }
            }
            i = i + 1;
        }
        merged
    }
}

} // verus!
