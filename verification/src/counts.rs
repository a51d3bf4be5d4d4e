use crate::bird::{occurrences, Bird, SPECIES};
use vstd::prelude::*;

verus! {

/// A number of cards for every species: a hand, a collection, a pile.
///
/// The species are the keys and the numbers the values of a map that is
/// defined on every species; a species that is absent has the number 0.
#[derive(Debug, Clone, Copy)]
pub struct BirdCounts {
    pub counts: [i32; 8],
}

/// A set of species.
#[derive(Debug, Clone, Copy)]
pub struct BirdSet {
    pub members: [bool; 8],
}

impl View for BirdCounts {
    type V = Map<Bird, int>;

    open spec fn view(&self) -> Map<Bird, int> {
        Map::total(|b: Bird| self.count(b))
    }
}

impl View for BirdSet {
    type V = Set<Bird>;

    open spec fn view(&self) -> Set<Bird> {
        Set::new(|b: Bird| self.has(b))
    }
}

impl BirdCounts {
    /// Number of cards of species `b`.
    pub open spec fn count(&self, b: Bird) -> int {
        self.counts@[b.index()] as int
    }

    /// No species has a negative number of cards.
    pub open spec fn wf(&self) -> bool {
        forall|b: Bird| self.count(b) >= 0
    }

    /// Number of cards of all species together.
    pub open spec fn sum(&self) -> int {
        self.count(Bird::PARROT) + self.count(Bird::WARBLER) + self.count(Bird::TOUCAN)
            + self.count(Bird::FLAMINGO) + self.count(Bird::ROBIN) + self.count(Bird::MAGPIE)
            + self.count(Bird::OWL) + self.count(Bird::DUCK)
    }

    /// Number of species before position `i` of which there are at least
    /// `n` cards.
    pub open spec fn kinds_below(&self, n: int, i: int) -> int
        decreases i,
    {
        if i <= 0 {
            0
        } else {
            self.kinds_below(n, i - 1) + if self.count(Bird::at(i - 1)) >= n {
                1int
            } else {
                0int
            }
        }
    }

    /// Number of species of which there are at least `n` cards.
    pub open spec fn kinds_with(&self, n: int) -> int {
        self.kinds_below(n, SPECIES as int)
    }

    /// The species before position `i` of which there is at least one
    /// card, in enumeration order.
    pub open spec fn species_below(&self, i: int) -> Seq<Bird>
        decreases i,
    {
        if i <= 0 {
            Seq::empty()
        } else if self.count(Bird::at(i - 1)) > 0 {
            self.species_below(i - 1).push(Bird::at(i - 1))
        } else {
            self.species_below(i - 1)
        }
    }

    /// The species of which there is at least one card, in enumeration
    /// order.
    pub open spec fn species_held(&self) -> Seq<Bird> {
        self.species_below(SPECIES as int)
    }

    /// The counts with no card at all.
    pub fn new() -> (r: BirdCounts)
        ensures
            forall|b: Bird| r.count(b) == 0,
            r.wf(),
            r.sum() == 0,
    {
        BirdCounts { counts: [0; 8] }
    }

    /// Number of cards of species `bird`.
    pub fn get(&self, bird: Bird) -> (n: i32)
        ensures
            n == self.count(bird),
    {
        self.counts[bird.ordinal()]
    }

    /// Makes the number of cards of `bird` be `n` and leaves the others.
    pub fn set(&mut self, bird: Bird, n: i32)
        ensures
            final(self).count(bird) == n,
            forall|o: Bird| o != bird ==> final(self).count(o) == old(self).count(o),
    {
        self.counts[bird.ordinal()] = n;
    }

    /// Adds `n` cards of `bird`.
    pub fn add(&mut self, bird: Bird, n: i32)
        requires
            i32::MIN <= old(self).count(bird) + n <= i32::MAX,
        ensures
            final(self).count(bird) == old(self).count(bird) + n,
            forall|o: Bird| o != bird ==> final(self).count(o) == old(self).count(o),
            final(self).sum() == old(self).sum() + n,
    {
        let i = bird.ordinal();
        self.counts[i] = self.counts[i] + n;
    }

    /// Takes all cards of `bird` away and returns how many there were.
    pub fn remove(&mut self, bird: Bird) -> (n: i32)
        ensures
            n == old(self).count(bird),
            final(self).count(bird) == 0,
            forall|o: Bird| o != bird ==> final(self).count(o) == old(self).count(o),
            final(self).sum() == old(self).sum() - n,
    {
        let i = bird.ordinal();
        let n = self.counts[i];
        self.counts[i] = 0;
        n
    }

    /// Number of cards of all species together.
    pub fn total(&self) -> (t: i64)
        ensures
            t == self.sum(),
    {
        let c = &self.counts;
        c[0] as i64 + c[1] as i64 + c[2] as i64 + c[3] as i64 + c[4] as i64 + c[5] as i64
            + c[6] as i64 + c[7] as i64
    }

    /// Whether no species has a negative number of cards.
    pub fn is_wf(&self) -> (r: bool)
        ensures
            r == self.wf(),
    {
        let c = &self.counts;
        let r = c[0] >= 0 && c[1] >= 0 && c[2] >= 0 && c[3] >= 0 && c[4] >= 0 && c[5] >= 0 && c[6]
            >= 0 && c[7] >= 0;
        proof {
            if r {
                assert forall|b: Bird| self.count(b) >= 0 by {
                    crate::bird::lemma_index_at(b, 0);
                }
            } else {
                assert(self.count(Bird::PARROT) < 0 || self.count(Bird::WARBLER) < 0 || self.count(
                    Bird::TOUCAN,
                ) < 0 || self.count(Bird::FLAMINGO) < 0 || self.count(Bird::ROBIN) < 0
                    || self.count(Bird::MAGPIE) < 0 || self.count(Bird::OWL) < 0 || self.count(
                    Bird::DUCK,
                ) < 0);
            }
        }
        r
    }

    /// Whether no species has a card.
    pub fn is_empty(&self) -> (r: bool)
        ensures
            r == (forall|b: Bird| self.count(b) <= 0),
    {
        let c = &self.counts;
        let r = c[0] <= 0 && c[1] <= 0 && c[2] <= 0 && c[3] <= 0 && c[4] <= 0 && c[5] <= 0 && c[6]
            <= 0 && c[7] <= 0;
        proof {
            if r {
                assert forall|b: Bird| self.count(b) <= 0 by {
                    crate::bird::lemma_index_at(b, 0);
                }
            } else {
                assert(self.count(Bird::PARROT) > 0 || self.count(Bird::WARBLER) > 0 || self.count(
                    Bird::TOUCAN,
                ) > 0 || self.count(Bird::FLAMINGO) > 0 || self.count(Bird::ROBIN) > 0
                    || self.count(Bird::MAGPIE) > 0 || self.count(Bird::OWL) > 0 || self.count(
                    Bird::DUCK,
                ) > 0);
            }
        }
        r
    }

    /// Whether both hold the same number of cards of every species.
    pub fn same(&self, other: &BirdCounts) -> (r: bool)
        ensures
            r == (forall|b: Bird| self.count(b) == other.count(b)),
            r == (self@ == other@),
    {
        let c = &self.counts;
        let d = &other.counts;
        let r = c[0] == d[0] && c[1] == d[1] && c[2] == d[2] && c[3] == d[3] && c[4] == d[4]
            && c[5] == d[5] && c[6] == d[6] && c[7] == d[7];
        proof {
            if r {
                assert forall|b: Bird| self.count(b) == other.count(b) by {
                    crate::bird::lemma_index_at(b, 0);
                }
                assert(self@ =~= other@);
            } else {
                let b = if c[0] != d[0] {
                    Bird::PARROT
                } else if c[1] != d[1] {
                    Bird::WARBLER
                } else if c[2] != d[2] {
                    Bird::TOUCAN
                } else if c[3] != d[3] {
                    Bird::FLAMINGO
                } else if c[4] != d[4] {
                    Bird::ROBIN
                } else if c[5] != d[5] {
                    Bird::MAGPIE
                } else if c[6] != d[6] {
                    Bird::OWL
                } else {
                    Bird::DUCK
                };
                assert(self.count(b) != other.count(b));
                assert(self@[b] != other@[b]);
            }
        }
        r
    }

    /// The species of which there is at least one card, in enumeration
    /// order.
    pub fn species(&self) -> (r: Vec<Bird>)
        ensures
            r@ == self.species_held(),
            r@.len() == self.kinds_with(1),
            forall|b: Bird| r@.contains(b) <==> self.count(b) > 0,
            forall|i: int, j: int| 0 <= i < j < r@.len() ==> r@[i].index() < r@[j].index(),
    {
        let mut r: Vec<Bird> = Vec::new();
        let mut i: usize = 0;
        while i < SPECIES
            invariant
                i <= SPECIES,
                r@ == self.species_below(i as int),
                r@.len() == self.kinds_below(1, i as int),
                forall|b: Bird| r@.contains(b) <==> self.count(b) > 0 && b.index() < i,
                forall|k: int| 0 <= k < r@.len() ==> r@[k].index() < i,
                forall|k: int, j: int| 0 <= k < j < r@.len() ==> r@[k].index() < r@[j].index(),
            decreases SPECIES - i,
        {
            let bird = Bird::from_ordinal(i).unwrap();
            let ghost before = r@;
            proof {
                crate::bird::lemma_index_at(bird, i as int);
            }
            if self.counts[i] > 0 {
                r.push(bird);
            }
            proof {
                assert forall|b: Bird| r@.contains(b) <==> self.count(b) > 0 && b.index() < i
                    + 1 by {
                    crate::bird::lemma_index_at(b, i as int);
                    if before.contains(b) {
                        let j = choose|j: int| 0 <= j < before.len() && before[j] == b;
                        assert(r@[j] == b);
                    }
                    if b == bird && self.count(b) > 0 {
                        assert(r@[r@.len() - 1] == b);
                    }
                }
            }
            i = i + 1;
        }
        proof {
            assert forall|b: Bird| r@.contains(b) <==> self.count(b) > 0 by {
                crate::bird::lemma_index_at(b, 0);
            }
        }
        r
    }

    /// Adds the cards of `other`, species by species.
    pub fn add_all(&mut self, other: &BirdCounts)
        requires
            forall|b: Bird| i32::MIN <= old(self).count(b) + #[trigger] other.count(b) <= i32::MAX,
        ensures
            forall|b: Bird| final(self).count(b) == old(self).count(b) + other.count(b),
            final(self).sum() == old(self).sum() + other.sum(),
    {
        let mut i: usize = 0;
        while i < SPECIES
            invariant
                i <= SPECIES,
                forall|b: Bird| i32::MIN <= old(self).count(b)
                    + #[trigger] other.count(b) <= i32::MAX,
                forall|b: Bird|
                    b.index() < i ==> self.count(b) == old(self).count(b) + other.count(b),
                forall|b: Bird| b.index() >= i ==> self.count(b) == old(self).count(b),
            decreases SPECIES - i,
        {
            let bird = Bird::from_ordinal(i).unwrap();
            proof {
                crate::bird::lemma_index_at(bird, i as int);
            }
            self.add(bird, other.get(bird));
            i = i + 1;
        }
    }

    /// Takes the cards of `other` away, species by species.
    pub fn subtract(&mut self, other: &BirdCounts)
        requires
            forall|b: Bird| i32::MIN <= old(self).count(b) - #[trigger] other.count(b) <= i32::MAX,
        ensures
            forall|b: Bird| final(self).count(b) == old(self).count(b) - other.count(b),
            final(self).sum() == old(self).sum() - other.sum(),
    {
        let mut i: usize = 0;
        while i < SPECIES
            invariant
                i <= SPECIES,
                forall|b: Bird| i32::MIN <= old(self).count(b)
                    - #[trigger] other.count(b) <= i32::MAX,
                forall|b: Bird|
                    b.index() < i ==> self.count(b) == old(self).count(b) - other.count(b),
                forall|b: Bird| b.index() >= i ==> self.count(b) == old(self).count(b),
            decreases SPECIES - i,
        {
            let bird = Bird::from_ordinal(i).unwrap();
            proof {
                crate::bird::lemma_index_at(bird, i as int);
            }
            let n = other.get(bird);
            let m = self.get(bird);
            self.set(bird, m - n);
            i = i + 1;
        }
    }

    /// Takes the cards of `other` away, species by species, unless the number
    /// of some species would fall below `floor`: then nothing is taken, and
    /// the result is `false`.
    pub fn subtract_above(&mut self, other: &BirdCounts, floor: i32) -> (done: bool)
        requires
            other.wf(),
        ensures
            done == (forall|b: Bird| old(self).count(b) - #[trigger] other.count(b) >= floor),
            done ==> forall|b: Bird|
                #[trigger] final(self).count(b) == old(self).count(b) - other.count(b),
            !done ==> *final(self) == *old(self),
    {
        let mut i: usize = 0;
        while i < SPECIES
            invariant
                i <= SPECIES,
                *self == *old(self),
                forall|b: Bird|
                    b.index() < i ==> self.count(b) - #[trigger] other.count(b) >= floor,
            decreases SPECIES - i,
        {
            let bird = Bird::from_ordinal(i).unwrap();
            proof {
                crate::bird::lemma_index_at(bird, i as int);
            }
            if (self.get(bird) as i64) - (other.get(bird) as i64) < floor as i64 {
                return false;
            }
            proof {
                assert forall|b: Bird| b.index() < i + 1 implies self.count(b)
                    - #[trigger] other.count(b) >= floor by {
                    crate::bird::lemma_index_at(b, 0);
                }
            }
            i = i + 1;
        }
        proof {
            assert forall|b: Bird|
                i32::MIN <= self.count(b) - #[trigger] other.count(b) <= i32::MAX by {
                crate::bird::lemma_index_at(b, 0);
                assert(other.count(b) >= 0);
            }
        }
        self.subtract(other);
        true
    }

    /// The cards of a sequence of birds, counted by species.
    pub fn from_birds(birds: &Vec<Bird>) -> (r: BirdCounts)
        requires
            birds@.len() <= i32::MAX,
        ensures
            forall|b: Bird| r.count(b) == occurrences(birds@, b),
            r.wf(),
            r.sum() == birds@.len(),
    {
        let mut r = BirdCounts::new();
        let mut i: usize = 0;
        proof {
            assert(birds@.take(0) =~= Seq::<Bird>::empty());
            assert forall|b: Bird| r.count(b) == occurrences(birds@.take(0), b) by {
                Seq::<Bird>::empty().to_multiset_ensures();
                assert(Seq::<Bird>::empty().to_multiset().len() == 0);
            }
        }
        while i < birds.len()
            invariant
                i <= birds@.len() <= i32::MAX,
                forall|b: Bird| r.count(b) == occurrences(birds@.take(i as int), b),
                r.wf(),
                r.sum() == i,
            decreases birds@.len() - i,
        {
            let bird = birds[i];
            r.add(bird, 1);
            proof {
                assert(birds@.take(i + 1) =~= birds@.take(i as int).push(bird));
                broadcast use vstd::seq_lib::to_multiset_build;

            }
            i = i + 1;
        }
        assert(birds@.take(birds@.len() as int) =~= birds@);
        r
    }

    /// Number of species of which there are at least `n` cards.
    pub fn kinds(&self, n: i32) -> (k: usize)
        ensures
            k == self.kinds_with(n as int),
            k <= SPECIES,
    {
        let mut k: usize = 0;
        let mut i: usize = 0;
        while i < SPECIES
            invariant
                i <= SPECIES,
                k <= i,
                k == self.kinds_below(n as int, i as int),
            decreases SPECIES - i,
        {
            proof {
                crate::bird::lemma_index_at(Bird::PARROT, i as int);
            }
            if self.counts[i] >= n {
                k = k + 1;
            }
            i = i + 1;
        }
        k
    }
}

impl BirdSet {
    /// Whether `b` belongs to the set.
    pub open spec fn has(&self, b: Bird) -> bool {
        self.members@[b.index()]
    }

    /// The empty set.
    pub fn new() -> (r: BirdSet)
        ensures
            r@ == Set::<Bird>::empty(),
            forall|b: Bird| !r.has(b),
    {
        let r = BirdSet { members: [false; 8] };
        assert(r@ =~= Set::<Bird>::empty());
        r
    }

    /// Whether `bird` belongs to the set.
    pub fn contains(&self, bird: Bird) -> (r: bool)
        ensures
            r == self@.contains(bird),
            r == self.has(bird),
    {
        self.members[bird.ordinal()]
    }

    /// Puts `bird` into the set.
    pub fn insert(&mut self, bird: Bird)
        ensures
            final(self)@ == old(self)@.insert(bird),
            forall|b: Bird| final(self).has(b) == (b == bird || old(self).has(b)),
    {
        self.members[bird.ordinal()] = true;
        assert(self@ =~= old(self)@.insert(bird));
    }

    /// Takes `bird` out of the set.
    pub fn remove(&mut self, bird: Bird)
        ensures
            final(self)@ == old(self)@.remove(bird),
            forall|b: Bird| final(self).has(b) == (b != bird && old(self).has(b)),
    {
        self.members[bird.ordinal()] = false;
        assert(self@ =~= old(self)@.remove(bird));
    }
}

} // verus!
