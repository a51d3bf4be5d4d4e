use vstd::prelude::*;

verus! {

/// Number of species in the game.
pub const SPECIES: usize = 8;

/// The eight species of the game, in their fixed enumeration order.
#[derive(Debug, Eq, PartialEq, Hash, Copy, Clone, Structural)]
pub enum Bird {
    PARROT,
    WARBLER,
    TOUCAN,
    FLAMINGO,
    ROBIN,
    MAGPIE,
    OWL,
    DUCK,
}

/// The card statistics of one species: how many copies the game holds and
/// how many cards make a small and a large flock.
#[derive(Debug)]
pub struct BirdInfo {
    pub cards: i32,
    pub small: i32,
    pub large: i32,
}

impl Bird {
    /// Position of the species in the enumeration order, from 0 to 7.
    pub open spec fn index(self) -> int {
        match self {
            Bird::PARROT => 0,
            Bird::WARBLER => 1,
            Bird::TOUCAN => 2,
            Bird::FLAMINGO => 3,
            Bird::ROBIN => 4,
            Bird::MAGPIE => 5,
            Bird::OWL => 6,
            Bird::DUCK => 7,
        }
    }

    /// The species at position `i` of the enumeration order.
    pub open spec fn at(i: int) -> Bird {
        if i == 0 {
            Bird::PARROT
        } else if i == 1 {
            Bird::WARBLER
        } else if i == 2 {
            Bird::TOUCAN
        } else if i == 3 {
            Bird::FLAMINGO
        } else if i == 4 {
            Bird::ROBIN
        } else if i == 5 {
            Bird::MAGPIE
        } else if i == 6 {
            Bird::OWL
        } else {
            Bird::DUCK
        }
    }

    /// The one-character tag of the species.
    pub open spec fn tag(self) -> char {
        match self {
            Bird::PARROT => 'P',
            Bird::WARBLER => 'W',
            Bird::TOUCAN => 'T',
            Bird::FLAMINGO => 'F',
            Bird::ROBIN => 'R',
            Bird::MAGPIE => 'M',
            Bird::OWL => 'O',
            Bird::DUCK => 'D',
        }
    }

    /// Number of copies of the species in the whole game.
    pub open spec fn copies(self) -> int {
        match self {
            Bird::PARROT => 13,
            Bird::WARBLER => 20,
            Bird::TOUCAN => 10,
            Bird::FLAMINGO => 7,
            Bird::ROBIN => 20,
            Bird::MAGPIE => 17,
            Bird::OWL => 10,
            Bird::DUCK => 13,
        }
    }

    /// Number of cards of the species that make a small flock.
    pub open spec fn small(self) -> int {
        match self {
            Bird::PARROT => 4,
            Bird::WARBLER => 6,
            Bird::TOUCAN => 3,
            Bird::FLAMINGO => 2,
            Bird::ROBIN => 6,
            Bird::MAGPIE => 5,
            Bird::OWL => 3,
            Bird::DUCK => 4,
        }
    }

    /// Number of cards of the species that make a large flock.
    pub open spec fn large(self) -> int {
        match self {
            Bird::PARROT => 6,
            Bird::WARBLER => 9,
            Bird::TOUCAN => 4,
            Bird::FLAMINGO => 3,
            Bird::ROBIN => 9,
            Bird::MAGPIE => 7,
            Bird::OWL => 4,
            Bird::DUCK => 6,
        }
    }

    /// Position of the species in the enumeration order.
    pub fn ordinal(self) -> (i: usize)
        ensures
            i == self.index(),
            i < SPECIES,
    {
        match self {
            Bird::PARROT => 0,
            Bird::WARBLER => 1,
            Bird::TOUCAN => 2,
            Bird::FLAMINGO => 3,
            Bird::ROBIN => 4,
            Bird::MAGPIE => 5,
            Bird::OWL => 6,
            Bird::DUCK => 7,
        }
    }

    /// The species at position `i` of the enumeration order, if there is one.
    pub fn from_ordinal(i: usize) -> (r: Option<Bird>)
        ensures
            i < SPECIES ==> r == Some(Bird::at(i as int)),
            i >= SPECIES ==> r is None,
    {
        match i {
            0 => Some(Bird::PARROT),
            1 => Some(Bird::WARBLER),
            2 => Some(Bird::TOUCAN),
            3 => Some(Bird::FLAMINGO),
            4 => Some(Bird::ROBIN),
            5 => Some(Bird::MAGPIE),
            6 => Some(Bird::OWL),
            7 => Some(Bird::DUCK),
            _ => None,
        }
    }

    /// The species whose tag is `character`, if any.
    pub fn from_char(character: char) -> (r: Option<Bird>)
        ensures
            match r {
                Some(b) => b.tag() == character,
                None => forall|b: Bird| b.tag() != character,
            },
    {
        match character {
            'P' => Some(Bird::PARROT),
            'W' => Some(Bird::WARBLER),
            'T' => Some(Bird::TOUCAN),
            'F' => Some(Bird::FLAMINGO),
            'R' => Some(Bird::ROBIN),
            'M' => Some(Bird::MAGPIE),
            'O' => Some(Bird::OWL),
            'D' => Some(Bird::DUCK),
            _ => None,
        }
    }

    /// The tag of the species.
    pub fn to_char(&self) -> (c: char)
        ensures
            c == self.tag(),
    {
        match self {
            Bird::PARROT => 'P',
            Bird::WARBLER => 'W',
            Bird::TOUCAN => 'T',
            Bird::FLAMINGO => 'F',
            Bird::ROBIN => 'R',
            Bird::MAGPIE => 'M',
            Bird::OWL => 'O',
            Bird::DUCK => 'D',
        }
    }

    /// Reads a string of tags as the species they name, in order. The
    /// result is `None` exactly when some character is no tag.
    pub fn from_string(string: &str) -> (r: Option<Vec<Bird>>)
        ensures
            match r {
                Some(birds) => tags(birds@) == string@,
                None => exists|i: int|
                    0 <= i < string@.len() && forall|b: Bird| b.tag() != #[trigger] string@[i],
            },
    {
        let mut birds: Vec<Bird> = Vec::new();
        for character in it: string.chars()
            invariant
                it.seq() == string@,
                tags(birds@) == string@.take(it.index() as int),
        {
            assert(string@[it.index() as int] == character);
            assert(tags(birds@).len() == it.index());
            if let Some(x) = Bird::from_char(character) {
                birds.push(x);
                assert(tags(birds@) =~= string@.take(it.index() + 1));
            } else {
                return None;
            }
        }
        assert(string@.take(string@.len() as int) =~= string@);
        Some(birds)
    }

    /// The card statistics of the species.
    pub fn information(self) -> (info: BirdInfo)
        ensures
            info.cards == self.copies(),
            info.small == self.small(),
            info.large == self.large(),
    {
        match self {
            Bird::PARROT => BirdInfo { cards: 13, small: 4, large: 6 },
            Bird::WARBLER => BirdInfo { cards: 20, small: 6, large: 9 },
            Bird::TOUCAN => BirdInfo { cards: 10, small: 3, large: 4 },
            Bird::FLAMINGO => BirdInfo { cards: 7, small: 2, large: 3 },
            Bird::ROBIN => BirdInfo { cards: 20, small: 6, large: 9 },
            Bird::MAGPIE => BirdInfo { cards: 17, small: 5, large: 7 },
            Bird::OWL => BirdInfo { cards: 10, small: 3, large: 4 },
            Bird::DUCK => BirdInfo { cards: 13, small: 4, large: 6 },
        }
    }
}

/// The tags of a sequence of birds, in the same order.
pub open spec fn tags(birds: Seq<Bird>) -> Seq<char> {
    Seq::new(birds.len(), |i: int| birds[i].tag())
}

/// How often `b` occurs in `s`.
pub open spec fn occurrences(s: Seq<Bird>, b: Bird) -> nat {
    s.to_multiset().count(b)
}

/// Enumeration positions and species correspond one to one.
pub proof fn lemma_index_at(b: Bird, i: int)
    ensures
        0 <= b.index() < SPECIES,
        Bird::at(b.index()) == b,
        0 <= i < SPECIES ==> Bird::at(i).index() == i,
{
}

/// No two species share a tag.
pub proof fn lemma_tag_injective(a: Bird, b: Bird)
    requires
        a.tag() == b.tag(),
    ensures
        a == b,
{
}

/// A flock of the small size is never larger than a large flock, two cards
/// never exceed a large flock, and no flock needs more cards than exist.
pub proof fn lemma_thresholds(b: Bird)
    ensures
        2 <= b.small() < b.large() <= b.copies(),
        3 <= b.large(),
{
}

} // verus!
