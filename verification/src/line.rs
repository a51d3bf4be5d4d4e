use crate::bird::{occurrences, Bird};
use crate::counts::BirdCounts;
use crate::materialized_state::{pile_count, pile_total, MaterializedCubirdsState};
use rand::rngs::StdRng;
use vstd::prelude::*;

verus! {

/// One line of cards on the board, from its left end to its right end.
#[derive(Debug)]
pub struct Line(pub Vec<Bird>);

impl View for Line {
    type V = Seq<Bird>;

    open spec fn view(&self) -> Seq<Bird> {
        self.0@
    }
}

impl Clone for Line {
    fn clone(&self) -> (r: Self)
        ensures
            r@ == self@,
    {
        let mut cards: Vec<Bird> = Vec::new();
        let mut i: usize = 0;
        while i < self.0.len()
            invariant
                i <= self.0.len(),
                cards@ == self.0@.take(i as int),
            decreases self.0.len() - i,
        {
            cards.push(self.0[i]);
            assert(cards@ =~= self.0@.take(i + 1));
            i = i + 1;
        }
        assert(self.0@.take(self.0@.len() as int) =~= self.0@);
        Line(cards)
    }
}

/// The line as seen from the end that was played to: from left to right
/// after a play on the left, from right to left after a play on the right.
pub open spec fn facing(s: Seq<Bird>, left: bool) -> Seq<Bird> {
    if left {
        s
    } else {
        s.reverse()
    }
}

/// In the line `o`, seen from the end that was played to, the cards from
/// position `a` up to, not including, position `c` are enclosed: all cards
/// before `a` are of the species at the end, none from `a` to `c` is, and
/// the card at `c` is again.
pub open spec fn is_capture(o: Seq<Bird>, a: int, c: int) -> bool {
    &&& 0 < a < c < o.len()
    &&& forall|i: int| 0 <= i < a ==> #[trigger] o[i] == o[0]
    &&& forall|i: int| a <= i < c ==> #[trigger] o[i] != o[0]
    &&& o[c] == o[0]
}

/// Some cards of the line `o`, seen from the end that was played to, are
/// enclosed.
pub open spec fn has_capture(o: Seq<Bird>) -> bool {
    exists|a: int, c: int| is_capture(o, a, c)
}

/// The positions between which the cards of `o` are enclosed.
pub open spec fn capture_span(o: Seq<Bird>) -> (int, int) {
    choose|a: int, c: int| is_capture(o, a, c)
}

/// The cards that a play to one end of the line `s` captures, counted from
/// that end; none if nothing is enclosed.
pub open spec fn captured(s: Seq<Bird>, left: bool) -> Seq<Bird> {
    let o = facing(s, left);
    if has_capture(o) {
        o.subrange(capture_span(o).0, capture_span(o).1)
    } else {
        Seq::empty()
    }
}

/// The line `s` after the cards that a play to one end encloses have left
/// it.
pub open spec fn after_capture(s: Seq<Bird>, left: bool) -> Seq<Bird> {
    let o = facing(s, left);
    if has_capture(o) {
        facing(
            o.subrange(0, capture_span(o).0) + o.subrange(capture_span(o).1, o.len() as int),
            left,
        )
    } else {
        s
    }
}

/// `count` cards of one species.
pub open spec fn copies_of(bird: Bird, count: int) -> Seq<Bird> {
    Seq::new(
        if count > 0 {
            count as nat
        } else {
            0
        },
        |i: int| bird,
    )
}

/// The line `s` with `count` cards of `bird` laid at one end.
pub open spec fn placed(s: Seq<Bird>, bird: Bird, count: int, left: bool) -> Seq<Bird> {
    if left {
        copies_of(bird, count) + s
    } else {
        s + copies_of(bird, count)
    }
}

/// A line encloses cards between one pair of positions at most.
pub proof fn lemma_capture_unique(o: Seq<Bird>, a: int, c: int, a2: int, c2: int)
    requires
        is_capture(o, a, c),
        is_capture(o, a2, c2),
    ensures
        a == a2,
        c == c2,
{
    if a < a2 {
        assert(o[a] == o[0]);
    }
    if a2 < a {
        assert(o[a2] == o[0]);
    }
    if c < c2 {
        assert(o[c] != o[0]);
    }
    if c2 < c {
        assert(o[c2] != o[0]);
    }
}

/// Where cards are enclosed, `capture_span` names their positions.
pub proof fn lemma_capture_span(o: Seq<Bird>, a: int, c: int)
    requires
        is_capture(o, a, c),
    ensures
        has_capture(o),
        capture_span(o) == (a, c),
{
    let (a2, c2) = capture_span(o);
    lemma_capture_unique(o, a, c, a2, c2);
}

/// Turning a sequence round leaves the number of each species.
pub proof fn lemma_occurrences_reverse(s: Seq<Bird>, b: Bird)
    ensures
        occurrences(s.reverse(), b) == occurrences(s, b),
{
    s.lemma_reverse_to_multiset();
}

/// The occurrences in two sequences laid end to end add up.
pub proof fn lemma_occurrences_concat(s: Seq<Bird>, t: Seq<Bird>, b: Bird)
    ensures
        occurrences(s + t, b) == occurrences(s, b) + occurrences(t, b),
{
    vstd::seq_lib::lemma_multiset_commutative(s, t);
}

/// Nothing occurs in the empty sequence.
pub proof fn lemma_occurrences_empty(b: Bird)
    ensures
        occurrences(Seq::<Bird>::empty(), b) == 0,
{
    Seq::<Bird>::empty().to_multiset_ensures();
    assert(Seq::<Bird>::empty().to_multiset().len() == 0);
}

/// One more card at the end is one more occurrence of its species.
pub proof fn lemma_occurrences_push(s: Seq<Bird>, x: Bird, b: Bird)
    ensures
        occurrences(s.push(x), b) == occurrences(s, b) + if x == b {
            1int
        } else {
            0int
        },
{
    broadcast use vstd::seq_lib::to_multiset_build;

}

/// The occurrences of all species in `s`, added up.
pub open spec fn occurrences_of_all(s: Seq<Bird>) -> nat {
    occurrences(s, Bird::PARROT) + occurrences(s, Bird::WARBLER) + occurrences(s, Bird::TOUCAN)
        + occurrences(s, Bird::FLAMINGO) + occurrences(s, Bird::ROBIN) + occurrences(
        s,
        Bird::MAGPIE,
    ) + occurrences(s, Bird::OWL) + occurrences(s, Bird::DUCK)
}

/// Every card is of one species: the occurrences of all species add up to
/// the number of cards.
pub proof fn lemma_occurrences_total(s: Seq<Bird>)
    ensures
        occurrences_of_all(s) == s.len(),
    decreases s.len(),
{
    if s.len() == 0 {
        assert(s =~= Seq::<Bird>::empty());
        lemma_occurrences_empty(Bird::PARROT);
        lemma_occurrences_empty(Bird::WARBLER);
        lemma_occurrences_empty(Bird::TOUCAN);
        lemma_occurrences_empty(Bird::FLAMINGO);
        lemma_occurrences_empty(Bird::ROBIN);
        lemma_occurrences_empty(Bird::MAGPIE);
        lemma_occurrences_empty(Bird::OWL);
        lemma_occurrences_empty(Bird::DUCK);
    } else {
        let t = s.drop_last();
        let x = s.last();
        assert(s =~= t.push(x));
        lemma_occurrences_total(t);
        lemma_occurrences_push(t, x, Bird::PARROT);
        lemma_occurrences_push(t, x, Bird::WARBLER);
        lemma_occurrences_push(t, x, Bird::TOUCAN);
        lemma_occurrences_push(t, x, Bird::FLAMINGO);
        lemma_occurrences_push(t, x, Bird::ROBIN);
        lemma_occurrences_push(t, x, Bird::MAGPIE);
        lemma_occurrences_push(t, x, Bird::OWL);
        lemma_occurrences_push(t, x, Bird::DUCK);
    }
}

/// Of `count` cards of one species, all are of that species.
pub proof fn lemma_occurrences_copies(bird: Bird, count: int, b: Bird)
    ensures
        occurrences(copies_of(bird, count), b) == if b == bird && count > 0 {
            count
        } else {
            0
        },
    decreases count,
{
    if count <= 0 {
        assert(copies_of(bird, count) =~= Seq::<Bird>::empty());
        lemma_occurrences_empty(b);
    } else {
        lemma_occurrences_copies(bird, count - 1, b);
        assert(copies_of(bird, count) =~= copies_of(bird, count - 1).push(bird));
        lemma_occurrences_push(copies_of(bird, count - 1), bird, b);
    }
}

/// A play neither adds cards nor loses any: the cards that stay on the line
/// and the cards that are captured are the cards that were there.
pub proof fn lemma_capture_splits(s: Seq<Bird>, left: bool, b: Bird)
    ensures
        occurrences(after_capture(s, left), b) + occurrences(captured(s, left), b) == occurrences(
            s,
            b,
        ),
        has_capture(facing(s, left)) ==> after_capture(s, left).len() >= 2 && captured(
            s,
            left,
        ).len() >= 1,
        !has_capture(facing(s, left)) ==> after_capture(s, left) == s && captured(s, left).len()
            == 0,
{
    let o = facing(s, left);
    if has_capture(o) {
        let (a, c) = capture_span(o);
        assert(is_capture(o, a, c));
        let head = o.subrange(0, a);
        let middle = o.subrange(a, c);
        let tail = o.subrange(c, o.len() as int);
        assert(o =~= head + middle + tail);
        lemma_occurrences_concat(head + middle, tail, b);
        lemma_occurrences_concat(head, middle, b);
        lemma_occurrences_concat(head, tail, b);
        if !left {
            lemma_occurrences_reverse(s, b);
            lemma_occurrences_reverse(head + tail, b);
        }
    } else {
        lemma_occurrences_empty(b);
    }
}

/// Laying cards of one species at an end of a line adds those cards and no
/// others.
pub proof fn lemma_occurrences_placed(s: Seq<Bird>, bird: Bird, count: int, left: bool, b: Bird)
    ensures
        occurrences(placed(s, bird, count, left), b) == occurrences(s, b) + if b == bird && count
            > 0 {
            count
        } else {
            0
        },
{
    lemma_occurrences_copies(bird, count, b);
    if left {
        lemma_occurrences_concat(copies_of(bird, count), s, b);
    } else {
        lemma_occurrences_concat(s, copies_of(bird, count), b);
    }
}

/// The line `s` holds two cards or more, and the two at the given end
/// differ.
pub open spec fn open_end(s: Seq<Bird>, left: bool) -> bool {
    s.len() >= 2 && facing(s, left)[0] != facing(s, left)[1]
}

/// The first `laid` cards of `line` came off the top of the draw pile
/// `before`, one after the other, and `after` is what is left of it; where
/// more cards were laid than the pile held, all its cards were laid before
/// any other.
pub open spec fn off_the_top(
    line: Seq<Bird>,
    laid: int,
    before: Seq<Bird>,
    after: Seq<Bird>,
) -> bool {
    if laid <= before.len() {
        &&& after == before.take(before.len() - laid)
        &&& line.take(laid) == before.skip(before.len() - laid)
    } else {
        line.subrange(laid - before.len(), laid) == before
    }
}

/// Where a line was filled up and the two cards at the end that was filled
/// do not differ still, every card that was added is of the species that lay
/// at that end: of any other species the line holds as many cards as before.
pub proof fn lemma_filled_in_vain(before: Seq<Bird>, after: Seq<Bird>, left: bool, b: Bird)
    requires
        before.len() > 0,
        after.len() >= before.len(),
        facing(after, left).skip(after.len() - before.len()) == facing(before, left),
        forall|i: int|
            1 <= i < after.len() - before.len() ==> #[trigger] facing(after, left)[i] == facing(
                before,
                left,
            )[0],
        !open_end(after, left),
        b != facing(before, left)[0],
    ensures
        occurrences(after, b) == occurrences(before, b),
{
    let o = facing(before, left);
    let f = facing(after, left);
    let k = after.len() - before.len();
    let e = o[0];
    if k > 0 {
        assert(f[k] == f.skip(k)[0]);
        if k > 1 {
            assert(f[1] == e);
        }
        assert(f[0] == e);
    }
    assert(f.take(k) =~= copies_of(e, k));
    assert(f =~= f.take(k) + f.skip(k));
    lemma_occurrences_concat(f.take(k), o, b);
    lemma_occurrences_copies(e, k, b);
    if !left {
        lemma_occurrences_reverse(after, b);
        lemma_occurrences_reverse(before, b);
    }
}

impl Line {
    /// A line without cards.
    pub fn new() -> (r: Line)
        ensures
            r@ == Seq::<Bird>::empty(),
    {
        Line(Vec::new())
    }

    /// The card at position `i` counted from the given end.
    fn seen(&self, left: bool, i: usize) -> (b: Bird)
        requires
            i < self@.len(),
        ensures
            b == facing(self@, left)[i as int],
    {
        if left {
            self.0[i]
        } else {
            self.0[self.0.len() - 1 - i]
        }
    }

    /// Looks for enclosed cards from the given end: the positions, counted
    /// from that end, between which they lie.
    fn find_capture(&self, left: bool) -> (r: Option<(usize, usize)>)
        ensures
            match r {
                Some((a, c)) => is_capture(facing(self@, left), a as int, c as int),
                None => !has_capture(facing(self@, left)),
            },
    {
        let n = self.0.len();
        let ghost o = facing(self@, left);
        if n == 0 {
            return None;
        }
        let edge = self.seen(left, 0);
        let mut a: usize = 1;
        while a < n && self.seen(left, a) == edge
            invariant
                1 <= a <= n,
                n == self@.len(),
                o == facing(self@, left),
                edge == o[0],
                forall|i: int| 0 <= i < a ==> o[i] == edge,
            decreases n - a,
        {
            a = a + 1;
        }
        if a == n {
            assert forall|a2: int, c2: int| !is_capture(o, a2, c2) by {
                if is_capture(o, a2, c2) {
                    assert(o[a2] == edge);
                }
            }
            return None;
        }
        let mut c: usize = a + 1;
        while c < n && self.seen(left, c) != edge
            invariant
                a < c <= n,
                n == self@.len(),
                o == facing(self@, left),
                edge == o[0],
                forall|i: int| a <= i < c ==> o[i] != edge,
            decreases n - c,
        {
            c = c + 1;
        }
        if c == n {
            assert forall|a2: int, c2: int| !is_capture(o, a2, c2) by {
                if is_capture(o, a2, c2) {
                    if a2 < a {
                        assert(o[a2] == edge);
                    }
                    if a < a2 {
                        assert(o[a as int] != edge);
                    }
                    assert(o[c2] == edge);
                }
            }
            return None;
        }
        Some((a, c))
    }

    /// Takes the cards from position `lower` up to, not including, position
    /// `upper` out of the line and returns them counted by species.
    fn take_out(&mut self, lower: usize, upper: usize) -> (birds: BirdCounts)
        requires
            lower <= upper <= old(self)@.len() <= i32::MAX,
        ensures
            final(self)@ == old(self)@.subrange(0, lower as int) + old(self)@.subrange(
                upper as int,
                old(self)@.len() as int,
            ),
            birds.wf(),
            forall|b: Bird|
                birds.count(b) == occurrences(old(self)@.subrange(lower as int, upper as int), b),
    {
        let ghost before = self@;
        let ghost n = before.len();
        let mut birds = BirdCounts::new();
        let mut k: usize = 0;
        proof {
            assert(self@ =~= before.subrange(0, lower as int) + before.subrange(
                lower as int,
                n as int,
            ));
            assert forall|b: Bird|
                birds.count(b) == occurrences(before.subrange(lower as int, lower + k), b) by {
                assert(before.subrange(lower as int, lower as int) =~= Seq::<Bird>::empty());
                lemma_occurrences_empty(b);
            }
        }
        while k < upper - lower
            invariant
                lower <= upper <= n,
                n == before.len(),
                n <= i32::MAX,
                k <= upper - lower,
                self@ == before.subrange(0, lower as int) + before.subrange(
                    lower + k,
                    n as int,
                ),
                birds.wf(),
                forall|b: Bird|
                    birds.count(b) == occurrences(before.subrange(lower as int, lower + k), b),
                forall|b: Bird| birds.count(b) <= k,
            decreases upper - lower - k,
        {
            let bird = self.0.remove(lower);
            birds.add(bird, 1);
            proof {
                assert(bird == before[lower + k]);
                assert(self@ =~= before.subrange(0, lower as int) + before.subrange(
                    lower + k + 1,
                    n as int,
                ));
                assert(before.subrange(lower as int, lower + k + 1) =~= before.subrange(
                    lower as int,
                    lower + k,
                ).push(bird));
                assert forall|b: Bird|
                    birds.count(b) == occurrences(
                        before.subrange(lower as int, lower + k + 1),
                        b,
                    ) by {
                    lemma_occurrences_push(before.subrange(lower as int, lower + k), bird, b);
                }
            }
            k = k + 1;
        }
        birds
    }

    /// Resolves a play to the left or the right end of the line. Seen from
    /// that end, the line starts with a run of cards of one species; where
    /// cards of other species follow and then a card of that species again,
    /// the cards in between leave the line and are returned, counted by
    /// species. Where the line is empty, is of one species, or holds no
    /// second card of the species after the others, nothing is captured and
    /// the line stays as it is.
    pub fn sandwich(&mut self, left: bool) -> (r: Option<BirdCounts>)
        requires
            old(self)@.len() <= i32::MAX,
        ensures
            final(self)@ == after_capture(old(self)@, left),
            r is Some <==> has_capture(facing(old(self)@, left)),
            match r {
                Some(birds) => birds.wf() && forall|b: Bird|
                    birds.count(b) == occurrences(captured(old(self)@, left), b),
                None => true,
            },
    {
        let n = self.0.len();
        let ghost before = self@;
        let ghost o = facing(self@, left);
        match self.find_capture(left) {
            None => None,
            Some((a, c)) => {
                proof {
                    lemma_capture_span(o, a as int, c as int);
                }
                let lower = if left {
                    a
                } else {
                    n - c
                };
                let upper = if left {
                    c
                } else {
                    n - a
                };
                let birds = self.take_out(lower, upper);
                proof {
                    let taken = before.subrange(lower as int, upper as int);
                    let kept = before.subrange(0, lower as int) + before.subrange(
                        upper as int,
                        n as int,
                    );
                    if left {
                        assert(taken =~= captured(before, left));
                    } else {
                        assert(o.subrange(a as int, c as int) =~= taken.reverse());
                        assert(kept.reverse() =~= o.subrange(0, a as int) + o.subrange(
                            c as int,
                            n as int,
                        ));
                        assert(kept.reverse().reverse() =~= kept);
                        assert forall|b: Bird|
                            birds.count(b) == occurrences(captured(before, left), b) by {
                            lemma_occurrences_reverse(taken, b);
                        }
                    }
                }
                Some(birds)
            },
        }
    }

    /// Lays `count` cards of `bird` at the left or the right end of the line
    /// and resolves the play as `sandwich` does.
    pub fn play(&mut self, bird: Bird, count: i32, left: bool) -> (r: Option<BirdCounts>)
        requires
            old(self)@.len() <= i32::MAX,
            old(self)@.len() + count <= i32::MAX,
        ensures
            final(self)@ == after_capture(placed(old(self)@, bird, count as int, left), left),
            r is Some <==> has_capture(
                facing(placed(old(self)@, bird, count as int, left), left),
            ),
            match r {
                Some(birds) => birds.wf() && forall|b: Bird|
                    birds.count(b) == occurrences(
                        captured(placed(old(self)@, bird, count as int, left), left),
                        b,
                    ),
                None => true,
            },
    {
        self.place(bird, count, left);
        self.sandwich(left)
    }

    /// Lays the cards `birds`, in their order, before the left end or behind
    /// the right end of the line.
    pub fn lay(&mut self, birds: &Vec<Bird>, left: bool)
        ensures
            final(self)@ == if left {
                birds@ + old(self)@
            } else {
                old(self)@ + birds@
            },
    {
        let mut i: usize = 0;
        assert(self@ =~= birds@.take(0) + old(self)@);
        assert(self@ =~= old(self)@ + birds@.take(0));
        while i < birds.len()
            invariant
                i <= birds@.len(),
                self@ == if left {
                    birds@.take(i as int) + old(self)@
                } else {
                    old(self)@ + birds@.take(i as int)
                },
            decreases birds@.len() - i,
        {
            if left {
                self.0.insert(i, birds[i]);
                assert(self@ =~= birds@.take(i + 1) + old(self)@);
            } else {
                self.0.push(birds[i]);
                assert(self@ =~= old(self)@ + birds@.take(i + 1));
            }
            i = i + 1;
        }
        assert(birds@.take(birds@.len() as int) =~= birds@);
    }

    /// Whether the line holds two cards or more and the two at the given end
    /// differ.
    pub fn ends_open(&self, left: bool) -> (r: bool)
        ensures
            r == open_end(self@, left),
    {
        let n = self.0.len();
        if n < 2 {
            return false;
        }
        if left {
            self.0[0] != self.0[1]
        } else {
            self.0[n - 1] != self.0[n - 2]
        }
    }

    /// Fills the line up after a capture: until the two cards at the left or
    /// the right end differ, a card is drawn and laid at that end. The
    /// result tells whether the two cards there differ at last; they do not
    /// exactly when the piles ran out of cards first.
    ///
    /// Seen from the end that is filled, the line afterwards is the cards
    /// drawn, the last one first, followed by the line as it was. No card
    /// is drawn without need: each card drawn but the last is of the species
    /// that lay at that end. The cards come off the top of the draw pile in
    /// their order, and while it lasts the discard pile is left alone; only
    /// then are the discarded cards shuffled into a new draw pile.
    pub fn draw_new(
        &mut self,
        left: bool,
        draw_pile: &mut Vec<Bird>,
        discard_pile: &mut BirdCounts,
        rng: &mut StdRng,
    ) -> (done: bool)
        requires
            old(self)@.len() > 0,
        ensures
            final(self)@.len() >= old(self)@.len(),
            facing(final(self)@, left).skip(final(self)@.len() - old(self)@.len()) == facing(
                old(self)@,
                left,
            ),
            forall|i: int|
                1 <= i < final(self)@.len() - old(self)@.len() ==> #[trigger] facing(
                    final(self)@,
                    left,
                )[i] == facing(old(self)@, left)[0],
            done <==> open_end(final(self)@, left),
            open_end(old(self)@, left) ==> final(self)@ == old(self)@
                && final(draw_pile)@ == old(draw_pile)@
                && *final(discard_pile) == *old(discard_pile),
            !open_end(old(self)@, left) && final(self)@.len() == old(self)@.len()
                ==> old(draw_pile)@.len() == 0 && forall|b: Bird| #[trigger]
                old(discard_pile).count(b) <= 0,
            !done ==> final(draw_pile)@.len() == 0 && forall|b: Bird| #[trigger]
                final(discard_pile).count(b) <= 0,
            old(discard_pile).wf() ==> final(discard_pile).wf(),
            forall|b: Bird|
                #[trigger] occurrences(final(self)@, b) + occurrences(final(draw_pile)@, b)
                    + pile_count(final(discard_pile), b) == occurrences(old(self)@, b)
                    + occurrences(old(draw_pile)@, b) + pile_count(old(discard_pile), b),
            off_the_top(
                facing(final(self)@, left),
                final(self)@.len() - old(self)@.len(),
                old(draw_pile)@,
                final(draw_pile)@,
            ),
            done && final(self)@.len() - old(self)@.len() <= old(draw_pile)@.len()
                ==> *final(discard_pile) == *old(discard_pile),
            old(discard_pile).wf() && final(self)@.len() - old(self)@.len() <= old(
                draw_pile,
            )@.len() ==> forall|b: Bird|
                #[trigger] final(discard_pile).count(b) == old(discard_pile).count(b),
            final(self)@.len() - old(self)@.len() > old(draw_pile)@.len() ==> forall|b: Bird|
                #[trigger] final(discard_pile).count(b) == 0,
    {
        let ghost o = facing(self@, left);
        let ghost pile = draw_pile@;
        let ghost m = draw_pile@.len() as int;
        proof {
            assert(facing(self@, left).skip(0) =~= o);
            assert(pile.take(m) =~= pile);
            assert(facing(self@, left).take(0) =~= pile.skip(m));
        }
        while !self.ends_open(left)
            invariant
                self@.len() >= old(self)@.len() > 0,
                o == facing(old(self)@, left),
                pile == old(draw_pile)@,
                m == pile.len(),
                facing(self@, left).skip(self@.len() - old(self)@.len()) == o,
                forall|i: int|
                    1 <= i < self@.len() - old(self)@.len() ==> #[trigger] facing(self@, left)[i]
                        == o[0],
                open_end(old(self)@, left) ==> self@ == old(self)@,
                old(discard_pile).wf() ==> discard_pile.wf(),
                self@.len() == old(self)@.len() ==> draw_pile@ == old(draw_pile)@
                    && *discard_pile == *old(discard_pile),
                forall|b: Bird|
                    #[trigger] occurrences(self@, b) + occurrences(draw_pile@, b) + pile_count(
                        discard_pile,
                        b,
                    ) == occurrences(old(self)@, b) + occurrences(old(draw_pile)@, b) + pile_count(
                        old(discard_pile),
                        b,
                    ),
                off_the_top(facing(self@, left), self@.len() - old(self)@.len(), pile, draw_pile@),
                self@.len() - old(self)@.len() <= m ==> *discard_pile == *old(discard_pile),
                self@.len() - old(self)@.len() > m ==> forall|b: Bird|
                    #[trigger] discard_pile.count(b) == 0,
            decreases draw_pile@.len() + pile_total(discard_pile),
        {
            let ghost line = self@;
            let ghost stock = draw_pile@;
            let ghost k = self@.len() - old(self)@.len();
            proof {
                let f = facing(line, left);
                if k >= 1 {
                    assert(f[k] == f.skip(k)[0]);
                    if k >= 2 {
                        assert(f[1] == o[0]);
                    }
                    assert(f[0] == o[0]);
                } else {
                    assert(f.skip(0) =~= f);
                }
            }
            match MaterializedCubirdsState::draw(draw_pile, discard_pile, rng) {
                Some(drawn) => {
                    if left {
                        self.0.insert(0, drawn);
                    } else {
                        self.0.push(drawn);
                    }
                    proof {
                        let g = facing(line, left);
                        let f = facing(self@, left);
                        assert(f =~= seq![drawn] + g);
                        assert(f.skip(k + 1) =~= g.skip(k));
                        assert forall|i: int| 1 <= i < k + 1 implies #[trigger] f[i] == o[0] by {
                            assert(f[i] == g[i - 1]);
                        }
                        assert forall|b: Bird|
                            #[trigger] occurrences(self@, b) == occurrences(line, b)
                                + crate::sums::one_if(drawn == b) by {
                            if left {
                                broadcast use vstd::seq_lib::to_multiset_insert;

                                assert(self@ =~= line.insert(0, drawn));
                            } else {
                                lemma_occurrences_push(line, drawn, b);
                            }
                        }
                        if k < m {
                            assert(stock =~= pile.take(m - k));
                            assert(draw_pile@ =~= pile.take(m - k - 1));
                            assert(f.take(k + 1) =~= pile.skip(m - k - 1)) by {
                                assert(g.take(k) == pile.skip(m - k));
                                assert forall|i: int| 0 <= i < k + 1 implies #[trigger] f.take(
                                    k + 1,
                                )[i] == pile.skip(m - k - 1)[i] by {
                                    if i > 0 {
                                        assert(f[i] == g.take(k)[i - 1]);
                                    }
                                }
                            }
                        } else {
                            assert(f.subrange(k + 1 - m, k + 1) =~= pile) by {
                                if k == m {
                                    assert(g.take(k) == pile.skip(0));
                                    assert forall|i: int| 0 <= i < m implies #[trigger] f.subrange(
                                        k + 1 - m,
                                        k + 1,
                                    )[i] == pile[i] by {
                                        assert(f[i + 1] == g.take(k)[i]);
                                        assert(pile.skip(0)[i] == pile[i]);
                                    }
                                } else {
                                    assert(g.subrange(k - m, k) == pile);
                                    assert forall|i: int| 0 <= i < m implies #[trigger] f.subrange(
                                        k + 1 - m,
                                        k + 1,
                                    )[i] == pile[i] by {
                                        assert(f[i + k + 1 - m] == g.subrange(k - m, k)[i]);
                                    }
                                }
                            }
                        }
                    }
                },
                None => {
                    proof {
                        if k <= m {
                            assert(draw_pile@ =~= pile.take(m - k));
                            if old(discard_pile).wf() {
                                assert forall|b: Bird|
                                    #[trigger] discard_pile.count(b) == old(discard_pile).count(
                                        b,
                                    ) by {
                                    assert(old(discard_pile).count(b) >= 0);
                                    assert(discard_pile.count(b) <= 0);
                                }
                            }
                        }
                    }
                    return false;
                },
            }
        }
        true
    }

    /// Lays `count` cards of `bird` at the left or the right end of the
    /// line; none where `count` is not positive.
    pub fn place(&mut self, bird: Bird, count: i32, left: bool)
        ensures
            final(self)@ == placed(old(self)@, bird, count as int, left),
            final(self)@.len() == old(self)@.len() + if count > 0 {
                count as int
            } else {
                0
            },
    {
        let mut i: i32 = 0;
        assert(self@ =~= placed(old(self)@, bird, 0, left));
        while i < count
            invariant
                0 <= i,
                i <= count || i == 0,
                self@ == placed(old(self)@, bird, i as int, left),
                self@.len() == old(self)@.len() + i,
            decreases count - i,
        {
            if left {
                self.0.insert(0, bird);
            } else {
                self.0.push(bird);
            }
            i = i + 1;
            assert(self@ =~= placed(old(self)@, bird, i as int, left));
        }
        assert(self@ =~= placed(old(self)@, bird, count as int, left));
    }
}

} // verus!
