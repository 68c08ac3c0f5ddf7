//! Cards whose owner is known.

use vstd::prelude::*;
use crate::card::Card;
use crate::hand::{deck, Hand, HandCards};
use crate::play::PlayHistory;
use crate::seat::Seat;

verus! {

/// The known cards of a table are inconsistent.
#[derive(Clone, Copy, PartialEq, Eq, Structural, Debug)]
pub enum KnownCardsError {
    /// Two seats are known to hold the same card.
    Duplicate(Card),
    /// A seat is known to hold more than 13 cards.
    TooMany {
        /// The seat.
        seat: Seat,
        /// Its known-card count.
        count: u8,
    },
}

/// Cards known to belong to each seat's original hand: a viewer's own hand, the exposed
/// dummy, and every card a seat has already played.
///
/// Seat `s` is sampled with `fixed = known[s]` from [`KnownCards::pool`], and every
/// constraint still refers to the original 13-card hand.
#[derive(Clone, Copy, PartialEq, Eq, Hash, Debug)]
pub struct KnownCards {
    /// Known cards per seat, indexed by [`Seat::index`].
    pub known: [Hand; 4],
}

/// The card `c` is known for two different seats.
pub open spec fn shared(k: [Hand; 4], c: int) -> bool {
    exists|i: int, j: int| 0 <= i < j < 4 && (#[trigger] k[i]@).contains(c) && (#[trigger] k[j]@).contains(c)
}

/// No seat has more than 13 known cards.
pub open spec fn all_fit(k: [Hand; 4]) -> bool {
    forall|i: int| 0 <= i < 4 ==> (#[trigger] k[i]@).len() <= 13
}

/// The first seat (in index order) with more than 13 known cards.
pub open spec fn first_overfull(k: [Hand; 4], s: Seat) -> bool {
    &&& k[s.idx()]@.len() > 13
    &&& forall|i: int| 0 <= i < s.idx() ==> (#[trigger] k[i]@).len() <= 13
}

/// The union of the known cards.
pub open spec fn known_union(k: [Hand; 4]) -> Set<int> {
    k[0]@.union(k[1]@).union(k[2]@).union(k[3]@)
}

/// The pool shares no card with the known cards of any seat, and together they hold the
/// deck: each seat is sampled from the pool on top of its own known cards.
pub proof fn lemma_pool_partition(k: KnownCards)
    requires
        forall|i: int| 0 <= i < 4 ==> (#[trigger] k.known[i]@).subset_of(deck()),
    ensures
        forall|i: int| 0 <= i < 4 ==> deck().difference(known_union(k.known)).disjoint(#[trigger] k.known[i]@),
        deck().difference(known_union(k.known)).union(known_union(k.known)) == deck(),
{
    assert(deck().difference(known_union(k.known)).union(known_union(k.known)) =~= deck());
}

/// `k` with `h` in place of the hand at index `i`.
fn updated(k: [Hand; 4], i: usize, h: Hand) -> (r: [Hand; 4])
    requires
        i < 4,
    ensures
        r@ == k@.update(i as int, h),
{
    let r = [
        if i == 0 {
            h
        } else {
            k[0]
        },
        if i == 1 {
            h
        } else {
            k[1]
        },
        if i == 2 {
            h
        } else {
            k[2]
        },
        if i == 3 {
            h
        } else {
            k[3]
        },
    ];
    assert(r@ =~= k@.update(i as int, h));
    r
}

impl KnownCards {
    /// Validates that each seat has at most 13 known cards (else the first seat that has more
    /// is reported) and that the four sets are pairwise disjoint (else the lowest card known
    /// for two seats is reported).
    pub fn new(known: [Hand; 4]) -> (r: Result<KnownCards, KnownCardsError>)
        ensures
            r matches Result::Ok(k) ==> k.known == known && all_fit(known) && forall|c: int| !shared(known, c),
            r matches Result::Err(KnownCardsError::TooMany { seat, count }) ==> first_overfull(known, seat) && count == known[seat.idx()]@.len(),
            r matches Result::Err(KnownCardsError::Duplicate(c)) ==> all_fit(known) && shared(known, c@) && forall|d: int| shared(known, d) ==> c@ <= d,
    {
        let mut i: usize = 0;
        while i < 4
            invariant
                i <= 4,
                forall|q: int| 0 <= q < i ==> (#[trigger] known[q]@).len() <= 13,
            decreases 4 - i,
        {
            let n = known[i].len();
            if n > 13 {
                let seat = Seat::from_index(i as u8);
                return Result::Err(KnownCardsError::TooMany { seat, count: n });
            }
            i = i + 1;
        }
        let dup = known[0].intersect(known[1]).union(known[0].intersect(known[2])).union(
            known[0].intersect(known[3]),
        ).union(known[1].intersect(known[2])).union(known[1].intersect(known[3])).union(
            known[2].intersect(known[3]),
        );
        proof {
            assert forall|c: int| shared(known, c) <==> dup@.contains(c) by {
                if shared(known, c) {
                    let (p, q) = choose|p: int, q: int| 0 <= p < q < 4 && (#[trigger] known[p]@).contains(c) && (#[trigger] known[q]@).contains(c);
                    assert(dup@.contains(c));
                }
                if dup@.contains(c) {
                    if known[0]@.contains(c) && known[1]@.contains(c) {
                        assert(shared(known, c));
                    } else if known[0]@.contains(c) && known[2]@.contains(c) {
                        assert(shared(known, c));
                    } else if known[0]@.contains(c) && known[3]@.contains(c) {
                        assert(shared(known, c));
                    } else if known[1]@.contains(c) && known[2]@.contains(c) {
                        assert(shared(known, c));
                    } else if known[1]@.contains(c) && known[3]@.contains(c) {
                        assert(shared(known, c));
                    } else {
                        assert(shared(known, c));
                    }
                }
            }
        }
        let mut cursor = HandCards::new(dup);
        match cursor.next() {
            Option::Some(c) => Result::Err(KnownCardsError::Duplicate(c)),
            Option::None => Result::Ok(KnownCards { known }),
        }
    }

    /// Nothing known.
    pub fn empty() -> (k: KnownCards)
        ensures
            forall|i: int| 0 <= i < 4 ==> (#[trigger] k.known[i]@) == Set::<int>::empty(),
    {
        let e = Hand::empty();
        KnownCards { known: [e, e, e, e] }
    }

    /// A viewer who knows only their own hand.
    pub fn from_viewer(viewer: Seat, hand: Hand) -> (k: KnownCards)
        ensures
            k.known[viewer.idx()] == hand,
            forall|i: int| 0 <= i < 4 && i != viewer.idx() ==> (#[trigger] k.known[i]@) == Set::<int>::empty(),
    {
        let e = Hand::empty();
        KnownCards { known: updated([e, e, e, e], viewer.index() as usize, hand) }
    }

    /// Adds the exposed dummy.
    pub fn with_dummy(self, dummy: Seat, hand: Hand) -> (k: KnownCards)
        ensures
            k.known[dummy.idx()]@ == self.known[dummy.idx()]@.union(hand@),
            forall|i: int| 0 <= i < 4 && i != dummy.idx() ==> #[trigger] k.known[i] == self.known[i],
    {
        let i = dummy.index() as usize;
        KnownCards { known: updated(self.known, i, self.known[i].union(hand)) }
    }

    /// Adds every card each seat has played so far.
    pub fn with_play(self, history: &PlayHistory) -> (k: KnownCards)
        ensures
            forall|i: int| 0 <= i < 4 ==> (#[trigger] k.known[i]@) == self.known[i]@.union(
                history.played_by_set(crate::seat::seat_of(i)),
            ),
    {
        let mut known = self.known;
        let mut i: usize = 0;
        while i < 4
            invariant
                i <= 4,
                forall|q: int| 0 <= q < i ==> (#[trigger] known[q]@) == self.known[q]@.union(
                    history.played_by_set(crate::seat::seat_of(q)),
                ),
                forall|q: int| i <= q < 4 ==> #[trigger] known[q] == self.known[q],
            decreases 4 - i,
        {
            let seat = Seat::from_index(i as u8);
            let h = known[i].union(history.played_by(seat));
            known = updated(known, i, h);
            i = i + 1;
        }
        KnownCards { known }
    }

    /// The cards whose owner is unknown.
    pub fn pool(&self) -> (h: Hand)
        ensures
            h@ == deck().difference(known_union(self.known)),
    {
        Hand::full().difference(
            self.known[0].union(self.known[1]).union(self.known[2]).union(self.known[3]),
        )
    }

    /// How many more cards `seat` needs: `13 − known[seat].len()`.
    pub fn needed(&self, seat: Seat) -> (r: u8)
        requires
            self.known[seat.idx()]@.len() <= 13,
        ensures
            r == 13 - self.known[seat.idx()]@.len(),
    {
        13 - self.known[seat.index() as usize].len()
    }
}

} // verus!
