//! Deals and boards.

use vstd::prelude::*;
use crate::card::Card;
use crate::hand::{deck, Hand};
use crate::seat::{
    board_dealer, board_vulnerability_index, seat_of, vulnerability_of, Seat, Vulnerability,
};

verus! {

/// The union of the four card sets.
pub open spec fn union4(h: [Hand; 4]) -> Set<int> {
    h[0]@.union(h[1]@).union(h[2]@).union(h[3]@)
}

/// No card is held by two of the four hands.
pub open spec fn pairwise_disjoint(h: [Hand; 4]) -> bool {
    forall|i: int, j: int| 0 <= i < j < 4 ==> (#[trigger] h[i]@).disjoint(#[trigger] h[j]@)
}

/// The cards held by at least two of the four hands.
pub open spec fn held_twice(h: [Hand; 4]) -> Set<int> {
    Set::new(
        |c: int|
            exists|i: int, j: int|
                0 <= i < j < 4 && (#[trigger] h[i]@).contains(c) && (#[trigger] h[j]@).contains(c),
    )
}

/// Four hands of thirteen cards each that are disjoint and together hold the deck.
pub open spec fn deal_valid(h: [Hand; 4]) -> bool {
    &&& forall|i: int| 0 <= i < 4 ==> (#[trigger] h[i]@).len() == 13
    &&& pairwise_disjoint(h)
    &&& union4(h) == deck()
}

/// The first seat (North first) whose hand does not hold 13 cards, or 4.
pub open spec fn first_short(h: [Hand; 4]) -> int {
    if h[0]@.len() != 13 {
        0
    } else if h[1]@.len() != 13 {
        1
    } else if h[2]@.len() != 13 {
        2
    } else if h[3]@.len() != 13 {
        3
    } else {
        4
    }
}

/// Four hands of thirteen cards covering the whole deck.
///
/// The invariant (each hand has 13 cards, the hands are disjoint, their union is the deck) is
/// checked once by [`Deal::new`]; afterwards it can be relied on without further checks.
#[derive(Clone, Copy, PartialEq, Eq, Hash, Debug)]
pub struct Deal {
    hands: [Hand; 4],
}

/// The hands offered to [`Deal::new`] do not form a deal.
#[derive(Clone, Copy, PartialEq, Eq, Structural, Debug)]
pub enum DealError {
    /// A hand does not have exactly 13 cards.
    HandSize {
        /// The seat.
        seat: Seat,
        /// Its card count.
        count: u8,
    },
    /// A card appears in two hands.
    Duplicate(Card),
}

/// Four disjoint hands of 13 cards hold the whole deck.
proof fn lemma_disjoint_full(h: [Hand; 4])
    requires
        forall|i: int| 0 <= i < 4 ==> (#[trigger] h[i]@).len() == 13,
        forall|i: int| 0 <= i < 4 ==> (#[trigger] h[i]@).subset_of(deck()),
        forall|i: int| 0 <= i < 4 ==> (#[trigger] h[i]@).finite(),
        pairwise_disjoint(h),
    ensures
        union4(h) == deck(),
{
    let a = h[0]@;
    let b = h[1]@;
    let c = h[2]@;
    let d = h[3]@;
    assert(a.disjoint(b) && a.disjoint(c) && a.disjoint(d) && b.disjoint(c) && b.disjoint(d)
        && c.disjoint(d));
    vstd::set_lib::lemma_set_disjoint_lens(a, b);
    assert(a.union(b).disjoint(c));
    vstd::set_lib::lemma_set_disjoint_lens(a.union(b), c);
    assert(a.union(b).union(c).disjoint(d));
    vstd::set_lib::lemma_set_disjoint_lens(a.union(b).union(c), d);
    crate::holding::lemma_int_range_len(52);
    vstd::set_lib::lemma_subset_equality(union4(h), deck());
}

/// Four hands of 13 cards that hold the whole deck are disjoint.
pub proof fn lemma_full_implies_disjoint(h: [Hand; 4])
    requires
        forall|i: int| 0 <= i < 4 ==> (#[trigger] h[i]@).len() == 13,
        forall|i: int| 0 <= i < 4 ==> (#[trigger] h[i]@).finite(),
        union4(h) == deck(),
    ensures
        pairwise_disjoint(h),
{
    let a = h[0]@;
    let b = h[1]@;
    let c = h[2]@;
    let d = h[3]@;
    crate::holding::lemma_int_range_len(52);
    vstd::set_lib::lemma_set_intersect_union_lens(a, b);
    vstd::set_lib::lemma_set_intersect_union_lens(a.union(b), c);
    vstd::set_lib::lemma_set_intersect_union_lens(a.union(b).union(c), d);
    vstd::set_lib::lemma_len_intersect(a, b);
    assert(a.intersect(b).len() == 0 && a.union(b).intersect(c).len() == 0 && a.union(b).union(
        c,
    ).intersect(d).len() == 0) by {
        vstd::set_lib::lemma_len_union(a, b);
        vstd::set_lib::lemma_len_union(a.union(b), c);
        vstd::set_lib::lemma_len_union(a.union(b).union(c), d);
    }
    a.intersect(b).lemma_len0_is_empty();
    a.union(b).intersect(c).lemma_len0_is_empty();
    a.union(b).union(c).intersect(d).lemma_len0_is_empty();
    assert forall|i: int, j: int| 0 <= i < j < 4 implies (#[trigger] h[i]@).disjoint(
        #[trigger] h[j]@,
    ) by {
        assert forall|x: int| h[i]@.contains(x) implies !h[j]@.contains(x) by {
            if h[j]@.contains(x) {
                if j == 1 {
                    assert(a.intersect(b).contains(x));
                } else if j == 2 {
                    assert(a.union(b).intersect(c).contains(x));
                } else {
                    assert(a.union(b).union(c).intersect(d).contains(x));
                }
            }
        }
    }
}

impl Deal {
    #[verifier::type_invariant]
    pub(crate) closed spec fn inv(self) -> bool {
        deal_valid(self.hands)
    }

    /// The four hands, indexed by seat.
    pub closed spec fn hands_view(self) -> [Hand; 4] {
        self.hands
    }

    /// The hand of `seat`.
    pub open spec fn hand_of(self, seat: Seat) -> Hand {
        self.hands_view()[seat.idx()]
    }

    /// Validates and builds a deal. `hands` is indexed by [`Seat`].
    ///
    /// A hand that does not hold 13 cards is reported first (North first); otherwise the lowest
    /// card held by two hands.
    pub fn new(hands: [Hand; 4]) -> (r: Result<Deal, DealError>)
        ensures
            r is Ok <==> deal_valid(hands),
            r matches Ok(d) ==> d.hands_view() == hands,
            r matches Err(DealError::HandSize { seat, count }) ==> first_short(hands) < 4
                && seat == seat_of(first_short(hands)) && count == hands[first_short(hands)]@.len(),
            r matches Err(DealError::Duplicate(c)) ==> first_short(hands) == 4 && held_twice(
                hands,
            ).contains(c@) && forall|d: int| 0 <= d < c@ ==> !held_twice(hands).contains(d),
            r is Err ==> (first_short(hands) < 4 <==> r matches Err(DealError::HandSize { .. })),
    {
        let mut i: usize = 0;
        while i < 4
            invariant
                i <= 4,
                forall|k: int| 0 <= k < i ==> (#[trigger] hands[k]@).len() == 13,
            decreases 4 - i,
        {
            let n = hands[i].len();
            if n != 13 {
                return Err(DealError::HandSize { seat: Seat::from_index(i as u8), count: n });
            }
            i = i + 1;
        }
        let h0 = hands[0];
        let h1 = hands[1];
        let h2 = hands[2];
        let h3 = hands[3];
        let twice = h0.intersect(h1).union(h0.intersect(h2)).union(h0.intersect(h3)).union(
            h1.intersect(h2),
        ).union(h1.intersect(h3)).union(h2.intersect(h3));
        proof {
            assert forall|c: int| #[trigger] twice@.contains(c) == held_twice(hands).contains(c) by {
                if held_twice(hands).contains(c) {
                    let (a, b) = choose|a: int, b: int|
                        0 <= a < b < 4 && (#[trigger] hands[a]@).contains(c) && (#[trigger] hands[b]@).contains(c);
                    assert(twice@.contains(c));
                }
                if twice@.contains(c) {
                    if h0@.contains(c) && h1@.contains(c) {
                        assert(hands[0]@.contains(c) && hands[1]@.contains(c));
                    } else if h0@.contains(c) && h2@.contains(c) {
                        assert(hands[0]@.contains(c) && hands[2]@.contains(c));
                    } else if h0@.contains(c) && h3@.contains(c) {
                        assert(hands[0]@.contains(c) && hands[3]@.contains(c));
                    } else if h1@.contains(c) && h2@.contains(c) {
                        assert(hands[1]@.contains(c) && hands[2]@.contains(c));
                    } else if h1@.contains(c) && h3@.contains(c) {
                        assert(hands[1]@.contains(c) && hands[3]@.contains(c));
                    } else {
                        assert(hands[2]@.contains(c) && hands[3]@.contains(c));
                    }
                }
            }
            assert(twice@ =~= held_twice(hands));
        }
        match lowest_card(twice) {
            Some(c) => {
                proof {
                    assert(!pairwise_disjoint(hands)) by {
                        let (a, b) = choose|a: int, b: int|
                            0 <= a < b < 4 && (#[trigger] hands[a]@).contains(c@) && (#[trigger] hands[b]@).contains(c@);
                        assert(!hands[a]@.disjoint(hands[b]@));
                    }
                }
                Err(DealError::Duplicate(c))
            },
            None => {
                proof {
                    use_type_invariant(h0);
                    use_type_invariant(h1);
                    use_type_invariant(h2);
                    use_type_invariant(h3);
                    h0.lemma_inv();
                    h1.lemma_inv();
                    h2.lemma_inv();
                    h3.lemma_inv();
                    assert forall|a: int, b: int| 0 <= a < b < 4 implies (#[trigger] hands[a]@).disjoint(
                        #[trigger] hands[b]@,
                    ) by {
                        assert forall|x: int| hands[a]@.contains(x) implies !hands[b]@.contains(x) by {
                            if hands[b]@.contains(x) {
                                assert(held_twice(hands).contains(x));
                                assert(twice@.contains(x));
                                assert(deck().contains(x));
                            }
                        }
                    }
                    lemma_disjoint_full(hands);
                }
                Ok(Deal { hands })
            },
        }
    }

    /// The hand of `seat`.
    pub fn hand(&self, seat: Seat) -> (r: Hand)
        ensures
            r == self.hand_of(seat),
            r@.len() == 13,
    {
        proof {
            use_type_invariant(self);
        }
        self.hands[seat.index() as usize]
    }

    /// All four hands indexed by [`Seat`].
    pub fn hands(&self) -> (r: [Hand; 4])
        ensures
            r == self.hands_view(),
            deal_valid(r),
    {
        proof {
            use_type_invariant(self);
        }
        self.hands
    }

    /// The seat holding `card`.
    pub fn owner(&self, card: Card) -> (s: Seat)
        ensures
            self.hand_of(s)@.contains(card@),
    {
        let i = card.index();
        proof {
            use_type_invariant(self);
            assert(deck().contains(card@));
        }
        if self.hands[0].contains(card) {
            Seat::North
        } else if self.hands[1].contains(card) {
            Seat::East
        } else if self.hands[2].contains(card) {
            Seat::South
        } else {
            Seat::West
        }
    }
}

/// The lowest card of `h`, if any.
fn lowest_card(h: Hand) -> (r: Option<Card>)
    ensures
        r is None <==> forall|d: int| 0 <= d < 52 ==> !h@.contains(d),
        r matches Some(c) ==> h@.contains(c@) && forall|d: int| 0 <= d < c@ ==> !h@.contains(d),
{
    let mut i: u8 = 0;
    while i < 52
        invariant
            i <= 52,
            forall|d: int| 0 <= d < i ==> !h@.contains(d),
        decreases 52 - i,
    {
        let c = Card::from_index_unchecked(i);
        if h.contains(c) {
            return Some(c);
        }
        i = i + 1;
    }
    None
}

/// A numbered board: deal plus dealer and vulnerability.
#[derive(Clone, Copy, PartialEq, Eq, Hash, Debug)]
pub struct Board {
    /// Board number (1-based; 0 is accepted and treated like 16 for conditions).
    pub number: u16,
    /// Dealer.
    pub dealer: Seat,
    /// Vulnerability.
    pub vulnerability: Vulnerability,
    /// The cards.
    pub deal: Deal,
}

impl Board {
    /// A board whose dealer and vulnerability follow the standard schedule for `number`.
    pub fn new(number: u16, deal: Deal) -> (b: Board)
        ensures
            b.number == number,
            b.dealer == board_dealer(number as int),
            b.vulnerability == vulnerability_of(board_vulnerability_index(number as int)),
            b.deal == deal,
    {
        Board {
            number,
            dealer: Seat::dealer_of_board(number),
            vulnerability: Vulnerability::from_board_number(number),
            deal,
        }
    }

    /// A board with explicit conditions (PBN records may override the schedule).
    pub fn with_conditions(number: u16, dealer: Seat, vulnerability: Vulnerability, deal: Deal) -> (b:
        Board)
        ensures
            b == (Board { number, dealer, vulnerability, deal }),
    {
        Board { number, dealer, vulnerability, deal }
    }
}

} // verus!
