//! The play of the cards.

use vstd::prelude::*;
use crate::call::Strain;
use crate::card::{Card, Suit};
use crate::hand::{deck, Hand};
use crate::seat::{Seat, Side};

verus! {

/// The ranking key of card `c` in a trick led in suit `led`, with trump suit index `trump`
/// (`4` for notrump): `32 + rank` for a trump, `16 + rank` for the led suit, `rank` otherwise.
pub open spec fn card_key(c: int, trump: int, led: int) -> int {
    if c / 13 == trump {
        32 + c % 13
    } else if c / 13 == led {
        16 + c % 13
    } else {
        c % 13
    }
}

/// The key of card `j` (`0..4`) of trick `t` of the card sequence `cs`.
pub open spec fn trick_key(cs: Seq<int>, trump: int, t: int, j: int) -> int {
    card_key(cs[4 * t + j], trump, cs[4 * t] / 13)
}

/// The position (`0..4`) inside trick `t` of its winning card: the first card with the
/// highest key.
pub open spec fn win_pos(cs: Seq<int>, trump: int, t: int) -> int {
    let k0 = trick_key(cs, trump, t, 0);
    let k1 = trick_key(cs, trump, t, 1);
    let k2 = trick_key(cs, trump, t, 2);
    let k3 = trick_key(cs, trump, t, 3);
    let p1: int = if k1 > k0 { 1 } else { 0 };
    let m1 = if k1 > k0 { k1 } else { k0 };
    let p2: int = if k2 > m1 { 2 } else { p1 };
    let m2 = if k2 > m1 { k2 } else { m1 };
    if k3 > m2 { 3 } else { p2 }
}

/// The leader of trick `t`: `start` for the first trick, then the winner of the trick before.
#[verifier::opaque]
pub open spec fn leader_of(start: Seat, cs: Seq<int>, trump: int, t: int) -> Seat
    decreases t,
{
    if t <= 0 {
        start
    } else {
        leader_of(start, cs, trump, t - 1).after(win_pos(cs, trump, t - 1))
    }
}

/// The suit index led to the trick in progress of `cs`.
pub open spec fn led_of(cs: Seq<int>) -> int {
    cs[cs.len() - cs.len() % 4] / 13
}

/// Whether card `c` may be played after `cs` by a player whose cards are `rem`: play is not
/// over, the card is held and unplayed, and it follows suit when the player can.
pub open spec fn legal_card(cs: Seq<int>, c: int, rem: Set<int>) -> bool {
    &&& cs.len() < 52
    &&& !cs.contains(c)
    &&& rem.contains(c)
    &&& (cs.len() % 4 == 0 || c / 13 == led_of(cs) || forall|x: int|
        rem.contains(x) && !cs.contains(x) ==> #[trigger] (x / 13) != led_of(cs))
}

/// The cards played so far, in order.
///
/// Seats are not stored: the player of card `i` is derived from the opening leader and the
/// winners of the previous tricks (`seat_at`).
#[derive(PartialEq, Eq, Hash, Debug)]
pub struct PlayHistory {
    trump: Strain,
    leader: Seat,
    cards: Vec<Card>,
}

/// One trick, complete or in progress.
#[derive(Clone, Copy, PartialEq, Eq, Debug)]
pub struct Trick {
    /// The seat that led.
    pub leader: Seat,
    /// The cards in play order (up to four).
    pub cards: [Option<Card>; 4],
    /// The winner, once four cards have been played.
    pub winner: Option<Seat>,
}

/// An illegal card was offered to a [`PlayHistory`].
#[derive(Clone, Copy, PartialEq, Eq, Structural, Debug)]
pub enum PlayError {
    /// The card has already been played.
    AlreadyPlayed(Card),
    /// The player does not hold the card.
    NotHeld(Card),
    /// The player could follow suit but did not.
    Revoke {
        /// The suit led.
        led: Suit,
    },
    /// All 52 cards have been played.
    Complete,
}

impl Clone for PlayHistory {
    fn clone(&self) -> (r: Self)
        ensures
            r.trump_view() == self.trump_view(),
            r.leader_view() == self.leader_view(),
            r.cards_view() == self.cards_view(),
    {
        proof {
            use_type_invariant(self);
        }
        let cards = self.cards.clone();
        proof {
            assert(cards@.map_values(|c: Card| c@) =~= self.cards_view());
        }
        PlayHistory { trump: self.trump, leader: self.leader, cards }
    }
}

impl PlayHistory {
    #[verifier::type_invariant]
    pub(crate) closed spec fn inv(self) -> bool {
        let cs = self.cards_view();
        &&& cs.len() <= 52
        &&& forall|i: int| 0 <= i < cs.len() ==> 0 <= #[trigger] cs[i] < 52
        &&& forall|i: int, j: int| 0 <= i < j < cs.len() ==> cs[i] != cs[j]
    }

    /// The indices of the cards played so far, in order.
    pub closed spec fn cards_view(self) -> Seq<int> {
        self.cards@.map_values(|c: Card| c@)
    }

    /// The trump strain.
    pub closed spec fn trump_view(self) -> Strain {
        self.trump
    }

    /// The opening leader.
    pub closed spec fn leader_view(self) -> Seat {
        self.leader
    }

    /// The trump suit index (`4` at notrump).
    pub open spec fn trump_idx(self) -> int {
        self.trump_view().idx()
    }

    /// The leader of trick `t`.
    pub open spec fn leader_at(self, t: int) -> Seat {
        leader_of(self.leader_view(), self.cards_view(), self.trump_idx(), t)
    }

    /// The seat that plays card `i`.
    pub open spec fn seat_of(self, i: int) -> Seat {
        self.leader_at(i / 4).after(i % 4)
    }

    /// The cards played by `seat`.
    pub open spec fn played_by_set(self, seat: Seat) -> Set<int> {
        Set::new(
            |c: int|
                exists|i: int|
                    0 <= i < self.cards_view().len() && #[trigger] self.cards_view()[i] == c
                        && self.seat_of(i) == seat,
        )
    }

    /// Number of the first `n` tricks won by `side`.
    pub open spec fn won_count(self, side: Side, n: int) -> int
        decreases n,
    {
        if n <= 0 {
            0
        } else {
            self.won_count(side, n - 1) + if self.leader_at(n).side_of() == side {
                1int
            } else {
                0int
            }
        }
    }

    /// An empty history for a contract in `trump` led by `leader`.
    pub fn new(trump: Strain, leader: Seat) -> (h: PlayHistory)
        ensures
            h.trump_view() == trump,
            h.leader_view() == leader,
            h.cards_view() == Seq::<int>::empty(),
    {
        let h = PlayHistory { trump, leader, cards: Vec::new() };
        proof {
            assert(h.cards_view() =~= Seq::<int>::empty());
        }
        h
    }

    /// The trump strain.
    pub fn trump(&self) -> (r: Strain)
        ensures
            r == self.trump_view(),
    {
        self.trump
    }

    /// The opening leader.
    pub fn leader(&self) -> (r: Seat)
        ensures
            r == self.leader_view(),
    {
        self.leader
    }

    /// The cards played so far.
    pub fn cards(&self) -> (r: &[Card])
        ensures
            r@.map_values(|c: Card| c@) == self.cards_view(),
            r@.len() <= 52,
    {
        proof {
            use_type_invariant(self);
        }
        self.cards.as_slice()
    }

    /// Whether `card` may be played now by the player to act, whose unplayed cards are
    /// `remaining`: the card must be held and unplayed, and must follow suit when possible.
    pub fn is_legal(&self, card: Card, remaining: Hand) -> (r: bool)
        ensures
            r == legal_card(self.cards_view(), card@, remaining@),
    {
        self.check(card, remaining).is_none()
    }

    /// The error that playing `card` would raise, if any.
    fn check(&self, card: Card, remaining: Hand) -> (r: Option<PlayError>)
        ensures
            r is None <==> legal_card(self.cards_view(), card@, remaining@),
            r matches Some(e) ==> e == play_error(self.cards_view(), card, remaining@),
    {
        proof {
            use_type_invariant(self);
            use_type_invariant(remaining);
            remaining.lemma_inv();
        }
        let n = self.cards.len();
        if n >= 52 {
            return Some(PlayError::Complete);
        }
        let played = self.played();
        if played.contains(card) {
            proof {
                assert(self.cards_view().contains(card@));
            }
            return Some(PlayError::AlreadyPlayed(card));
        }
        if !remaining.contains(card) {
            return Some(PlayError::NotHeld(card));
        }
        if n % 4 != 0 {
            let first = self.cards[n - n % 4];
            let led = first.suit();
            if card.suit() != led {
                let open = remaining.difference(played).holding(led);
                proof {
                    let cs = self.cards_view();
                    assert(cs[n - n % 4] == first@);
                    assert(led.idx() == led_of(cs));
                }
                if !open.is_empty() {
                    proof {
                        let cs = self.cards_view();
                        if forall|r: int| !open@.contains(r) {
                            assert(open@ =~= Set::<int>::empty());
                        }
                        let r = choose|r: int| open@.contains(r);
                        let x = 13 * led.idx() + r;
                        assert(remaining@.contains(x) && !cs.contains(x) && x / 13 == led_of(cs));
                    }
                    return Some(PlayError::Revoke { led });
                }
                proof {
                    let cs = self.cards_view();
                    assert forall|x: int| remaining@.contains(x) && !cs.contains(x) implies #[trigger] (x
                        / 13) != led_of(cs) by {
                        assert(deck().contains(x));
                        if x / 13 == led_of(cs) {
                            assert(open@.contains(x % 13));
                        }
                    }
                }
            }
        }
        None
    }

    /// Plays `card`, or returns an error and leaves the history unchanged.
    pub fn play(&mut self, card: Card, remaining: Hand) -> (r: Result<(), PlayError>)
        ensures
            r is Ok <==> legal_card(old(self).cards_view(), card@, remaining@),
            r is Ok ==> final(self).cards_view() == old(self).cards_view().push(card@),
            r is Err ==> final(self).cards_view() == old(self).cards_view(),
            r matches Err(e) ==> e == play_error(old(self).cards_view(), card, remaining@),
            final(self).trump_view() == old(self).trump_view(),
            final(self).leader_view() == old(self).leader_view(),
    {
        proof {
            use_type_invariant(&*self);
        }
        match self.check(card, remaining) {
            Some(e) => Err(e),
            None => {
                let ghost old_cs = self.cards_view();
                let i = card.index();
                let mut v = self.cards.clone();
                v.push(card);
                proof {
                    assert(v@.map_values(|c: Card| c@) =~= old_cs.push(card@));
                    let cs = old_cs.push(card@);
                    assert forall|a: int, b: int| 0 <= a < b < cs.len() implies cs[a] != cs[b] by {
                        if b == cs.len() - 1 {
                            assert(old_cs.contains(cs[a]) || a == b);
                        }
                    }
                }
                self.cards = v;
                Ok(())
            },
        }
    }

    /// The winning position of trick `t`.
    fn win_pos(&self, t: usize) -> (p: u8)
        requires
            4 * t + 4 <= self.cards_view().len(),
        ensures
            p == win_pos(self.cards_view(), self.trump_idx(), t as int),
            p < 4,
    {
        proof {
            use_type_invariant(self);
        }
        let trump = self.trump.index();
        let led = self.cards[4 * t].suit().index();
        let k0 = key_of(self.cards[4 * t], trump, led);
        let k1 = key_of(self.cards[4 * t + 1], trump, led);
        let k2 = key_of(self.cards[4 * t + 2], trump, led);
        let k3 = key_of(self.cards[4 * t + 3], trump, led);
        let (p1, m1) = if k1 > k0 {
            (1u8, k1)
        } else {
            (0u8, k0)
        };
        let (p2, m2) = if k2 > m1 {
            (2u8, k2)
        } else {
            (p1, m1)
        };
        if k3 > m2 {
            3
        } else {
            p2
        }
    }

    /// The leader of trick `t` (0-based): the opening leader for `t == 0`, otherwise the winner
    /// of trick `t - 1`.
    pub fn trick_leader(&self, t: usize) -> (s: Seat)
        requires
            4 * t <= self.cards_view().len(),
        ensures
            s == self.leader_at(t as int),
    {
        let mut leader = self.leader;
        let mut i: usize = 0;
        proof {
            reveal(leader_of);
        }
        while i < t
            invariant
                i <= t,
                4 * t <= self.cards_view().len(),
                leader == self.leader_at(i as int),
            decreases t - i,
        {
            let p = self.win_pos(i);
            leader = leader.offset(p);
            proof {
                reveal(leader_of);
            }
            i = i + 1;
        }
        leader
    }

    /// The seat that played (or will play) card `index`.
    pub fn seat_at(&self, index: usize) -> (s: Seat)
        requires
            index / 4 <= self.cards_view().len() / 4,
        ensures
            s == self.seat_of(index as int),
    {
        self.trick_leader(index / 4).offset((index % 4) as u8)
    }

    /// The seat to play next.
    pub fn next_to_play(&self) -> (s: Seat)
        ensures
            s == self.seat_of(self.cards_view().len() as int),
    {
        self.seat_at(self.cards.len())
    }

    /// The winner of trick `t`, or `None` if that trick is incomplete.
    ///
    /// A card's key is `32 + rank` for a trump, `16 + rank` for the led suit, `rank` otherwise;
    /// the highest key wins.
    pub fn trick_winner(&self, t: usize) -> (r: Option<Seat>)
        ensures
            r is Some <==> 4 * t + 4 <= self.cards_view().len(),
            r matches Some(s) ==> s == self.leader_at(t as int + 1),
    {
        proof {
            use_type_invariant(self);
        }
        if t < 13 && 4 * t + 4 <= self.cards.len() {
            Some(self.trick_leader(t + 1))
        } else {
            None
        }
    }

    /// The cards of the trick in progress (empty when a trick has just been completed).
    pub fn current_trick(&self) -> (r: &[Card])
        ensures
            r@.map_values(|c: Card| c@) == self.cards_view().subrange(
                self.cards_view().len() - self.cards_view().len() % 4,
                self.cards_view().len() as int,
            ),
    {
        let n = self.cards.len();
        let start = n - n % 4;
        let r = vstd::slice::slice_subrange(self.cards.as_slice(), start, n);
        proof {
            assert(r@.map_values(|c: Card| c@) =~= self.cards_view().subrange(start as int, n as int));
        }
        r
    }

    /// The suit led to the trick in progress, if a card has been led.
    pub fn led_suit(&self) -> (r: Option<Suit>)
        ensures
            r is Some <==> self.cards_view().len() % 4 != 0,
            r matches Some(s) ==> s.idx() == led_of(self.cards_view()),
    {
        let n = self.cards.len();
        if n % 4 == 0 {
            None
        } else {
            let c = self.cards[n - n % 4];
            proof {
                assert(self.cards_view()[n - n % 4] == c@);
            }
            Some(c.suit())
        }
    }

    /// Completed and in-progress tricks in order.
    pub fn tricks(&self) -> (r: Vec<Trick>)
        ensures
            r.len() == (self.cards_view().len() + 3) / 4,
            forall|t: int| 0 <= t < r.len() ==> (#[trigger] r[t]).leader == self.leader_at(t),
            forall|t: int|
                0 <= t < r.len() ==> (#[trigger] r[t]).winner == if 4 * t + 4
                    <= self.cards_view().len() {
                    Some(self.leader_at(t + 1))
                } else {
                    None
                },
            forall|t: int, j: int|
                0 <= t < r.len() && 0 <= j < 4 ==> ((#[trigger] r[t].cards@[j]) is Some) == (4 * t
                    + j < self.cards_view().len()),
            forall|t: int, j: int|
                0 <= t < r.len() && 0 <= j < 4 ==> ((#[trigger] r[t].cards@[j]) matches Some(c)
                    ==> c@ == self.cards_view()[4 * t + j]),
    {
        proof {
            use_type_invariant(self);
        }
        let n = self.cards.len();
        let count = (n + 3) / 4;
        let mut r: Vec<Trick> = Vec::new();
        let mut t: usize = 0;
        while t < count
            invariant
                t <= count,
                count == (n + 3) / 4,
                n == self.cards_view().len(),
                n <= 52,
                r.len() == t,
                forall|u: int| 0 <= u < r.len() ==> (#[trigger] r[u]).leader == self.leader_at(u),
                forall|u: int|
                    0 <= u < r.len() ==> (#[trigger] r[u]).winner == if 4 * u + 4 <= n {
                        Some(self.leader_at(u + 1))
                    } else {
                        None
                    },
                forall|u: int, j: int|
                    0 <= u < r.len() && 0 <= j < 4 ==> ((#[trigger] r[u].cards@[j]) is Some) == (4
                        * u + j < n),
                forall|u: int, j: int|
                    0 <= u < r.len() && 0 <= j < 4 ==> ((#[trigger] r[u].cards@[j]) matches Some(c)
                        ==> c@ == self.cards_view()[4 * u + j]),
            decreases count - t,
        {
            let leader = self.trick_leader(t);
            let winner = self.trick_winner(t);
            let c0 = self.card_or_none(4 * t);
            let c1 = self.card_or_none(4 * t + 1);
            let c2 = self.card_or_none(4 * t + 2);
            let c3 = self.card_or_none(4 * t + 3);
            let trick = Trick { leader, cards: [c0, c1, c2, c3], winner };
            proof {
                assert(trick.cards@ =~= seq![c0, c1, c2, c3]);
            }
            r.push(trick);
            t = t + 1;
        }
        r
    }

    /// Card `i`, if it has been played.
    fn card_or_none(&self, i: usize) -> (r: Option<Card>)
        ensures
            r is Some <==> i < self.cards_view().len(),
            r matches Some(c) ==> c@ == self.cards_view()[i as int],
    {
        if i < self.cards.len() {
            Some(self.cards[i])
        } else {
            None
        }
    }

    /// Every card played so far.
    pub fn played(&self) -> (h: Hand)
        ensures
            h@ == self.cards_view().to_set(),
    {
        let mut h = Hand::empty();
        let mut i: usize = 0;
        while i < self.cards.len()
            invariant
                i <= self.cards.len(),
                h@ == self.cards_view().take(i as int).to_set(),
            decreases self.cards.len() - i,
        {
            let c = self.cards[i];
            h = h.with(c);
            proof {
                let cs = self.cards_view();
                assert(cs.take(i + 1) =~= cs.take(i as int).push(c@));
                cs.take(i as int).lemma_push_to_set_commute(c@);
            }
            i = i + 1;
        }
        proof {
            assert(self.cards_view().take(i as int) =~= self.cards_view());
        }
        h
    }

    /// The cards among the first `n` played by `seat`.
    pub open spec fn played_by_upto(self, seat: Seat, n: int) -> Set<int> {
        Set::new(
            |c: int|
                exists|k: int|
                    0 <= k < n && #[trigger] self.cards_view()[k] == c && self.seat_of(k) == seat,
        )
    }

    /// The cards played by `seat`.
    pub fn played_by(&self, seat: Seat) -> (h: Hand)
        ensures
            h@ == self.played_by_set(seat),
    {
        proof {
            use_type_invariant(self);
        }
        let n = self.cards.len();
        let mut h = Hand::empty();
        let mut i: usize = 0;
        proof {
            assert(h@ =~= self.played_by_upto(seat, 0));
        }
        while i < n
            invariant
                i <= n,
                n == self.cards_view().len(),
                h@ == self.played_by_upto(seat, i as int),
            decreases n - i,
        {
            let c = self.cards[i];
            let ghost before = h@;
            let mine = self.seat_at(i) == seat;
            if mine {
                h = h.with(c);
            }
            proof {
                let cs = self.cards_view();
                assert(cs[i as int] == c@);
                assert forall|d: int| #[trigger] h@.contains(d) == self.played_by_upto(
                    seat,
                    i + 1,
                ).contains(d) by {
                    if h@.contains(d) {
                        if before.contains(d) {
                            let k = choose|k: int|
                                0 <= k < i && #[trigger] cs[k] == d && self.seat_of(k) == seat;
                            assert(0 <= k < i + 1 && cs[k] == d && self.seat_of(k) == seat);
                        } else {
                            assert(0 <= i < i + 1 && cs[i as int] == d && self.seat_of(i as int)
                                == seat);
                        }
                    }
                    if self.played_by_upto(seat, i + 1).contains(d) {
                        let k = choose|k: int|
                            0 <= k < i + 1 && #[trigger] cs[k] == d && self.seat_of(k) == seat;
                        if k < i {
                            assert(before.contains(d));
                        }
                    }
                }
                assert(h@ =~= self.played_by_upto(seat, i + 1));
            }
            i = i + 1;
        }
        proof {
            assert(h@ =~= self.played_by_set(seat));
        }
        h
    }

    /// Number of completed tricks won by `side`.
    pub fn tricks_won(&self, side: Side) -> (r: u8)
        ensures
            r == self.won_count(side, self.cards_view().len() as int / 4),
    {
        proof {
            use_type_invariant(self);
        }
        let done = self.cards.len() / 4;
        let mut count: u8 = 0;
        let mut t: usize = 0;
        while t < done
            invariant
                t <= done,
                done == self.cards_view().len() / 4,
                done <= 13,
                count == self.won_count(side, t as int),
                count <= t,
            decreases done - t,
        {
            let w = self.trick_leader(t + 1);
            if w.side() == side {
                count = count + 1;
            }
            t = t + 1;
        }
        count
    }
}

impl PlayHistory {
    /// Every completed trick is won by exactly one side.
    pub proof fn lemma_tricks_won_total(self, n: int)
        requires
            0 <= n,
        ensures
            self.won_count(Side::NS, n) + self.won_count(Side::EW, n) == n,
        decreases n,
    {
        if n > 0 {
            self.lemma_tricks_won_total(n - 1);
        }
    }

    /// The cards played by the four seats together are the cards played.
    pub proof fn lemma_played_by_partition(self)
        ensures
            self.played_by_set(Seat::North).union(self.played_by_set(Seat::East)).union(
                self.played_by_set(Seat::South),
            ).union(self.played_by_set(Seat::West)) == self.cards_view().to_set(),
    {
        let cs = self.cards_view();
        let all = self.played_by_set(Seat::North).union(self.played_by_set(Seat::East)).union(
            self.played_by_set(Seat::South),
        ).union(self.played_by_set(Seat::West));
        assert forall|c: int| #[trigger] all.contains(c) == cs.to_set().contains(c) by {
            if cs.contains(c) {
                let i = choose|i: int| 0 <= i < cs.len() && cs[i] == c;
                let s = self.seat_of(i);
                assert(self.played_by_set(s).contains(c));
            }
        }
        assert(all =~= cs.to_set());
    }
}

/// A player who still holds an unplayed card always has a legal card while play lasts.
pub proof fn lemma_legal_card_exists(cs: Seq<int>, rem: Set<int>, x: int)
    requires
        cs.len() < 52,
        rem.contains(x),
        !cs.contains(x),
    ensures
        exists|c: int| #[trigger] legal_card(cs, c, rem),
{
    if cs.len() % 4 != 0 && x / 13 != led_of(cs) {
        if exists|y: int| rem.contains(y) && !cs.contains(y) && #[trigger] (y / 13) == led_of(cs) {
            let y = choose|y: int| rem.contains(y) && !cs.contains(y) && #[trigger] (y / 13) == led_of(cs);
            assert(legal_card(cs, y, rem));
        } else {
            assert(legal_card(cs, x, rem));
        }
    } else {
        assert(legal_card(cs, x, rem));
    }
}

/// The error that playing card `card` after `cs` with unplayed cards `rem` raises: play over,
/// then already played, then not held, then a revoke of the suit led.
pub open spec fn play_error(cs: Seq<int>, card: Card, rem: Set<int>) -> PlayError {
    if cs.len() >= 52 {
        PlayError::Complete
    } else if cs.contains(card@) {
        PlayError::AlreadyPlayed(card)
    } else if !rem.contains(card@) {
        PlayError::NotHeld(card)
    } else {
        PlayError::Revoke { led: crate::card::suit_of(led_of(cs)) }
    }
}

/// The key of `card` in a trick led in suit `led` with trump suit index `trump`.
fn key_of(card: Card, trump: u8, led: u8) -> (k: u8)
    ensures
        k == card_key(card@, trump as int, led as int),
{
    let i = card.index();
    let s = i / 13;
    let r = i % 13;
    if s == trump {
        32 + r
    } else if s == led {
        16 + r
    } else {
        r
    }
}

} // verus!
