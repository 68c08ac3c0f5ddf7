//! Text formats of the core types: how each is written, and (in `parse`) how it is read.
//!
//! | Type | written as |
//! | --- | --- |
//! | [`Suit`] | `C D H S` |
//! | [`Rank`] | `2`..`9 T J Q K A` |
//! | [`Card`] | `SA` (suit first, PBN play style) |
//! | [`Holding`] | ranks descending, `AKQ`; empty for a void |
//! | [`Hand`] | PBN order spades-first `AKQ.234.AKQ.2345`; empty field for a void |
//! | [`Deal`] | `N:AKQ.234.AKQ.2345 <E> <S> <W>` clockwise from North |
//! | [`Shape`] | `5=4=3=1` (spades first, `=` = fixed order) |
//! | [`ShapeClass`] | `5-4-3-1` |
//! | [`Seat`] | `N E S W` |
//! | [`Strain`] | `C D H S NT` |
//! | [`Bid`] | `1C`..`7NT` |
//! | [`Call`] | `Pass X XX 1C` (PBN) |
//! | [`Contract`] | `4SX` (declarer printed separately, as PBN does) |
//! | [`Vulnerability`] | `None NS EW All` (PBN) |
//! | [`Auction`] | calls separated by spaces, dealer first |
//!
//! Storage is clubs-first (bit layout) while text is spades-first (PBN).

use vstd::prelude::*;
use crate::auction::Auction;
use crate::call::{strain_of, Bid, Call, Contract, Doubling, Strain};
use crate::card::{rank_char, suit_letter, suit_of, Card, Rank, Suit};
use crate::deal::Deal;
use crate::hand::{suit_ranks, Hand};
use crate::holding::{desc_below, Holding};
use crate::seat::{seat_letter, Seat, Vulnerability};
use crate::shape::{Lens, Shape, ShapeClass};
use crate::text::{dec_text, digit_char, push_all, push_dec};

verus! {

/// The text of the card with index `c`.
pub open spec fn card_text(c: int) -> Seq<char> {
    seq![suit_letter(suit_of(c / 13)), rank_char(c % 13)]
}

/// The ranks of `s`, highest first, as characters.
pub open spec fn ranks_text(s: Set<int>) -> Seq<char> {
    desc_below(s, 13).map_values(|r: int| rank_char(r))
}

/// The PBN text of the card set `h`: spades, hearts, diamonds, clubs, separated by dots.
pub open spec fn hand_text(h: Set<int>) -> Seq<char> {
    ranks_text(suit_ranks(h, 3)) + seq!['.'] + ranks_text(suit_ranks(h, 2)) + seq!['.']
        + ranks_text(suit_ranks(h, 1)) + seq!['.'] + ranks_text(suit_ranks(h, 0))
}

/// The PBN text of a deal, clockwise from North.
pub open spec fn deal_text(d: Deal) -> Seq<char> {
    seq!['N', ':'] + hand_text(d.hand_of(Seat::North)@) + seq![' '] + hand_text(
        d.hand_of(Seat::East)@,
    ) + seq![' '] + hand_text(d.hand_of(Seat::South)@) + seq![' '] + hand_text(
        d.hand_of(Seat::West)@,
    )
}

/// The text of a shape: lengths spades first, separated by `=`.
pub open spec fn shape_text(t: Lens) -> Seq<char> {
    dec_text(t.3 as nat) + seq!['='] + dec_text(t.2 as nat) + seq!['='] + dec_text(t.1 as nat)
        + seq!['='] + dec_text(t.0 as nat)
}

/// The text of a shape class: lengths longest first, separated by `-`.
pub open spec fn class_text(t: Lens) -> Seq<char> {
    dec_text(t.0 as nat) + seq!['-'] + dec_text(t.1 as nat) + seq!['-'] + dec_text(t.2 as nat)
        + seq!['-'] + dec_text(t.3 as nat)
}

/// The text of a strain.
pub open spec fn strain_text(s: Strain) -> Seq<char> {
    match s {
        Strain::Clubs => seq!['C'],
        Strain::Diamonds => seq!['D'],
        Strain::Hearts => seq!['H'],
        Strain::Spades => seq!['S'],
        Strain::NoTrump => seq!['N', 'T'],
    }
}

/// The text of the bid with index `b`: its level, then its strain.
pub open spec fn bid_text(b: int) -> Seq<char> {
    seq![digit_char(b / 5 + 1)] + strain_text(strain_of(b % 5))
}

/// The PBN text of a call.
pub open spec fn call_text(c: Call) -> Seq<char> {
    match c {
        Call::Pass => seq!['P', 'a', 's', 's'],
        Call::Double => seq!['X'],
        Call::Redouble => seq!['X', 'X'],
        Call::Bid(b) => bid_text(b@),
    }
}

/// The text of a doubling state: nothing, `X` or `XX`.
pub open spec fn doubling_text(d: Doubling) -> Seq<char> {
    match d {
        Doubling::Undoubled => Seq::empty(),
        Doubling::Doubled => seq!['X'],
        Doubling::Redoubled => seq!['X', 'X'],
    }
}

/// The text of a contract: its bid and doubling state.
pub open spec fn contract_text(c: Contract) -> Seq<char> {
    bid_text(c.bid@) + doubling_text(c.doubling)
}

/// The PBN text of a vulnerability.
pub open spec fn vul_text(v: Vulnerability) -> Seq<char> {
    match v {
        Vulnerability::Love => seq!['N', 'o', 'n', 'e'],
        Vulnerability::NS => seq!['N', 'S'],
        Vulnerability::EW => seq!['E', 'W'],
        Vulnerability::Both => seq!['A', 'l', 'l'],
    }
}

/// The calls of `cs` separated by single spaces.
pub open spec fn calls_text(cs: Seq<Call>) -> Seq<char>
    decreases cs.len(),
{
    if cs.len() == 0 {
        Seq::empty()
    } else if cs.len() == 1 {
        call_text(cs[0])
    } else {
        calls_text(cs.drop_last()) + seq![' '] + call_text(cs.last())
    }
}

/// Appends the ranks of `h`, highest first.
fn push_holding(out: &mut String, h: Holding)
    ensures
        final(out)@ == old(out)@ + ranks_text(h@),
{
    let v = h.ranks();
    let mut i: usize = 0;
    while i < v.len()
        invariant
            i <= v.len(),
            v@.map_values(|r: Rank| r.idx()) == desc_below(h@, 13),
            out@ == old(out)@ + desc_below(h@, 13).take(i as int).map_values(|r: int| rank_char(r)),
        decreases v.len() - i,
    {
        let c = v[i].to_char();
        out.push(c);
        proof {
            let d = desc_below(h@, 13);
            assert(d[i as int] == v@[i as int].idx());
            assert(d.take(i + 1).map_values(|r: int| rank_char(r)) =~= d.take(i as int).map_values(
                |r: int| rank_char(r),
            ).push(c));
        }
        i = i + 1;
    }
    proof {
        assert(desc_below(h@, 13).take(v.len() as int) =~= desc_below(h@, 13));
    }
}

/// Appends the PBN text of `h`.
fn push_hand(out: &mut String, h: Hand)
    ensures
        final(out)@ == old(out)@ + hand_text(h@),
{
    push_holding(out, h.holding(Suit::Spades));
    out.push('.');
    push_holding(out, h.holding(Suit::Hearts));
    out.push('.');
    push_holding(out, h.holding(Suit::Diamonds));
    out.push('.');
    push_holding(out, h.holding(Suit::Clubs));
    proof {
        assert(out@ =~= old(out)@ + hand_text(h@));
    }
}

impl Suit {
    /// The letter `C D H S`.
    pub fn to_string(&self) -> (r: String)
        ensures
            r@ == seq![suit_letter(*self)],
    {
        let mut s = String::new();
        s.push(self.letter());
        s
    }
}

impl Rank {
    /// The character `2`..`9 T J Q K A`.
    pub fn to_string(&self) -> (r: String)
        ensures
            r@ == seq![rank_char(self.idx())],
    {
        let mut s = String::new();
        s.push(self.to_char());
        s
    }
}

impl Card {
    /// Suit letter then rank, such as `SA`.
    pub fn to_string(&self) -> (r: String)
        ensures
            r@ == card_text(self@),
    {
        let mut s = String::new();
        s.push(self.suit().letter());
        s.push(self.rank().to_char());
        s
    }
}

impl Holding {
    /// The ranks, highest first (`AKQ`); empty for a void.
    pub fn to_string(&self) -> (r: String)
        ensures
            r@ == ranks_text(self@),
    {
        let mut s = String::new();
        push_holding(&mut s, *self);
        s
    }
}

impl Hand {
    /// PBN order, spades first: `AKQ.432.AKQ.5432`; an empty field for a void.
    pub fn to_string(&self) -> (r: String)
        ensures
            r@ == hand_text(self@),
    {
        let mut s = String::new();
        push_hand(&mut s, *self);
        s
    }
}

impl Deal {
    /// `N:` then the four hands clockwise from North.
    pub fn to_string(&self) -> (r: String)
        ensures
            r@ == deal_text(*self),
    {
        let mut s = String::new();
        s.push('N');
        s.push(':');
        push_hand(&mut s, self.hand(Seat::North));
        s.push(' ');
        push_hand(&mut s, self.hand(Seat::East));
        s.push(' ');
        push_hand(&mut s, self.hand(Seat::South));
        s.push(' ');
        push_hand(&mut s, self.hand(Seat::West));
        proof {
            assert(s@ =~= deal_text(*self));
        }
        s
    }
}

impl Shape {
    /// Lengths spades first, separated by `=`, such as `5=4=3=1`.
    pub fn to_string(&self) -> (r: String)
        ensures
            r@ == shape_text(self@),
    {
        let l = self.lens();
        let mut s = String::new();
        push_dec(&mut s, l[3] as u64);
        s.push('=');
        push_dec(&mut s, l[2] as u64);
        s.push('=');
        push_dec(&mut s, l[1] as u64);
        s.push('=');
        push_dec(&mut s, l[0] as u64);
        proof {
            assert(s@ =~= shape_text(self@));
        }
        s
    }
}

impl ShapeClass {
    /// Lengths longest first, separated by `-`, such as `5-4-3-1`.
    pub fn to_string(&self) -> (r: String)
        ensures
            r@ == class_text(self@),
    {
        let l = self.lens();
        let mut s = String::new();
        push_dec(&mut s, l[0] as u64);
        s.push('-');
        push_dec(&mut s, l[1] as u64);
        s.push('-');
        push_dec(&mut s, l[2] as u64);
        s.push('-');
        push_dec(&mut s, l[3] as u64);
        proof {
            assert(s@ =~= class_text(self@));
        }
        s
    }
}

impl Seat {
    /// The letter `N E S W`.
    pub fn to_string(&self) -> (r: String)
        ensures
            r@ == seq![seat_letter(*self)],
    {
        let mut s = String::new();
        s.push(self.letter());
        s
    }
}

/// Appends the text of `strain`.
fn push_strain(out: &mut String, strain: Strain)
    ensures
        final(out)@ == old(out)@ + strain_text(strain),
{
    match strain {
        Strain::Clubs => out.push('C'),
        Strain::Diamonds => out.push('D'),
        Strain::Hearts => out.push('H'),
        Strain::Spades => out.push('S'),
        Strain::NoTrump => {
            out.push('N');
            out.push('T');
        },
    }
    proof {
        assert(out@ =~= old(out)@ + strain_text(strain));
    }
}

/// Appends the text of `bid`.
fn push_bid(out: &mut String, bid: Bid)
    ensures
        final(out)@ == old(out)@ + bid_text(bid@),
{
    let level = bid.level();
    let c = (level + 48) as char;
    proof {
        assert(c == digit_char(bid@ / 5 + 1));
    }
    out.push(c);
    push_strain(out, bid.strain());
    proof {
        assert(out@ =~= old(out)@ + bid_text(bid@));
    }
}

/// Appends the text of `call`.
pub(crate) fn push_call(out: &mut String, call: Call)
    ensures
        final(out)@ == old(out)@ + call_text(call),
{
    match call {
        Call::Pass => push_all(out, &['P', 'a', 's', 's']),
        Call::Double => out.push('X'),
        Call::Redouble => {
            out.push('X');
            out.push('X');
        },
        Call::Bid(b) => push_bid(out, b),
    }
    proof {
        assert(out@ =~= old(out)@ + call_text(call));
    }
}

impl Strain {
    /// `C D H S NT`.
    pub fn to_string(&self) -> (r: String)
        ensures
            r@ == strain_text(*self),
    {
        let mut s = String::new();
        push_strain(&mut s, *self);
        proof {
            assert(s@ =~= strain_text(*self));
        }
        s
    }
}

impl Bid {
    /// Level then strain, `1C`..`7NT`.
    pub fn to_string(&self) -> (r: String)
        ensures
            r@ == bid_text(self@),
    {
        let mut s = String::new();
        push_bid(&mut s, *self);
        proof {
            assert(s@ =~= bid_text(self@));
        }
        s
    }
}

impl Call {
    /// `Pass`, `X`, `XX` or the bid.
    pub fn to_string(&self) -> (r: String)
        ensures
            r@ == call_text(*self),
    {
        let mut s = String::new();
        push_call(&mut s, *self);
        proof {
            assert(s@ =~= call_text(*self));
        }
        s
    }
}

impl Contract {
    /// The bid then `X` or `XX` (the declarer is written separately).
    pub fn to_string(&self) -> (r: String)
        ensures
            r@ == contract_text(*self),
    {
        let mut s = String::new();
        push_bid(&mut s, self.bid);
        match self.doubling {
            Doubling::Undoubled => {},
            Doubling::Doubled => s.push('X'),
            Doubling::Redoubled => {
                s.push('X');
                s.push('X');
            },
        }
        proof {
            assert(s@ =~= contract_text(*self));
        }
        s
    }
}

impl Vulnerability {
    /// `None NS EW All`.
    pub fn to_string(&self) -> (r: String)
        ensures
            r@ == vul_text(*self),
    {
        let mut s = String::new();
        match self {
            Vulnerability::Love => push_all(&mut s, &['N', 'o', 'n', 'e']),
            Vulnerability::NS => push_all(&mut s, &['N', 'S']),
            Vulnerability::EW => push_all(&mut s, &['E', 'W']),
            Vulnerability::Both => push_all(&mut s, &['A', 'l', 'l']),
        }
        proof {
            assert(s@ =~= vul_text(*self));
        }
        s
    }
}

impl Auction {
    /// The calls, dealer first, separated by spaces.
    pub fn to_string(&self) -> (r: String)
        ensures
            r@ == calls_text(self.calls_view()),
    {
        let calls = self.calls();
        let mut s = String::new();
        let mut i: usize = 0;
        while i < calls.len()
            invariant
                i <= calls.len(),
                calls@ == self.calls_view(),
                s@ == calls_text(calls@.take(i as int)),
            decreases calls.len() - i,
        {
            if i > 0 {
                s.push(' ');
            }
            push_call(&mut s, calls[i]);
            proof {
                let t = calls@.take(i + 1);
                assert(t.drop_last() =~= calls@.take(i as int));
                if i == 0 {
                    assert(s@ =~= calls_text(t));
                } else {
                    assert(s@ =~= calls_text(t));
                }
            }
            i = i + 1;
        }
        proof {
            assert(calls@.take(calls.len() as int) =~= calls@);
        }
        s
    }
}

} // verus!
