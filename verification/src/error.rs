//! Errors of the text formats, and the messages of every error of the library.

use vstd::prelude::*;
use crate::auction::AuctionError;
use crate::card::{suit_letter, Card};
use crate::deal::DealError;
use crate::fmt::{call_text, card_text, push_call};
use crate::play::PlayError;
use crate::seat::{seat_letter, Seat};
use crate::text::{dec_text, push_all, push_dec};

verus! {

/// A text form of a core type could not be parsed.
#[derive(Clone, PartialEq, Eq, Debug)]
pub enum ParseError {
    /// Unknown suit symbol.
    Suit(char),
    /// Unknown rank symbol.
    Rank(char),
    /// Unknown seat symbol.
    Seat(char),
    /// A hand did not have four suit fields.
    SuitCount(usize),
    /// A deal did not have four hands.
    HandCount(usize),
    /// The same card appeared twice.
    DuplicateCard(Card),
    /// A hand of a deal did not hold 13 cards.
    HandSize {
        /// The seat.
        seat: Seat,
        /// Its card count.
        count: u8,
    },
    /// Not a bid.
    Bid(String),
    /// Not a call.
    Call(String),
    /// Not a vulnerability.
    Vulnerability(String),
    /// Not a shape.
    Shape(String),
    /// Empty input.
    Empty,
}

/// The escaped form of `c` inside a quoted literal whose quote is `q`.
pub open spec fn escaped(c: char, q: char) -> Seq<char> {
    if c == '\t' {
        seq!['\\', 't']
    } else if c == '\r' {
        seq!['\\', 'r']
    } else if c == '\n' {
        seq!['\\', 'n']
    } else if c == '\0' {
        seq!['\\', '0']
    } else if c == '\\' || c == q {
        seq!['\\', c]
    } else {
        seq![c]
    }
}

/// `c` quoted as a character literal.
pub open spec fn char_debug(c: char) -> Seq<char> {
    seq!['\''] + escaped(c, '\'') + seq!['\'']
}

/// The characters of `s`, each escaped for a string literal.
pub open spec fn escaped_str(s: Seq<char>) -> Seq<char>
    decreases s.len(),
{
    if s.len() == 0 {
        Seq::empty()
    } else {
        escaped_str(s.drop_last()) + escaped(s.last(), '"')
    }
}

/// `s` quoted as a string literal.
pub open spec fn str_debug(s: Seq<char>) -> Seq<char> {
    seq!['"'] + escaped_str(s) + seq!['"']
}

/// Appends `c` escaped for a literal quoted with `q`.
fn push_escaped(out: &mut String, c: char, q: char)
    ensures
        final(out)@ == old(out)@ + escaped(c, q),
{
    if c == '\t' {
        out.push('\\');
        out.push('t');
    } else if c == '\r' {
        out.push('\\');
        out.push('r');
    } else if c == '\n' {
        out.push('\\');
        out.push('n');
    } else if c == '\0' {
        out.push('\\');
        out.push('0');
    } else if c == '\\' || c == q {
        out.push('\\');
        out.push(c);
    } else {
        out.push(c);
    }
    proof {
        assert(out@ =~= old(out)@ + escaped(c, q));
    }
}

/// Appends `c` as a character literal.
fn push_char_debug(out: &mut String, c: char)
    ensures
        final(out)@ == old(out)@ + char_debug(c),
{
    out.push('\'');
    push_escaped(out, c, '\'');
    out.push('\'');
    proof {
        assert(out@ =~= old(out)@ + char_debug(c));
    }
}

/// Appends `s` as a string literal.
fn push_str_debug(out: &mut String, s: &String)
    ensures
        final(out)@ == old(out)@ + str_debug(s@),
{
    let chars = crate::text::chars_of(s.as_str());
    out.push('"');
    let ghost start = out@;
    let mut i: usize = 0;
    while i < chars.len()
        invariant
            i <= chars.len(),
            chars@ == s@,
            out@ == start + escaped_str(chars@.take(i as int)),
        decreases chars.len() - i,
    {
        push_escaped(out, chars[i], '"');
        proof {
            assert(chars@.take(i + 1).drop_last() =~= chars@.take(i as int));
            assert(out@ =~= start + escaped_str(chars@.take(i + 1)));
        }
        i = i + 1;
    }
    out.push('"');
    proof {
        assert(chars@.take(chars.len() as int) =~= chars@);
        assert(out@ =~= old(out)@ + str_debug(s@));
    }
}

/// Appends the text of `card`.
fn push_card(out: &mut String, card: Card)
    ensures
        final(out)@ == old(out)@ + card_text(card@),
{
    out.push(card.suit().letter());
    out.push(card.rank().to_char());
    proof {
        assert(out@ =~= old(out)@ + card_text(card@));
    }
}

/// The message of a parse error.
pub open spec fn parse_error_text(e: ParseError) -> Seq<char> {
    match e {
        ParseError::Suit(c) => "unknown suit symbol "@ + char_debug(c),
        ParseError::Rank(c) => "unknown rank symbol "@ + char_debug(c),
        ParseError::Seat(c) => "unknown seat "@ + char_debug(c),
        ParseError::SuitCount(n) => "expected 4 suits separated by '.', found "@ + dec_text(
            n as nat,
        ),
        ParseError::HandCount(n) => "expected 4 hands, found "@ + dec_text(n as nat),
        ParseError::DuplicateCard(c) => "duplicate card "@ + card_text(c@),
        ParseError::HandSize { seat, count } => seq![seat_letter(seat)] + " holds "@ + dec_text(
            count as nat,
        ) + " cards, expected 13"@,
        ParseError::Bid(s) => "invalid bid "@ + str_debug(s@),
        ParseError::Call(s) => "invalid call "@ + str_debug(s@),
        ParseError::Vulnerability(s) => "invalid vulnerability "@ + str_debug(s@),
        ParseError::Shape(s) => "invalid shape "@ + str_debug(s@),
        ParseError::Empty => "empty input"@,
    }
}

impl ParseError {
    /// The error message.
    pub fn to_string(&self) -> (r: String)
        ensures
            r@ == parse_error_text(*self),
    {
        let mut s = String::new();
        match self {
            ParseError::Suit(c) => {
                s.append("unknown suit symbol ");
                push_char_debug(&mut s, *c);
            },
            ParseError::Rank(c) => {
                s.append("unknown rank symbol ");
                push_char_debug(&mut s, *c);
            },
            ParseError::Seat(c) => {
                s.append("unknown seat ");
                push_char_debug(&mut s, *c);
            },
            ParseError::SuitCount(n) => {
                s.append("expected 4 suits separated by '.', found ");
                push_dec(&mut s, *n as u64);
            },
            ParseError::HandCount(n) => {
                s.append("expected 4 hands, found ");
                push_dec(&mut s, *n as u64);
            },
            ParseError::DuplicateCard(c) => {
                s.append("duplicate card ");
                push_card(&mut s, *c);
            },
            ParseError::HandSize { seat, count } => {
                s.push(seat.letter());
                s.append(" holds ");
                push_dec(&mut s, *count as u64);
                s.append(" cards, expected 13");
            },
            ParseError::Bid(t) => {
                s.append("invalid bid ");
                push_str_debug(&mut s, t);
            },
            ParseError::Call(t) => {
                s.append("invalid call ");
                push_str_debug(&mut s, t);
            },
            ParseError::Vulnerability(t) => {
                s.append("invalid vulnerability ");
                push_str_debug(&mut s, t);
            },
            ParseError::Shape(t) => {
                s.append("invalid shape ");
                push_str_debug(&mut s, t);
            },
            ParseError::Empty => {
                s.append("empty input");
            },
        }
        proof {
            assert(s@ =~= parse_error_text(*self));
        }
        s
    }
}

impl AuctionError {
    /// The error message: `call X is illegal at position 2`.
    pub fn to_string(&self) -> (r: String)
        ensures
            r@ == (match *self {
                AuctionError::IllegalCall { call, index } => "call "@ + call_text(call)
                    + " is illegal at position "@ + dec_text(index as nat),
            }),
    {
        let mut s = String::new();
        match self {
            AuctionError::IllegalCall { call, index } => {
                s.append("call ");
                push_call(&mut s, *call);
                s.append(" is illegal at position ");
                push_dec(&mut s, *index as u64);
            },
        }
        proof {
            match *self {
                AuctionError::IllegalCall { call, index } => {
                    assert(s@ =~= "call "@ + call_text(call) + " is illegal at position "@
                        + dec_text(index as nat));
                },
            }
        }
        s
    }
}

/// The message of a play error.
pub open spec fn play_error_text(e: PlayError) -> Seq<char> {
    match e {
        PlayError::AlreadyPlayed(c) => "card "@ + card_text(c@) + " already played"@,
        PlayError::NotHeld(c) => "card "@ + card_text(c@) + " is not held"@,
        PlayError::Revoke { led } => "must follow suit "@ + seq![suit_letter(led)],
        PlayError::Complete => "play is complete"@,
    }
}

impl PlayError {
    /// The error message, such as `must follow suit H`.
    pub fn to_string(&self) -> (r: String)
        ensures
            r@ == play_error_text(*self),
    {
        let mut s = String::new();
        match self {
            PlayError::AlreadyPlayed(c) => {
                s.append("card ");
                push_card(&mut s, *c);
                s.append(" already played");
            },
            PlayError::NotHeld(c) => {
                s.append("card ");
                push_card(&mut s, *c);
                s.append(" is not held");
            },
            PlayError::Revoke { led } => {
                s.append("must follow suit ");
                s.push(led.letter());
            },
            PlayError::Complete => {
                s.append("play is complete");
            },
        }
        proof {
            assert(s@ =~= play_error_text(*self));
        }
        s
    }
}

/// The message of a deal error.
pub open spec fn deal_error_text(e: DealError) -> Seq<char> {
    match e {
        DealError::HandSize { seat, count } => seq![seat_letter(seat)] + " holds "@ + dec_text(
            count as nat,
        ) + " cards, expected 13"@,
        DealError::Duplicate(c) => "card "@ + card_text(c@) + " is held by two seats"@,
    }
}

impl DealError {
    /// The error message, such as `card SA is held by two seats`.
    pub fn to_string(&self) -> (r: String)
        ensures
            r@ == deal_error_text(*self),
    {
        let mut s = String::new();
        match self {
            DealError::HandSize { seat, count } => {
                s.push(seat.letter());
                s.append(" holds ");
                push_dec(&mut s, *count as u64);
                s.append(" cards, expected 13");
            },
            DealError::Duplicate(c) => {
                s.append("card ");
                push_card(&mut s, *c);
                s.append(" is held by two seats");
            },
        }
        proof {
            assert(s@ =~= deal_error_text(*self));
        }
        s
    }
}

} // verus!
