//! Reading the core types from text.
//!
//! | Type | accepts |
//! | --- | --- |
//! | [`Suit`] | `C D H S`, also `♣♦♥♠`, lowercase |
//! | [`Rank`] | `2`..`9 T J Q K A`, also `10`, lowercase |
//! | [`Card`] | `SA` and `AS` |
//! | [`Holding`] | ranks in any order; `-` for a void |
//! | [`Hand`] | PBN order spades-first; `-` for a void; partial hands; duplicates rejected |
//! | [`Deal`] | `N:<hand> <hand> <hand> <hand>` clockwise from the named seat |
//! | [`Shape`] | `5=4=3=1` (spades first) |
//! | [`ShapeClass`] | `5-4-3-1` in any order |
//! | [`Seat`] | `N E S W`, lowercase, full names |
//! | [`Strain`] | `C D H S NT`, also `N` |
//! | [`Bid`] | `1C`..`7NT`, also `7N`, lowercase |
//! | [`Call`] | `Pass X XX 1C`, also `P Dbl Rdbl D R` |
//! | [`Contract`] | `4SX`, `4SXX`, `3NT` |
//! | [`Vulnerability`] | `None NS EW All`, also `Love Both -` |
//!
//! Leading and trailing white space is ignored everywhere.

use core::str::FromStr;
use vstd::prelude::*;
use crate::call::{strain_of, Bid, Call, Contract, Doubling, Strain};
use crate::card::{rank_of, suit_of, Card, Rank, Suit};
use crate::deal::Deal;
use crate::error::ParseError;
use crate::hand::Hand;
use crate::holding::Holding;
use crate::seat::{seat_of, Seat, Vulnerability};
use crate::shape::{sort_desc, Shape, ShapeClass};
use crate::text::{
    chars_of, digit_of, eq_lower, lower, lower_of, lower_seq, num_of, parse_num, split_bounds,
    split_on, trim, trim_range,
};

verus! {

/// The suit index of a suit character (a letter in either case, or a symbol), or `-1`.
pub open spec fn suit_code(c: char) -> int {
    let l = lower_of(c);
    if l == 'c' || c == '♣' {
        0
    } else if l == 'd' || c == '♦' {
        1
    } else if l == 'h' || c == '♥' {
        2
    } else if l == 's' || c == '♠' {
        3
    } else {
        -1
    }
}

/// The rank index of a rank character, or `-1`.
pub open spec fn rank_code(c: char) -> int {
    let l = lower_of(c);
    if '2' <= c && c <= '9' {
        digit_of(c) - 2
    } else if l == 't' {
        8
    } else if l == 'j' {
        9
    } else if l == 'q' {
        10
    } else if l == 'k' {
        11
    } else if l == 'a' {
        12
    } else {
        -1
    }
}

/// A rank written as `t` (already trimmed): one rank character, or `10`.
pub open spec fn rank_text_spec(t: Seq<char>) -> Result<Rank, ParseError> {
    if t.len() == 0 {
        Err(ParseError::Empty)
    } else if t == seq!['1', '0'] {
        Ok(Rank::Ten)
    } else if rank_code(t[0]) < 0 {
        Err(ParseError::Rank(t[0]))
    } else if t.len() > 1 {
        Err(ParseError::Rank(t[1]))
    } else {
        Ok(rank_of(rank_code(t[0])))
    }
}

/// How a suit is read from `s`.
pub open spec fn parse_suit_spec(s: Seq<char>) -> Result<Suit, ParseError> {
    let t = trim(s);
    if t.len() == 0 {
        Err(ParseError::Empty)
    } else if suit_code(t[0]) < 0 {
        Err(ParseError::Suit(t[0]))
    } else if t.len() > 1 {
        Err(ParseError::Suit(t[1]))
    } else {
        Ok(suit_of(suit_code(t[0])))
    }
}

/// The card of suit index `s` and rank `r`.
pub open spec fn card_of(s: int, r: Rank) -> Card {
    Card::at_index(13 * s + r.idx())
}

/// How a card is read from `s`: suit then rank, or rank then suit.
pub open spec fn parse_card_spec(s: Seq<char>) -> Result<Card, ParseError> {
    let t = trim(s);
    if t.len() == 0 {
        Err(ParseError::Empty)
    } else if suit_code(t[0]) >= 0 {
        match rank_text_spec(t.drop_first()) {
            Ok(r) => Ok(card_of(suit_code(t[0]), r)),
            Err(e) => Err(e),
        }
    } else if suit_code(t.last()) >= 0 {
        match rank_text_spec(t.drop_last()) {
            Ok(r) => Ok(card_of(suit_code(t.last()), r)),
            Err(e) => Err(e),
        }
    } else {
        Err(ParseError::Suit(t[0]))
    }
}

/// The seat index named by `t` (a letter or a full name, any case), or `-1`.
pub open spec fn seat_code(t: Seq<char>) -> int {
    let l = lower_seq(t);
    if l == seq!['n'] || l == seq!['n', 'o', 'r', 't', 'h'] {
        0
    } else if l == seq!['e'] || l == seq!['e', 'a', 's', 't'] {
        1
    } else if l == seq!['s'] || l == seq!['s', 'o', 'u', 't', 'h'] {
        2
    } else if l == seq!['w'] || l == seq!['w', 'e', 's', 't'] {
        3
    } else {
        -1
    }
}

/// How a seat is read from `s`.
pub open spec fn parse_seat_spec(s: Seq<char>) -> Result<Seat, ParseError> {
    let t = trim(s);
    if t.len() == 0 {
        Err(ParseError::Empty)
    } else if seat_code(t) < 0 {
        Err(ParseError::Seat(t[0]))
    } else {
        Ok(seat_of(seat_code(t)))
    }
}

/// The strain index named by `t`, or `-1`.
pub open spec fn strain_code(t: Seq<char>) -> int {
    let l = lower_seq(t);
    if l == seq!['c'] {
        0
    } else if l == seq!['d'] {
        1
    } else if l == seq!['h'] {
        2
    } else if l == seq!['s'] {
        3
    } else if l == seq!['n'] || l == seq!['n', 't'] {
        4
    } else {
        -1
    }
}

/// The bid index written as `t` (a level `1..=7`, then a strain), or `-1`.
pub open spec fn bid_code(t: Seq<char>) -> int {
    if t.len() >= 2 && '1' <= t[0] && t[0] <= '7' && strain_code(t.drop_first()) >= 0 {
        (digit_of(t[0]) - 1) * 5 + strain_code(t.drop_first())
    } else {
        -1
    }
}

/// The call index written as `t`, or `-1`.
pub open spec fn call_code(t: Seq<char>) -> int {
    let l = lower_seq(t);
    if l == seq!['p'] || l == seq!['p', 'a', 's', 's'] {
        0
    } else if l == seq!['x'] || l == seq!['d'] || l == seq!['d', 'b', 'l'] || l == seq![
        'd',
        'o',
        'u',
        'b',
        'l',
        'e',
    ] {
        1
    } else if l == seq!['x', 'x'] || l == seq!['r'] || l == seq!['r', 'd', 'b', 'l'] || l
        == seq!['r', 'e', 'd', 'o', 'u', 'b', 'l', 'e'] {
        2
    } else if bid_code(t) >= 0 {
        3 + bid_code(t)
    } else {
        -1
    }
}

/// The number of `x` or `X` characters at the end of `t`.
pub open spec fn trailing_xs(t: Seq<char>) -> int
    decreases t.len(),
{
    if t.len() > 0 && lower_of(t.last()) == 'x' {
        1 + trailing_xs(t.drop_last())
    } else {
        0
    }
}

/// The vulnerability index named by `t`, or `-1`.
pub open spec fn vul_code(t: Seq<char>) -> int {
    let l = lower_seq(t);
    if l == seq!['n', 'o', 'n', 'e'] || l == seq!['l', 'o', 'v', 'e'] || l == seq!['-'] {
        0
    } else if l == seq!['n', 's'] {
        1
    } else if l == seq!['e', 'w'] {
        2
    } else if l == seq!['a', 'l', 'l'] || l == seq!['b', 'o', 't', 'h'] {
        3
    } else {
        -1
    }
}

/// `t` is four lengths `0..=13` separated by `sep`.
pub open spec fn four_lens(t: Seq<char>, sep: char) -> bool {
    let f = split_on(t, sep);
    &&& f.len() == 4
    &&& forall|k: int| 0 <= k < 4 ==> 0 <= #[trigger] num_of(f[k]) <= 13
}

/// The `k`-th length of `t`.
pub open spec fn len_field(t: Seq<char>, sep: char, k: int) -> int {
    num_of(split_on(t, sep)[k])
}

/// The suit index of `c`, or `-1`.
pub fn suit_code_of(c: char) -> (r: i8)
    ensures
        r == suit_code(c),
{
    let l = lower(c);
    if l == 'c' || c == '♣' {
        0
    } else if l == 'd' || c == '♦' {
        1
    } else if l == 'h' || c == '♥' {
        2
    } else if l == 's' || c == '♠' {
        3
    } else {
        -1
    }
}

/// The rank index of `c`, or `-1`.
pub fn rank_code_of(c: char) -> (r: i8)
    ensures
        r == rank_code(c),
{
    let l = lower(c);
    if '2' <= c && c <= '9' {
        ((c as u8) - 50) as i8
    } else if l == 't' {
        8
    } else if l == 'j' {
        9
    } else if l == 'q' {
        10
    } else if l == 'k' {
        11
    } else if l == 'a' {
        12
    } else {
        -1
    }
}

/// The characters of `s`, trimmed, as a vector and bounds.
fn trimmed(s: &str) -> (r: (Vec<char>, usize, usize))
    ensures
        r.1 <= r.2 <= r.0.len(),
        r.0@.subrange(r.1 as int, r.2 as int) == trim(s@),
{
    let v = chars_of(s);
    let n = v.len();
    proof {
        assert(v@.subrange(0, n as int) =~= v@);
    }
    let (a, b) = trim_range(&v, 0, n);
    (v, a, b)
}

/// The rank written as `v[lo..hi]`.
fn rank_at(v: &Vec<char>, lo: usize, hi: usize) -> (r: Result<Rank, ParseError>)
    requires
        lo <= hi <= v.len(),
    ensures
        r == rank_text_spec(v@.subrange(lo as int, hi as int)),
{
    let ghost t = v@.subrange(lo as int, hi as int);
    if lo == hi {
        return Err(ParseError::Empty);
    }
    proof {
        assert(t[0] == v@[lo as int]);
    }
    if hi - lo == 2 && v[lo] == '1' && v[lo + 1] == '0' {
        proof {
            assert(t =~= seq!['1', '0']);
        }
        return Ok(Rank::Ten);
    }
    proof {
        if t == seq!['1', '0'] {
            assert(t[1] == v@[lo + 1]);
        }
    }
    let code = rank_code_of(v[lo]);
    if code < 0 {
        return Err(ParseError::Rank(v[lo]));
    }
    if hi - lo > 1 {
        proof {
            assert(t[1] == v@[lo + 1]);
        }
        return Err(ParseError::Rank(v[lo + 1]));
    }
    Ok(Rank::from_index(code as u8))
}

impl Suit {
    /// Reads a suit: `C D H S`, `♣♦♥♠`, either case.
    pub fn parse_text(s: &str) -> (r: Result<Suit, ParseError>)
        ensures
            r == parse_suit_spec(s@),
    {
        let (v, lo, hi) = trimmed(s);
        let ghost t = v@.subrange(lo as int, hi as int);
        if lo == hi {
            return Err(ParseError::Empty);
        }
        proof {
            assert(t[0] == v@[lo as int]);
        }
        let code = suit_code_of(v[lo]);
        if code < 0 {
            return Err(ParseError::Suit(v[lo]));
        }
        if hi - lo > 1 {
            proof {
                assert(t[1] == v@[lo + 1]);
            }
            return Err(ParseError::Suit(v[lo + 1]));
        }
        Ok(Suit::from_index(code as u8))
    }
}

impl Rank {
    /// Reads a rank: `2`..`9 T J Q K A`, also `10`, either case.
    pub fn parse_text(s: &str) -> (r: Result<Rank, ParseError>)
        ensures
            r == rank_text_spec(trim(s@)),
    {
        let (v, lo, hi) = trimmed(s);
        rank_at(&v, lo, hi)
    }
}

impl Card {
    /// Reads a card, suit first (`SA`) or rank first (`AS`).
    pub fn parse_text(s: &str) -> (r: Result<Card, ParseError>)
        ensures
            r == parse_card_spec(s@),
    {
        let (v, lo, hi) = trimmed(s);
        let ghost t = v@.subrange(lo as int, hi as int);
        if lo == hi {
            return Err(ParseError::Empty);
        }
        proof {
            assert(t[0] == v@[lo as int]);
            assert(t.last() == v@[hi - 1]);
            assert(t.drop_first() =~= v@.subrange(lo + 1, hi as int));
            assert(t.drop_last() =~= v@.subrange(lo as int, hi - 1));
        }
        let first = suit_code_of(v[lo]);
        if first >= 0 {
            return match rank_at(&v, lo + 1, hi) {
                Ok(r) => Ok(card_at(first as u8, r)),
                Err(e) => Err(e),
            };
        }
        let last = suit_code_of(v[hi - 1]);
        if last >= 0 {
            return match rank_at(&v, lo, hi - 1) {
                Ok(r) => Ok(card_at(last as u8, r)),
                Err(e) => Err(e),
            };
        }
        Err(ParseError::Suit(v[lo]))
    }
}

/// The card of suit index `s` and rank `r`.
fn card_at(s: u8, r: Rank) -> (c: Card)
    requires
        s < 4,
    ensures
        c == card_of(s as int, r),
{
    let c = Card::new(Suit::from_index(s), r);
    proof {
        Card::lemma_at_index(13 * s + r.idx());
        Card::lemma_view_eq(c, card_of(s as int, r));
    }
    c
}

/// The seat index written as `v[lo..hi]`, or `-1`.
fn seat_code_at(v: &Vec<char>, lo: usize, hi: usize) -> (r: i8)
    requires
        lo <= hi <= v.len(),
    ensures
        r == seat_code(v@.subrange(lo as int, hi as int)),
{
    if eq_lower(v, lo, hi, &['n']) || eq_lower(v, lo, hi, &['n', 'o', 'r', 't', 'h']) {
        proof {
            assert(['n']@ =~= seq!['n']);
            assert(['n', 'o', 'r', 't', 'h']@ =~= seq!['n', 'o', 'r', 't', 'h']);
        }
        return 0;
    }
    proof {
        assert(['n']@ =~= seq!['n']);
        assert(['n', 'o', 'r', 't', 'h']@ =~= seq!['n', 'o', 'r', 't', 'h']);
    }
    if eq_lower(v, lo, hi, &['e']) || eq_lower(v, lo, hi, &['e', 'a', 's', 't']) {
        proof {
            assert(['e']@ =~= seq!['e']);
            assert(['e', 'a', 's', 't']@ =~= seq!['e', 'a', 's', 't']);
        }
        return 1;
    }
    proof {
        assert(['e']@ =~= seq!['e']);
        assert(['e', 'a', 's', 't']@ =~= seq!['e', 'a', 's', 't']);
    }
    if eq_lower(v, lo, hi, &['s']) || eq_lower(v, lo, hi, &['s', 'o', 'u', 't', 'h']) {
        proof {
            assert(['s']@ =~= seq!['s']);
            assert(['s', 'o', 'u', 't', 'h']@ =~= seq!['s', 'o', 'u', 't', 'h']);
        }
        return 2;
    }
    proof {
        assert(['s']@ =~= seq!['s']);
        assert(['s', 'o', 'u', 't', 'h']@ =~= seq!['s', 'o', 'u', 't', 'h']);
    }
    if eq_lower(v, lo, hi, &['w']) || eq_lower(v, lo, hi, &['w', 'e', 's', 't']) {
        proof {
            assert(['w']@ =~= seq!['w']);
            assert(['w', 'e', 's', 't']@ =~= seq!['w', 'e', 's', 't']);
        }
        return 3;
    }
    proof {
        assert(['w']@ =~= seq!['w']);
        assert(['w', 'e', 's', 't']@ =~= seq!['w', 'e', 's', 't']);
    }
    -1
}

/// The seat written as `v[lo..hi]` (trimmed first).
fn seat_at(v: &Vec<char>, lo: usize, hi: usize) -> (r: Result<Seat, ParseError>)
    requires
        lo <= hi <= v.len(),
    ensures
        r == parse_seat_spec(v@.subrange(lo as int, hi as int)),
{
    let (a, b) = trim_range(v, lo, hi);
    let ghost t = v@.subrange(a as int, b as int);
    if a == b {
        return Err(ParseError::Empty);
    }
    let code = seat_code_at(v, a, b);
    if code < 0 {
        proof {
            assert(t[0] == v@[a as int]);
        }
        return Err(ParseError::Seat(v[a]));
    }
    Ok(Seat::from_index(code as u8))
}

impl Seat {
    /// Reads a seat: `N E S W` or a full name, either case.
    pub fn parse_text(s: &str) -> (r: Result<Seat, ParseError>)
        ensures
            r == parse_seat_spec(s@),
    {
        let v = chars_of(s);
        proof {
            assert(v@.subrange(0, v.len() as int) =~= v@);
        }
        seat_at(&v, 0, v.len())
    }
}

/// The strain index written as `v[lo..hi]`, or `-1`.
fn strain_code_at(v: &Vec<char>, lo: usize, hi: usize) -> (r: i8)
    requires
        lo <= hi <= v.len(),
    ensures
        r == strain_code(v@.subrange(lo as int, hi as int)),
{
    proof {
        assert(['c']@ =~= seq!['c']);
        assert(['d']@ =~= seq!['d']);
        assert(['h']@ =~= seq!['h']);
        assert(['s']@ =~= seq!['s']);
        assert(['n']@ =~= seq!['n']);
        assert(['n', 't']@ =~= seq!['n', 't']);
    }
    if eq_lower(v, lo, hi, &['c']) {
        0
    } else if eq_lower(v, lo, hi, &['d']) {
        1
    } else if eq_lower(v, lo, hi, &['h']) {
        2
    } else if eq_lower(v, lo, hi, &['s']) {
        3
    } else if eq_lower(v, lo, hi, &['n']) || eq_lower(v, lo, hi, &['n', 't']) {
        4
    } else {
        -1
    }
}

/// The bid index written as `v[lo..hi]`, or `-1`.
fn bid_code_at(v: &Vec<char>, lo: usize, hi: usize) -> (r: i8)
    requires
        lo <= hi <= v.len(),
    ensures
        r == bid_code(v@.subrange(lo as int, hi as int)),
        r < 35,
{
    let ghost t = v@.subrange(lo as int, hi as int);
    if hi - lo < 2 {
        return -1;
    }
    let c = v[lo];
    proof {
        assert(t[0] == c);
        assert(t.drop_first() =~= v@.subrange(lo + 1, hi as int));
    }
    if !('1' <= c && c <= '7') {
        return -1;
    }
    let s = strain_code_at(v, lo + 1, hi);
    if s < 0 {
        return -1;
    }
    (((c as u8) - 49) * 5) as i8 + s
}

/// The text `v[lo..hi]` as a `String`.
fn string_of(v: &Vec<char>, lo: usize, hi: usize) -> (r: String)
    requires
        lo <= hi <= v.len(),
    ensures
        r@ == v@.subrange(lo as int, hi as int),
{
    let mut s = String::new();
    let mut i = lo;
    while i < hi
        invariant
            lo <= i <= hi <= v.len(),
            s@ == v@.subrange(lo as int, i as int),
        decreases hi - i,
    {
        s.push(v[i]);
        proof {
            assert(v@.subrange(lo as int, i + 1) =~= v@.subrange(lo as int, i as int).push(
                v@[i as int],
            ));
        }
        i = i + 1;
    }
    s
}

impl Strain {
    /// Reads a strain: `C D H S NT`, also `N`, either case.
    pub fn parse_text(s: &str) -> (r: Result<Strain, ParseError>)
        ensures
            trim(s@).len() == 0 ==> r == Err::<Strain, ParseError>(ParseError::Empty),
            trim(s@).len() > 0 ==> (r is Ok <==> strain_code(trim(s@)) >= 0),
            r matches Ok(x) ==> x == strain_of(strain_code(trim(s@))),
            r matches Err(e) ==> e is Empty || (e matches ParseError::Bid(m) && m@ == trim(s@)),
    {
        let (v, lo, hi) = trimmed(s);
        if lo == hi {
            return Err(ParseError::Empty);
        }
        let code = strain_code_at(&v, lo, hi);
        if code < 0 {
            return Err(ParseError::Bid(string_of(&v, lo, hi)));
        }
        Ok(Strain::from_index(code as u8))
    }
}

impl Bid {
    /// Reads a bid: a level `1..=7` then a strain (`1C`, `7NT`, `7n`).
    pub fn parse_text(s: &str) -> (r: Result<Bid, ParseError>)
        ensures
            trim(s@).len() == 0 ==> r == Err::<Bid, ParseError>(ParseError::Empty),
            trim(s@).len() > 0 ==> (r is Ok <==> bid_code(trim(s@)) >= 0),
            r matches Ok(b) ==> b@ == bid_code(trim(s@)),
            r matches Err(e) ==> e is Empty || (e matches ParseError::Bid(m) && m@ == trim(s@)),
    {
        let (v, lo, hi) = trimmed(s);
        if lo == hi {
            return Err(ParseError::Empty);
        }
        let code = bid_code_at(&v, lo, hi);
        if code < 0 {
            return Err(ParseError::Bid(string_of(&v, lo, hi)));
        }
        Ok(Bid::from_index_unchecked(code as u8))
    }
}

/// The call index written as `v[lo..hi]`, or `-1`.
fn call_code_at(v: &Vec<char>, lo: usize, hi: usize) -> (r: i8)
    requires
        lo <= hi <= v.len(),
    ensures
        r == call_code(v@.subrange(lo as int, hi as int)),
        r < 38,
{
    proof {
        assert(['p']@ =~= seq!['p']);
        assert(['p', 'a', 's', 's']@ =~= seq!['p', 'a', 's', 's']);
        assert(['x']@ =~= seq!['x']);
        assert(['d']@ =~= seq!['d']);
        assert(['d', 'b', 'l']@ =~= seq!['d', 'b', 'l']);
        assert(['d', 'o', 'u', 'b', 'l', 'e']@ =~= seq!['d', 'o', 'u', 'b', 'l', 'e']);
        assert(['x', 'x']@ =~= seq!['x', 'x']);
        assert(['r']@ =~= seq!['r']);
        assert(['r', 'd', 'b', 'l']@ =~= seq!['r', 'd', 'b', 'l']);
        assert(['r', 'e', 'd', 'o', 'u', 'b', 'l', 'e']@ =~= seq![
            'r',
            'e',
            'd',
            'o',
            'u',
            'b',
            'l',
            'e',
        ]);
    }
    if eq_lower(v, lo, hi, &['p']) || eq_lower(v, lo, hi, &['p', 'a', 's', 's']) {
        0
    } else if eq_lower(v, lo, hi, &['x']) || eq_lower(v, lo, hi, &['d']) || eq_lower(
        v,
        lo,
        hi,
        &['d', 'b', 'l'],
    ) || eq_lower(v, lo, hi, &['d', 'o', 'u', 'b', 'l', 'e']) {
        1
    } else if eq_lower(v, lo, hi, &['x', 'x']) || eq_lower(v, lo, hi, &['r']) || eq_lower(
        v,
        lo,
        hi,
        &['r', 'd', 'b', 'l'],
    ) || eq_lower(v, lo, hi, &['r', 'e', 'd', 'o', 'u', 'b', 'l', 'e']) {
        2
    } else {
        let b = bid_code_at(v, lo, hi);
        if b >= 0 {
            3 + b
        } else {
            -1
        }
    }
}

impl Call {
    /// Reads a call: `P`/`Pass`, `X`/`D`/`Dbl`/`Double`, `XX`/`R`/`Rdbl`/`Redouble` or a bid.
    pub fn parse_text(s: &str) -> (r: Result<Call, ParseError>)
        ensures
            trim(s@).len() == 0 ==> r == Err::<Call, ParseError>(ParseError::Empty),
            trim(s@).len() > 0 ==> (r is Ok <==> call_code(trim(s@)) >= 0),
            r matches Ok(c) ==> c.idx() == call_code(trim(s@)),
            r matches Err(e) ==> e is Empty || (e matches ParseError::Call(m) && m@ == trim(s@)),
    {
        let (v, lo, hi) = trimmed(s);
        if lo == hi {
            return Err(ParseError::Empty);
        }
        let code = call_code_at(&v, lo, hi);
        if code < 0 {
            return Err(ParseError::Call(string_of(&v, lo, hi)));
        }
        match Call::from_index(code as u8) {
            Some(c) => Ok(c),
            None => Err(ParseError::Empty),
        }
    }
}

impl Contract {
    /// Reads a contract: a bid, then `X` or `XX` (the declarer is taken to be North).
    pub fn parse_text(s: &str) -> (r: Result<Contract, ParseError>)
        ensures
            ({
                let t = trim(s@);
                let k = trailing_xs(t);
                let body = t.take(t.len() - k);
                &&& t.len() == 0 ==> r == Err::<Contract, ParseError>(ParseError::Empty)
                &&& t.len() > 0 ==> (r is Ok <==> bid_code(body) >= 0 && k < 3)
                &&& r matches Ok(c) ==> c.bid@ == bid_code(body) && c.declarer == Seat::North
                    && c.doubling == (if k == 0 {
                    Doubling::Undoubled
                } else if k == 1 {
                    Doubling::Doubled
                } else {
                    Doubling::Redoubled
                })
                &&& r matches Err(e) ==> e is Empty || (bid_code(body) < 0 && (e matches ParseError::Bid(
                    m,
                ) && m@ == body)) || (bid_code(body) >= 0 && k >= 3 && (e matches ParseError::Call(m)
                    && m@ == t.skip(t.len() - k)))
            }),
    {
        let (v, lo, hi) = trimmed(s);
        let ghost t = v@.subrange(lo as int, hi as int);
        if lo == hi {
            return Err(ParseError::Empty);
        }
        let mut end = hi;
        while end > lo && lower(v[end - 1]) == 'x'
            invariant
                lo <= end <= hi <= v.len(),
                t == v@.subrange(lo as int, hi as int),
                trailing_xs(t) == (hi - end) + trailing_xs(v@.subrange(lo as int, end as int)),
            decreases end,
        {
            proof {
                assert(v@.subrange(lo as int, end as int).drop_last() =~= v@.subrange(
                    lo as int,
                    end - 1,
                ));
            }
            end = end - 1;
        }
        let k = hi - end;
        proof {
            assert(t.take(t.len() - k) =~= v@.subrange(lo as int, end as int));
            assert(t.skip(t.len() - k) =~= v@.subrange(end as int, hi as int));
        }
        let b = bid_code_at(&v, lo, end);
        if b < 0 {
            return Err(ParseError::Bid(string_of(&v, lo, end)));
        }
        if k >= 3 {
            return Err(ParseError::Call(string_of(&v, end, hi)));
        }
        let doubling = if k == 0 {
            Doubling::Undoubled
        } else if k == 1 {
            Doubling::Doubled
        } else {
            Doubling::Redoubled
        };
        Ok(Contract { bid: Bid::from_index_unchecked(b as u8), declarer: Seat::North, doubling })
    }
}

impl Vulnerability {
    /// Reads a vulnerability: `None`/`Love`/`-`, `NS`, `EW`, `All`/`Both`, any case.
    pub fn parse_text(s: &str) -> (r: Result<Vulnerability, ParseError>)
        ensures
            trim(s@).len() == 0 ==> r == Err::<Vulnerability, ParseError>(ParseError::Empty),
            trim(s@).len() > 0 ==> (r is Ok <==> vul_code(trim(s@)) >= 0),
            r matches Ok(x) ==> x.idx() == vul_code(trim(s@)),
            r matches Err(e) ==> e is Empty || (e matches ParseError::Vulnerability(m) && m@ == trim(
                s@,
            )),
    {
        let (v, lo, hi) = trimmed(s);
        if lo == hi {
            return Err(ParseError::Empty);
        }
        proof {
            assert(['n', 'o', 'n', 'e']@ =~= seq!['n', 'o', 'n', 'e']);
            assert(['l', 'o', 'v', 'e']@ =~= seq!['l', 'o', 'v', 'e']);
            assert(['-']@ =~= seq!['-']);
            assert(['n', 's']@ =~= seq!['n', 's']);
            assert(['e', 'w']@ =~= seq!['e', 'w']);
            assert(['a', 'l', 'l']@ =~= seq!['a', 'l', 'l']);
            assert(['b', 'o', 't', 'h']@ =~= seq!['b', 'o', 't', 'h']);
        }
        if eq_lower(&v, lo, hi, &['n', 'o', 'n', 'e']) || eq_lower(&v, lo, hi, &['l', 'o', 'v', 'e'])
            || eq_lower(&v, lo, hi, &['-']) {
            Ok(Vulnerability::Love)
        } else if eq_lower(&v, lo, hi, &['n', 's']) {
            Ok(Vulnerability::NS)
        } else if eq_lower(&v, lo, hi, &['e', 'w']) {
            Ok(Vulnerability::EW)
        } else if eq_lower(&v, lo, hi, &['a', 'l', 'l']) || eq_lower(&v, lo, hi, &['b', 'o', 't', 'h']) {
            Ok(Vulnerability::Both)
        } else {
            Err(ParseError::Vulnerability(string_of(&v, lo, hi)))
        }
    }
}

/// The four lengths of `v[lo..hi]` separated by `sep`, if it is four lengths `0..=13`.
fn four_lens_at(v: &Vec<char>, lo: usize, hi: usize, sep: char) -> (r: Option<[u8; 4]>)
    requires
        lo <= hi <= v.len(),
    ensures
        r is Some <==> four_lens(v@.subrange(lo as int, hi as int), sep),
        r matches Some(l) ==> forall|k: int|
            0 <= k < 4 ==> #[trigger] l[k] == len_field(v@.subrange(lo as int, hi as int), sep, k),
{
    let ghost t = v@.subrange(lo as int, hi as int);
    let f = split_bounds(v, lo, hi, sep);
    if f.len() != 4 {
        return None;
    }
    let mut out: [u8; 4] = [0; 4];
    let mut k: usize = 0;
    while k < 4
        invariant
            k <= 4,
            f.len() == 4,
            f.len() == split_on(t, sep).len(),
            forall|j: int|
                0 <= j < f.len() ==> lo <= (#[trigger] f[j]).0 <= f[j].1 <= hi && v@.subrange(
                    f[j].0 as int,
                    f[j].1 as int,
                ) == split_on(t, sep)[j],
            forall|j: int| 0 <= j < k ==> 0 <= #[trigger] num_of(split_on(t, sep)[j]) <= 13,
            forall|j: int| 0 <= j < k ==> #[trigger] out[j] == len_field(t, sep, j),
            t == v@.subrange(lo as int, hi as int),
            lo <= hi <= v.len(),
        decreases 4 - k,
    {
        let (a, b) = f[k];
        match parse_num(v, a, b) {
            Some(n) => {
                if n > 13 {
                    return None;
                }
                out[k] = n;
            },
            None => {
                return None;
            },
        }
        k = k + 1;
    }
    Some(out)
}

impl Shape {
    /// Reads a shape written spades first with `=` separators, such as `5=4=3=1`.
    pub fn parse_text(s: &str) -> (r: Result<Shape, ParseError>)
        ensures
            trim(s@).len() == 0 ==> r == Err::<Shape, ParseError>(ParseError::Empty),
            trim(s@).len() > 0 ==> (r is Ok <==> four_lens(trim(s@), '=')),
            r matches Ok(x) ==> x@ == (
                len_field(trim(s@), '=', 3),
                len_field(trim(s@), '=', 2),
                len_field(trim(s@), '=', 1),
                len_field(trim(s@), '=', 0),
            ),
            r matches Err(e) ==> e is Empty || (e matches ParseError::Shape(m) && m@ == trim(s@)),
    {
        let (v, lo, hi) = trimmed(s);
        if lo == hi {
            return Err(ParseError::Empty);
        }
        match four_lens_at(&v, lo, hi, '=') {
            Some(l) => Ok(Shape::new(l[3], l[2], l[1], l[0])),
            None => Err(ParseError::Shape(string_of(&v, lo, hi))),
        }
    }
}

impl ShapeClass {
    /// Reads a shape class: four lengths in any order separated by `-`, such as `5-4-3-1`.
    pub fn parse_text(s: &str) -> (r: Result<ShapeClass, ParseError>)
        ensures
            trim(s@).len() == 0 ==> r == Err::<ShapeClass, ParseError>(ParseError::Empty),
            trim(s@).len() > 0 ==> (r is Ok <==> four_lens(trim(s@), '-')),
            r matches Ok(x) ==> x@ == sort_desc(
                (
                    len_field(trim(s@), '-', 0),
                    len_field(trim(s@), '-', 1),
                    len_field(trim(s@), '-', 2),
                    len_field(trim(s@), '-', 3),
                ),
            ),
            r matches Err(e) ==> e is Empty || (e matches ParseError::Shape(m) && m@ == trim(s@)),
    {
        let (v, lo, hi) = trimmed(s);
        if lo == hi {
            return Err(ParseError::Empty);
        }
        match four_lens_at(&v, lo, hi, '-') {
            Some(l) => Ok(ShapeClass::new(l)),
            None => Err(ParseError::Shape(string_of(&v, lo, hi))),
        }
    }
}

/// Reads the ranks of `f` as cards `base + rank` into `acc`; with `strict`, a card already in
/// `acc` is an error. `10` is read as a ten.
pub open spec fn scan_ranks(f: Seq<char>, base: int, acc: Set<int>, strict: bool) -> Result<
    Set<int>,
    ParseError,
>
    decreases f.len(),
{
    if f.len() == 0 {
        Ok(acc)
    } else {
        let ten = f.len() >= 2 && f[0] == '1' && f[1] == '0';
        let r = if ten {
            8
        } else {
            rank_code(f[0])
        };
        let used: int = if ten {
            2
        } else {
            1
        };
        if r < 0 {
            Err(ParseError::Rank(f[0]))
        } else if strict && acc.contains(base + r) {
            Err(ParseError::DuplicateCard(Card::at_index(base + r)))
        } else {
            scan_ranks(f.subrange(used, f.len() as int), base, acc.insert(base + r), strict)
        }
    }
}

/// How a holding is read from `s` (as a set of ranks).
pub open spec fn parse_holding_spec(s: Seq<char>) -> Result<Set<int>, ParseError> {
    let t = trim(s);
    if t == seq!['-'] {
        Ok(Set::empty())
    } else {
        scan_ranks(t, 0, Set::empty(), false)
    }
}

/// One suit field of a hand: `-` for a void, else ranks without repeats.
pub open spec fn field_spec(f: Seq<char>, base: int, acc: Set<int>) -> Result<Set<int>, ParseError> {
    if f == seq!['-'] {
        Ok(acc)
    } else {
        scan_ranks(f, base, acc, true)
    }
}

/// How a hand is read from `s` (as a set of cards): four fields, spades first.
pub open spec fn parse_hand_spec(s: Seq<char>) -> Result<Set<int>, ParseError> {
    let t = trim(s);
    let f = split_on(t, '.');
    if t.len() == 0 {
        Err(ParseError::Empty)
    } else if f.len() != 4 {
        Err(ParseError::SuitCount(f.len() as usize))
    } else {
        match field_spec(f[0], 39, Set::empty()) {
            Err(e) => Err(e),
            Ok(a) => match field_spec(f[1], 26, a) {
                Err(e) => Err(e),
                Ok(b) => match field_spec(f[2], 13, b) {
                    Err(e) => Err(e),
                    Ok(c) => field_spec(f[3], 0, c),
                },
            },
        }
    }
}

/// Reads the ranks of `v[lo..hi]` into `acc` (see [`scan_ranks`]).
fn scan_at(v: &Vec<char>, lo: usize, hi: usize, base: u8, acc: Hand, strict: bool) -> (r: Result<
    Hand,
    ParseError,
>)
    requires
        lo <= hi <= v.len(),
        base <= 39,
        base % 13 == 0,
    ensures
        scan_ranks(v@.subrange(lo as int, hi as int), base as int, acc@, strict) is Ok <==> r is Ok,
        r matches Ok(h) ==> scan_ranks(v@.subrange(lo as int, hi as int), base as int, acc@, strict)
            == Ok::<Set<int>, ParseError>(h@),
        r matches Err(e) ==> scan_ranks(v@.subrange(lo as int, hi as int), base as int, acc@, strict)
            == Err::<Set<int>, ParseError>(e),
{
    let ghost whole = scan_ranks(v@.subrange(lo as int, hi as int), base as int, acc@, strict);
    let mut h = acc;
    let mut i = lo;
    while i < hi
        invariant
            lo <= i <= hi <= v.len(),
            base <= 39,
            whole == scan_ranks(v@.subrange(i as int, hi as int), base as int, h@, strict),
            whole == scan_ranks(v@.subrange(lo as int, hi as int), base as int, acc@, strict),
        decreases hi - i,
    {
        let ghost f = v@.subrange(i as int, hi as int);
        proof {
            assert(f[0] == v@[i as int]);
            if f.len() >= 2 {
                assert(f[1] == v@[i + 1]);
            }
        }
        let ten = hi - i >= 2 && v[i] == '1' && v[i + 1] == '0';
        let r: i8 = if ten {
            8
        } else {
            rank_code_of(v[i])
        };
        if r < 0 {
            proof {
                assert(!ten);
                assert(scan_ranks(f, base as int, h@, strict) == Err::<Set<int>, ParseError>(
                    ParseError::Rank(f[0]),
                ));
            }
            return Err(ParseError::Rank(v[i]));
        }
        let card = Card::from_index_unchecked(base + r as u8);
        if strict && h.contains(card) {
            proof {
                Card::lemma_at_index(base + r);
                Card::lemma_view_eq(card, Card::at_index(base + r));
            }
            return Err(ParseError::DuplicateCard(card));
        }
        h = h.with(card);
        let used: usize = if ten {
            2
        } else {
            1
        };
        proof {
            assert(f.subrange(used as int, f.len() as int) =~= v@.subrange(i + used, hi as int));
        }
        i = i + used;
    }
    proof {
        assert(v@.subrange(i as int, hi as int).len() == 0);
    }
    Ok(h)
}

/// The cards `base..base + 13` of a scan starting from `acc` stay inside `acc` or that block.
proof fn lemma_scan_block(f: Seq<char>, base: int, acc: Set<int>, strict: bool, out: Set<int>)
    requires
        scan_ranks(f, base, acc, strict) == Ok::<Set<int>, ParseError>(out),
    ensures
        forall|x: int| #[trigger] out.contains(x) ==> acc.contains(x) || (base <= x < base + 13),
    decreases f.len(),
{
    if f.len() > 0 {
        let ten = f.len() >= 2 && f[0] == '1' && f[1] == '0';
        let r = if ten {
            8
        } else {
            rank_code(f[0])
        };
        let used: int = if ten {
            2
        } else {
            1
        };
        lemma_scan_block(f.subrange(used, f.len() as int), base, acc.insert(base + r), strict, out);
    }
}

impl Holding {
    /// Reads a holding: ranks in any order (`AKQ`, `QKA`, `T10`), `-` or nothing for a void.
    pub fn parse_text(s: &str) -> (r: Result<Holding, ParseError>)
        ensures
            parse_holding_spec(s@) is Ok <==> r is Ok,
            r matches Ok(h) ==> parse_holding_spec(s@) == Ok::<Set<int>, ParseError>(h@),
            r matches Err(e) ==> parse_holding_spec(s@) == Err::<Set<int>, ParseError>(e),
    {
        let (v, lo, hi) = trimmed(s);
        let ghost t = v@.subrange(lo as int, hi as int);
        if hi - lo == 1 && v[lo] == '-' {
            let e = Holding::empty();
            proof {
                assert(t =~= seq!['-']);
                assert(e@ =~= Set::<int>::empty());
            }
            return Ok(e);
        }
        proof {
            if t == seq!['-'] {
                assert(t[0] == v@[lo as int]);
            }
        }
        let empty = Hand::empty();
        proof {
            assert(empty@ =~= Set::<int>::empty());
        }
        match scan_at(&v, lo, hi, 0, empty, false) {
            Ok(h) => {
                let g = h.holding(Suit::Clubs);
                proof {
                    assert(scan_ranks(t, 0, Set::<int>::empty(), false) == Ok::<Set<int>, ParseError>(
                        h@,
                    ));
                    lemma_scan_block(t, 0, Set::empty(), false, h@);
                    assert forall|x: int| #[trigger] g@.contains(x) == h@.contains(x) by {
                        if h@.contains(x) {
                            assert(0 <= x < 13);
                            assert(h@.contains(13 * 0 + x));
                        }
                    }
                    assert(g@ =~= h@);
                }
                Ok(g)
            },
            Err(e) => Err(e),
        }
    }
}

/// Reads one suit field `v[lo..hi]` of a hand into `acc`.
fn field_at(v: &Vec<char>, lo: usize, hi: usize, base: u8, acc: Hand) -> (r: Result<Hand, ParseError>)
    requires
        lo <= hi <= v.len(),
        base <= 39,
        base % 13 == 0,
    ensures
        field_spec(v@.subrange(lo as int, hi as int), base as int, acc@) is Ok <==> r is Ok,
        r matches Ok(h) ==> field_spec(v@.subrange(lo as int, hi as int), base as int, acc@)
            == Ok::<Set<int>, ParseError>(h@),
        r matches Err(e) ==> field_spec(v@.subrange(lo as int, hi as int), base as int, acc@)
            == Err::<Set<int>, ParseError>(e),
{
    let ghost t = v@.subrange(lo as int, hi as int);
    if hi - lo == 1 && v[lo] == '-' {
        proof {
            assert(t =~= seq!['-']);
        }
        return Ok(acc);
    }
    proof {
        if t == seq!['-'] {
            assert(t[0] == v@[lo as int]);
        }
    }
    scan_at(v, lo, hi, base, acc, true)
}

/// Reads a hand from `v[lo..hi]` (trimmed first).
fn hand_at(v: &Vec<char>, lo: usize, hi: usize) -> (r: Result<Hand, ParseError>)
    requires
        lo <= hi <= v.len(),
    ensures
        parse_hand_spec(v@.subrange(lo as int, hi as int)) is Ok <==> r is Ok,
        r matches Ok(h) ==> parse_hand_spec(v@.subrange(lo as int, hi as int)) == Ok::<
            Set<int>,
            ParseError,
        >(h@),
        r matches Err(e) ==> parse_hand_spec(v@.subrange(lo as int, hi as int)) == Err::<
            Set<int>,
            ParseError,
        >(e),
{
    let (a, b) = trim_range(v, lo, hi);
    let ghost t = v@.subrange(a as int, b as int);
    if a == b {
        return Err(ParseError::Empty);
    }
    let f = split_bounds(v, a, b, '.');
    if f.len() != 4 {
        return Err(ParseError::SuitCount(f.len()));
    }
    let (a0, b0) = f[0];
    let (a1, b1) = f[1];
    let (a2, b2) = f[2];
    let (a3, b3) = f[3];
    let empty = Hand::empty();
    proof {
        assert(empty@ =~= Set::<int>::empty());
    }
    let h = match field_at(v, a0, b0, 39, empty) {
        Ok(h) => h,
        Err(e) => return Err(e),
    };
    let h = match field_at(v, a1, b1, 26, h) {
        Ok(h) => h,
        Err(e) => return Err(e),
    };
    let h = match field_at(v, a2, b2, 13, h) {
        Ok(h) => h,
        Err(e) => return Err(e),
    };
    field_at(v, a3, b3, 0, h)
}

impl Hand {
    /// Reads a hand in PBN order, spades first: `AKQ.234.AKQ.2345`. A field may be `-` or
    /// empty for a void; partial hands are accepted; a repeated card is an error.
    pub fn parse_text(s: &str) -> (r: Result<Hand, ParseError>)
        ensures
            parse_hand_spec(s@) is Ok <==> r is Ok,
            r matches Ok(h) ==> parse_hand_spec(s@) == Ok::<Set<int>, ParseError>(h@),
            r matches Err(e) ==> parse_hand_spec(s@) == Err::<Set<int>, ParseError>(e),
    {
        let v = chars_of(s);
        proof {
            assert(v@.subrange(0, v.len() as int) =~= v@);
        }
        hand_at(&v, 0, v.len())
    }
}

/// The position of the first `:` of `t`, or its length.
pub open spec fn colon_pos(t: Seq<char>) -> int
    decreases t.len(),
{
    if t.len() == 0 {
        0
    } else if t[0] == ':' {
        0
    } else {
        1 + colon_pos(t.drop_first())
    }
}

/// How the four hands of a deal are read from `s`, indexed by seat, before they are checked
/// to form a deal: a seat, `:`, then four hands clockwise from that seat.
pub open spec fn parse_deal_hands_spec(s: Seq<char>) -> Result<Seq<Set<int>>, ParseError> {
    let t = trim(s);
    let k = colon_pos(t);
    let rest = if k < t.len() {
        t.skip(k + 1)
    } else {
        Seq::<char>::empty()
    };
    let w = crate::text::words(rest);
    if t.len() == 0 {
        Err(ParseError::Empty)
    } else {
        match parse_seat_spec(t.take(k)) {
            Err(e) => Err(e),
            Ok(seat) => if w.len() != 4 {
                Err(ParseError::HandCount(w.len() as usize))
            } else {
                match parse_hand_spec(w[0]) {
                    Err(e) => Err(e),
                    Ok(h0) => match parse_hand_spec(w[1]) {
                        Err(e) => Err(e),
                        Ok(h1) => match parse_hand_spec(w[2]) {
                            Err(e) => Err(e),
                            Ok(h2) => match parse_hand_spec(w[3]) {
                                Err(e) => Err(e),
                                Ok(h3) => Ok(
                                    Seq::new(
                                        4,
                                        |j: int|
                                            {
                                                let q = (j - seat.idx() + 4) % 4;
                                                if q == 0 {
                                                    h0
                                                } else if q == 1 {
                                                    h1
                                                } else if q == 2 {
                                                    h2
                                                } else {
                                                    h3
                                                }
                                            },
                                    ),
                                ),
                            },
                        },
                    },
                }
            },
        }
    }
}

/// The first seat index whose card set does not hold 13 cards, or 4.
pub open spec fn sets_short(hs: Seq<Set<int>>) -> int {
    if hs[0].len() != 13 {
        0
    } else if hs[1].len() != 13 {
        1
    } else if hs[2].len() != 13 {
        2
    } else if hs[3].len() != 13 {
        3
    } else {
        4
    }
}

/// The cards held in at least two of the four sets.
pub open spec fn sets_twice(hs: Seq<Set<int>>) -> Set<int> {
    Set::new(
        |c: int|
            exists|i: int, j: int|
                0 <= i < j < 4 && (#[trigger] hs[i]).contains(c) && (#[trigger] hs[j]).contains(c),
    )
}

/// Four sets of 13 cards that are disjoint and together hold the deck.
pub open spec fn sets_form_deal(hs: Seq<Set<int>>) -> bool {
    &&& forall|i: int| 0 <= i < 4 ==> (#[trigger] hs[i]).len() == 13
    &&& forall|i: int, j: int| 0 <= i < j < 4 ==> (#[trigger] hs[i]).disjoint(#[trigger] hs[j])
    &&& hs[0].union(hs[1]).union(hs[2]).union(hs[3]) == crate::hand::deck()
}

impl Deal {
    /// Reads a deal: a seat (`N`, `east`, …), `:`, then four hands clockwise from that seat.
    /// A card held twice (the lowest) is an error, and then a hand that does not hold 13 cards
    /// (North first).
    #[verifier::rlimit(50)]
    #[verifier::spinoff_prover]
    pub fn parse_text(s: &str) -> (r: Result<Deal, ParseError>)
        ensures
            parse_deal_hands_spec(s@) matches Err(e) ==> r == Err::<Deal, ParseError>(e),
            parse_deal_hands_spec(s@) matches Ok(hs) ==> {
                &&& r is Ok <==> sets_form_deal(hs)
                &&& r matches Ok(d) ==> forall|j: int| 0 <= j < 4 ==> #[trigger] d.hands_view()[j]@ == hs[j]
                &&& r matches Err(ParseError::HandSize { seat, count }) ==> sets_short(hs) < 4
                    && seat == seat_of(sets_short(hs)) && count == hs[sets_short(hs)].len()
                    && sets_twice(hs) == Set::<int>::empty()
                &&& r matches Err(ParseError::DuplicateCard(c)) ==> sets_twice(hs).contains(c@) && forall|x: int|
                    0 <= x < c@ ==> !sets_twice(hs).contains(x)
                &&& r is Err ==> (r matches Err(ParseError::HandSize { .. }) || r matches Err(
                    ParseError::DuplicateCard(_),
                ))
            },
    {
        let (v, lo, hi) = trimmed(s);
        let ghost t = v@.subrange(lo as int, hi as int);
        if lo == hi {
            return Err(ParseError::Empty);
        }
        let mut colon = lo;
        while colon < hi && v[colon] != ':'
            invariant
                lo <= colon <= hi <= v.len(),
                t == v@.subrange(lo as int, hi as int),
                colon_pos(t) == (colon - lo) + colon_pos(v@.subrange(colon as int, hi as int)),
                forall|j: int| lo <= j < colon ==> v@[j] != ':',
            decreases hi - colon,
        {
            proof {
                assert(v@.subrange(colon as int, hi as int).drop_first() =~= v@.subrange(
                    colon + 1,
                    hi as int,
                ));
            }
            colon = colon + 1;
        }
        proof {
            if colon < hi {
                assert(v@.subrange(colon as int, hi as int)[0] == v@[colon as int]);
            }
            assert(t.take(colon - lo) =~= v@.subrange(lo as int, colon as int));
        }
        let seat = match seat_at(&v, lo, colon) {
            Ok(seat) => seat,
            Err(e) => return Err(e),
        };
        let rest_lo = if colon < hi {
            colon + 1
        } else {
            hi
        };
        proof {
            if colon < hi {
                assert(t.skip(colon - lo + 1) =~= v@.subrange(rest_lo as int, hi as int));
            } else {
                assert(v@.subrange(rest_lo as int, hi as int) =~= Seq::<char>::empty());
            }
        }
        let w = crate::text::word_bounds(&v, rest_lo, hi);
        if w.len() != 4 {
            return Err(ParseError::HandCount(w.len()));
        }
        let (a0, b0) = w[0];
        let (a1, b1) = w[1];
        let (a2, b2) = w[2];
        let (a3, b3) = w[3];
        let h0 = match hand_at(&v, a0, b0) {
            Ok(h) => h,
            Err(e) => return Err(e),
        };
        let h1 = match hand_at(&v, a1, b1) {
            Ok(h) => h,
            Err(e) => return Err(e),
        };
        let h2 = match hand_at(&v, a2, b2) {
            Ok(h) => h,
            Err(e) => return Err(e),
        };
        let h3 = match hand_at(&v, a3, b3) {
            Ok(h) => h,
            Err(e) => return Err(e),
        };
        let si = seat.index() as usize;
        let mut arr = [h0; 4];
        arr.set((si + 1) % 4, h1);
        arr.set((si + 2) % 4, h2);
        arr.set((si + 3) % 4, h3);
        let ghost hs = match parse_deal_hands_spec(s@) {
            Ok(x) => x,
            Err(_) => Seq::empty(),
        };
        proof {
            assert(parse_deal_hands_spec(s@) is Ok);
            assert forall|j: int| 0 <= j < 4 implies #[trigger] arr[j]@ == hs[j] by {
                let q = (j - si + 4) % 4;
                if q == 0 {
                    assert(j == si);
                } else if q == 1 {
                    assert(j == (si + 1) % 4);
                } else if q == 2 {
                    assert(j == (si + 2) % 4);
                } else {
                    assert(j == (si + 3) % 4);
                }
            }
            assert(crate::deal::first_short(arr) == sets_short(hs));
            assert(crate::deal::held_twice(arr) =~= sets_twice(hs)) by {
                assert forall|c: int| #[trigger] crate::deal::held_twice(arr).contains(c)
                    == sets_twice(hs).contains(c) by {
                    if sets_twice(hs).contains(c) {
                        let (i, j) = choose|i: int, j: int|
                            0 <= i < j < 4 && (#[trigger] hs[i]).contains(c) && (#[trigger] hs[j]).contains(c);
                        assert(arr[i]@.contains(c) && arr[j]@.contains(c));
                    }
                    if crate::deal::held_twice(arr).contains(c) {
                        let (i, j) = choose|i: int, j: int|
                            0 <= i < j < 4 && (#[trigger] arr[i]@).contains(c) && (#[trigger] arr[j]@).contains(c);
                        assert(hs[i].contains(c) && hs[j].contains(c));
                    }
                }
            }
            assert(crate::deal::deal_valid(arr) == sets_form_deal(hs)) by {
                assert(crate::deal::union4(arr) == hs[0].union(hs[1]).union(hs[2]).union(hs[3]));
                if sets_form_deal(hs) {
                    assert forall|i: int, j: int| 0 <= i < j < 4 implies (#[trigger] arr[i]@).disjoint(
                        #[trigger] arr[j]@,
                    ) by {
                        assert(hs[i].disjoint(hs[j]));
                    }
                }
                if crate::deal::deal_valid(arr) {
                    assert forall|i: int, j: int| 0 <= i < j < 4 implies (#[trigger] hs[i]).disjoint(
                        #[trigger] hs[j],
                    ) by {
                        assert(arr[i]@.disjoint(arr[j]@));
                    }
                }
            }
        }
        deal_of_hands(arr)
    }
}

/// Builds the deal of four parsed hands: a card held twice (the lowest) is reported first,
/// then a hand that does not hold 13 cards (North first).
fn deal_of_hands(arr: [Hand; 4]) -> (r: Result<Deal, ParseError>)
    ensures
        r is Ok <==> crate::deal::deal_valid(arr),
        r matches Ok(d) ==> d.hands_view() == arr,
        r matches Err(ParseError::HandSize { seat, count }) ==> crate::deal::first_short(arr) < 4
            && seat == seat_of(crate::deal::first_short(arr)) && count == arr[crate::deal::first_short(arr)]@.len()
            && crate::deal::held_twice(arr) == Set::<int>::empty(),
        r matches Err(ParseError::DuplicateCard(c)) ==> crate::deal::held_twice(arr).contains(c@) && forall|x: int|
            0 <= x < c@ ==> !crate::deal::held_twice(arr).contains(x),
        r is Err ==> (r matches Err(ParseError::HandSize { .. }) || r matches Err(ParseError::DuplicateCard(_))),
{
    let dup = arr[0].intersect(arr[1]).union(arr[0].intersect(arr[2])).union(
        arr[0].intersect(arr[3]),
    ).union(arr[1].intersect(arr[2])).union(arr[1].intersect(arr[3])).union(
        arr[2].intersect(arr[3]),
    );
    proof {
        assert forall|c: int| #[trigger] dup@.contains(c) == crate::deal::held_twice(arr).contains(c) by {
            if dup@.contains(c) {
                if arr[0]@.contains(c) && arr[1]@.contains(c) {
                    assert(crate::deal::held_twice(arr).contains(c));
                } else if arr[0]@.contains(c) && arr[2]@.contains(c) {
                    assert(crate::deal::held_twice(arr).contains(c));
                } else if arr[0]@.contains(c) && arr[3]@.contains(c) {
                    assert(crate::deal::held_twice(arr).contains(c));
                } else if arr[1]@.contains(c) && arr[2]@.contains(c) {
                    assert(crate::deal::held_twice(arr).contains(c));
                } else if arr[1]@.contains(c) && arr[3]@.contains(c) {
                    assert(crate::deal::held_twice(arr).contains(c));
                } else {
                    assert(crate::deal::held_twice(arr).contains(c));
                }
            }
            if crate::deal::held_twice(arr).contains(c) {
                let (i, j) = choose|i: int, j: int|
                    0 <= i < j < 4 && (#[trigger] arr[i]@).contains(c) && (#[trigger] arr[j]@).contains(c);
                assert(dup@.contains(c));
            }
        }
    }
    let mut cursor = crate::hand::HandCards::new(dup);
    if let Some(c) = cursor.next() {
        proof {
            assert forall|x: int| 0 <= x < c@ implies !crate::deal::held_twice(arr).contains(x) by {
                if crate::deal::held_twice(arr).contains(x) {
                    assert(dup@.contains(x));
                }
            }
        }
        return Err(ParseError::DuplicateCard(c));
    }
    proof {
        assert(crate::deal::held_twice(arr) =~= Set::<int>::empty());
    }
    match Deal::new(arr) {
        Ok(d) => Ok(d),
        Err(crate::deal::DealError::HandSize { seat, count }) => Err(
            ParseError::HandSize { seat, count },
        ),
        Err(crate::deal::DealError::Duplicate(c)) => Err(ParseError::DuplicateCard(c)),
    }
}

impl FromStr for Suit {
    type Err = ParseError;

    fn from_str(s: &str) -> (r: Result<Suit, ParseError>)
        ensures
            r == parse_suit_spec(s@),
    {
        Suit::parse_text(s)
    }
}

impl FromStr for Rank {
    type Err = ParseError;

    fn from_str(s: &str) -> (r: Result<Rank, ParseError>)
        ensures
            r == rank_text_spec(trim(s@)),
    {
        Rank::parse_text(s)
    }
}

impl FromStr for Card {
    type Err = ParseError;

    fn from_str(s: &str) -> (r: Result<Card, ParseError>)
        ensures
            r == parse_card_spec(s@),
    {
        Card::parse_text(s)
    }
}

impl FromStr for Holding {
    type Err = ParseError;

    fn from_str(s: &str) -> (r: Result<Holding, ParseError>)
        ensures
            parse_holding_spec(s@) is Ok <==> r is Ok,
            r matches Ok(h) ==> parse_holding_spec(s@) == Ok::<Set<int>, ParseError>(h@),
            r matches Err(e) ==> parse_holding_spec(s@) == Err::<Set<int>, ParseError>(e),
    {
        Holding::parse_text(s)
    }
}

impl FromStr for Hand {
    type Err = ParseError;

    fn from_str(s: &str) -> (r: Result<Hand, ParseError>)
        ensures
            parse_hand_spec(s@) is Ok <==> r is Ok,
            r matches Ok(h) ==> parse_hand_spec(s@) == Ok::<Set<int>, ParseError>(h@),
            r matches Err(e) ==> parse_hand_spec(s@) == Err::<Set<int>, ParseError>(e),
    {
        Hand::parse_text(s)
    }
}

impl FromStr for Deal {
    type Err = ParseError;

    fn from_str(s: &str) -> (r: Result<Deal, ParseError>)
        ensures
            parse_deal_hands_spec(s@) matches Err(e) ==> r == Err::<Deal, ParseError>(e),
            parse_deal_hands_spec(s@) matches Ok(hs) ==> {
                &&& r is Ok <==> sets_form_deal(hs)
                &&& r matches Ok(d) ==> forall|j: int| 0 <= j < 4 ==> #[trigger] d.hands_view()[j]@ == hs[j]
                &&& r matches Err(ParseError::HandSize { seat, count }) ==> sets_short(hs) < 4
                    && seat == seat_of(sets_short(hs)) && count == hs[sets_short(hs)].len()
                    && sets_twice(hs) == Set::<int>::empty()
                &&& r matches Err(ParseError::DuplicateCard(c)) ==> sets_twice(hs).contains(c@) && forall|x: int|
                    0 <= x < c@ ==> !sets_twice(hs).contains(x)
                &&& r is Err ==> (r matches Err(ParseError::HandSize { .. }) || r matches Err(
                    ParseError::DuplicateCard(_),
                ))
            },
    {
        Deal::parse_text(s)
    }
}

impl FromStr for Shape {
    type Err = ParseError;

    fn from_str(s: &str) -> (r: Result<Shape, ParseError>)
        ensures
            trim(s@).len() == 0 ==> r == Err::<Shape, ParseError>(ParseError::Empty),
            trim(s@).len() > 0 ==> (r is Ok <==> four_lens(trim(s@), '=')),
            r matches Ok(x) ==> x@ == (
                len_field(trim(s@), '=', 3),
                len_field(trim(s@), '=', 2),
                len_field(trim(s@), '=', 1),
                len_field(trim(s@), '=', 0),
            ),
            r matches Err(e) ==> e is Empty || (e matches ParseError::Shape(m) && m@ == trim(s@)),
    {
        Shape::parse_text(s)
    }
}

impl FromStr for ShapeClass {
    type Err = ParseError;

    fn from_str(s: &str) -> (r: Result<ShapeClass, ParseError>)
        ensures
            trim(s@).len() == 0 ==> r == Err::<ShapeClass, ParseError>(ParseError::Empty),
            trim(s@).len() > 0 ==> (r is Ok <==> four_lens(trim(s@), '-')),
            r matches Ok(x) ==> x@ == sort_desc(
                (
                    len_field(trim(s@), '-', 0),
                    len_field(trim(s@), '-', 1),
                    len_field(trim(s@), '-', 2),
                    len_field(trim(s@), '-', 3),
                ),
            ),
            r matches Err(e) ==> e is Empty || (e matches ParseError::Shape(m) && m@ == trim(s@)),
    {
        ShapeClass::parse_text(s)
    }
}

impl FromStr for Seat {
    type Err = ParseError;

    fn from_str(s: &str) -> (r: Result<Seat, ParseError>)
        ensures
            r == parse_seat_spec(s@),
    {
        Seat::parse_text(s)
    }
}

impl FromStr for Strain {
    type Err = ParseError;

    fn from_str(s: &str) -> (r: Result<Strain, ParseError>)
        ensures
            trim(s@).len() == 0 ==> r == Err::<Strain, ParseError>(ParseError::Empty),
            trim(s@).len() > 0 ==> (r is Ok <==> strain_code(trim(s@)) >= 0),
            r matches Ok(x) ==> x == strain_of(strain_code(trim(s@))),
            r matches Err(e) ==> e is Empty || (e matches ParseError::Bid(m) && m@ == trim(s@)),
    {
        Strain::parse_text(s)
    }
}

impl FromStr for Bid {
    type Err = ParseError;

    fn from_str(s: &str) -> (r: Result<Bid, ParseError>)
        ensures
            trim(s@).len() == 0 ==> r == Err::<Bid, ParseError>(ParseError::Empty),
            trim(s@).len() > 0 ==> (r is Ok <==> bid_code(trim(s@)) >= 0),
            r matches Ok(b) ==> b@ == bid_code(trim(s@)),
            r matches Err(e) ==> e is Empty || (e matches ParseError::Bid(m) && m@ == trim(s@)),
    {
        Bid::parse_text(s)
    }
}

impl FromStr for Call {
    type Err = ParseError;

    fn from_str(s: &str) -> (r: Result<Call, ParseError>)
        ensures
            trim(s@).len() == 0 ==> r == Err::<Call, ParseError>(ParseError::Empty),
            trim(s@).len() > 0 ==> (r is Ok <==> call_code(trim(s@)) >= 0),
            r matches Ok(c) ==> c.idx() == call_code(trim(s@)),
            r matches Err(e) ==> e is Empty || (e matches ParseError::Call(m) && m@ == trim(s@)),
    {
        Call::parse_text(s)
    }
}

impl FromStr for Contract {
    type Err = ParseError;

    fn from_str(s: &str) -> (r: Result<Contract, ParseError>)
        ensures
            ({
                let t = trim(s@);
                let k = trailing_xs(t);
                let body = t.take(t.len() - k);
                &&& t.len() == 0 ==> r == Err::<Contract, ParseError>(ParseError::Empty)
                &&& t.len() > 0 ==> (r is Ok <==> bid_code(body) >= 0 && k < 3)
                &&& r matches Ok(c) ==> c.bid@ == bid_code(body) && c.declarer == Seat::North
                    && c.doubling == (if k == 0 {
                    Doubling::Undoubled
                } else if k == 1 {
                    Doubling::Doubled
                } else {
                    Doubling::Redoubled
                })
                &&& r matches Err(e) ==> e is Empty || (bid_code(body) < 0 && (e matches ParseError::Bid(
                    m,
                ) && m@ == body)) || (bid_code(body) >= 0 && k >= 3 && (e matches ParseError::Call(m)
                    && m@ == t.skip(t.len() - k)))
            }),
    {
        Contract::parse_text(s)
    }
}

impl FromStr for Vulnerability {
    type Err = ParseError;

    fn from_str(s: &str) -> (r: Result<Vulnerability, ParseError>)
        ensures
            trim(s@).len() == 0 ==> r == Err::<Vulnerability, ParseError>(ParseError::Empty),
            trim(s@).len() > 0 ==> (r is Ok <==> vul_code(trim(s@)) >= 0),
            r matches Ok(x) ==> x.idx() == vul_code(trim(s@)),
            r matches Err(e) ==> e is Empty || (e matches ParseError::Vulnerability(m) && m@ == trim(
                s@,
            )),
    {
        Vulnerability::parse_text(s)
    }
}

} // verus!
