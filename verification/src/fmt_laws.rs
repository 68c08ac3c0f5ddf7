//! What is written can be read back: every text format round-trips.

use vstd::prelude::*;
use crate::call::{strain_of, Bid, Call, Contract, Doubling, Strain};
use crate::card::{rank_char, rank_of, suit_letter, suit_of, Card, Rank, Suit};
use crate::error::ParseError;
use crate::fmt::{
    bid_text, call_text, card_text, class_text, contract_text, doubling_text, shape_text,
    strain_text, vul_text,
};
use crate::parse::{
    bid_code, call_code, four_lens, len_field, parse_card_spec, parse_seat_spec, parse_suit_spec,
    rank_code, rank_text_spec, strain_code, suit_code, trailing_xs, vul_code,
};
use crate::seat::{seat_letter, Seat, Vulnerability};
use crate::shape::Lens;
use crate::text::{
    dec_text, digit_char, digit_of, is_ws, lower_of, lower_seq, num_of, split_on, trim, trim_end,
    trim_start,
};

verus! {

/// Text with no white space at either end is its own trim.
pub proof fn lemma_trim_id(s: Seq<char>)
    requires
        s.len() > 0 ==> !is_ws(s[0]) && !is_ws(s.last()),
    ensures
        trim(s) == s,
{
    assert(trim_start(s) == s);
    assert(trim_end(s) == s);
}

/// Sequences that differ in length or in their first element differ.
proof fn lemma_ne(l: Seq<char>, q: Seq<char>)
    requires
        l.len() != q.len() || (l.len() > 0 && q.len() > 0 && l[0] != q[0]),
    ensures
        l != q,
{
}

/// Digits read back as their values.
pub proof fn lemma_digit(d: int)
    requires
        0 <= d < 10,
    ensures
        digit_of(digit_char(d)) == d,
        '0' <= digit_char(d) <= '9',
        !is_ws(digit_char(d)),
{
}

/// Lengths up to 13 read back from their decimal text.
pub proof fn lemma_num(n: int)
    requires
        0 <= n <= 13,
    ensures
        num_of(dec_text(n as nat)) == n,
        dec_text(n as nat).len() > 0,
        forall|i: int| 0 <= i < dec_text(n as nat).len() ==> '0' <= #[trigger] dec_text(n as nat)[i] <= '9',
{
    if n < 10 {
        lemma_digit(n);
    } else {
        lemma_digit(1);
        lemma_digit(n - 10);
        assert(dec_text((n / 10) as nat) == seq![digit_char(1)]);
    }
}

/// A suit's letter reads back as the suit.
pub proof fn lemma_suit_round_trip(s: Suit)
    ensures
        parse_suit_spec(seq![suit_letter(s)]) == Ok::<Suit, ParseError>(s),
{
    lemma_trim_id(seq![suit_letter(s)]);
}

/// The rank of index `r` and its character.
proof fn lemma_rank_char(r: int)
    requires
        0 <= r < 13,
    ensures
        rank_code(rank_char(r)) == r,
        rank_char(r) != '1',
        rank_char(r) != '-',
        rank_char(r) != '.',
        !is_ws(rank_char(r)),
        lower_of(rank_char(r)) != 'x',
        suit_code(rank_char(r)) < 0,
        rank_of(r).idx() == r,
{
}

/// A rank's character reads back as the rank.
pub proof fn lemma_rank_round_trip(r: Rank)
    ensures
        rank_text_spec(trim(seq![rank_char(r.idx())])) == Ok::<Rank, ParseError>(r),
{
    lemma_rank_char(r.idx());
    lemma_trim_id(seq![rank_char(r.idx())]);
}

/// A card's text reads back as the card.
pub proof fn lemma_card_round_trip(c: Card)
    requires
        c@ < 52,
    ensures
        parse_card_spec(card_text(c@)) == Ok::<Card, ParseError>(c),
{
    c.lemma_view_nonneg();
    let t = card_text(c@);
    lemma_rank_char(c@ % 13);
    lemma_trim_id(t);
    assert(t.drop_first() =~= seq![rank_char(c@ % 13)]);
    lemma_trim_id(t.drop_first());
    Card::lemma_at_index(c@);
    Card::lemma_view_eq(c, Card::at_index(13 * (c@ / 13) + c@ % 13));
}

/// A seat's letter reads back as the seat.
pub proof fn lemma_seat_round_trip(s: Seat)
    ensures
        parse_seat_spec(seq![seat_letter(s)]) == Ok::<Seat, ParseError>(s),
{
    let t = seq![seat_letter(s)];
    lemma_trim_id(t);
    let l = lower_seq(t);
    assert(l.len() == 1 && l[0] == lower_of(seat_letter(s)));
    assert(l =~= seq![lower_of(seat_letter(s))]);
    assert(l != seq!['n', 'o', 'r', 't', 'h'] && l != seq!['e', 'a', 's', 't'] && l != seq![
        's',
        'o',
        'u',
        't',
        'h',
    ] && l != seq!['w', 'e', 's', 't']);
    if s == Seat::North {
        assert(l =~= seq!['n']);
    } else if s == Seat::East {
        assert(l =~= seq!['e']);
        assert(l != seq!['n']);
    } else if s == Seat::South {
        assert(l =~= seq!['s']);
        assert(l != seq!['n'] && l != seq!['e']);
    } else {
        assert(l =~= seq!['w']);
        assert(l != seq!['n'] && l != seq!['e'] && l != seq!['s']);
    }
}

/// A strain's text reads back as the strain.
pub proof fn lemma_strain_round_trip(s: Strain)
    ensures
        strain_code(strain_text(s)) == s.idx(),
        trim(strain_text(s)) == strain_text(s),
{
    let t = strain_text(s);
    lemma_trim_id(t);
    let l = lower_seq(t);
    if s == Strain::NoTrump {
        assert(l =~= seq!['n', 't']);
        assert(l != seq!['c'] && l != seq!['d'] && l != seq!['h'] && l != seq!['s'] && l != seq![
            'n',
        ]);
    } else {
        assert(l =~= seq![lower_of(t[0])]);
        if s == Strain::Clubs {
            assert(l =~= seq!['c']);
        } else if s == Strain::Diamonds {
            assert(l =~= seq!['d']);
            lemma_ne(l, seq!['c']);
        } else if s == Strain::Hearts {
            assert(l =~= seq!['h']);
            lemma_ne(l, seq!['c']);
            lemma_ne(l, seq!['d']);
        } else {
            assert(l =~= seq!['s']);
            lemma_ne(l, seq!['c']);
            lemma_ne(l, seq!['d']);
            lemma_ne(l, seq!['h']);
        }
    }
}

/// A bid's text reads back as the bid.
pub proof fn lemma_bid_round_trip(b: int)
    requires
        0 <= b < 35,
    ensures
        bid_code(bid_text(b)) == b,
        trim(bid_text(b)) == bid_text(b),
        lower_of(bid_text(b).last()) != 'x',
{
    let t = bid_text(b);
    lemma_digit(b / 5 + 1);
    lemma_strain_round_trip(strain_of(b % 5));
    assert(t.drop_first() =~= strain_text(strain_of(b % 5)));
    lemma_trim_id(t);
}

/// A call's text reads back as the call.
pub proof fn lemma_call_round_trip(c: Call)
    requires
        c.idx() < 38,
    ensures
        call_code(call_text(c)) == c.idx(),
        trim(call_text(c)) == call_text(c),
{
    let t = call_text(c);
    let l = lower_seq(t);
    match c {
        Call::Pass => {
            assert(l =~= seq!['p', 'a', 's', 's']);
            assert(l != seq!['p']);
            lemma_trim_id(t);
        },
        Call::Double => {
            assert(l =~= seq!['x']);
            lemma_ne(l, seq!['p']);
            lemma_ne(l, seq!['p', 'a', 's', 's']);
            lemma_trim_id(t);
        },
        Call::Redouble => {
            assert(l =~= seq!['x', 'x']);
            assert(l != seq!['p'] && l != seq!['p', 'a', 's', 's'] && l != seq!['x'] && l != seq![
                'd',
            ] && l != seq!['d', 'b', 'l'] && l != seq!['d', 'o', 'u', 'b', 'l', 'e']);
            lemma_trim_id(t);
        },
        Call::Bid(b) => {
            b.lemma_view_nonneg();
            lemma_bid_round_trip(b@);
            assert(l.len() == t.len());
            assert(l[0] == lower_of(t[0]));
            assert('1' <= t[0] <= '7');
            assert(l[0] != 'p' && l[0] != 'x' && l[0] != 'd' && l[0] != 'r');
            assert(l != seq!['p'] && l != seq!['p', 'a', 's', 's'] && l != seq!['x'] && l != seq![
                'd',
            ] && l != seq!['d', 'b', 'l'] && l != seq!['d', 'o', 'u', 'b', 'l', 'e'] && l != seq![
                'x',
                'x',
            ] && l != seq!['r'] && l != seq!['r', 'd', 'b', 'l'] && l != seq![
                'r',
                'e',
                'd',
                'o',
                'u',
                'b',
                'l',
                'e',
            ]) by {
                if l.len() > 0 {
                    assert(seq!['p'][0] == 'p');
                }
            }
        },
    }
}

/// The trailing `x`s of a bid followed by a doubling suffix are the suffix.
proof fn lemma_trailing_xs(b: Seq<char>, k: int)
    requires
        b.len() > 0,
        lower_of(b.last()) != 'x',
        0 <= k <= 2,
    ensures
        trailing_xs(b + Seq::new(k as nat, |i: int| 'X')) == k,
        (b + Seq::new(k as nat, |i: int| 'X')).take(b.len() as int) == b,
    decreases k,
{
    let s = b + Seq::new(k as nat, |i: int| 'X');
    assert(s.take(b.len() as int) =~= b);
    if k > 0 {
        lemma_trailing_xs(b, k - 1);
        assert(s.drop_last() =~= b + Seq::new((k - 1) as nat, |i: int| 'X'));
    } else {
        assert(s =~= b);
    }
}

/// A contract's text reads back as its bid and doubling state.
pub proof fn lemma_contract_round_trip(c: Contract)
    requires
        c.bid@ < 35,
    ensures
        ({
            let t = contract_text(c);
            let k = trailing_xs(t);
            &&& trim(t) == t
            &&& bid_code(t.take(t.len() - k)) == c.bid@
            &&& k < 3
            &&& c.doubling == if k == 0 {
                Doubling::Undoubled
            } else if k == 1 {
                Doubling::Doubled
            } else {
                Doubling::Redoubled
            }
        }),
{
    c.bid.lemma_view_nonneg();
    let b = bid_text(c.bid@);
    let k: int = match c.doubling {
        Doubling::Undoubled => 0,
        Doubling::Doubled => 1,
        Doubling::Redoubled => 2,
    };
    lemma_bid_round_trip(c.bid@);
    assert(doubling_text(c.doubling) =~= Seq::new(k as nat, |i: int| 'X'));
    lemma_trailing_xs(b, k);
    let t = contract_text(c);
    lemma_trim_id(t);
}

/// A vulnerability's text reads back as the vulnerability.
pub proof fn lemma_vul_round_trip(v: Vulnerability)
    ensures
        vul_code(vul_text(v)) == v.idx(),
        trim(vul_text(v)) == vul_text(v),
{
    let t = vul_text(v);
    let l = lower_seq(t);
    lemma_trim_id(t);
    match v {
        Vulnerability::Love => {
            assert(l =~= seq!['n', 'o', 'n', 'e']);
        },
        Vulnerability::NS => {
            assert(l =~= seq!['n', 's']);
            lemma_ne(l, seq!['n', 'o', 'n', 'e']);
            lemma_ne(l, seq!['l', 'o', 'v', 'e']);
            lemma_ne(l, seq!['-']);
        },
        Vulnerability::EW => {
            assert(l =~= seq!['e', 'w']);
            lemma_ne(l, seq!['n', 'o', 'n', 'e']);
            lemma_ne(l, seq!['l', 'o', 'v', 'e']);
            lemma_ne(l, seq!['-']);
            lemma_ne(l, seq!['n', 's']);
        },
        Vulnerability::Both => {
            assert(l =~= seq!['a', 'l', 'l']);
            lemma_ne(l, seq!['n', 'o', 'n', 'e']);
            lemma_ne(l, seq!['l', 'o', 'v', 'e']);
            lemma_ne(l, seq!['-']);
            lemma_ne(l, seq!['n', 's']);
            lemma_ne(l, seq!['e', 'w']);
        },
    }
}

/// Text without the separator is a single field.
pub proof fn lemma_split_single(a: Seq<char>, sep: char)
    requires
        forall|i: int| 0 <= i < a.len() ==> a[i] != sep,
    ensures
        split_on(a, sep) == seq![a],
    decreases a.len(),
{
    if a.len() > 0 {
        lemma_split_single(a.drop_last(), sep);
        assert(a.drop_last().push(a.last()) =~= a);
    } else {
        assert(a =~= Seq::<char>::empty());
    }
}

/// Splitting always gives at least one field.
proof fn lemma_split_nonempty(a: Seq<char>, sep: char)
    ensures
        split_on(a, sep).len() >= 1,
    decreases a.len(),
{
    if a.len() > 0 {
        lemma_split_nonempty(a.drop_last(), sep);
    }
}

/// Joining with a separator concatenates the fields.
pub proof fn lemma_split_join(a: Seq<char>, b: Seq<char>, sep: char)
    ensures
        split_on(a + seq![sep] + b, sep) == split_on(a, sep) + split_on(b, sep),
    decreases b.len(),
{
    let x = a + seq![sep];
    if b.len() == 0 {
        assert(x + b =~= x);
        assert(x.drop_last() =~= a);
    } else {
        lemma_split_join(a, b.drop_last(), sep);
        lemma_split_nonempty(b.drop_last(), sep);
        assert((x + b).drop_last() =~= x + b.drop_last());
        let p = split_on(a, sep);
        let q = split_on(b.drop_last(), sep);
        if b.last() == sep {
            assert((p + q).push(Seq::<char>::empty()) =~= p + q.push(Seq::<char>::empty()));
        } else {
            let pq = p + q;
            assert(pq.update(pq.len() - 1, pq.last().push(b.last())) =~= p + q.update(
                q.len() - 1,
                q.last().push(b.last()),
            ));
        }
    }
}

/// Lengths written as decimals contain no separator.
proof fn lemma_num_no_sep(n: int, sep: char)
    requires
        0 <= n <= 13,
        !('0' <= sep <= '9'),
    ensures
        forall|i: int| 0 <= i < dec_text(n as nat).len() ==> #[trigger] dec_text(n as nat)[i] != sep,
{
    lemma_num(n);
}

/// Four lengths separated by `sep` split back into the lengths.
proof fn lemma_four_lens(a: int, b: int, c: int, d: int, sep: char)
    requires
        0 <= a <= 13,
        0 <= b <= 13,
        0 <= c <= 13,
        0 <= d <= 13,
        !('0' <= sep <= '9'),
    ensures
        ({
            let t = dec_text(a as nat) + seq![sep] + dec_text(b as nat) + seq![sep] + dec_text(
                c as nat,
            ) + seq![sep] + dec_text(d as nat);
            &&& split_on(t, sep) == seq![
                dec_text(a as nat),
                dec_text(b as nat),
                dec_text(c as nat),
                dec_text(d as nat),
            ]
            &&& trim(t) == t
        }),
{
    let da = dec_text(a as nat);
    let db = dec_text(b as nat);
    let dc = dec_text(c as nat);
    let dd = dec_text(d as nat);
    lemma_num_no_sep(a, sep);
    lemma_num_no_sep(b, sep);
    lemma_num_no_sep(c, sep);
    lemma_num_no_sep(d, sep);
    lemma_split_single(da, sep);
    lemma_split_single(db, sep);
    lemma_split_single(dc, sep);
    lemma_split_single(dd, sep);
    lemma_split_join(da, db, sep);
    lemma_split_join(da + seq![sep] + db, dc, sep);
    lemma_split_join(da + seq![sep] + db + seq![sep] + dc, dd, sep);
    let t = da + seq![sep] + db + seq![sep] + dc + seq![sep] + dd;
    assert(split_on(t, sep) =~= seq![da, db, dc, dd]);
    lemma_num(a);
    lemma_num(d);
    assert(t[0] == da[0]);
    assert(t.last() == dd.last());
    assert('0' <= dd.last() <= '9');
    lemma_trim_id(t);
}

/// A shape's text reads back as the shape.
pub proof fn lemma_shape_round_trip(t: Lens)
    requires
        crate::shape::lens_ok(t),
    ensures
        trim(shape_text(t)) == shape_text(t),
        four_lens(shape_text(t), '='),
        len_field(shape_text(t), '=', 3) == t.0,
        len_field(shape_text(t), '=', 2) == t.1,
        len_field(shape_text(t), '=', 1) == t.2,
        len_field(shape_text(t), '=', 0) == t.3,
{
    lemma_four_lens(t.3, t.2, t.1, t.0, '=');
    lemma_num(t.0);
    lemma_num(t.1);
    lemma_num(t.2);
    lemma_num(t.3);
}

/// A shape class's text reads back as the class.
pub proof fn lemma_class_round_trip(t: Lens)
    requires
        crate::shape::lens_ok(t),
    ensures
        trim(class_text(t)) == class_text(t),
        four_lens(class_text(t), '-'),
        len_field(class_text(t), '-', 0) == t.0,
        len_field(class_text(t), '-', 1) == t.1,
        len_field(class_text(t), '-', 2) == t.2,
        len_field(class_text(t), '-', 3) == t.3,
{
    lemma_four_lens(t.0, t.1, t.2, t.3, '-');
    lemma_num(t.0);
    lemma_num(t.1);
    lemma_num(t.2);
    lemma_num(t.3);
}

/// The cards `base + r` for the ranks `r < n` of `h`.
pub open spec fn block(h: Set<int>, n: int, base: int) -> Set<int> {
    Set::new(|x: int| base <= x < base + n && h.contains(x - base))
}

/// Reading the ranks of `h` below `n`, highest first, adds their block to `acc`.
proof fn lemma_scan_desc(h: Set<int>, n: int, base: int, acc: Set<int>, strict: bool)
    requires
        0 <= n <= 13,
        strict ==> forall|r: int| 0 <= r < n && h.contains(r) ==> !acc.contains(base + r),
    ensures
        crate::parse::scan_ranks(
            crate::holding::desc_below(h, n).map_values(|r: int| rank_char(r)),
            base,
            acc,
            strict,
        ) == Ok::<Set<int>, ParseError>(acc.union(block(h, n, base))),
    decreases n,
{
    let text = crate::holding::desc_below(h, n).map_values(|r: int| rank_char(r));
    if n == 0 {
        assert(acc.union(block(h, n, base)) =~= acc);
    } else {
        let rest = crate::holding::desc_below(h, n - 1).map_values(|r: int| rank_char(r));
        if h.contains(n - 1) {
            let acc2 = acc.insert(base + n - 1);
            lemma_scan_desc(h, n - 1, base, acc2, strict);
            lemma_rank_char(n - 1);
            assert(text =~= seq![rank_char(n - 1)] + rest);
            assert(text.subrange(1, text.len() as int) =~= rest);
            assert(acc2.union(block(h, n - 1, base)) =~= acc.union(block(h, n, base)));
        } else {
            lemma_scan_desc(h, n - 1, base, acc, strict);
            assert(text =~= rest);
            assert(block(h, n - 1, base) =~= block(h, n, base));
        }
    }
}

/// The text of the ranks of `h` is rank characters only.
proof fn lemma_ranks_text_chars(h: Set<int>)
    ensures
        forall|i: int|
            0 <= i < crate::fmt::ranks_text(h).len() ==> {
                let c = #[trigger] crate::fmt::ranks_text(h)[i];
                &&& c != '.' && c != '-' && c != '1' && !is_ws(c)
            },
{
    assert forall|i: int| 0 <= i < crate::fmt::ranks_text(h).len() implies {
        let c = #[trigger] crate::fmt::ranks_text(h)[i];
        &&& c != '.' && c != '-' && c != '1' && !is_ws(c)
    } by {
        lemma_desc_range(h, 13, i);
        lemma_rank_char(crate::holding::desc_below(h, 13)[i]);
    }
}

/// The members listed by `desc_below(h, n)` are below `n`.
proof fn lemma_desc_range(h: Set<int>, n: int, i: int)
    requires
        0 <= i < crate::holding::desc_below(h, n).len(),
    ensures
        0 <= crate::holding::desc_below(h, n)[i] < n,
    decreases n,
{
    if n > 0 {
        let pre: Seq<int> = if h.contains(n - 1) {
            seq![n - 1]
        } else {
            Seq::empty()
        };
        if i >= pre.len() {
            lemma_desc_range(h, n - 1, i - pre.len());
        }
    }
}

/// A holding's text reads back as the holding.
pub proof fn lemma_holding_round_trip(h: Set<int>)
    requires
        h.subset_of(crate::holding::int_range(0, 13)),
    ensures
        crate::parse::parse_holding_spec(crate::fmt::ranks_text(h)) == Ok::<Set<int>, ParseError>(h),
{
    let t = crate::fmt::ranks_text(h);
    lemma_ranks_text_chars(h);
    if t.len() > 0 {
        assert(!is_ws(t[0]) && !is_ws(t.last()));
    }
    lemma_trim_id(t);
    if t == seq!['-'] {
        assert(t[0] != '-');
    }
    lemma_scan_desc(h, 13, 0, Set::empty(), false);
    assert(Set::<int>::empty().union(block(h, 13, 0)) =~= h);
}

/// A hand's text reads back as the hand.
pub proof fn lemma_hand_round_trip(h: Set<int>)
    requires
        h.subset_of(crate::hand::deck()),
    ensures
        crate::parse::parse_hand_spec(crate::fmt::hand_text(h)) == Ok::<Set<int>, ParseError>(h),
{
    let s3 = crate::hand::suit_ranks(h, 3);
    let s2 = crate::hand::suit_ranks(h, 2);
    let s1 = crate::hand::suit_ranks(h, 1);
    let s0 = crate::hand::suit_ranks(h, 0);
    let t3 = crate::fmt::ranks_text(s3);
    let t2 = crate::fmt::ranks_text(s2);
    let t1 = crate::fmt::ranks_text(s1);
    let t0 = crate::fmt::ranks_text(s0);
    let t = crate::fmt::hand_text(h);
    lemma_ranks_text_chars(s3);
    lemma_ranks_text_chars(s2);
    lemma_ranks_text_chars(s1);
    lemma_ranks_text_chars(s0);
    lemma_split_single(t3, '.');
    lemma_split_single(t2, '.');
    lemma_split_single(t1, '.');
    lemma_split_single(t0, '.');
    lemma_split_join(t3, t2, '.');
    lemma_split_join(t3 + seq!['.'] + t2, t1, '.');
    lemma_split_join(t3 + seq!['.'] + t2 + seq!['.'] + t1, t0, '.');
    let f = split_on(t, '.');
    assert(f =~= seq![t3, t2, t1, t0]);
    assert(t.len() > 0);
    if t3.len() > 0 {
        assert(t[0] == t3[0]);
    } else {
        assert(t[0] == '.');
    }
    if t0.len() > 0 {
        assert(t.last() == t0.last());
    } else {
        assert(t.last() == '.');
    }
    lemma_trim_id(t);
    if t3 == seq!['-'] {
        assert(t3[0] != '-');
    }
    if t2 == seq!['-'] {
        assert(t2[0] != '-');
    }
    if t1 == seq!['-'] {
        assert(t1[0] != '-');
    }
    if t0 == seq!['-'] {
        assert(t0[0] != '-');
    }
    let a = Set::<int>::empty().union(block(s3, 13, 39));
    lemma_scan_desc(s3, 13, 39, Set::empty(), true);
    let b = a.union(block(s2, 13, 26));
    lemma_scan_desc(s2, 13, 26, a, true);
    let c = b.union(block(s1, 13, 13));
    lemma_scan_desc(s1, 13, 13, b, true);
    lemma_scan_desc(s0, 13, 0, c, true);
    assert forall|x: int| #[trigger] h.contains(x) == c.union(block(s0, 13, 0)).contains(x) by {
        if h.contains(x) {
            assert(crate::hand::deck().contains(x));
            let q = x / 13;
            let r = x % 13;
            assert(x == 13 * q + r);
            if q == 0 {
                assert(s0.contains(r));
            } else if q == 1 {
                assert(s1.contains(r));
            } else if q == 2 {
                assert(s2.contains(r));
            } else {
                assert(s3.contains(r));
            }
        }
    }
    assert(c.union(block(s0, 13, 0)) =~= h);
}

/// A hand's text is not empty and holds no white space.
proof fn lemma_hand_text_chars(h: Set<int>)
    ensures
        crate::fmt::hand_text(h).len() > 0,
        forall|i: int|
            0 <= i < crate::fmt::hand_text(h).len() ==> !is_ws(#[trigger] crate::fmt::hand_text(h)[i]),
{
    let t = crate::fmt::hand_text(h);
    let t3 = crate::fmt::ranks_text(crate::hand::suit_ranks(h, 3));
    let t2 = crate::fmt::ranks_text(crate::hand::suit_ranks(h, 2));
    let t1 = crate::fmt::ranks_text(crate::hand::suit_ranks(h, 1));
    let t0 = crate::fmt::ranks_text(crate::hand::suit_ranks(h, 0));
    lemma_ranks_text_chars(crate::hand::suit_ranks(h, 3));
    lemma_ranks_text_chars(crate::hand::suit_ranks(h, 2));
    lemma_ranks_text_chars(crate::hand::suit_ranks(h, 1));
    lemma_ranks_text_chars(crate::hand::suit_ranks(h, 0));
    assert forall|i: int| 0 <= i < t.len() implies !is_ws(#[trigger] t[i]) by {
        let a = t3.len();
        let b = a + 1 + t2.len();
        let c = b + 1 + t1.len();
        if i < a {
            assert(t[i] == t3[i]);
        } else if i == a || i == b || i == c {
            assert(t[i] == '.');
        } else if i < b {
            assert(t[i] == t2[i - a - 1]);
        } else if i < c {
            assert(t[i] == t1[i - b - 1]);
        } else {
            assert(t[i] == t0[i - c - 1]);
        }
    }
}

/// A word without white space is the only word of itself.
proof fn lemma_words_single(a: Seq<char>)
    requires
        a.len() > 0,
        forall|i: int| 0 <= i < a.len() ==> !is_ws(#[trigger] a[i]),
    ensures
        crate::text::words(a) == seq![a],
    decreases a.len(),
{
    let p = crate::text::words(a.drop_last());
    assert(!is_ws(a.last()));
    if a.len() == 1 {
        assert(a.drop_last() =~= Seq::<char>::empty());
        assert(p =~= Seq::<Seq<char>>::empty());
        assert(a =~= seq![a.last()]);
        assert(crate::text::words(a) =~= seq![a]);
    } else {
        lemma_words_single(a.drop_last());
        assert(!is_ws(a[a.len() - 2]));
        assert(a.drop_last().push(a.last()) =~= a);
        assert(crate::text::words(a) == p.update(p.len() - 1, p.last().push(a.last())));
        assert(crate::text::words(a) =~= seq![a]);
    }
}

/// Adding a space and a word without white space adds that word.
proof fn lemma_words_join(a: Seq<char>, b: Seq<char>)
    requires
        b.len() > 0,
        forall|i: int| 0 <= i < b.len() ==> !is_ws(#[trigger] b[i]),
    ensures
        crate::text::words(a + seq![' '] + b) == crate::text::words(a).push(b),
    decreases b.len(),
{
    let s = a + seq![' '] + b;
    let sp = a + seq![' '];
    assert(sp.last() == ' ');
    assert(sp.drop_last() =~= a);
    assert(crate::text::words(sp) == crate::text::words(a));
    assert(!is_ws(b.last()));
    assert(s.last() == b.last());
    if b.len() == 1 {
        assert(s.drop_last() =~= sp);
        assert(s[s.len() - 2] == ' ');
        assert(b =~= seq![s.last()]);
        assert(crate::text::words(s) == crate::text::words(sp).push(seq![s.last()]));
    } else {
        lemma_words_join(a, b.drop_last());
        assert(s.drop_last() =~= a + seq![' '] + b.drop_last());
        assert(s[s.len() - 2] == b[b.len() - 2]);
        assert(!is_ws(b[b.len() - 2]));
        assert(b.drop_last().push(b.last()) =~= b);
        let p = crate::text::words(s.drop_last());
        assert(crate::text::words(s) == p.update(p.len() - 1, p.last().push(s.last())));
        assert(crate::text::words(s) =~= crate::text::words(a).push(b));
    }
}

/// Four words joined by spaces split back into the words.
proof fn lemma_words_four(h0: Seq<char>, h1: Seq<char>, h2: Seq<char>, h3: Seq<char>)
    requires
        h0.len() > 0 && h1.len() > 0 && h2.len() > 0 && h3.len() > 0,
        forall|i: int| 0 <= i < h0.len() ==> !is_ws(#[trigger] h0[i]),
        forall|i: int| 0 <= i < h1.len() ==> !is_ws(#[trigger] h1[i]),
        forall|i: int| 0 <= i < h2.len() ==> !is_ws(#[trigger] h2[i]),
        forall|i: int| 0 <= i < h3.len() ==> !is_ws(#[trigger] h3[i]),
    ensures
        crate::text::words(h0 + seq![' '] + h1 + seq![' '] + h2 + seq![' '] + h3) == seq![
            h0,
            h1,
            h2,
            h3,
        ],
{
    lemma_words_single(h0);
    lemma_words_join(h0, h1);
    lemma_words_join(h0 + seq![' '] + h1, h2);
    lemma_words_join(h0 + seq![' '] + h1 + seq![' '] + h2, h3);
    assert(crate::text::words(h0 + seq![' '] + h1 + seq![' '] + h2 + seq![' '] + h3) =~= seq![
        h0,
        h1,
        h2,
        h3,
    ]);
}

/// Reading a deal text whose parts read back.
proof fn lemma_deal_parts(
    t: Seq<char>,
    h: Seq<Seq<char>>,
    sets: Seq<Set<int>>,
)
    requires
        trim(t) == t,
        t.len() > 0,
        crate::parse::colon_pos(t) == 1,
        1 < t.len(),
        parse_seat_spec(t.take(1)) == Ok::<Seat, ParseError>(Seat::North),
        h.len() == 4,
        sets.len() == 4,
        crate::text::words(t.skip(2)) == h,
        forall|k: int| 0 <= k < 4 ==> crate::parse::parse_hand_spec(#[trigger] h[k]) == Ok::<Set<int>, ParseError>(sets[k]),
    ensures
        crate::parse::parse_deal_hands_spec(t) == Ok::<Seq<Set<int>>, ParseError>(sets),
{
    assert(crate::parse::parse_hand_spec(h[0]) == Ok::<Set<int>, ParseError>(sets[0]));
    assert(crate::parse::parse_hand_spec(h[1]) == Ok::<Set<int>, ParseError>(sets[1]));
    assert(crate::parse::parse_hand_spec(h[2]) == Ok::<Set<int>, ParseError>(sets[2]));
    assert(crate::parse::parse_hand_spec(h[3]) == Ok::<Set<int>, ParseError>(sets[3]));
    match crate::parse::parse_deal_hands_spec(t) {
        Ok(x) => {
            assert(x =~= sets);
        },
        Err(_) => {},
    }
}

/// The layout of a deal text: `N:` then four words separated by spaces.
proof fn lemma_deal_layout(h0: Seq<char>, h1: Seq<char>, h2: Seq<char>, h3: Seq<char>)
    requires
        h0.len() > 0 && h1.len() > 0 && h2.len() > 0 && h3.len() > 0,
        forall|i: int| 0 <= i < h0.len() ==> !is_ws(#[trigger] h0[i]),
        forall|i: int| 0 <= i < h1.len() ==> !is_ws(#[trigger] h1[i]),
        forall|i: int| 0 <= i < h2.len() ==> !is_ws(#[trigger] h2[i]),
        forall|i: int| 0 <= i < h3.len() ==> !is_ws(#[trigger] h3[i]),
    ensures
        ({
            let t = seq!['N', ':'] + (h0 + seq![' '] + h1 + seq![' '] + h2 + seq![' '] + h3);
            &&& trim(t) == t
            &&& t.len() > 1
            &&& crate::parse::colon_pos(t) == 1
            &&& parse_seat_spec(t.take(1)) == Ok::<Seat, ParseError>(Seat::North)
            &&& crate::text::words(t.skip(2)) == seq![h0, h1, h2, h3]
        }),
{
    let rest = h0 + seq![' '] + h1 + seq![' '] + h2 + seq![' '] + h3;
    let t = seq!['N', ':'] + rest;
    assert(t.last() == h3.last());
    lemma_trim_id(t);
    assert(t.drop_first()[0] == ':');
    assert(crate::parse::colon_pos(t.drop_first()) == 0);
    assert(crate::parse::colon_pos(t) == 1);
    assert(t.take(1) =~= seq![seat_letter(Seat::North)]);
    lemma_seat_round_trip(Seat::North);
    assert(t.skip(2) =~= rest);
    lemma_words_four(h0, h1, h2, h3);
}

/// A deal's text reads back as its four hands, which form a deal.
pub proof fn lemma_deal_round_trip(d: crate::deal::Deal)
    requires
        crate::deal::deal_valid(d.hands_view()),
    ensures
        ({
            let hs = seq![
                d.hands_view()[0]@,
                d.hands_view()[1]@,
                d.hands_view()[2]@,
                d.hands_view()[3]@,
            ];
            &&& crate::parse::parse_deal_hands_spec(crate::fmt::deal_text(d)) == Ok::<
                Seq<Set<int>>,
                ParseError,
            >(hs)
            &&& crate::parse::sets_form_deal(hs)
        }),
{
    let hv = d.hands_view();
    let h0 = crate::fmt::hand_text(hv[0]@);
    let h1 = crate::fmt::hand_text(hv[1]@);
    let h2 = crate::fmt::hand_text(hv[2]@);
    let h3 = crate::fmt::hand_text(hv[3]@);
    let t = crate::fmt::deal_text(d);
    assert(t =~= seq!['N', ':'] + (h0 + seq![' '] + h1 + seq![' '] + h2 + seq![' '] + h3));
    lemma_hand_text_chars(hv[0]@);
    lemma_hand_text_chars(hv[1]@);
    lemma_hand_text_chars(hv[2]@);
    lemma_hand_text_chars(hv[3]@);
    lemma_deal_layout(h0, h1, h2, h3);
    assert forall|k: int| 0 <= k < 4 implies (#[trigger] hv[k]@).subset_of(crate::hand::deck()) by {
        assert(crate::deal::union4(hv) == crate::hand::deck());
    }
    lemma_hand_round_trip(hv[0]@);
    lemma_hand_round_trip(hv[1]@);
    lemma_hand_round_trip(hv[2]@);
    lemma_hand_round_trip(hv[3]@);
    let hs = seq![hv[0]@, hv[1]@, hv[2]@, hv[3]@];
    let w = seq![h0, h1, h2, h3];
    assert forall|k: int| 0 <= k < 4 implies crate::parse::parse_hand_spec(#[trigger] w[k]) == Ok::<Set<int>, ParseError>(hs[k]) by {
        if k == 0 {} else if k == 1 {} else if k == 2 {} else {}
    }
    lemma_deal_parts(t, w, hs);
    assert(crate::parse::sets_form_deal(hs)) by {
        assert forall|i: int, j: int| 0 <= i < j < 4 implies (#[trigger] hs[i]).disjoint(
            #[trigger] hs[j],
        ) by {
            assert(hv[i]@.disjoint(hv[j]@));
        }
        assert(hs[0].union(hs[1]).union(hs[2]).union(hs[3]) == crate::deal::union4(hv));
    }
}

} // verus!
