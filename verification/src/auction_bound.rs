//! Why every legal auction ends within 319 calls.
//!
//! Before the first bid at most three passes can be made (a fourth ends the auction). After
//! each bid, the calls up to the next bid are passes with at most one double and one redouble,
//! and no three passes in a row; that is at most eight calls, or nine when the last of them
//! ends the auction. Bids rise strictly and there are 35 of them.

use vstd::prelude::*;
use crate::auction::{
    bid_idx, is_complete_seq, is_last_bid, is_last_non_pass, legal_next, legal_seq, opponents,
};
use crate::call::Call;

verus! {

/// Every call of `s` has an index below 38 (true of every call value that exists).
pub open spec fn calls_valid(s: Seq<Call>) -> bool {
    forall|i: int| 0 <= i < s.len() ==> #[trigger] s[i].idx() < 38
}

/// Number of bids in `s`.
pub open spec fn n_bids(s: Seq<Call>) -> int
    decreases s.len(),
{
    if s.len() == 0 {
        0
    } else {
        n_bids(s.drop_last()) + if s.last() is Bid {
            1int
        } else {
            0int
        }
    }
}

/// Position of the last bid of `s`, or `-1`.
pub open spec fn last_bid_pos(s: Seq<Call>) -> int
    decreases s.len(),
{
    if s.len() == 0 {
        -1
    } else if s.last() is Bid {
        s.len() - 1
    } else {
        last_bid_pos(s.drop_last())
    }
}

/// Number of passes at the end of `s`.
pub open spec fn trailing_passes(s: Seq<Call>) -> int
    decreases s.len(),
{
    if s.len() == 0 {
        0
    } else if s.last() == Call::Pass {
        trailing_passes(s.drop_last()) + 1
    } else {
        0
    }
}

/// Number of doubles and redoubles made since the last bid.
pub open spec fn doubles_since_bid(s: Seq<Call>) -> int
    decreases s.len(),
{
    if s.len() == 0 {
        0
    } else if s.last() is Bid {
        0
    } else if s.last() == Call::Pass {
        doubles_since_bid(s.drop_last())
    } else {
        doubles_since_bid(s.drop_last()) + 1
    }
}

/// The last bid of `s` sits at `last_bid_pos(s)`, which is `-1` exactly when there is none.
proof fn lemma_last_bid(s: Seq<Call>)
    ensures
        -1 <= last_bid_pos(s) < s.len(),
        last_bid_pos(s) >= 0 ==> is_last_bid(s, last_bid_pos(s)),
        last_bid_pos(s) == -1 ==> forall|j: int| 0 <= j < s.len() ==> !(#[trigger] s[j] is Bid),
        n_bids(s) >= 0,
        (n_bids(s) >= 1) == (last_bid_pos(s) >= 0),
    decreases s.len(),
{
    if s.len() > 0 {
        let t = s.drop_last();
        lemma_last_bid(t);
        if !(s.last() is Bid) {
            assert forall|j: int| last_bid_pos(s) < j < s.len() implies !(#[trigger] s[j] is Bid) by {
                if j < s.len() - 1 {
                    assert(t[j] == s[j]);
                }
            }
            if last_bid_pos(s) >= 0 {
                assert(s[last_bid_pos(s)] == t[last_bid_pos(t)]);
            }
        }
    }
}

/// The trailing passes of `s` follow its last non-pass call.
proof fn lemma_trailing(s: Seq<Call>)
    ensures
        0 <= trailing_passes(s) <= s.len(),
        forall|j: int| s.len() - trailing_passes(s) <= j < s.len() ==> #[trigger] s[j] == Call::Pass,
        trailing_passes(s) < s.len() ==> is_last_non_pass(s, s.len() - 1 - trailing_passes(s)),
        is_complete_seq(s) == (s.len() >= 4 && trailing_passes(s) >= 3),
    decreases s.len(),
{
    if s.len() > 0 {
        lemma_trailing(s.drop_last());
        let t = s.drop_last();
        if s.last() == Call::Pass {
            assert forall|j: int| s.len() - trailing_passes(s) <= j < s.len() implies #[trigger] s[j]
                == Call::Pass by {
                if j < s.len() - 1 {
                    assert(t[j] == Call::Pass);
                }
            }
            if trailing_passes(s) < s.len() {
                assert(is_last_non_pass(t, t.len() - 1 - trailing_passes(t)));
            }
        }
        if s.len() >= 4 && trailing_passes(s) < 3 {
            assert(s[s.len() - 1 - trailing_passes(s)] != Call::Pass);
        }
    }
}

/// At most one call is the last bid, and at most one is the last non-pass call.
proof fn lemma_unique(s: Seq<Call>, i: int, j: int)
    ensures
        is_last_bid(s, i) && is_last_bid(s, j) ==> i == j,
        is_last_non_pass(s, i) && is_last_non_pass(s, j) ==> i == j,
{
    if is_last_bid(s, i) && is_last_bid(s, j) {
        if i < j {
            assert(!(s[j] is Bid));
        }
        if j < i {
            assert(!(s[i] is Bid));
        }
    }
}

/// A legal sequence without its last call is legal, and that call was legal after it.
proof fn lemma_legal_prefix(s: Seq<Call>)
    requires
        legal_seq(s),
        s.len() > 0,
    ensures
        legal_seq(s.drop_last()),
        legal_next(s.drop_last(), s.last()),
{
    let t = s.drop_last();
    assert forall|i: int| 0 <= i < t.len() implies legal_next(t.take(i), #[trigger] t[i]) by {
        assert(t.take(i) =~= s.take(i));
        assert(legal_next(s.take(i), s[i]));
    }
    assert(s.take(s.len() - 1) =~= t);
    assert(legal_next(s.take(s.len() - 1), s[s.len() - 1]));
}

/// The counting invariant of a legal sequence of calls.
proof fn lemma_counting(s: Seq<Call>)
    requires
        legal_seq(s),
        calls_valid(s),
    ensures
        0 <= doubles_since_bid(s) <= 2,
        n_bids(s) == 0 ==> s.len() == trailing_passes(s) && s.len() <= 4 && doubles_since_bid(s)
            == 0,
        n_bids(s) >= 1 ==> {
            &&& last_bid_pos(s) <= 3 + 9 * (n_bids(s) - 1)
            &&& s.len() - 1 - last_bid_pos(s) <= 3 * doubles_since_bid(s) + trailing_passes(s)
            &&& trailing_passes(s) <= s.len() - 1 - last_bid_pos(s)
            &&& trailing_passes(s) <= 3
            &&& n_bids(s) <= bid_idx(s[last_bid_pos(s)]) + 1
        },
        n_bids(s) >= 1 && doubles_since_bid(s) == 0 ==> s.len() - 1 - trailing_passes(s)
            == last_bid_pos(s),
        doubles_since_bid(s) == 1 ==> s[s.len() - 1 - trailing_passes(s)] == Call::Double,
        doubles_since_bid(s) == 2 ==> s[s.len() - 1 - trailing_passes(s)] == Call::Redouble,
    decreases s.len(),
{
    lemma_last_bid(s);
    lemma_trailing(s);
    if s.len() == 0 {
        return;
    }
    let t = s.drop_last();
    let c = s.last();
    lemma_legal_prefix(s);
    assert(calls_valid(t)) by {
        assert forall|i: int| 0 <= i < t.len() implies #[trigger] t[i].idx() < 38 by {
            assert(s[i].idx() < 38);
        }
    }
    lemma_counting(t);
    lemma_last_bid(t);
    lemma_trailing(t);
    assert(!is_complete_seq(t));
    let lnp = t.len() - 1 - trailing_passes(t);
    match c {
        Call::Pass => {
            if n_bids(t) == 0 && t.len() == 4 {
                assert(is_complete_seq(t));
            }
            if n_bids(t) >= 1 {
                assert(s[last_bid_pos(s)] == t[last_bid_pos(t)]);
            }
            if doubles_since_bid(s) >= 1 {
                assert(s[s.len() - 1 - trailing_passes(s)] == t[lnp]);
            }
        },
        Call::Double => {
            let i = choose|i: int|
                is_last_non_pass(t, i) && #[trigger] t[i] is Bid && opponents(i, t.len() as int);
            if trailing_passes(t) < t.len() {
                lemma_unique(t, i, lnp);
            }
            assert(i == lnp);
            assert(n_bids(t) >= 1);
            assert(doubles_since_bid(t) == 0);
            assert(s[last_bid_pos(s)] == t[last_bid_pos(t)]);
        },
        Call::Redouble => {
            let i = choose|i: int|
                is_last_non_pass(t, i) && #[trigger] t[i] is Double && opponents(
                    i,
                    t.len() as int,
                );
            if trailing_passes(t) < t.len() {
                lemma_unique(t, i, lnp);
            }
            assert(i == lnp);
            assert(n_bids(t) >= 1);
            assert(doubles_since_bid(t) == 1);
            assert(s[last_bid_pos(s)] == t[last_bid_pos(t)]);
        },
        Call::Bid(b) => {
            b.lemma_view_nonneg();
            if n_bids(t) >= 1 {
                assert(bid_idx(t[last_bid_pos(t)]) < b@);
            } else if t.len() == 4 {
                assert(is_complete_seq(t));
            }
        },
    }
}

/// Every legal auction has at most 319 calls.
pub proof fn lemma_legal_len(s: Seq<Call>)
    requires
        legal_seq(s),
        calls_valid(s),
    ensures
        s.len() <= 319,
{
    lemma_counting(s);
    lemma_last_bid(s);
    if n_bids(s) >= 1 {
        let lb = last_bid_pos(s);
        assert(s[lb].idx() < 38);
    }
}

} // verus!
