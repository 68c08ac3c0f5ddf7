//! The auction and its legality rules (Laws 17–19).

use vstd::prelude::*;
use crate::auction_bound::{calls_valid, lemma_legal_len};
use crate::call::{Bid, Call, Contract, Doubling};
use crate::seat::{Seat, Vulnerability};

verus! {

/// The index of a bid call (meaningful for `Call::Bid`).
pub open spec fn bid_idx(c: Call) -> int {
    match c {
        Call::Bid(b) => b@,
        _ => -1,
    }
}

/// `i` is the position of the last bid among `calls`.
pub open spec fn is_last_bid(calls: Seq<Call>, i: int) -> bool {
    &&& 0 <= i < calls.len()
    &&& calls[i] is Bid
    &&& forall|j: int| i < j < calls.len() ==> !(#[trigger] calls[j] is Bid)
}

/// `i` is the position of the last call among `calls` that is not a pass.
pub open spec fn is_last_non_pass(calls: Seq<Call>, i: int) -> bool {
    &&& 0 <= i < calls.len()
    &&& calls[i] != Call::Pass
    &&& forall|j: int| i < j < calls.len() ==> #[trigger] calls[j] == Call::Pass
}

/// Some call among `calls` is a bid.
pub open spec fn has_bid(calls: Seq<Call>) -> bool {
    exists|i: int| 0 <= i < calls.len() && #[trigger] calls[i] is Bid
}

/// At least four calls have been made and the last three are passes.
pub open spec fn is_complete_seq(calls: Seq<Call>) -> bool {
    calls.len() >= 4 && calls[calls.len() - 1] == Call::Pass && calls[calls.len() - 2]
        == Call::Pass && calls[calls.len() - 3] == Call::Pass
}

/// The calls at positions `i` and `j` are made by opponents.
pub open spec fn opponents(i: int, j: int) -> bool {
    (j - i) % 2 == 1
}

/// Whether `call` may be made after `calls`:
///
/// 1. nothing is legal once the auction is complete;
/// 2. `Pass` is always legal;
/// 3. a bid is legal iff there is no bid yet or it is higher than the last bid;
/// 4. `Double` is legal iff the last non-pass call is a bid by the opponents;
/// 5. `Redouble` is legal iff the last non-pass call is a double by the opponents.
pub open spec fn legal_next(calls: Seq<Call>, call: Call) -> bool {
    &&& !is_complete_seq(calls)
    &&& match call {
        Call::Pass => true,
        Call::Bid(b) => forall|i: int| is_last_bid(calls, i) ==> bid_idx(#[trigger] calls[i]) < b@,
        Call::Double => exists|i: int|
            is_last_non_pass(calls, i) && #[trigger] calls[i] is Bid && opponents(i, calls.len() as int),
        Call::Redouble => exists|i: int|
            is_last_non_pass(calls, i) && #[trigger] calls[i] is Double && opponents(
                i,
                calls.len() as int,
            ),
    }
}

/// Every call of `calls` was legal when it was made.
pub open spec fn legal_seq(calls: Seq<Call>) -> bool {
    forall|i: int| 0 <= i < calls.len() ==> legal_next(calls.take(i), #[trigger] calls[i])
}

/// The position of the first call of `calls` that would be illegal, if any.
pub open spec fn first_illegal(calls: Seq<Call>, i: int) -> bool {
    &&& 0 <= i < calls.len()
    &&& legal_seq(calls.take(i))
    &&& !legal_next(calls.take(i), calls[i])
}

/// `i` is the first call of the side of `lb` to name the strain of the bid at `lb`.
pub open spec fn is_first_namer(calls: Seq<Call>, lb: int, i: int) -> bool {
    &&& 0 <= i <= lb
    &&& names_strain_of(calls, lb, i)
    &&& forall|j: int| 0 <= j < i ==> !names_strain_of(calls, lb, j)
}

/// The call at `i` is a bid in the strain of the bid at `lb` by the side that made `lb`.
pub open spec fn names_strain_of(calls: Seq<Call>, lb: int, i: int) -> bool {
    &&& calls[i] is Bid
    &&& bid_idx(calls[i]) % 5 == bid_idx(calls[lb]) % 5
    &&& (lb - i) % 2 == 0
}

/// The doubling state given by the last non-pass call.
pub open spec fn doubling_of(c: Call) -> Doubling {
    match c {
        Call::Double => Doubling::Doubled,
        Call::Redouble => Doubling::Redoubled,
        _ => Doubling::Undoubled,
    }
}

/// The contract of a complete auction with a bid, described by its parts.
pub open spec fn is_contract_of(dealer: Seat, calls: Seq<Call>, c: Contract) -> bool {
    &&& is_complete_seq(calls)
    &&& exists|lb: int, d: int, n: int|
        #![trigger is_last_bid(calls, lb), is_first_namer(calls, lb, d), is_last_non_pass(calls, n)]
        is_last_bid(calls, lb) && is_first_namer(calls, lb, d) && is_last_non_pass(calls, n)
            && calls[lb] == Call::Bid(c.bid) && c.declarer == dealer.after(d % 4)
            && c.doubling == doubling_of(calls[n])
}

/// The number of passes before the first bid, or the number of calls if there is no bid.
pub open spec fn leading_passes_of(calls: Seq<Call>, n: int) -> bool {
    &&& 0 <= n <= calls.len()
    &&& forall|j: int| 0 <= j < n ==> !(#[trigger] calls[j] is Bid)
    &&& n < calls.len() ==> calls[n] is Bid
}

/// The sequence of calls of one board, together with the dealer and vulnerability.
///
/// Every constructor validates the calls against the Laws (17–19), so an `Auction` value is
/// always legal. Seat `i` (0-based call index) is `dealer.offset(i % 4)`.
#[derive(PartialEq, Eq, Hash, Debug)]
pub struct Auction {
    dealer: Seat,
    vulnerability: Vulnerability,
    calls: Vec<Call>,
}

/// An illegal call was offered to an [`Auction`].
#[derive(Clone, Copy, PartialEq, Eq, Structural, Debug)]
pub enum AuctionError {
    /// The call is not legal at the given position.
    IllegalCall {
        /// The offending call.
        call: Call,
        /// Its 0-based position in the auction.
        index: usize,
    },
}

impl Clone for Auction {
    fn clone(&self) -> (r: Self)
        ensures
            r.dealer_view() == self.dealer_view(),
            r.vul_view() == self.vul_view(),
            r.calls_view() == self.calls_view(),
    {
        self.duplicate()
    }
}

impl Auction {
    #[verifier::type_invariant]
    pub(crate) closed spec fn inv(self) -> bool {
        legal_seq(self.calls@) && calls_valid(self.calls@)
    }

    /// The dealer.
    pub closed spec fn dealer_view(self) -> Seat {
        self.dealer
    }

    /// The vulnerability.
    pub closed spec fn vul_view(self) -> Vulnerability {
        self.vulnerability
    }

    /// The calls so far, dealer first.
    pub closed spec fn calls_view(self) -> Seq<Call> {
        self.calls@
    }

    /// An empty auction.
    pub fn new(dealer: Seat, vulnerability: Vulnerability) -> (a: Auction)
        ensures
            a.dealer_view() == dealer,
            a.vul_view() == vulnerability,
            a.calls_view() == Seq::<Call>::empty(),
    {
        Auction { dealer, vulnerability, calls: Vec::new() }
    }

    /// Builds an auction from calls, rejecting the first illegal one.
    pub fn from_calls(dealer: Seat, vulnerability: Vulnerability, calls: Vec<Call>) -> (r: Result<
        Auction,
        AuctionError,
    >)
        ensures
            r is Ok <==> legal_seq(calls@),
            r matches Ok(a) ==> a.dealer_view() == dealer && a.vul_view() == vulnerability
                && a.calls_view() == calls@,
            r matches Err(AuctionError::IllegalCall { call, index }) ==> first_illegal(
                calls@,
                index as int,
            ) && call == calls@[index as int],
    {
        let mut a = Auction::new(dealer, vulnerability);
        let mut i: usize = 0;
        while i < calls.len()
            invariant
                i <= calls.len(),
                a.dealer_view() == dealer,
                a.vul_view() == vulnerability,
                a.calls_view() == calls@.take(i as int),
            decreases calls.len() - i,
        {
            let c = calls[i];
            proof {
                use_type_invariant(&a);
            }
            match a.push(c) {
                Ok(()) => {},
                Err(e) => {
                    proof {
                        assert(legal_seq(calls@.take(i as int)));
                        if legal_seq(calls@) {
                            assert(legal_next(calls@.take(i as int), calls@[i as int]));
                        }
                    }
                    return Err(e);
                },
            }
            proof {
                assert(calls@.take(i + 1) =~= calls@.take(i as int).push(c));
            }
            i = i + 1;
        }
        proof {
            use_type_invariant(&a);
            assert(calls@.take(calls.len() as int) =~= calls@);
        }
        Ok(a)
    }

    /// Appends `call`, or returns an error and leaves the auction unchanged.
    pub fn push(&mut self, call: Call) -> (r: Result<(), AuctionError>)
        ensures
            r is Ok <==> legal_next(old(self).calls_view(), call),
            r is Ok ==> final(self).calls_view() == old(self).calls_view().push(call),
            r is Err ==> *final(self) == *old(self),
            r matches Err(e) ==> e == (AuctionError::IllegalCall {
                call,
                index: old(self).calls_view().len() as usize,
            }),
            final(self).dealer_view() == old(self).dealer_view(),
            final(self).vul_view() == old(self).vul_view(),
    {
        proof {
            use_type_invariant(&*self);
        }
        proof {
            match call {
                Call::Bid(b) => {
                    use_type_invariant(b);
                    b.lemma_inv_range();
                },
                _ => {},
            }
        }
        if self.is_legal(call) {
            let ghost old_calls = self.calls@;
            let mut v = self.calls.clone();
            proof {
                assert(v@ == old_calls);
            }
            v.push(call);
            proof {
                assert forall|i: int| 0 <= i < v@.len() implies legal_next(v@.take(i), #[trigger] v@[i]) by {
                    if i < old_calls.len() {
                        assert(v@.take(i) =~= old_calls.take(i));
                    } else {
                        assert(v@.take(i) =~= old_calls);
                    }
                }
                assert forall|i: int| 0 <= i < v@.len() implies #[trigger] v@[i].idx() < 38 by {
                    if i < old_calls.len() {
                        assert(v@[i] == old_calls[i]);
                    }
                }
            }
            self.calls = v;
            Ok(())
        } else {
            Err(AuctionError::IllegalCall { call, index: self.calls.len() })
        }
    }

    /// A copy of this auction with `call` appended.
    pub fn with(&self, call: Call) -> (r: Result<Auction, AuctionError>)
        ensures
            r is Ok <==> legal_next(self.calls_view(), call),
            r matches Ok(a) ==> a.calls_view() == self.calls_view().push(call)
                && a.dealer_view() == self.dealer_view() && a.vul_view() == self.vul_view(),
            r matches Err(e) ==> e == (AuctionError::IllegalCall {
                call,
                index: self.calls_view().len() as usize,
            }),
    {
        let mut next = self.duplicate();
        match next.push(call) {
            Ok(()) => Ok(next),
            Err(e) => Err(e),
        }
    }

    /// A copy of this auction.
    pub fn duplicate(&self) -> (r: Auction)
        ensures
            r.dealer_view() == self.dealer_view(),
            r.vul_view() == self.vul_view(),
            r.calls_view() == self.calls_view(),
    {
        proof {
            use_type_invariant(self);
        }
        let calls = self.calls.clone();
        proof {
            assert(calls@ == self.calls@);
        }
        Auction { dealer: self.dealer, vulnerability: self.vulnerability, calls }
    }

    /// The dealer.
    pub fn dealer(&self) -> (r: Seat)
        ensures
            r == self.dealer_view(),
    {
        self.dealer
    }

    /// The vulnerability.
    pub fn vulnerability(&self) -> (r: Vulnerability)
        ensures
            r == self.vul_view(),
    {
        self.vulnerability
    }

    /// The calls so far, dealer first.
    pub fn calls(&self) -> (r: &[Call])
        ensures
            r@ == self.calls_view(),
            legal_seq(r@),
            calls_valid(r@),
    {
        proof {
            use_type_invariant(self);
        }
        self.calls.as_slice()
    }

    /// Number of calls so far.
    pub fn len(&self) -> (r: usize)
        ensures
            r == self.calls_view().len(),
            r <= 319,
    {
        proof {
            use_type_invariant(self);
            lemma_legal_len(self.calls@);
        }
        self.calls.len()
    }

    /// `true` when no call has been made.
    pub fn is_empty(&self) -> (r: bool)
        ensures
            r == (self.calls_view().len() == 0),
    {
        self.calls.len() == 0
    }

    /// The seat that made (or will make) the call at `index`.
    pub fn seat_at(&self, index: usize) -> (s: Seat)
        ensures
            s == self.dealer_view().after(index as int % 4),
    {
        self.dealer.offset((index % 4) as u8)
    }

    /// The seat to call next.
    pub fn next_seat(&self) -> (s: Seat)
        ensures
            s == self.dealer_view().after(self.calls_view().len() as int % 4),
    {
        self.seat_at(self.calls.len())
    }

    /// The calls made by `seat`, with their indices, in order.
    pub fn calls_by(&self, seat: Seat) -> (r: Vec<(usize, Call)>)
        ensures
            r@.map_values(|p: (usize, Call)| p.0 as int) == positions_of(self.dealer_view(), self.calls_view().len() as int, seat),
            forall|k: int| 0 <= k < r.len() ==> #[trigger] r[k].1 == self.calls_view()[r[k].0 as int],
    {
        let mut r: Vec<(usize, Call)> = Vec::new();
        let mut i: usize = 0;
        while i < self.calls.len()
            invariant
                i <= self.calls.len(),
                r@.map_values(|p: (usize, Call)| p.0 as int) == positions_of(self.dealer, i as int, seat),
                forall|k: int| 0 <= k < r.len() ==> #[trigger] r[k].1 == self.calls@[r[k].0 as int],
            decreases self.calls.len() - i,
        {
            if self.seat_at(i) == seat {
                r.push((i, self.calls[i]));
                proof {
                    assert(r[r.len() - 1].1 == self.calls@[i as int]);
                }
            }
            proof {
                assert(r@.map_values(|p: (usize, Call)| p.0 as int) =~= positions_of(self.dealer, i + 1, seat));
            }
            i = i + 1;
        }
        r
    }

    /// The last bid and its index, if any.
    pub fn last_bid(&self) -> (r: Option<(usize, Bid)>)
        ensures
            r is None <==> !has_bid(self.calls_view()),
            r matches Some((i, b)) ==> is_last_bid(self.calls_view(), i as int)
                && self.calls_view()[i as int] == Call::Bid(b),
    {
        let mut i = self.calls.len();
        while i > 0
            invariant
                i <= self.calls.len(),
                forall|j: int| i <= j < self.calls.len() ==> !(#[trigger] self.calls@[j] is Bid),
            decreases i,
        {
            match self.calls[i - 1] {
                Call::Bid(b) => {
                    return Some((i - 1, b));
                },
                _ => {},
            }
            i = i - 1;
        }
        None
    }

    /// The last call that is not a pass, with its index, if any.
    pub fn last_non_pass(&self) -> (r: Option<(usize, Call)>)
        ensures
            r is None <==> forall|j: int| 0 <= j < self.calls_view().len() ==> #[trigger] self.calls_view()[j] == Call::Pass,
            r matches Some((i, c)) ==> is_last_non_pass(self.calls_view(), i as int)
                && self.calls_view()[i as int] == c,
    {
        let mut i = self.calls.len();
        while i > 0
            invariant
                i <= self.calls.len(),
                forall|j: int| i <= j < self.calls.len() ==> #[trigger] self.calls@[j] == Call::Pass,
            decreases i,
        {
            let c = self.calls[i - 1];
            match c {
                Call::Pass => {},
                _ => {
                    return Some((i - 1, c));
                },
            }
            i = i - 1;
        }
        None
    }

    /// `true` when at least four calls have been made and the last three are passes.
    pub fn is_complete(&self) -> (r: bool)
        ensures
            r == is_complete_seq(self.calls_view()),
    {
        let n = self.calls.len();
        n >= 4 && self.calls[n - 1] == Call::Pass && self.calls[n - 2] == Call::Pass
            && self.calls[n - 3] == Call::Pass
    }

    /// Whether `call` may be made now (see [`legal_next`]).
    pub fn is_legal(&self, call: Call) -> (r: bool)
        ensures
            r == legal_next(self.calls_view(), call),
    {
        if self.is_complete() {
            return false;
        }
        let n = self.calls.len();
        match call {
            Call::Pass => true,
            Call::Bid(b) => match self.last_bid() {
                None => true,
                Some((i, last)) => {
                    proof {
                        assert forall|j: int| is_last_bid(self.calls@, j) implies bid_idx(
                            #[trigger] self.calls@[j],
                        ) == last@ by {
                            if j != i {
                                assert(false);
                            }
                        }
                    }
                    last.index() < b.index()
                },
            },
            Call::Double => match self.last_non_pass() {
                None => false,
                Some((i, c)) => {
                    let r = c.is_bid() && (n - i) % 2 == 1;
                    proof {
                        if !r {
                            assert forall|j: int| is_last_non_pass(self.calls@, j) implies !(
                            #[trigger] self.calls@[j] is Bid && opponents(j, n as int)) by {
                                if j != i {
                                    assert(false);
                                }
                            }
                        }
                    }
                    r
                },
            },
            Call::Redouble => match self.last_non_pass() {
                None => false,
                Some((i, c)) => {
                    let r = c == Call::Double && (n - i) % 2 == 1;
                    proof {
                        if !r {
                            assert forall|j: int| is_last_non_pass(self.calls@, j) implies !(
                            #[trigger] self.calls@[j] is Double && opponents(j, n as int)) by {
                                if j != i {
                                    assert(false);
                                }
                            }
                        }
                    }
                    r
                },
            },
        }
    }

    /// The calls that may be made now, in index order.
    pub fn legal_calls(&self) -> (r: Vec<Call>)
        ensures
            forall|k: int| 0 <= k < r.len() ==> legal_next(self.calls_view(), #[trigger] r[k]),
            forall|k: int, l: int| 0 <= k < l < r.len() ==> r[k].idx() < r[l].idx(),
            forall|c: Call| c.idx() < 38 && legal_next(self.calls_view(), c) ==> #[trigger] r@.contains(c),
    {
        let mut r: Vec<Call> = Vec::new();
        let mut i: u8 = 0;
        proof {
            assert forall|c: Call| c.idx() < 0 implies false by {
                c.lemma_idx_nonneg();
            }
        }
        while i < 38
            invariant
                i <= 38,
                forall|k: int| 0 <= k < r.len() ==> legal_next(self.calls@, #[trigger] r[k]),
                forall|k: int| 0 <= k < r.len() ==> #[trigger] r[k].idx() < i,
                forall|k: int, l: int| 0 <= k < l < r.len() ==> r[k].idx() < r[l].idx(),
                forall|c: Call| c.idx() < i && legal_next(self.calls@, c) ==> #[trigger] r@.contains(c),
            decreases 38 - i,
        {
            match Call::from_index(i) {
                Some(c) => {
                    let ghost old_r = r@;
                    let legal = self.is_legal(c);
                    if legal {
                        r.push(c);
                        proof {
                            assert(r[r.len() - 1] == c);
                        }
                    }
                    proof {
                        assert forall|d: Call| d.idx() < i + 1 && legal_next(self.calls@, d) implies #[trigger] r@.contains(d) by {
                            if d.idx() == i {
                                Call::lemma_idx_eq(c, d);
                                assert(r[r.len() - 1] == c);
                            } else {
                                assert(old_r.contains(d));
                                let k = choose|k: int| 0 <= k < old_r.len() && old_r[k] == d;
                                assert(r@[k] == d);
                            }
                        }
                    }
                },
                None => {},
            }
            i = i + 1;
        }
        r
    }

    /// `true` when the auction is complete and contains no bid.
    pub fn is_passed_out(&self) -> (r: bool)
        ensures
            r == (is_complete_seq(self.calls_view()) && !has_bid(self.calls_view())),
    {
        self.is_complete() && self.last_bid().is_none()
    }

    /// The final contract, or `None` if the auction is incomplete or passed out.
    ///
    /// The declarer is the first player of the side that made the last bid to have named that
    /// bid's strain; the doubling state comes from the last non-pass call.
    pub fn contract(&self) -> (r: Option<Contract>)
        ensures
            r is None <==> !(is_complete_seq(self.calls_view()) && has_bid(self.calls_view())),
            r matches Some(c) ==> is_contract_of(self.dealer_view(), self.calls_view(), c),
    {
        if !self.is_complete() {
            return None;
        }
        let (lb, bid) = match self.last_bid() {
            None => return None,
            Some(p) => p,
        };
        let strain = bid.index() % 5;
        let mut i: usize = 0;
        while i < lb
            invariant
                i <= lb,
                lb < self.calls.len(),
                self.calls@[lb as int] == Call::Bid(bid),
                strain == bid@ % 5,
                forall|j: int| 0 <= j < i ==> !names_strain_of(self.calls@, lb as int, j),
            ensures
                i <= lb,
                names_strain_of(self.calls@, lb as int, i as int),
                forall|j: int| 0 <= j < i ==> !names_strain_of(self.calls@, lb as int, j),
            decreases lb - i,
        {
            let found = match self.calls[i] {
                Call::Bid(b) => b.index() % 5 == strain && (lb - i) % 2 == 0,
                _ => false,
            };
            if found {
                break;
            }
            i = i + 1;
        }
        proof {
            assert(is_first_namer(self.calls@, lb as int, i as int));
        }
        let declarer = self.seat_at(i);
        let (n, last) = match self.last_non_pass() {
            Some(p) => p,
            None => {
                proof {
                    assert(self.calls@[lb as int] != Call::Pass);
                }
                return None;
            },
        };
        let doubling = match last {
            Call::Double => Doubling::Doubled,
            Call::Redouble => Doubling::Redoubled,
            _ => Doubling::Undoubled,
        };
        let c = Contract { bid, declarer, doubling };
        proof {
            assert(is_last_bid(self.calls@, lb as int) && is_first_namer(self.calls@, lb as int, i as int)
                && is_last_non_pass(self.calls@, n as int));
        }
        Some(c)
    }

    /// Number of passes before the first bid (`0..=3`; `4` for a passed-out auction).
    pub fn leading_passes(&self) -> (r: usize)
        ensures
            leading_passes_of(self.calls_view(), r as int),
    {
        let mut i: usize = 0;
        while i < self.calls.len()
            invariant
                i <= self.calls.len(),
                forall|j: int| 0 <= j < i ==> !(#[trigger] self.calls@[j] is Bid),
            decreases self.calls.len() - i,
        {
            if self.calls[i].is_bid() {
                return i;
            }
            i = i + 1;
        }
        i
    }

    /// The position (`1..=4`) in which `seat` would open: `1` for the dealer, `4` for the
    /// dealer's right-hand opponent.
    pub fn position_of(&self, seat: Seat) -> (r: u8)
        ensures
            r == (seat.idx() + 4 - self.dealer_view().idx()) % 4 + 1,
    {
        ((seat.index() + 4 - self.dealer.index()) % 4) + 1
    }
}

/// The contract's bid is the last bid, and its declarer sits on the side that made it.
pub proof fn lemma_contract_side(dealer: Seat, calls: Seq<Call>, c: Contract, lb: int)
    requires
        is_contract_of(dealer, calls, c),
        is_last_bid(calls, lb),
    ensures
        calls[lb] == Call::Bid(c.bid),
        c.declarer.side_of() == dealer.after(lb % 4).side_of(),
{
    let (l, d, n) = choose|l: int, d: int, n: int|
        #![trigger is_last_bid(calls, l), is_first_namer(calls, l, d), is_last_non_pass(calls, n)]
        is_last_bid(calls, l) && is_first_namer(calls, l, d) && is_last_non_pass(calls, n)
            && calls[l] == Call::Bid(c.bid) && c.declarer == dealer.after(d % 4)
            && c.doubling == doubling_of(calls[n]);
    if l < lb {
        assert(!(calls[lb] is Bid));
    }
    if lb < l {
        assert(!(calls[l] is Bid));
    }
    assert(l == lb);
    assert((lb - d) % 2 == 0);
    let k = dealer.idx();
    assert(((k + d % 4) % 4) % 2 == ((k + lb % 4) % 4) % 2) by (nonlinear_arith)
        requires
            0 <= d <= lb,
            (lb - d) % 2 == 0,
            0 <= k < 4,
    ;
}

/// The positions below `n` at which `seat` calls.
pub open spec fn positions_of(dealer: Seat, n: int, seat: Seat) -> Seq<int>
    decreases n,
{
    if n <= 0 {
        Seq::empty()
    } else {
        positions_of(dealer, n - 1, seat) + if dealer.after((n - 1) % 4) == seat {
            seq![n - 1]
        } else {
            Seq::empty()
        }
    }
}

} // verus!
