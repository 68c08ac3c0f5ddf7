//! The records that bidding decisions and auction interpretations produce.
//!
//! Nodes of a bidding system are named by [`NodeId`]; the decisions themselves are made
//! against a compiled system, and these types carry their outcomes.

use vstd::prelude::*;
use crate::auction::Auction;
use crate::call::Call;
use crate::seat::Seat;

verus! {

/// The identifier of a node of a compiled bidding system.
#[derive(Clone, Copy, PartialEq, Eq, Structural, Hash, PartialOrd, Ord, Debug)]
pub struct NodeId(pub u32);

/// The outcome of a bidding decision. `NoCandidate` is information about the system's
/// coverage, not an error.
#[derive(Clone, Debug)]
pub enum BidChoice {
    /// A call was chosen.
    Chosen(Chosen),
    /// No listed call applies.
    NoCandidate(NoCandidate),
}

impl BidChoice {
    /// The chosen call, if any.
    pub fn call(&self) -> (r: Option<Call>)
        ensures
            r == match *self {
                BidChoice::Chosen(c) => Option::Some(c.call),
                BidChoice::NoCandidate(_) => Option::<Call>::None,
            },
    {
        match self {
            BidChoice::Chosen(c) => Option::Some(c.call),
            BidChoice::NoCandidate(_) => Option::None,
        }
    }

    /// `true` for [`BidChoice::Chosen`].
    pub fn is_chosen(&self) -> (r: bool)
        ensures
            r == (*self is Chosen),
    {
        match self {
            BidChoice::Chosen(_) => true,
            BidChoice::NoCandidate(_) => false,
        }
    }
}

/// Where a chosen call came from.
#[derive(Clone, Copy, PartialEq, Eq, Structural, Debug)]
pub enum ChoiceSource {
    /// A continuation listed by the system.
    System,
    /// The natural engine, for an off-system prefix.
    Natural,
    /// A pass synthesised from the complement of the listed calls.
    ImplicitPass,
}

/// A chosen call.
#[derive(Clone, Debug)]
pub struct Chosen {
    /// The call.
    pub call: Call,
    /// Its node (`None` for natural / implicit pass).
    pub node: Option<NodeId>,
    /// Source.
    pub source: ChoiceSource,
    /// Explanation text.
    pub explanation: String,
    /// Every satisfying legal candidate, sorted; the chosen one first.
    pub alternatives: Vec<Alternative>,
    /// System-definition problems noticed on the way.
    pub diagnostics: Vec<Diagnostic>,
}

/// A candidate that survived filtering.
#[derive(Clone, Copy, PartialEq, Eq, Structural, Debug)]
pub struct Alternative {
    /// The call.
    pub call: Call,
    /// Its node.
    pub node: Option<NodeId>,
    /// Its priority.
    pub priority: i16,
}

/// No candidate applied.
#[derive(Clone, Debug)]
pub struct NoCandidate {
    /// Every candidate and why it was rejected.
    pub tried: Vec<Tried>,
    /// System-definition problems noticed on the way.
    pub diagnostics: Vec<Diagnostic>,
}

/// A rejected candidate.
#[derive(Clone, Copy, PartialEq, Eq, Structural, Debug)]
pub struct Tried {
    /// The node.
    pub node: NodeId,
    /// Its call.
    pub call: Call,
    /// Why it was rejected.
    pub reason: Rejected,
}

/// Rejection reasons.
#[derive(Clone, Copy, PartialEq, Eq, Structural, Debug)]
pub enum Rejected {
    /// The hand fails the candidate's constraint.
    Unsatisfied,
    /// The call is illegal at this point of the auction.
    Illegal,
    /// The candidate does not apply in this context.
    NotApplicable,
}

/// A problem in the system definition found while bidding.
#[derive(Clone, Copy, PartialEq, Eq, Structural, Debug)]
pub enum Diagnostic {
    /// The system lists a call that is illegal at this point.
    IllegalSystemCall {
        /// The node.
        node: NodeId,
        /// The call.
        call: Call,
    },
    /// Two nodes offer the same call at the same point.
    DuplicateCandidate {
        /// First node.
        node_a: NodeId,
        /// Second node.
        node_b: NodeId,
        /// The call.
        call: Call,
    },
    /// A node's constraint is unsatisfiable.
    UnsatisfiableNode {
        /// The node.
        node: NodeId,
    },
}

/// How a call was resolved, from most to least confident.
#[derive(Clone, Copy, PartialEq, Eq, Structural, PartialOrd, Ord, Debug)]
pub enum ResolutionKind {
    /// The sequence is in the system.
    Exact,
    /// A prefix is in the system.
    Partial {
        /// Matched prefix length.
        matched_depth: usize,
    },
    /// Natural inference.
    Natural,
    /// The defensive unconstrained branch.
    Fallback,
}

/// Explanation of one call.
#[derive(Clone, Debug)]
pub struct CallExplanation {
    /// Index of the call in the auction.
    pub call_index: usize,
    /// The call.
    pub call: Call,
    /// The node, if any.
    pub node: Option<NodeId>,
    /// Resolution kind.
    pub kind: ResolutionKind,
    /// The node's description or the natural rule text; empty for `Fallback`.
    pub text: String,
}

/// Explanation of one alternative for one seat.
#[derive(Clone, Debug)]
pub struct Explanation {
    /// The parts joined with ` / `.
    pub text: String,
    /// The node of the seat's most recent call.
    pub node: Option<NodeId>,
    /// The least confident kind among the parts.
    pub resolution: ResolutionKind,
    /// One part per call of this seat.
    pub parts: Vec<CallExplanation>,
}

/// Scoring form.
#[derive(Clone, Copy, PartialEq, Eq, Structural, Hash, Debug)]
pub enum Scoring {
    /// International match points.
    Imp,
    /// Match points.
    Mp,
    /// Total points.
    Total,
}

/// What to do when no listed candidate applies but `Pass` is legal.
#[derive(Clone, Copy, PartialEq, Eq, Structural, Hash, Debug, Default)]
pub enum ImplicitPass {
    /// Report `NoCandidate`.
    #[default]
    Never,
    /// Synthesise `Pass` with the complement of the siblings' constraints.
    Complement,
}

/// The result of bidding a deal out.
#[derive(Clone, Debug)]
pub struct Replay {
    /// The completed auction.
    pub auction: Auction,
    /// `(call index, seat)` where `NoCandidate` forced a pass.
    pub gaps: Vec<(usize, Seat)>,
    /// System-definition problems noticed on the way.
    pub diagnostics: Vec<Diagnostic>,
}

} // verus!
