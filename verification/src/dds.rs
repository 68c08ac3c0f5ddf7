//! The double-dummy solver interface.
//!
//! The solver is a native library that is compiled in only when its sources were vendored at
//! build time. This build carries none, so [`is_available`] is `false` and every solver call
//! answers [`DdsError::Unavailable`]; the types below are the interface that callers program
//! against either way.

use vstd::prelude::*;
use crate::call::Strain;
use crate::card::Card;
use crate::dd_table::DdTable;
use crate::deal::{Deal, DealError};
use crate::holding::Holding;
use crate::play::PlayHistory;
use crate::seat::{Seat, Vulnerability};

verus! {

/// Resource limits given to the solver once.
#[derive(Clone, Copy, PartialEq, Eq, Structural, Debug, Default)]
pub struct DdsConfig {
    /// Threads (0 = the solver decides).
    pub max_threads: u32,
    /// Memory in MB (0 = the solver decides).
    pub max_memory_mb: u32,
}

/// A position to solve.
#[derive(Clone, Copy, Debug)]
pub struct Position<'a> {
    /// Remaining cards.
    pub deal: &'a Deal,
    /// Trump.
    pub trump: Strain,
    /// The player to lead (or on lead when `trick` is empty).
    pub leader: Seat,
    /// Cards already in the current trick (0 to 3).
    pub trick: &'a [Card],
}

/// Target of a single-position solve.
#[derive(Clone, Copy, PartialEq, Eq, Structural, Debug)]
pub enum Target {
    /// Maximum tricks.
    Max,
    /// Just list the legal cards.
    ListLegal,
    /// Whether at least `n` tricks can be made (`1..=13`).
    Tricks(u8),
}

/// Which cards a single-position solve reports.
#[derive(Clone, Copy, PartialEq, Eq, Structural, Debug)]
pub enum Solutions {
    /// One optimal card.
    One,
    /// All optimal cards.
    AllOptimal,
    /// Every legal card with its score.
    AllRanked,
}

/// Search mode of a single-position solve.
#[derive(Clone, Copy, PartialEq, Eq, Structural, Debug)]
pub enum Mode {
    /// Automatic.
    Auto,
    /// Always search.
    Search,
    /// Reuse the transposition table.
    ReuseTable,
}

/// A scored card.
#[derive(Clone, Copy, PartialEq, Eq, Structural, Debug)]
pub struct CardScore {
    /// The card.
    pub card: Card,
    /// Lower cards of the same suit with the same score.
    pub equals: Holding,
    /// Tricks for the side on lead.
    pub score: u8,
}

/// The result of a single-position solve.
#[derive(Clone, PartialEq, Eq, Debug)]
pub struct FutureTricks {
    /// Nodes searched.
    pub nodes: u32,
    /// Scored cards.
    pub cards: Vec<CardScore>,
}

/// Par result for a board.
#[derive(Clone, PartialEq, Eq, Debug)]
pub struct ParResult {
    /// Score from North–South's point of view.
    pub score: i32,
    /// Par contracts as strings.
    pub contracts: Vec<String>,
}

/// Solver build information.
#[derive(Clone, PartialEq, Eq, Debug)]
pub struct DdsInfo {
    /// Version string.
    pub version: String,
    /// Threads in use.
    pub threads: u32,
    /// Threading backend code.
    pub threading: i32,
    /// Free-form system description.
    pub system: String,
}

/// A solver call failed.
#[derive(Clone, PartialEq, Eq, Debug)]
pub enum DdsError {
    /// The solver returned an error code.
    Code {
        /// The code.
        code: i32,
        /// The solver's message for it.
        message: String,
    },
    /// The deal is invalid.
    Deal(DealError),
    /// More than 200 boards in one call.
    TooManyBoards(usize),
    /// The solver sources were not vendored at build time.
    Unavailable,
}

impl From<DealError> for DdsError {
    fn from(e: DealError) -> (r: DdsError) {
        DdsError::Deal(e)
    }
}

impl vstd::std_specs::convert::FromSpecImpl<DealError> for DdsError {
    open spec fn obeys_from_spec() -> bool {
        true
    }

    open spec fn from_spec(e: DealError) -> DdsError {
        DdsError::Deal(e)
    }
}

/// `true` when the solver sources were vendored and compiled in (never, in this build).
pub fn is_available() -> (r: bool)
    ensures
        !r,
{
    false
}

/// Initialises the solver once.
pub fn init(cfg: DdsConfig) -> (r: Result<(), DdsError>)
    ensures
        r == Result::<(), DdsError>::Err(DdsError::Unavailable),
{
    Result::Err(DdsError::Unavailable)
}

/// The double-dummy table of a deal.
pub fn calc_dd_table(deal: &Deal) -> (r: Result<DdTable, DdsError>)
    ensures
        r == Result::<DdTable, DdsError>::Err(DdsError::Unavailable),
{
    Result::Err(DdsError::Unavailable)
}

/// Double-dummy tables for many deals.
pub fn calc_dd_tables(deals: &[Deal]) -> (r: Result<Vec<DdTable>, DdsError>)
    ensures
        r == Result::<Vec<DdTable>, DdsError>::Err(DdsError::Unavailable),
{
    Result::Err(DdsError::Unavailable)
}

/// Solves one position.
pub fn solve_board(pos: &Position<'_>, target: Target, solutions: Solutions, mode: Mode) -> (r: Result<FutureTricks, DdsError>)
    ensures
        r == Result::<FutureTricks, DdsError>::Err(DdsError::Unavailable),
{
    Result::Err(DdsError::Unavailable)
}

/// Solves many positions.
pub fn solve_all_boards(positions: &[(Position<'_>, Target, Solutions, Mode)]) -> (r: Result<Vec<FutureTricks>, DdsError>)
    ensures
        r == Result::<Vec<FutureTricks>, DdsError>::Err(DdsError::Unavailable),
{
    Result::Err(DdsError::Unavailable)
}

/// Double-dummy tricks after each card of a play.
pub fn analyse_play(deal: &Deal, play: &PlayHistory) -> (r: Result<Vec<u8>, DdsError>)
    ensures
        r == Result::<Vec<u8>, DdsError>::Err(DdsError::Unavailable),
{
    Result::Err(DdsError::Unavailable)
}

/// Par score and contracts.
pub fn dealer_par(table: &DdTable, dealer: Seat, vul: Vulnerability) -> (r: Result<ParResult, DdsError>)
    ensures
        r == Result::<ParResult, DdsError>::Err(DdsError::Unavailable),
{
    Result::Err(DdsError::Unavailable)
}

/// Build information.
pub fn info() -> (r: Result<DdsInfo, DdsError>)
    ensures
        r == Result::<DdsInfo, DdsError>::Err(DdsError::Unavailable),
{
    Result::Err(DdsError::Unavailable)
}

} // verus!
