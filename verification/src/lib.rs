//! Contract bridge foundations: cards, hands, shapes, calls, auctions, play, evaluation
//! and hand constraints, with their behaviour stated as contracts.

pub mod atom;
pub mod auction;
pub mod auction_bound;
pub mod bidding;
pub mod bits;
pub mod call;
pub mod card;
pub mod constraint;
pub mod dd_table;
pub mod dds;
pub mod dds_convert;
pub mod deal;
pub mod dnf;
pub mod enumerate;
pub mod dist;
pub mod error;
pub mod fmt;
pub mod fmt_laws;
pub mod hand;
pub mod range;
pub mod range_empty;
pub mod sample;
pub mod sampler;
pub mod half;
pub mod holding;
pub mod known;
pub mod metrics;
pub mod parse;
pub mod play;
pub mod seat;
pub mod shape;
pub mod shape_set;
pub mod text;
