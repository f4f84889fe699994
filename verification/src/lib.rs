//! A double-dummy solver for bridge, with par scoring and card-by-card play
//! analysis.

pub mod analyse_play;
pub mod bits;
pub mod bridge_solver;
pub mod cards;
pub mod diag;
pub mod hands;
pub mod lin_input;
pub mod pattern;
pub mod pbn;
pub mod request;
pub mod par;
pub mod pattern_vec;
pub mod search;
pub mod text;
pub mod types;
