//! Consolidation and analysis of per-poll election results.
//!
//! The polls of an election come in as rows, one for each candidate at each polling station.
//! [`fusion`] puts the rows of one party in one riding together, [`builder`] groups the fused
//! polls into ridings, [`riding`] answers what can be asked of one riding, and [`report`]
//! draws up the reports on all of them.
//!
//! Underneath, [`poll`] and [`party`] hold what a row is made of, [`text`] and [`sort`] put
//! things in order, [`runs`] cuts a list into stretches of neighbours that belong together,
//! and [`ratio`] keeps shares exact.
//!
//! Every count of votes is a `usize`. The functions that add votes up ask that all the votes
//! of their polls together fit into one; [`poll::checked_votes_total`] finds out whether they
//! do.

pub mod builder;
pub mod fusion;
pub mod party;
pub mod poll;
pub mod ratio;
pub mod report;
pub mod riding;
pub mod runs;
pub mod sort;
pub mod text;
pub mod views;
