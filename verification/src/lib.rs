//! Seat allocation for university admissions: capacity-limited programs are
//! assigned to scored applicants in the order of their preferences, and fill
//! levels, cutoffs and preference statistics are derived from the result.

pub mod allocation;
pub mod counting;
pub mod guarantees;
pub mod history;
pub mod ingest;
pub mod models;
pub mod overlap;
pub mod paging;
pub mod programs;
pub mod ranking;
pub mod schedule;
pub mod stats;
pub mod text;
