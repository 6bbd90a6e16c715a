//! Standings and tie-break analysis for the closing rounds of a basketball
//! league season: the data of the current table, the rules that break ties,
//! and the runner that builds the final table for a chosen set of results.

pub mod team;
pub mod types;
pub mod h2h;
pub mod data;
pub mod grouping;
pub mod text;
pub mod tiebreak;
pub mod tiebreak_laws;
pub mod scenario;
pub mod scenario_laws;
pub mod scenario_order;
pub mod playoffs;
pub mod weights;
pub mod planning;
pub mod planning_laws;
