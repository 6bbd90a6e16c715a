//! The records that describe the table, the head-to-head series and the
//! games still to be played.

use vstd::prelude::*;
use crate::team::Team;

verus! {

/// A club's line in the table.
#[derive(Debug, Clone, Copy)]
pub struct TeamStats {
    pub team: Team,
    pub gp: u32,
    pub wins: u32,
    pub losses: u32,
    pub pf_reg: i32,
    pub pa_reg: i32,
    pub diff_reg: i32,
}

/// The head-to-head series of two clubs, `team_a` being the one that comes
/// first in the order of clubs.
#[derive(Debug, Clone, Copy)]
pub struct H2HRecord {
    pub team_a: Team,
    pub team_b: Team,
    pub games_played: u32,
    pub wins_a: u32,
    pub wins_b: u32,
    pub diff_a: i32,
    pub diff_b: i32,
    pub met_twice: bool,
}

/// The first game of a head-to-head series that the remaining game completes.
#[derive(Debug, Clone, Copy)]
pub struct H2HIncompleteInfo {
    pub first_winner: Team,
    pub first_loser: Team,
    pub margin: i32,
}

/// A game still to be played.
#[derive(Debug, Clone, Copy)]
pub struct RemainingGame {
    pub home: Team,
    pub away: Team,
    pub gamecode: u32,
    pub h2h_info: Option<H2HIncompleteInfo>,
}

/// How a remaining game ends. For a game that completes a head-to-head
/// series, `HomeWin` and `AwayWin` both stand for the winner of the first
/// game winning again; the two `H2HLoserWins` outcomes say that the loser of
/// the first game wins, by less than the first margin or by more.
#[derive(Debug, Clone, Copy, PartialEq, Eq, Structural)]
pub enum GameOutcome {
    HomeWin,
    AwayWin,
    H2HLoserWinsSmall,
    H2HLoserWinsBig,
}

} // verus!
