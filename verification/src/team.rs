//! The clubs of the league, their short codes and full names.

use vstd::prelude::*;

verus! {

/// Number of clubs in the league.
pub const TEAM_COUNT: u32 = 20;

/// Number of clubs whose final place the analysis follows.
pub const RELEVANT_COUNT: u32 = 13;

/// A club of the league. The first thirteen are the ones whose final place
/// matters to the analysis; the others are needed to encode the games.
#[derive(Debug, Clone, Copy, PartialEq, Eq, Hash, PartialOrd, Ord, Structural)]
pub enum Team {
    OLY, ULK, MAD, PAM, ZAL, HTA, PAN, BAR, MCO, RED, DUB, TEL, MIL,
    MUN, PAR, PRS, VIR, BAS, IST, ASV,
}

/// The club at a given position of the declaration order.
pub open spec fn team_at(i: int) -> Team {
    if i == 0 { Team::OLY } else if i == 1 { Team::ULK } else if i == 2 { Team::MAD }
    else if i == 3 { Team::PAM } else if i == 4 { Team::ZAL } else if i == 5 { Team::HTA }
    else if i == 6 { Team::PAN } else if i == 7 { Team::BAR } else if i == 8 { Team::MCO }
    else if i == 9 { Team::RED } else if i == 10 { Team::DUB } else if i == 11 { Team::TEL }
    else if i == 12 { Team::MIL } else if i == 13 { Team::MUN } else if i == 14 { Team::PAR }
    else if i == 15 { Team::PRS } else if i == 16 { Team::VIR } else if i == 17 { Team::BAS }
    else if i == 18 { Team::IST } else { Team::ASV }
}

impl Team {
    /// Position of the club in the declaration order, which is also the order
    /// that `Ord` gives the clubs.
    pub open spec fn ord_index(self) -> nat {
        match self {
            Team::OLY => 0, Team::ULK => 1, Team::MAD => 2, Team::PAM => 3,
            Team::ZAL => 4, Team::HTA => 5, Team::PAN => 6, Team::BAR => 7,
            Team::MCO => 8, Team::RED => 9, Team::DUB => 10, Team::TEL => 11,
            Team::MIL => 12, Team::MUN => 13, Team::PAR => 14, Team::PRS => 15,
            Team::VIR => 16, Team::BAS => 17, Team::IST => 18, Team::ASV => 19,
        }
    }

    /// Whether the club is one of those whose final place is followed.
    pub open spec fn is_relevant(self) -> bool {
        self.ord_index() < RELEVANT_COUNT
    }

    /// The three-letter code of the club.
    pub open spec fn code_text(self) -> Seq<char> {
        match self {
            Team::OLY => "OLY"@, Team::ULK => "ULK"@, Team::MAD => "MAD"@,
            Team::PAM => "PAM"@, Team::ZAL => "ZAL"@, Team::HTA => "HTA"@,
            Team::PAN => "PAN"@, Team::BAR => "BAR"@, Team::MCO => "MCO"@,
            Team::RED => "RED"@, Team::DUB => "DUB"@, Team::TEL => "TEL"@,
            Team::MIL => "MIL"@, Team::MUN => "MUN"@, Team::PAR => "PAR"@,
            Team::PRS => "PRS"@, Team::VIR => "VIR"@, Team::BAS => "BAS"@,
            Team::IST => "IST"@, Team::ASV => "ASV"@,
        }
    }

    /// The full name of the club.
    pub open spec fn name_text(self) -> Seq<char> {
        match self {
            Team::OLY => "Olympiacos"@,
            Team::ULK => "Fenerbahče"@,
            Team::MAD => "Real Madrid"@,
            Team::PAM => "Valencia Basket"@,
            Team::ZAL => "Žalgiris"@,
            Team::HTA => "Hapoel Tel Aviv"@,
            Team::PAN => "Panathinaikos"@,
            Team::BAR => "Barcelona"@,
            Team::MCO => "Monaco"@,
            Team::RED => "Crvena zvezda"@,
            Team::DUB => "Dubai Basketball"@,
            Team::TEL => "Maccabi Tel Aviv"@,
            Team::MIL => "EA7 Milano"@,
            Team::MUN => "Bayern München"@,
            Team::PAR => "Partizan"@,
            Team::PRS => "Paris Basketball"@,
            Team::VIR => "Virtus Bologna"@,
            Team::BAS => "Baskonia"@,
            Team::IST => "Anadolu Efes"@,
            Team::ASV => "ASVEL Villeurbanne"@,
        }
    }

    /// Position of the club in the declaration order.
    pub fn index(self) -> (i: u32)
        ensures
            i == self.ord_index(),
    {
        match self {
            Team::OLY => 0, Team::ULK => 1, Team::MAD => 2, Team::PAM => 3,
            Team::ZAL => 4, Team::HTA => 5, Team::PAN => 6, Team::BAR => 7,
            Team::MCO => 8, Team::RED => 9, Team::DUB => 10, Team::TEL => 11,
            Team::MIL => 12, Team::MUN => 13, Team::PAR => 14, Team::PRS => 15,
            Team::VIR => 16, Team::BAS => 17, Team::IST => 18, Team::ASV => 19,
        }
    }

    /// The three-letter code of the club.
    pub fn code(self) -> (s: &'static str)
        ensures
            s@ == self.code_text(),
    {
        match self {
            Team::OLY => "OLY", Team::ULK => "ULK", Team::MAD => "MAD",
            Team::PAM => "PAM", Team::ZAL => "ZAL", Team::HTA => "HTA",
            Team::PAN => "PAN", Team::BAR => "BAR", Team::MCO => "MCO",
            Team::RED => "RED", Team::DUB => "DUB", Team::TEL => "TEL",
            Team::MIL => "MIL", Team::MUN => "MUN", Team::PAR => "PAR",
            Team::PRS => "PRS", Team::VIR => "VIR", Team::BAS => "BAS",
            Team::IST => "IST", Team::ASV => "ASV",
        }
    }

    /// The full name of the club.
    pub fn name(self) -> (s: &'static str)
        ensures
            s@ == self.name_text(),
    {
        match self {
            Team::OLY => "Olympiacos",
            Team::ULK => "Fenerbahče",
            Team::MAD => "Real Madrid",
            Team::PAM => "Valencia Basket",
            Team::ZAL => "Žalgiris",
            Team::HTA => "Hapoel Tel Aviv",
            Team::PAN => "Panathinaikos",
            Team::BAR => "Barcelona",
            Team::MCO => "Monaco",
            Team::RED => "Crvena zvezda",
            Team::DUB => "Dubai Basketball",
            Team::TEL => "Maccabi Tel Aviv",
            Team::MIL => "EA7 Milano",
            Team::MUN => "Bayern München",
            Team::PAR => "Partizan",
            Team::PRS => "Paris Basketball",
            Team::VIR => "Virtus Bologna",
            Team::BAS => "Baskonia",
            Team::IST => "Anadolu Efes",
            Team::ASV => "ASVEL Villeurbanne",
        }
    }
}

/// Distinct clubs have distinct positions, and `team_at` inverts the position.
pub proof fn lemma_ord_index(t: Team, u: Team)
    ensures
        t.ord_index() < TEAM_COUNT,
        team_at(t.ord_index() as int) == t,
        t.ord_index() == u.ord_index() ==> t == u,
{
}

/// Every club in the declaration order, which is the order of `Ord`.
pub const ALL_TEAMS: [Team; 20] = [
    Team::OLY, Team::ULK, Team::MAD, Team::PAM, Team::ZAL, Team::HTA,
    Team::PAN, Team::BAR, Team::MCO, Team::RED, Team::DUB, Team::TEL,
    Team::MIL, Team::MUN, Team::PAR, Team::PRS, Team::VIR, Team::BAS,
    Team::IST, Team::ASV,
];

/// The clubs whose final place the analysis follows.
pub const RELEVANT_TEAMS: [Team; 13] = [
    Team::OLY, Team::ULK, Team::MAD, Team::PAM, Team::ZAL, Team::HTA,
    Team::PAN, Team::BAR, Team::MCO, Team::RED, Team::DUB, Team::TEL,
    Team::MIL,
];

} // verus!
