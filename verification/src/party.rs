//! Political affiliations: a closed list in a fixed order, and the labels that the result
//! files use for them.

use vstd::prelude::*;

use crate::text::same_text;

verus! {

/// How many affiliations there are.
pub const PARTY_COUNT: usize = 38;

/// A candidate's political affiliation. The variants stand in ranking order: where two
/// candidates are level, the one whose party comes first here goes first.
#[derive(Clone, Copy, Debug, PartialEq, Eq, PartialOrd, Ord, Hash, Structural)]
pub enum Party {
    /// Liberal.
    LIB,
    /// Conservative.
    CON,
    /// New Democratic.
    NDP,
    /// Bloc Québécois.
    BLQ,
    /// Green.
    GRN,
    /// People's Party.
    PPC,
    /// Independent or without affiliation.
    IND,
    /// Libertarian.
    LTN,
    /// Rhinoceros.
    RIN,
    /// National Citizens Alliance.
    NCA,
    /// Animal Protection.
    APP,
    /// Animal Alliance / Environment Voters.
    AAE,
    /// Democratic Advancement.
    DAD,
    /// Alliance of the North.
    ATN,
    /// Forces et Démocratie.
    FED,
    /// Veterans Coalition.
    VCP,
    /// Christian Heritage.
    CHP,
    /// Pour l'Indépendance du Québec.
    PIQ,
    /// Communist.
    COM,
    /// Marxist-Leninist.
    MXL,
    /// United Party.
    UPC,
    /// Pirate.
    PIR,
    /// Radical Marijuana.
    RMJ,
    /// Progressive Canadian.
    PCP,
    /// Stop Climate Change.
    SCC,
    /// Canada's Fourth Front.
    CFF,
    /// Nationalist.
    NAT,
    /// Seniors.
    SNR,
    /// Canada Party.
    CAD,
    /// Canadian Action.
    CAP,
    /// The Bridge.
    TBR,
    /// PACT.
    PACT,
    /// Western Block.
    WBP,
    /// First Peoples National.
    FPNP,
    /// Work Less.
    WLP,
    /// People's Political Power.
    PPP,
    /// Newfoundland and Labrador First.
    NLF,
    /// Any affiliation whose label is not known.
    OTH,
}

impl Party {
    /// The place of this party in the list, counted from zero.
    pub open spec fn rank(self) -> nat {
        match self {
            Party::LIB => 0,
            Party::CON => 1,
            Party::NDP => 2,
            Party::BLQ => 3,
            Party::GRN => 4,
            Party::PPC => 5,
            Party::IND => 6,
            Party::LTN => 7,
            Party::RIN => 8,
            Party::NCA => 9,
            Party::APP => 10,
            Party::AAE => 11,
            Party::DAD => 12,
            Party::ATN => 13,
            Party::FED => 14,
            Party::VCP => 15,
            Party::CHP => 16,
            Party::PIQ => 17,
            Party::COM => 18,
            Party::MXL => 19,
            Party::UPC => 20,
            Party::PIR => 21,
            Party::RMJ => 22,
            Party::PCP => 23,
            Party::SCC => 24,
            Party::CFF => 25,
            Party::NAT => 26,
            Party::SNR => 27,
            Party::CAD => 28,
            Party::CAP => 29,
            Party::TBR => 30,
            Party::PACT => 31,
            Party::WBP => 32,
            Party::FPNP => 33,
            Party::WLP => 34,
            Party::PPP => 35,
            Party::NLF => 36,
            Party::OTH => 37,
        }
    }

    /// The party at place `rank` of the list; the last one for a place beyond the list.
    pub open spec fn at(rank: nat) -> Party {
        if rank == 0 {
            Party::LIB
        } else if rank == 1 {
            Party::CON
        } else if rank == 2 {
            Party::NDP
        } else if rank == 3 {
            Party::BLQ
        } else if rank == 4 {
            Party::GRN
        } else if rank == 5 {
            Party::PPC
        } else if rank == 6 {
            Party::IND
        } else if rank == 7 {
            Party::LTN
        } else if rank == 8 {
            Party::RIN
        } else if rank == 9 {
            Party::NCA
        } else if rank == 10 {
            Party::APP
        } else if rank == 11 {
            Party::AAE
        } else if rank == 12 {
            Party::DAD
        } else if rank == 13 {
            Party::ATN
        } else if rank == 14 {
            Party::FED
        } else if rank == 15 {
            Party::VCP
        } else if rank == 16 {
            Party::CHP
        } else if rank == 17 {
            Party::PIQ
        } else if rank == 18 {
            Party::COM
        } else if rank == 19 {
            Party::MXL
        } else if rank == 20 {
            Party::UPC
        } else if rank == 21 {
            Party::PIR
        } else if rank == 22 {
            Party::RMJ
        } else if rank == 23 {
            Party::PCP
        } else if rank == 24 {
            Party::SCC
        } else if rank == 25 {
            Party::CFF
        } else if rank == 26 {
            Party::NAT
        } else if rank == 27 {
            Party::SNR
        } else if rank == 28 {
            Party::CAD
        } else if rank == 29 {
            Party::CAP
        } else if rank == 30 {
            Party::TBR
        } else if rank == 31 {
            Party::PACT
        } else if rank == 32 {
            Party::WBP
        } else if rank == 33 {
            Party::FPNP
        } else if rank == 34 {
            Party::WLP
        } else if rank == 35 {
            Party::PPP
        } else if rank == 36 {
            Party::NLF
        } else {
            Party::OTH
        }
    }

    /// The party that a label of the result files stands for. Labels are matched letter for
    /// letter; one that is not in the table stands for [`Party::OTH`].
    pub open spec fn of_label(label: Seq<char>) -> Party {
        if label == "Liberal"@ {
            Party::LIB
        } else if label == "Conservative"@ {
            Party::CON
        } else if label == "NDP-New Democratic Party"@ {
            Party::NDP
        } else if label == "Bloc Québécois"@ {
            Party::BLQ
        } else if label == "Green Party"@ {
            Party::GRN
        } else if label == "People's Party"@ {
            Party::PPC
        } else if label == "Independent"@ || label == "No Affiliation"@ {
            Party::IND
        } else if label == "Libertarian"@ {
            Party::LTN
        } else if label == "Parti Rhinocéros Party"@
            || label == "Rhinoceros"@
            || label == "neorhino.ca"@ {
            Party::RIN
        } else if label == "National Citizens Alliance"@ {
            Party::NCA
        } else if label == "Animal Protection Party"@ {
            Party::APP
        } else if label == "Animal Alliance/Environment Voters"@
            || label == "AAEV Party of Canada"@ {
            Party::AAE
        } else if label == "Democratic Advancement"@ {
            Party::DAD
        } else if label == "ATN"@ {
            Party::ATN
        } else if label == "Forces et Démocratie - Allier les forces de nos régions"@ {
            Party::FED
        } else if label == "VCP"@ {
            Party::VCP
        } else if label == "Christian Heritage Party"@ || label == "CHP Canada"@ {
            Party::CHP
        } else if label == "Pour l'Indépendance du Québec"@ {
            Party::PIQ
        } else if label == "Communist"@ {
            Party::COM
        } else if label == "ML"@ || label == "Marxist-Leninist"@ {
            Party::MXL
        } else if label == "UPC"@ || label == "United Party"@ {
            Party::UPC
        } else if label == "Pirate"@ || label == "Pirate Party"@ {
            Party::PIR
        } else if label == "Radical Marijuana"@ {
            Party::RMJ
        } else if label == "PC Party"@ {
            Party::PCP
        } else if label == "Stop Climate Change"@ {
            Party::SCC
        } else if label == "CFF - Canada's Fourth Front"@ {
            Party::CFF
        } else if label == "Nationalist"@ {
            Party::NAT
        } else if label == "Seniors Party"@ {
            Party::SNR
        } else if label == "Canada Party"@ {
            Party::CAD
        } else if label == "CAP"@ {
            Party::CAP
        } else if label == "The Bridge"@ {
            Party::TBR
        } else if label == "PACT"@ {
            Party::PACT
        } else if label == "WBP"@ {
            Party::WBP
        } else if label == "FPNP"@ {
            Party::FPNP
        } else if label == "Work Less Party"@ {
            Party::WLP
        } else if label == "PPP"@ {
            Party::PPP
        } else if label == "NL First Party"@ {
            Party::NLF
        } else {
            Party::OTH
        }
    }

    /// Every place below [`PARTY_COUNT`] holds the party of that rank, and every party stands
    /// at the place of its rank.
    pub proof fn lemma_rank_at()
        ensures
            forall|p: Party|
                #![trigger p.rank()]
                p.rank() < PARTY_COUNT && Party::at(p.rank()) == p,
            forall|i: nat| #![trigger Party::at(i)] i < PARTY_COUNT ==> Party::at(i).rank() == i,
    {
    }

    /// The place of this party in the list.
    pub fn index(self) -> (i: usize)
        ensures
            i == self.rank(),
            i < PARTY_COUNT,
    {
        match self {
            Party::LIB => 0,
            Party::CON => 1,
            Party::NDP => 2,
            Party::BLQ => 3,
            Party::GRN => 4,
            Party::PPC => 5,
            Party::IND => 6,
            Party::LTN => 7,
            Party::RIN => 8,
            Party::NCA => 9,
            Party::APP => 10,
            Party::AAE => 11,
            Party::DAD => 12,
            Party::ATN => 13,
            Party::FED => 14,
            Party::VCP => 15,
            Party::CHP => 16,
            Party::PIQ => 17,
            Party::COM => 18,
            Party::MXL => 19,
            Party::UPC => 20,
            Party::PIR => 21,
            Party::RMJ => 22,
            Party::PCP => 23,
            Party::SCC => 24,
            Party::CFF => 25,
            Party::NAT => 26,
            Party::SNR => 27,
            Party::CAD => 28,
            Party::CAP => 29,
            Party::TBR => 30,
            Party::PACT => 31,
            Party::WBP => 32,
            Party::FPNP => 33,
            Party::WLP => 34,
            Party::PPP => 35,
            Party::NLF => 36,
            Party::OTH => 37,
        }
    }

    /// The party at place `i` of the list.
    pub fn from_index(i: usize) -> (p: Party)
        requires
            i < PARTY_COUNT,
        ensures
            p == Party::at(i as nat),
            p.rank() == i,
    {
        if i == 0 {
            Party::LIB
        } else if i == 1 {
            Party::CON
        } else if i == 2 {
            Party::NDP
        } else if i == 3 {
            Party::BLQ
        } else if i == 4 {
            Party::GRN
        } else if i == 5 {
            Party::PPC
        } else if i == 6 {
            Party::IND
        } else if i == 7 {
            Party::LTN
        } else if i == 8 {
            Party::RIN
        } else if i == 9 {
            Party::NCA
        } else if i == 10 {
            Party::APP
        } else if i == 11 {
            Party::AAE
        } else if i == 12 {
            Party::DAD
        } else if i == 13 {
            Party::ATN
        } else if i == 14 {
            Party::FED
        } else if i == 15 {
            Party::VCP
        } else if i == 16 {
            Party::CHP
        } else if i == 17 {
            Party::PIQ
        } else if i == 18 {
            Party::COM
        } else if i == 19 {
            Party::MXL
        } else if i == 20 {
            Party::UPC
        } else if i == 21 {
            Party::PIR
        } else if i == 22 {
            Party::RMJ
        } else if i == 23 {
            Party::PCP
        } else if i == 24 {
            Party::SCC
        } else if i == 25 {
            Party::CFF
        } else if i == 26 {
            Party::NAT
        } else if i == 27 {
            Party::SNR
        } else if i == 28 {
            Party::CAD
        } else if i == 29 {
            Party::CAP
        } else if i == 30 {
            Party::TBR
        } else if i == 31 {
            Party::PACT
        } else if i == 32 {
            Party::WBP
        } else if i == 33 {
            Party::FPNP
        } else if i == 34 {
            Party::WLP
        } else if i == 35 {
            Party::PPP
        } else if i == 36 {
            Party::NLF
        } else {
            Party::OTH
        }
    }

    /// Reads a party label of the result files.
    pub fn from_label(label: &str) -> (p: Party)
        ensures
            p == Party::of_label(label@),
    {
        if same_text(label, "Liberal") {
            Party::LIB
        } else if same_text(label, "Conservative") {
            Party::CON
        } else if same_text(label, "NDP-New Democratic Party") {
            Party::NDP
        } else if same_text(label, "Bloc Québécois") {
            Party::BLQ
        } else if same_text(label, "Green Party") {
            Party::GRN
        } else if same_text(label, "People's Party") {
            Party::PPC
        } else if same_text(label, "Independent") || same_text(label, "No Affiliation") {
            Party::IND
        } else if same_text(label, "Libertarian") {
            Party::LTN
        } else if same_text(label, "Parti Rhinocéros Party")
            || same_text(label, "Rhinoceros")
            || same_text(label, "neorhino.ca") {
            Party::RIN
        } else if same_text(label, "National Citizens Alliance") {
            Party::NCA
        } else if same_text(label, "Animal Protection Party") {
            Party::APP
        } else if same_text(label, "Animal Alliance/Environment Voters")
            || same_text(label, "AAEV Party of Canada") {
            Party::AAE
        } else if same_text(label, "Democratic Advancement") {
            Party::DAD
        } else if same_text(label, "ATN") {
            Party::ATN
        } else if same_text(label, "Forces et Démocratie - Allier les forces de nos régions") {
            Party::FED
        } else if same_text(label, "VCP") {
            Party::VCP
        } else if same_text(label, "Christian Heritage Party") || same_text(label, "CHP Canada") {
            Party::CHP
        } else if same_text(label, "Pour l'Indépendance du Québec") {
            Party::PIQ
        } else if same_text(label, "Communist") {
            Party::COM
        } else if same_text(label, "ML") || same_text(label, "Marxist-Leninist") {
            Party::MXL
        } else if same_text(label, "UPC") || same_text(label, "United Party") {
            Party::UPC
        } else if same_text(label, "Pirate") || same_text(label, "Pirate Party") {
            Party::PIR
        } else if same_text(label, "Radical Marijuana") {
            Party::RMJ
        } else if same_text(label, "PC Party") {
            Party::PCP
        } else if same_text(label, "Stop Climate Change") {
            Party::SCC
        } else if same_text(label, "CFF - Canada's Fourth Front") {
            Party::CFF
        } else if same_text(label, "Nationalist") {
            Party::NAT
        } else if same_text(label, "Seniors Party") {
            Party::SNR
        } else if same_text(label, "Canada Party") {
            Party::CAD
        } else if same_text(label, "CAP") {
            Party::CAP
        } else if same_text(label, "The Bridge") {
            Party::TBR
        } else if same_text(label, "PACT") {
            Party::PACT
        } else if same_text(label, "WBP") {
            Party::WBP
        } else if same_text(label, "FPNP") {
            Party::FPNP
        } else if same_text(label, "Work Less Party") {
            Party::WLP
        } else if same_text(label, "PPP") {
            Party::PPP
        } else if same_text(label, "NL First Party") {
            Party::NLF
        } else {
            Party::OTH
        }
    }
}

} // verus!
