use elections::party::Party;
use elections::poll::Poll;
use elections::ratio::Ratio;
use elections::report::combined_victories;
use elections::report::party_results;
use elections::report::ppc_con;
use elections::report::totals;
use elections::report::victory_margins;
use elections::report::ComboVictory;
use elections::report::PartyResults;
use elections::report::VictoryMargin;
use elections::report::VoteCount;
use elections::builder::ridings;
use elections::riding::Candidate;
use elections::sort::sort_stable;

fn poll(riding: &str, party: Party, last_name: &str, first_name: &str, votes: usize) -> Poll {
    Poll {
        riding: riding.to_string(),
        party,
        last_name: last_name.to_string(),
        first_name: first_name.to_string(),
        votes,
    }
}

fn r1() -> Vec<Poll> {
    vec![poll("R1", Party::LIB, "Lee", "L", 20), poll("R1", Party::CON, "Cole", "C", 25)]
}

fn r2_r3() -> Vec<Poll> {
    vec![
        poll("R2", Party::LIB, "A", "", 30),
        poll("R2", Party::CON, "B", "", 12),
        poll("R2", Party::PPC, "C", "", 10),
        poll("R3", Party::LIB, "D", "", 20),
        poll("R3", Party::CON, "E", "", 12),
        poll("R3", Party::PPC, "F", "", 10),
    ]
}

#[test]
fn the_candidate_with_the_most_votes_wins() {
    let all = ridings(r1());
    assert_eq!(all.len(), 1);
    assert_eq!(all[0].name(), "R1");
    assert_eq!(all[0].winner(), Party::CON);
    assert!(all[0].was_winner(&Party::CON));
    assert!(!all[0].was_winner(&Party::LIB));
    assert!(!all[0].was_winner(&Party::GRN));
}

#[test]
fn the_margin_is_the_lead_over_all_votes() {
    let all = ridings(r1());
    assert_eq!(all[0].victory_margin(), Some(Ratio { num: 5, den: 45 }));
    let margin = all[0].victory_margin().unwrap();
    let share = margin.num as f64 / margin.den as f64;
    assert!((share - 0.1111).abs() < 0.0001);
    assert_eq!(all[0].total_votes(), 45);
}

#[test]
fn among_level_candidates_the_earlier_party_wins() {
    let all = ridings(vec![
        poll("T", Party::GRN, "G", "", 9),
        poll("T", Party::NDP, "N", "", 9),
        poll("T", Party::OTH, "O", "", 9),
        poll("T", Party::PPC, "P", "", 2),
    ]);
    assert_eq!(all[0].winner(), Party::NDP);
    assert_eq!(all[0].victory_margin(), Some(Ratio { num: 0, den: 29 }));
    assert_eq!(all[0].candidate_count(), 4);
}

#[test]
fn a_riding_with_one_candidate_has_no_margin() {
    let all = ridings(vec![poll("Solo", Party::BLQ, "B", "", 5)]);
    assert_eq!(all[0].winner(), Party::BLQ);
    assert_eq!(all[0].victory_margin(), None);
    assert_eq!(all[0].candidate_count(), 1);
    assert_eq!(all[0].total_votes(), 5);
}

#[test]
fn a_riding_without_votes_has_an_undefined_margin() {
    let all =
        ridings(vec![poll("Still", Party::CON, "C", "", 0), poll("Still", Party::LIB, "L", "", 0)]);
    assert_eq!(all[0].winner(), Party::LIB);
    assert_eq!(all[0].victory_margin(), Some(Ratio { num: 0, den: 0 }));
}

#[test]
fn the_margin_is_never_more_than_the_whole() {
    let all = ridings(vec![
        poll("A", Party::LIB, "L", "", 100),
        poll("A", Party::CON, "C", "", 0),
        poll("B", Party::LIB, "L", "", 3),
        poll("B", Party::CON, "C", "", 3),
        poll("B", Party::NDP, "N", "", 1),
    ]);
    let first = all[0].victory_margin().unwrap();
    assert_eq!(first, Ratio { num: 100, den: 100 });
    let second = all[1].victory_margin().unwrap();
    assert_eq!(second, Ratio { num: 0, den: 7 });
    let winner = all[1].candidate(Party::LIB).unwrap();
    let rival = all[1].candidate(Party::CON).unwrap();
    assert_eq!(winner.votes, rival.votes);
}

#[test]
fn ridings_are_the_stretches_of_one_riding_name() {
    let all = ridings(vec![
        poll("A", Party::LIB, "L", "x", 1),
        poll("A", Party::CON, "C", "y", 2),
        poll("B", Party::LIB, "M", "z", 3),
        poll("A", Party::NDP, "N", "w", 4),
    ]);
    assert_eq!(all.len(), 3);
    assert_eq!(all[0].name(), "A");
    assert_eq!(all[1].name(), "B");
    assert_eq!(all[2].name(), "A");
    assert_eq!(
        all[0].candidate(Party::CON),
        Some(&Candidate { last_name: "C".to_string(), first_name: "y".to_string(), votes: 2 })
    );
    assert_eq!(all[0].candidate(Party::NDP), None);
    assert_eq!(all[0].candidate_count(), 2);
    assert_eq!(all[2].candidate(Party::NDP).unwrap().votes, 4);
    assert_eq!(ridings(Vec::new()).len(), 0);
}

#[test]
fn a_later_poll_for_the_same_party_takes_the_seat() {
    let all = ridings(vec![
        poll("A", Party::IND, "First", "f", 10),
        poll("A", Party::LIB, "L", "l", 1),
        poll("A", Party::IND, "Second", "s", 2),
    ]);
    assert_eq!(all.len(), 1);
    assert_eq!(all[0].candidate(Party::IND).unwrap().last_name, "Second");
    assert_eq!(all[0].total_votes(), 3);
    assert_eq!(all[0].candidate_count(), 2);
}

#[test]
fn the_two_parties_together_swing_one_riding_of_two() {
    let wins = ppc_con(r2_r3());
    assert_eq!(
        wins,
        vec![ComboVictory {
            riding: "R3".to_string(),
            winner: Party::LIB,
            winner_votes: 20,
            combined_votes: 22,
            difference: 2,
        }]
    );
}

#[test]
fn a_riding_is_passed_over_where_the_first_party_won_or_one_is_missing() {
    let wins = ppc_con(vec![
        poll("Won", Party::CON, "B", "", 40),
        poll("Won", Party::LIB, "A", "", 30),
        poll("Won", Party::PPC, "C", "", 10),
        poll("NoAlly", Party::LIB, "A", "", 30),
        poll("NoAlly", Party::CON, "B", "", 29),
        poll("NoOwn", Party::LIB, "A", "", 30),
        poll("NoOwn", Party::PPC, "B", "", 40),
        poll("Level", Party::LIB, "A", "", 30),
        poll("Level", Party::CON, "B", "", 20),
        poll("Level", Party::PPC, "C", "", 10),
    ]);
    assert_eq!(wins, Vec::<ComboVictory>::new());
}

#[test]
fn any_two_parties_can_be_combined() {
    let wins = combined_victories(r2_r3(), Party::PPC, Party::CON);
    assert_eq!(wins.len(), 1);
    assert_eq!(wins[0].riding, "R3");
    let wins = combined_victories(
        vec![
            poll("X", Party::CON, "A", "", 10),
            poll("X", Party::NDP, "B", "", 6),
            poll("X", Party::GRN, "C", "", 5),
        ],
        Party::NDP,
        Party::GRN,
    );
    assert_eq!(
        wins,
        vec![ComboVictory {
            riding: "X".to_string(),
            winner: Party::CON,
            winner_votes: 10,
            combined_votes: 11,
            difference: 1,
        }]
    );
}

#[test]
fn totals_list_each_party_with_votes_share_and_seats() {
    let counts = totals(r2_r3());
    assert_eq!(
        counts,
        vec![
            VoteCount { party: Party::LIB, votes: 50, ratio: Ratio { num: 50, den: 94 }, seats: 2 },
            VoteCount { party: Party::CON, votes: 24, ratio: Ratio { num: 24, den: 94 }, seats: 0 },
            VoteCount { party: Party::PPC, votes: 20, ratio: Ratio { num: 20, den: 94 }, seats: 0 },
        ]
    );
}

#[test]
fn the_shares_of_the_totals_add_up_to_one() {
    let counts = totals(vec![
        poll("A", Party::NDP, "N", "", 7),
        poll("A", Party::LIB, "L", "", 5),
        poll("B", Party::GRN, "G", "", 9),
        poll("B", Party::NDP, "M", "", 2),
        poll("C", Party::OTH, "O", "", 1),
    ]);
    let parties: Vec<Party> = counts.iter().map(|count| count.party).collect();
    assert_eq!(parties, vec![Party::LIB, Party::NDP, Party::GRN, Party::OTH]);
    let seats: Vec<usize> = counts.iter().map(|count| count.seats).collect();
    assert_eq!(seats, vec![0, 1, 1, 1]);
    let whole: usize = counts.iter().map(|count| count.votes).sum();
    assert_eq!(whole, 24);
    let mut sum = 0.0_f64;
    for count in &counts {
        assert_eq!(count.ratio, Ratio { num: count.votes, den: 24 });
        sum += count.ratio.num as f64 / count.ratio.den as f64;
    }
    assert!((sum - 1.0).abs() < 1e-9);
    assert_eq!(totals(Vec::new()), Vec::<VoteCount>::new());
}

#[test]
fn margins_come_closest_race_first() {
    let rows = victory_margins(vec![
        poll("Wide", Party::LIB, "L", "", 90),
        poll("Wide", Party::CON, "C", "", 10),
        poll("Solo", Party::LIB, "L", "", 5),
        poll("Close", Party::LIB, "L", "", 51),
        poll("Close", Party::CON, "C", "", 49),
        poll("Empty", Party::LIB, "L", "", 0),
        poll("Empty", Party::NDP, "N", "", 0),
        poll("Tied", Party::GRN, "G", "", 8),
        poll("Tied", Party::NDP, "N", "", 8),
    ]);
    let row = |riding: &str, winner: Party, num: usize, den: usize| VictoryMargin {
        riding: riding.to_string(),
        winner,
        margin: Ratio { num, den },
    };
    assert_eq!(
        rows,
        vec![
            row("Empty", Party::LIB, 0, 0),
            row("Tied", Party::NDP, 0, 16),
            row("Close", Party::LIB, 2, 100),
            row("Wide", Party::LIB, 80, 100),
        ]
    );
}

#[test]
fn ridings_with_the_same_margin_keep_their_order() {
    let rows = victory_margins(vec![
        poll("B", Party::LIB, "L", "", 3),
        poll("B", Party::CON, "C", "", 1),
        poll("A", Party::LIB, "L", "", 6),
        poll("A", Party::CON, "C", "", 2),
        poll("C", Party::LIB, "L", "", 75),
        poll("C", Party::CON, "C", "", 25),
    ]);
    let names: Vec<&str> = rows.iter().map(|row| row.riding.as_str()).collect();
    assert_eq!(names, vec!["B", "A", "C"]);
}

#[test]
fn party_results_come_smallest_share_first() {
    let rows = party_results(
        vec![
            poll("A", Party::NDP, "Able", "a", 50),
            poll("A", Party::LIB, "L", "", 50),
            poll("B", Party::LIB, "L", "", 90),
            poll("C", Party::NDP, "Cole", "c", 10),
            poll("C", Party::LIB, "L", "", 90),
            poll("D", Party::NDP, "Dunn", "d", 70),
            poll("D", Party::LIB, "L", "", 30),
        ],
        Party::NDP,
    );
    assert_eq!(
        rows,
        vec![
            PartyResults {
                riding: "C".to_string(),
                party: Party::NDP,
                last_name: "Cole".to_string(),
                first_name: "c".to_string(),
                votes: 10,
                ratio: Ratio { num: 10, den: 100 },
                won: false,
            },
            PartyResults {
                riding: "A".to_string(),
                party: Party::NDP,
                last_name: "Able".to_string(),
                first_name: "a".to_string(),
                votes: 50,
                ratio: Ratio { num: 50, den: 100 },
                won: false,
            },
            PartyResults {
                riding: "D".to_string(),
                party: Party::NDP,
                last_name: "Dunn".to_string(),
                first_name: "d".to_string(),
                votes: 70,
                ratio: Ratio { num: 70, den: 100 },
                won: true,
            },
        ]
    );
    assert_eq!(party_results(r1(), Party::GRN), Vec::<PartyResults>::new());
}

#[test]
fn shares_are_ordered_by_their_value_and_undefined_ones_first() {
    let half = Ratio { num: 1, den: 2 };
    let third = Ratio { num: 2, den: 6 };
    let none = Ratio { num: 0, den: 0 };
    let zero = Ratio { num: 0, den: 9 };
    assert!(third.is_at_most(half));
    assert!(!half.is_at_most(third));
    assert!(half.is_at_most(Ratio { num: 50, den: 100 }));
    assert!(Ratio { num: 50, den: 100 }.is_at_most(half));
    assert!(none.is_at_most(zero));
    assert!(!zero.is_at_most(none));
    assert!(none.is_at_most(none));
    assert!(zero.is_at_most(third));
    let big = Ratio { num: usize::MAX - 1, den: usize::MAX };
    let bigger = Ratio { num: usize::MAX, den: usize::MAX };
    assert!(big.is_at_most(bigger));
    assert!(!bigger.is_at_most(big));
}

#[test]
fn sorting_is_stable() {
    let row = |riding: &str, num: usize, den: usize| VictoryMargin {
        riding: riding.to_string(),
        winner: Party::LIB,
        margin: Ratio { num, den },
    };
    let rows = vec![
        row("a", 1, 2),
        row("b", 1, 3),
        row("c", 2, 4),
        row("d", 0, 0),
        row("e", 2, 6),
        row("f", 0, 0),
        row("g", 3, 6),
    ];
    let sorted = sort_stable(rows);
    let names: Vec<&str> = sorted.iter().map(|row| row.riding.as_str()).collect();
    assert_eq!(names, vec!["d", "f", "b", "e", "a", "c", "g"]);
    assert_eq!(sort_stable(Vec::<VictoryMargin>::new()).len(), 0);
}

#[test]
fn the_whole_way_from_rows_to_totals_keeps_every_vote() {
    let rows = vec![
        poll("B", Party::IND, "Zed", "", 4),
        poll("A", Party::LIB, "L", "", 5),
        poll("B", Party::IND, "Abel", "", 6),
        poll("A", Party::CON, "C", "", 7),
        poll("A", Party::LIB, "L", "", 8),
        poll("B", Party::CON, "D", "", 9),
    ];
    let fused = elections::fusion::fuse_polls(rows);
    let counts = totals(fused);
    assert_eq!(
        counts,
        vec![
            VoteCount { party: Party::LIB, votes: 13, ratio: Ratio { num: 13, den: 39 }, seats: 1 },
            VoteCount { party: Party::CON, votes: 16, ratio: Ratio { num: 16, den: 39 }, seats: 0 },
            VoteCount { party: Party::IND, votes: 10, ratio: Ratio { num: 10, den: 39 }, seats: 1 },
        ]
    );
}
