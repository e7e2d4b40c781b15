use elections::fusion::fuse_polls;
use elections::party::Party;
use elections::poll::checked_votes_total;
use elections::poll::Poll;
use elections::text::Placing;

fn poll(riding: &str, party: Party, last_name: &str, first_name: &str, votes: usize) -> Poll {
    Poll {
        riding: riding.to_string(),
        party,
        last_name: last_name.to_string(),
        first_name: first_name.to_string(),
        votes,
    }
}

#[test]
fn two_rows_of_one_candidate_fuse_to_one_poll() {
    let fused = fuse_polls(vec![
        poll("R1", Party::CON, "Smith", "", 10),
        poll("R1", Party::CON, "Smith", "", 15),
    ]);
    assert_eq!(fused, vec![poll("R1", Party::CON, "Smith", "", 25)]);
}

#[test]
fn fuse_adds_the_votes_and_keeps_the_first_poll() {
    let a = poll("R1", Party::LIB, "Roy", "Anne", 7);
    let b = poll("R9", Party::CON, "Other", "Name", 5);
    assert_eq!(a.fuse(b), poll("R1", Party::LIB, "Roy", "Anne", 12));
}

#[test]
fn nothing_fuses_to_nothing() {
    assert_eq!(fuse_polls(Vec::new()), Vec::<Poll>::new());
}

#[test]
fn a_single_poll_stays_as_it_is() {
    let fused = fuse_polls(vec![poll("R1", Party::GRN, "May", "E", 3)]);
    assert_eq!(fused, vec![poll("R1", Party::GRN, "May", "E", 3)]);
}

#[test]
fn fusion_sorts_by_riding_then_party_then_last_name() {
    let fused = fuse_polls(vec![
        poll("Beta", Party::CON, "C", "", 1),
        poll("Alpha", Party::NDP, "B", "", 2),
        poll("Alpha", Party::LIB, "A", "", 3),
        poll("Beta", Party::LIB, "D", "", 4),
        poll("Alpha", Party::LIB, "A", "", 5),
        poll("Beta", Party::CON, "C", "", 6),
    ]);
    assert_eq!(
        fused,
        vec![
            poll("Alpha", Party::LIB, "A", "", 8),
            poll("Alpha", Party::NDP, "B", "", 2),
            poll("Beta", Party::LIB, "D", "", 4),
            poll("Beta", Party::CON, "C", "", 7),
        ]
    );
}

#[test]
fn one_party_in_two_ridings_is_not_fused_across_them() {
    let fused = fuse_polls(vec![
        poll("A", Party::LIB, "X", "", 1),
        poll("B", Party::LIB, "X", "", 2),
    ]);
    assert_eq!(
        fused,
        vec![poll("A", Party::LIB, "X", "", 1), poll("B", Party::LIB, "X", "", 2)]
    );
}

#[test]
fn two_names_for_one_party_in_a_riding_fuse_into_the_one_that_sorts_first() {
    let fused = fuse_polls(vec![
        poll("A", Party::IND, "Young", "Y", 4),
        poll("A", Party::IND, "Adams", "A", 6),
        poll("A", Party::IND, "Young", "Y", 1),
    ]);
    assert_eq!(fused, vec![poll("A", Party::IND, "Adams", "A", 11)]);
}

#[test]
fn among_level_polls_the_first_seen_first_name_stays() {
    let fused = fuse_polls(vec![
        poll("A", Party::LIB, "Roy", "Second", 1),
        poll("A", Party::CON, "Roy", "X", 1),
        poll("A", Party::LIB, "Roy", "First", 2),
    ]);
    assert_eq!(
        fused,
        vec![poll("A", Party::LIB, "Roy", "Second", 3), poll("A", Party::CON, "Roy", "X", 1)]
    );
}

#[test]
fn fusion_conserves_the_votes() {
    let rows = vec![
        poll("B", Party::CON, "C", "", 11),
        poll("A", Party::NDP, "B", "", 2),
        poll("A", Party::LIB, "A", "", 30),
        poll("B", Party::CON, "C", "", 4),
        poll("A", Party::LIB, "Z", "", 5),
    ];
    let before = checked_votes_total(&rows);
    let fused = fuse_polls(rows);
    assert_eq!(before, Some(52));
    assert_eq!(checked_votes_total(&fused), Some(52));
}

#[test]
fn fusing_a_fused_list_changes_nothing() {
    let once = fuse_polls(vec![
        poll("B", Party::CON, "C", "", 11),
        poll("A", Party::NDP, "B", "", 2),
        poll("A", Party::LIB, "A", "", 30),
        poll("B", Party::CON, "C", "", 4),
        poll("A", Party::LIB, "Z", "", 5),
    ]);
    let twice = fuse_polls(once.clone());
    assert_eq!(twice, once);
}

#[test]
fn an_unknown_party_label_gives_a_poll_of_the_catch_all_party() {
    let party = Party::from_label("Party of Nobody in Particular");
    assert_eq!(party, Party::OTH);
    let fused = fuse_polls(vec![
        poll("R1", party, "Doe", "J", 3),
        poll("R1", Party::from_label("Liberal"), "Roy", "A", 9),
        poll("R1", Party::from_label("Yet Another Unknown"), "Doe", "J", 4),
    ]);
    assert_eq!(
        fused,
        vec![poll("R1", Party::LIB, "Roy", "A", 9), poll("R1", Party::OTH, "Doe", "J", 7)]
    );
}

#[test]
fn the_votes_total_is_checked_for_overflow() {
    let rows = vec![poll("A", Party::LIB, "A", "", usize::MAX), poll("A", Party::CON, "B", "", 1)];
    assert_eq!(checked_votes_total(&rows), None);
    let rows =
        vec![poll("A", Party::LIB, "A", "", usize::MAX - 1), poll("A", Party::CON, "B", "", 1)];
    assert_eq!(checked_votes_total(&rows), Some(usize::MAX));
    assert_eq!(checked_votes_total(&Vec::new()), Some(0));
}

#[test]
fn polls_compare_by_riding_party_and_last_name_only() {
    let a = poll("A", Party::LIB, "Roy", "Anne", 7);
    assert_eq!(a.compare(&poll("A", Party::LIB, "Roy", "Zed", 900)), Placing::Level);
    assert_eq!(a.compare(&poll("B", Party::LIB, "Roy", "Anne", 7)), Placing::Before);
    assert_eq!(a.compare(&poll("A", Party::CON, "Adams", "Anne", 7)), Placing::Before);
    assert_eq!(a.compare(&poll("A", Party::LIB, "Adams", "Anne", 7)), Placing::After);
    let later = poll("B", Party::LIB, "A", "", 0);
    assert_eq!(later.compare(&poll("A", Party::NLF, "Z", "", 0)), Placing::After);
}
