use elections::builder::ridings;
use elections::fusion::fuse_polls;
use elections::party::Party;
use elections::poll::checked_votes_total;
use elections::poll::Poll;
use elections::report::party_results;
use elections::report::ppc_con;
use elections::report::totals;
use elections::report::victory_margins;
use elections::runs::run_key;
use elections::runs::Grain;
use elections::sort::sort_stable;
use elections::text::Placing;

fn poll(riding: &str, party: Party, last_name: &str, first_name: &str, votes: usize) -> Poll {
    Poll {
        riding: riding.to_string(),
        party,
        last_name: last_name.to_string(),
        first_name: first_name.to_string(),
        votes,
    }
}

fn rows() -> Vec<Poll> {
    vec![
        poll("Gamma", Party::NDP, "Noel", "n", 14),
        poll("Alpha", Party::LIB, "Lee", "l", 10),
        poll("Beta", Party::IND, "Zhou", "z", 3),
        poll("Alpha", Party::CON, "Cole", "c", 12),
        poll("Beta", Party::CON, "Diaz", "d", 9),
        poll("Gamma", Party::LIB, "Lund", "u", 14),
        poll("Alpha", Party::LIB, "Lee", "l", 5),
        poll("Beta", Party::IND, "Amos", "a", 8),
        poll("Alpha", Party::PPC, "Pike", "p", 4),
        poll("Beta", Party::OTH, "Ober", "o", 1),
        poll("Alpha", Party::CON, "Cole", "c", 1),
        poll("Delta", Party::GRN, "Grey", "g", 0),
    ]
}

#[test]
fn no_two_fused_polls_share_riding_and_party() {
    let fused = fuse_polls(rows());
    for i in 0..fused.len() {
        for j in i + 1..fused.len() {
            assert!(fused[i].riding != fused[j].riding || fused[i].party != fused[j].party);
        }
    }
    assert_eq!(fused.len(), 9);
}

#[test]
fn every_row_has_its_riding_and_party_in_the_fused_list() {
    let fused = fuse_polls(rows());
    for row in rows() {
        let found = fused.iter().filter(|p| p.riding == row.riding && p.party == row.party).count();
        assert_eq!(found, 1);
    }
}

#[test]
fn each_fused_poll_has_the_votes_of_all_rows_for_its_riding_and_party() {
    let fused = fuse_polls(rows());
    for p in &fused {
        let sum: usize = rows()
            .iter()
            .filter(|row| row.riding == p.riding && row.party == p.party)
            .map(|row| row.votes)
            .sum();
        assert_eq!(p.votes, sum);
    }
    let amos = fused.iter().find(|p| p.party == Party::IND).unwrap();
    assert_eq!((amos.last_name.as_str(), amos.votes), ("Amos", 11));
}

#[test]
fn a_fused_list_is_in_order() {
    let fused = fuse_polls(rows());
    for pair in fused.windows(2) {
        assert_eq!(pair[0].compare(&pair[1]), Placing::Before);
    }
    let again = sort_stable(fused.clone());
    assert_eq!(again, fused);
}

#[test]
fn ridings_built_from_fused_polls_seat_every_poll_and_keep_every_vote() {
    let fused = fuse_polls(rows());
    let all = ridings(fused.clone());
    let names: Vec<&str> = all.iter().map(|r| r.name().as_str()).collect();
    assert_eq!(names, vec!["Alpha", "Beta", "Delta", "Gamma"]);
    let seats: usize = all.iter().map(|r| r.candidate_count()).sum();
    assert_eq!(seats, fused.len());
    let votes: usize = all.iter().map(|r| r.total_votes()).sum();
    assert_eq!(Some(votes), checked_votes_total(&rows()));
    assert_eq!(votes, 81);
    for p in &fused {
        let riding = all.iter().find(|r| r.name() == &p.riding).unwrap();
        let candidate = riding.candidate(p.party).unwrap();
        assert_eq!(candidate.last_name, p.last_name);
        assert_eq!(candidate.first_name, p.first_name);
        assert_eq!(candidate.votes, p.votes);
    }
}

#[test]
fn the_same_rows_give_the_same_reports() {
    let first = fuse_polls(rows());
    let second = fuse_polls(rows());
    assert_eq!(first, second);
    assert_eq!(totals(first.clone()), totals(second.clone()));
    assert_eq!(ppc_con(first.clone()), ppc_con(second.clone()));
    assert_eq!(victory_margins(first.clone()), victory_margins(second.clone()));
    assert_eq!(party_results(first, Party::LIB), party_results(second, Party::LIB));
}

#[test]
fn the_totals_come_in_the_order_of_the_party_list() {
    let counts = totals(fuse_polls(rows()));
    for pair in counts.windows(2) {
        assert!(pair[0].party.index() < pair[1].party.index());
    }
    let parties: Vec<Party> = counts.iter().map(|c| c.party).collect();
    assert_eq!(
        parties,
        vec![Party::LIB, Party::CON, Party::NDP, Party::GRN, Party::PPC, Party::IND, Party::OTH]
    );
}

#[test]
fn the_winner_of_a_tie_does_not_depend_on_the_order_of_the_rows() {
    let one = ridings(vec![poll("T", Party::CON, "C", "", 7), poll("T", Party::LIB, "L", "", 7)]);
    let other = ridings(vec![poll("T", Party::LIB, "L", "", 7), poll("T", Party::CON, "C", "", 7)]);
    assert_eq!(one[0].winner(), Party::LIB);
    assert_eq!(other[0].winner(), Party::LIB);
}

#[test]
fn every_margin_is_between_nothing_and_the_whole() {
    for row in victory_margins(fuse_polls(rows())) {
        assert!(row.margin.num <= row.margin.den);
    }
    let all = ridings(fuse_polls(rows()));
    let gamma = all.iter().find(|r| r.name() == "Gamma").unwrap();
    let margin = gamma.victory_margin().unwrap();
    assert_eq!(margin.num, 0);
    let winner = gamma.candidate(Party::LIB).unwrap();
    let rival = gamma.candidate(Party::NDP).unwrap();
    assert_eq!(winner.votes, rival.votes);
    let delta = all.iter().find(|r| r.name() == "Delta").unwrap();
    assert_eq!(delta.victory_margin(), None);
}

#[test]
fn reports_on_nothing_are_empty() {
    assert_eq!(totals(Vec::new()).len(), 0);
    assert_eq!(ppc_con(Vec::new()).len(), 0);
    assert_eq!(victory_margins(Vec::new()).len(), 0);
    assert_eq!(party_results(Vec::new(), Party::CON).len(), 0);
}

#[test]
fn the_key_of_a_run_is_the_riding_with_or_without_the_party() {
    let p = poll("Alpha", Party::GRN, "Grey", "g", 2);
    assert_eq!(run_key(&p, Grain::Riding), ("Alpha".to_string(), None));
    assert_eq!(run_key(&p, Grain::Entry), ("Alpha".to_string(), Some(Party::GRN)));
}

#[test]
fn sorting_polls_keeps_level_polls_in_the_order_they_came_in() {
    let sorted = sort_stable(vec![
        poll("B", Party::LIB, "X", "first", 1),
        poll("A", Party::LIB, "X", "second", 2),
        poll("B", Party::LIB, "X", "third", 3),
        poll("A", Party::LIB, "X", "fourth", 4),
        poll("A", Party::LIB, "W", "fifth", 5),
    ]);
    let order: Vec<&str> = sorted.iter().map(|p| p.first_name.as_str()).collect();
    assert_eq!(order, vec!["fifth", "second", "fourth", "first", "third"]);
}

#[test]
fn every_riding_gives_one_seat() {
    let fused = fuse_polls(rows());
    let all = ridings(fused.clone());
    let counts = totals(fused);
    let seats: usize = counts.iter().map(|c| c.seats).sum();
    assert_eq!(seats, all.len());
    assert_eq!(seats, 4);
    let votes: usize = counts.iter().map(|c| c.votes).sum();
    assert_eq!(votes, 81);
    for count in &counts {
        assert_eq!(count.ratio.num, count.votes);
        assert_eq!(count.ratio.den, 81);
    }
}
