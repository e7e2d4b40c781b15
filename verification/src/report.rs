//! The reports: what the fused polls say of parties and ridings.

use vstd::prelude::*;

use crate::party::Party;
use crate::party::PARTY_COUNT;
use crate::poll::votes_total;
use crate::poll::Poll;
use crate::ratio::Ratio;
use crate::ratio::Share;
use crate::builder::all_contested;
use crate::builder::built;
use crate::builder::grand_total;
use crate::builder::lemma_built_tally;
use crate::builder::lemma_grand_total_prefix;
use crate::builder::ridings;
use crate::riding::Riding;
use crate::riding::RidingView;
use crate::sort::ordered;
use crate::sort::sort_stable;
use crate::sort::sorted;
use crate::sort::Ranked;
use crate::views::views;

verus! {

/// What one party got in all ridings together.
#[derive(Clone, Copy, Debug, PartialEq, Eq, Structural)]
pub struct VoteCount {
    pub party: Party,
    pub votes: usize,
    /// The party's share of all votes.
    pub ratio: Ratio,
    pub seats: usize,
}

/// The totals of a party as the contracts see them.
pub struct VoteCountView {
    pub party: Party,
    pub votes: nat,
    pub ratio: Share,
    pub seats: nat,
}

impl View for VoteCount {
    type V = VoteCountView;

    open spec fn view(&self) -> VoteCountView {
        VoteCountView {
            party: self.party,
            votes: self.votes as nat,
            ratio: self.ratio@,
            seats: self.seats as nat,
        }
    }
}

/// A riding that the winner would have lost to two other parties, had their votes gone to one
/// candidate.
#[derive(Clone, Debug, PartialEq, Eq)]
pub struct ComboVictory {
    pub riding: String,
    pub winner: Party,
    pub winner_votes: usize,
    pub combined_votes: usize,
    pub difference: usize,
}

/// A riding that would have swung, as the contracts see it.
pub struct ComboVictoryView {
    pub riding: Seq<char>,
    pub winner: Party,
    pub winner_votes: nat,
    pub combined_votes: nat,
    pub difference: nat,
}

impl View for ComboVictory {
    type V = ComboVictoryView;

    open spec fn view(&self) -> ComboVictoryView {
        ComboVictoryView {
            riding: self.riding@,
            winner: self.winner,
            winner_votes: self.winner_votes as nat,
            combined_votes: self.combined_votes as nat,
            difference: self.difference as nat,
        }
    }
}

/// How clearly a riding was won.
#[derive(Clone, Debug, PartialEq, Eq)]
pub struct VictoryMargin {
    pub riding: String,
    pub winner: Party,
    pub margin: Ratio,
}

/// The margin of a riding as the contracts see it.
pub struct VictoryMarginView {
    pub riding: Seq<char>,
    pub winner: Party,
    pub margin: Share,
}

impl View for VictoryMargin {
    type V = VictoryMarginView;

    open spec fn view(&self) -> VictoryMarginView {
        VictoryMarginView { riding: self.riding@, winner: self.winner, margin: self.margin@ }
    }
}

impl Ranked for VictoryMargin {
    open spec fn precedes(a: VictoryMarginView, b: VictoryMarginView) -> bool {
        a.margin.at_most(b.margin)
    }

    proof fn lemma_precedes_total(a: VictoryMarginView, b: VictoryMarginView) {
        Share::lemma_at_most_total(a.margin, b.margin);
    }

    proof fn lemma_precedes_transitive(
        a: VictoryMarginView,
        b: VictoryMarginView,
        c: VictoryMarginView,
    ) {
        Share::lemma_at_most_transitive(a.margin, b.margin, c.margin);
    }

    fn comes_first(&self, other: &VictoryMargin) -> (b: bool) {
        self.margin.is_at_most(other.margin)
    }
}

/// How the candidate of one party did in one riding.
#[derive(Clone, Debug, PartialEq, Eq)]
pub struct PartyResults {
    pub riding: String,
    pub party: Party,
    pub last_name: String,
    pub first_name: String,
    pub votes: usize,
    /// The candidate's share of the votes of the riding.
    pub ratio: Ratio,
    pub won: bool,
}

/// The result of a party in a riding as the contracts see it.
pub struct PartyResultsView {
    pub riding: Seq<char>,
    pub party: Party,
    pub last_name: Seq<char>,
    pub first_name: Seq<char>,
    pub votes: nat,
    pub ratio: Share,
    pub won: bool,
}

impl View for PartyResults {
    type V = PartyResultsView;

    open spec fn view(&self) -> PartyResultsView {
        PartyResultsView {
            riding: self.riding@,
            party: self.party,
            last_name: self.last_name@,
            first_name: self.first_name@,
            votes: self.votes as nat,
            ratio: self.ratio@,
            won: self.won,
        }
    }
}

impl Ranked for PartyResults {
    open spec fn precedes(a: PartyResultsView, b: PartyResultsView) -> bool {
        a.ratio.at_most(b.ratio)
    }

    proof fn lemma_precedes_total(a: PartyResultsView, b: PartyResultsView) {
        Share::lemma_at_most_total(a.ratio, b.ratio);
    }

    proof fn lemma_precedes_transitive(
        a: PartyResultsView,
        b: PartyResultsView,
        c: PartyResultsView,
    ) {
        Share::lemma_at_most_transitive(a.ratio, b.ratio, c.ratio);
    }

    fn comes_first(&self, other: &PartyResults) -> (b: bool) {
        self.ratio.is_at_most(other.ratio)
    }
}

/// The votes of `party` in all these ridings.
pub open spec fn party_votes(ridings: Seq<RidingView>, party: Party) -> nat
    decreases ridings.len(),
{
    if ridings.len() == 0 {
        0
    } else {
        party_votes(ridings.drop_last(), party) + ridings.last().votes_for(party)
    }
}

/// In how many of these ridings `party` won.
pub open spec fn party_seats(ridings: Seq<RidingView>, party: Party) -> nat
    decreases ridings.len(),
{
    if ridings.len() == 0 {
        0
    } else if ridings.last().winner() == party {
        party_seats(ridings.drop_last(), party) + 1
    } else {
        party_seats(ridings.drop_last(), party)
    }
}

/// `party` has a candidate in one of these ridings.
pub open spec fn party_stands(ridings: Seq<RidingView>, party: Party) -> bool
    decreases ridings.len(),
{
    ridings.len() > 0 && (ridings.last().candidates.dom().contains(party) || party_stands(
        ridings.drop_last(),
        party,
    ))
}

/// What the totals say of `party`.
pub open spec fn vote_count(ridings: Seq<RidingView>, party: Party) -> VoteCountView {
    VoteCountView {
        party,
        votes: party_votes(ridings, party),
        ratio: Share { num: party_votes(ridings, party), den: grand_total(ridings) },
        seats: party_seats(ridings, party),
    }
}

/// The totals of those of the first `n` parties of the list that have a candidate anywhere.
pub open spec fn totals_below(ridings: Seq<RidingView>, n: nat) -> Seq<VoteCountView>
    decreases n,
{
    if n == 0 {
        Seq::empty()
    } else {
        let before = totals_below(ridings, (n - 1) as nat);
        let party = Party::at((n - 1) as nat);
        if party_stands(ridings, party) {
            before.push(vote_count(ridings, party))
        } else {
            before
        }
    }
}

/// The totals of every party that has a candidate anywhere, in the order of the list of
/// parties.
pub open spec fn totals_of(ridings: Seq<RidingView>) -> Seq<VoteCountView> {
    totals_below(ridings, PARTY_COUNT as nat)
}

/// Vote and seat totals per party: for every party that had a candidate anywhere its votes,
/// its share of all votes and the ridings it won, in the order of the list of parties.
pub fn totals(unified: Vec<Poll>) -> (out: Vec<VoteCount>)
    requires
        votes_total(views(unified@)) <= usize::MAX,
    ensures
        views(out@) == totals_of(built(views(unified@))),
        forall|i: int, j: int|
            0 <= i < j < out@.len() ==> (#[trigger] out@[i]).party.rank() < (
            #[trigger] out@[j]).party.rank(),
{
    proof {
        lemma_built_tally(views(unified@));
    }
    let all = ridings(unified);
    let ghost seen = views(all@);
    let total = count_all(&all);
    let mut out: Vec<VoteCount> = Vec::new();
    for i in 0..PARTY_COUNT
        invariant
            seen == views(all@),
            grand_total(seen) <= usize::MAX,
            total == grand_total(seen),
            views(out@) == totals_below(seen, i as nat),
    {
        let party = Party::from_index(i);
        let (votes, seats, stands) = party_count(&all, party);
        if stands {
            let ghost made = views(out@);
            let count = VoteCount { party, votes, ratio: Ratio { num: votes, den: total }, seats };
            out.push(count);
            assert(views(out@) =~= made.push(count@));
        }
    }
    proof {
        lemma_totals_shape(seen, PARTY_COUNT as nat);
        assert forall|i: int, j: int| 0 <= i < j < out@.len() implies (
        #[trigger] out@[i]).party.rank() < (#[trigger] out@[j]).party.rank() by {
            assert(views(out@)[i].party == out@[i].party);
            assert(views(out@)[j].party == out@[j].party);
        }
    }
    out
}

/// The votes in a list of totals.
pub open spec fn counted_votes(counts: Seq<VoteCountView>) -> nat
    decreases counts.len(),
{
    if counts.len() == 0 {
        0
    } else {
        counted_votes(counts.drop_last()) + counts.last().votes
    }
}

/// The seats in a list of totals.
pub open spec fn counted_seats(counts: Seq<VoteCountView>) -> nat
    decreases counts.len(),
{
    if counts.len() == 0 {
        0
    } else {
        counted_seats(counts.drop_last()) + counts.last().seats
    }
}

/// The shares of the totals add up to the whole: the votes of the parties listed are together
/// all the votes, and every share is taken of all the votes.
pub proof fn lemma_totals_add_up(ridings: Seq<RidingView>)
    ensures
        counted_votes(totals_of(ridings)) == grand_total(ridings),
        forall|i: int|
            0 <= i < totals_of(ridings).len() ==> {
                let count = #[trigger] totals_of(ridings)[i];
                count.ratio.num == count.votes && count.ratio.den == grand_total(ridings)
            },
{
    lemma_counted_below(ridings, PARTY_COUNT as nat);
    lemma_votes_below_all(ridings);
    lemma_totals_shape(ridings, PARTY_COUNT as nat);
}

/// Every riding gives one seat: where somebody stands in each riding, the seats of the
/// parties listed are together as many as there are ridings.
pub proof fn lemma_totals_seats(ridings: Seq<RidingView>)
    requires
        all_contested(ridings),
    ensures
        counted_seats(totals_of(ridings)) == ridings.len(),
{
    lemma_counted_seats_below(ridings, PARTY_COUNT as nat);
    lemma_seats_below_all(ridings);
}

/// Each of the totals is the count of its party, and the parties come in the order of the
/// list.
pub proof fn lemma_totals_shape(ridings: Seq<RidingView>, n: nat)
    requires
        n <= PARTY_COUNT,
    ensures
        totals_below(ridings, n).len() <= n,
        forall|i: int|
            0 <= i < totals_below(ridings, n).len() ==> {
                let count = #[trigger] totals_below(ridings, n)[i];
                &&& count == vote_count(ridings, count.party)
                &&& party_stands(ridings, count.party)
                &&& count.party.rank() < n
            },
        forall|i: int, j: int|
            0 <= i < j < totals_below(ridings, n).len() ==> (#[trigger] totals_below(
                ridings,
                n,
            )[i]).party.rank() < (#[trigger] totals_below(ridings, n)[j]).party.rank(),
    decreases n,
{
    if n > 0 {
        lemma_totals_shape(ridings, (n - 1) as nat);
        Party::lemma_rank_at();
        assert(Party::at((n - 1) as nat).rank() == n - 1);
    }
}

/// In this riding `primary` did not win, both `primary` and `ally` had a candidate, and the
/// two together had more votes than the winner.
pub open spec fn swings(riding: RidingView, primary: Party, ally: Party) -> bool {
    &&& riding.winner() != primary
    &&& riding.candidates.dom().contains(primary)
    &&& riding.candidates.dom().contains(ally)
    &&& riding.votes_for(primary) + riding.votes_for(ally) > riding.votes_for(riding.winner())
}

/// What the report says of a riding that swings.
pub open spec fn combo_of(riding: RidingView, primary: Party, ally: Party) -> ComboVictoryView {
    let winner_votes = riding.votes_for(riding.winner());
    let combined_votes = riding.votes_for(primary) + riding.votes_for(ally);
    ComboVictoryView {
        riding: riding.name,
        winner: riding.winner(),
        winner_votes,
        combined_votes,
        difference: (combined_votes - winner_votes) as nat,
    }
}

/// The ridings that swing, in the order of `ridings`.
pub open spec fn combos(
    ridings: Seq<RidingView>,
    primary: Party,
    ally: Party,
) -> Seq<ComboVictoryView>
    decreases ridings.len(),
{
    if ridings.len() == 0 {
        Seq::empty()
    } else {
        let before = combos(ridings.drop_last(), primary, ally);
        if swings(ridings.last(), primary, ally) {
            before.push(combo_of(ridings.last(), primary, ally))
        } else {
            before
        }
    }
}

/// For the ridings in which `primary` lost: would its votes and those of `ally` together have
/// swung the result? Lists each riding where they would, with the winner, the winner's votes,
/// the votes of the two together, and by how much these are more. A riding in which one of
/// the two had no candidate is passed over.
pub fn combined_victories(polls: Vec<Poll>, primary: Party, ally: Party) -> (out: Vec<ComboVictory>)
    requires
        votes_total(views(polls@)) <= usize::MAX,
        primary != ally,
    ensures
        views(out@) == combos(built(views(polls@)), primary, ally),
{
    let all = ridings(polls);
    let ghost seen = views(all@);
    let mut out: Vec<ComboVictory> = Vec::new();
    for k in 0..all.len()
        invariant
            seen == views(all@),
            primary != ally,
            views(out@) == combos(seen.take(k as int), primary, ally),
    {
        let riding = &all[k];
        proof {
            assert(seen.take(k + 1).drop_last() =~= seen.take(k as int));
            assert(seen.take(k + 1).last() == riding@);
            riding@.lemma_two_in_tally(primary, ally);
        }
        let winner = riding.winner();
        if winner != primary {
            match (riding.candidate(winner), riding.candidate(primary), riding.candidate(ally)) {
                (Some(first), Some(own), Some(other)) => {
                    let combined_votes = own.votes + other.votes;
                    if combined_votes > first.votes {
                        let ghost made = views(out@);
                        let win = ComboVictory {
                            riding: riding.name().clone(),
                            winner,
                            winner_votes: first.votes,
                            combined_votes,
                            difference: combined_votes - first.votes,
                        };
                        out.push(win);
                        assert(views(out@) =~= made.push(win@));
                    }
                },
                _ => {},
            }
        }
    }
    assert(seen.take(all.len() as int) =~= seen);
    out
}

/// For the ridings in which the Conservatives lost: would the votes of the Conservatives and
/// of the People's Party together have swung the result?
pub fn ppc_con(polls: Vec<Poll>) -> (out: Vec<ComboVictory>)
    requires
        votes_total(views(polls@)) <= usize::MAX,
    ensures
        views(out@) == combos(built(views(polls@)), Party::CON, Party::PPC),
{
    combined_victories(polls, Party::CON, Party::PPC)
}

/// The margin of each riding in which at least two candidates stood, in the order of
/// `ridings`.
pub open spec fn margin_rows(ridings: Seq<RidingView>) -> Seq<VictoryMarginView>
    decreases ridings.len(),
{
    if ridings.len() == 0 {
        Seq::empty()
    } else {
        let before = margin_rows(ridings.drop_last());
        let riding = ridings.last();
        if riding.count() >= 2 {
            before.push(
                VictoryMarginView {
                    riding: riding.name,
                    winner: riding.winner(),
                    margin: riding.margin(),
                },
            )
        } else {
            before
        }
    }
}

/// The ridings in which at least two candidates stood, ordered by the margin of victory, the
/// closest race first. Ridings with the same margin stay in the order of the polls.
pub fn victory_margins(polls: Vec<Poll>) -> (out: Vec<VictoryMargin>)
    requires
        votes_total(views(polls@)) <= usize::MAX,
    ensures
        views(out@) == sorted::<VictoryMargin>(margin_rows(built(views(polls@)))),
        ordered::<VictoryMargin>(views(out@)),
{
    let all = ridings(polls);
    let ghost seen = views(all@);
    let mut rows: Vec<VictoryMargin> = Vec::new();
    for k in 0..all.len()
        invariant
            seen == views(all@),
            views(rows@) == margin_rows(seen.take(k as int)),
    {
        let riding = &all[k];
        proof {
            assert(seen.take(k + 1).drop_last() =~= seen.take(k as int));
            assert(seen.take(k + 1).last() == riding@);
        }
        match riding.victory_margin() {
            Some(margin) => {
                let ghost made = views(rows@);
                let row = VictoryMargin {
                    riding: riding.name().clone(),
                    winner: riding.winner(),
                    margin,
                };
                rows.push(row);
                assert(views(rows@) =~= made.push(row@));
            },
            None => {},
        }
    }
    assert(seen.take(all.len() as int) =~= seen);
    sort_stable(rows)
}

/// What the report says of the candidate of `party` in a riding where it has one.
pub open spec fn party_row(riding: RidingView, party: Party) -> PartyResultsView {
    let candidate = riding.candidates[party];
    PartyResultsView {
        riding: riding.name,
        party,
        last_name: candidate.last_name,
        first_name: candidate.first_name,
        votes: candidate.votes,
        ratio: Share { num: candidate.votes, den: riding.tally() },
        won: riding.winner() == party,
    }
}

/// The results of `party` in each riding where it has a candidate, in the order of `ridings`.
pub open spec fn party_rows(ridings: Seq<RidingView>, party: Party) -> Seq<PartyResultsView>
    decreases ridings.len(),
{
    if ridings.len() == 0 {
        Seq::empty()
    } else {
        let before = party_rows(ridings.drop_last(), party);
        if ridings.last().candidates.dom().contains(party) {
            before.push(party_row(ridings.last(), party))
        } else {
            before
        }
    }
}

/// How the given party did in every riding where it had a candidate, ordered by the share of
/// the riding's votes that the candidate got, the smallest first. Ridings with the same share
/// stay in the order of the polls.
pub fn party_results(polls: Vec<Poll>, party: Party) -> (out: Vec<PartyResults>)
    requires
        votes_total(views(polls@)) <= usize::MAX,
    ensures
        views(out@) == sorted::<PartyResults>(party_rows(built(views(polls@)), party)),
        ordered::<PartyResults>(views(out@)),
{
    let all = ridings(polls);
    let ghost seen = views(all@);
    let mut rows: Vec<PartyResults> = Vec::new();
    for k in 0..all.len()
        invariant
            seen == views(all@),
            views(rows@) == party_rows(seen.take(k as int), party),
    {
        let riding = &all[k];
        proof {
            assert(seen.take(k + 1).drop_last() =~= seen.take(k as int));
            assert(seen.take(k + 1).last() == riding@);
        }
        match riding.candidate(party) {
            Some(candidate) => {
                let ghost made = views(rows@);
                let row = PartyResults {
                    riding: riding.name().clone(),
                    party,
                    last_name: candidate.last_name.clone(),
                    first_name: candidate.first_name.clone(),
                    votes: candidate.votes,
                    ratio: Ratio { num: candidate.votes, den: riding.total_votes() },
                    won: riding.was_winner(&party),
                };
                rows.push(row);
                assert(views(rows@) =~= made.push(row@));
            },
            None => {},
        }
    }
    assert(seen.take(all.len() as int) =~= seen);
    sort_stable(rows)
}

/// What `party` got in these ridings: its votes, its seats, and whether it stood anywhere.
fn party_count(all: &Vec<Riding>, party: Party) -> (found: (usize, usize, bool))
    requires
        grand_total(views(all@)) <= usize::MAX,
    ensures
        found.0 == party_votes(views(all@), party),
        found.1 == party_seats(views(all@), party),
        found.2 == party_stands(views(all@), party),
{
    let ghost seen = views(all@);
    let mut votes: usize = 0;
    let mut seats: usize = 0;
    let mut stands = false;
    for k in 0..all.len()
        invariant
            seen == views(all@),
            grand_total(seen) <= usize::MAX,
            votes == party_votes(seen.take(k as int), party),
            seats == party_seats(seen.take(k as int), party),
            stands == party_stands(seen.take(k as int), party),
    {
        let riding = &all[k];
        proof {
            assert(seen.take(k + 1).drop_last() =~= seen.take(k as int));
            assert(seen.take(k + 1).last() == riding@);
            lemma_party_votes_bound(seen.take(k + 1), party);
            lemma_grand_total_prefix(seen, k + 1);
            lemma_party_seats_bound(seen.take(k as int), party);
        }
        match riding.candidate(party) {
            Some(candidate) => {
                votes = votes + candidate.votes;
                stands = true;
            },
            None => {},
        }
        if riding.was_winner(&party) {
            seats = seats + 1;
        }
    }
    assert(seen.take(all.len() as int) =~= seen);
    (votes, seats, stands)
}

/// All the votes cast in these ridings.
fn count_all(all: &Vec<Riding>) -> (total: usize)
    requires
        grand_total(views(all@)) <= usize::MAX,
    ensures
        total == grand_total(views(all@)),
{
    let ghost seen = views(all@);
    let mut total: usize = 0;
    for k in 0..all.len()
        invariant
            seen == views(all@),
            grand_total(seen) <= usize::MAX,
            total == grand_total(seen.take(k as int)),
    {
        proof {
            assert(seen.take(k + 1).drop_last() =~= seen.take(k as int));
            assert(seen.take(k + 1).last() == all[k as int]@);
            lemma_grand_total_prefix(seen, k + 1);
        }
        total = total + all[k].total_votes();
    }
    assert(seen.take(all.len() as int) =~= seen);
    total
}

/// The votes of one party are among the votes of all.
pub proof fn lemma_party_votes_bound(ridings: Seq<RidingView>, party: Party)
    ensures
        party_votes(ridings, party) <= grand_total(ridings),
    decreases ridings.len(),
{
    if ridings.len() > 0 {
        lemma_party_votes_bound(ridings.drop_last(), party);
        ridings.last().lemma_votes_in_tally(party);
    }
}

/// A party wins no more ridings than there are.
pub proof fn lemma_party_seats_bound(ridings: Seq<RidingView>, party: Party)
    ensures
        party_seats(ridings, party) <= ridings.len(),
    decreases ridings.len(),
{
    if ridings.len() > 0 {
        lemma_party_seats_bound(ridings.drop_last(), party);
    }
}

/// The votes that the first `n` parties of the list got in all these ridings.
spec fn votes_below(ridings: Seq<RidingView>, n: nat) -> nat
    decreases ridings.len(),
{
    if ridings.len() == 0 {
        0
    } else {
        votes_below(ridings.drop_last(), n) + ridings.last().tally_below(n)
    }
}

/// A party without a candidate has no votes.
proof fn lemma_absent_votes(ridings: Seq<RidingView>, party: Party)
    requires
        !party_stands(ridings, party),
    ensures
        party_votes(ridings, party) == 0,
    decreases ridings.len(),
{
    if ridings.len() > 0 {
        lemma_absent_votes(ridings.drop_last(), party);
    }
}

proof fn lemma_votes_below_none(ridings: Seq<RidingView>)
    ensures
        votes_below(ridings, 0) == 0,
    decreases ridings.len(),
{
    if ridings.len() > 0 {
        lemma_votes_below_none(ridings.drop_last());
    }
}

/// One more party adds its votes.
proof fn lemma_votes_below_step(ridings: Seq<RidingView>, n: nat)
    requires
        n > 0,
    ensures
        votes_below(ridings, n) == votes_below(ridings, (n - 1) as nat) + party_votes(
            ridings,
            Party::at((n - 1) as nat),
        ),
    decreases ridings.len(),
{
    if ridings.len() > 0 {
        lemma_votes_below_step(ridings.drop_last(), n);
    }
}

/// All the parties of the list have all the votes.
proof fn lemma_votes_below_all(ridings: Seq<RidingView>)
    ensures
        votes_below(ridings, PARTY_COUNT as nat) == grand_total(ridings),
    decreases ridings.len(),
{
    if ridings.len() > 0 {
        lemma_votes_below_all(ridings.drop_last());
    }
}

proof fn lemma_counted_below(ridings: Seq<RidingView>, n: nat)
    ensures
        counted_votes(totals_below(ridings, n)) == votes_below(ridings, n),
    decreases n,
{
    if n == 0 {
        lemma_votes_below_none(ridings);
    } else {
        let before = totals_below(ridings, (n - 1) as nat);
        let party = Party::at((n - 1) as nat);
        lemma_counted_below(ridings, (n - 1) as nat);
        lemma_votes_below_step(ridings, n);
        if party_stands(ridings, party) {
            assert(before.push(vote_count(ridings, party)).drop_last() =~= before);
        } else {
            lemma_absent_votes(ridings, party);
        }
    }
}

/// How many of these ridings were won by one of the first `n` parties of the list.
spec fn seats_below(ridings: Seq<RidingView>, n: nat) -> nat
    decreases ridings.len(),
{
    if ridings.len() == 0 {
        0
    } else if ridings.last().winner().rank() < n {
        seats_below(ridings.drop_last(), n) + 1
    } else {
        seats_below(ridings.drop_last(), n)
    }
}

/// A party without a candidate wins nothing.
proof fn lemma_absent_seats(ridings: Seq<RidingView>, party: Party)
    requires
        all_contested(ridings),
        !party_stands(ridings, party),
    ensures
        party_seats(ridings, party) == 0,
    decreases ridings.len(),
{
    if ridings.len() > 0 {
        let front = ridings.drop_last();
        assert forall|i: int| 0 <= i < front.len() implies (#[trigger] front[i]).count() >= 1 by {
            assert(ridings[i].count() >= 1);
        }
        lemma_absent_seats(front, party);
        assert(ridings[ridings.len() - 1].count() >= 1);
        ridings.last().lemma_has_winner();
    }
}

proof fn lemma_seats_below_none(ridings: Seq<RidingView>)
    ensures
        seats_below(ridings, 0) == 0,
    decreases ridings.len(),
{
    if ridings.len() > 0 {
        lemma_seats_below_none(ridings.drop_last());
    }
}

/// One more party adds its seats.
proof fn lemma_seats_below_step(ridings: Seq<RidingView>, n: nat)
    requires
        0 < n <= PARTY_COUNT,
    ensures
        seats_below(ridings, n) == seats_below(ridings, (n - 1) as nat) + party_seats(
            ridings,
            Party::at((n - 1) as nat),
        ),
    decreases ridings.len(),
{
    if ridings.len() > 0 {
        lemma_seats_below_step(ridings.drop_last(), n);
        Party::lemma_rank_at();
        let first = ridings.last().winner();
        assert(Party::at(first.rank()) == first);
        assert(Party::at((n - 1) as nat).rank() == n - 1);
    }
}

/// All the parties of the list have all the seats.
proof fn lemma_seats_below_all(ridings: Seq<RidingView>)
    ensures
        seats_below(ridings, PARTY_COUNT as nat) == ridings.len(),
    decreases ridings.len(),
{
    if ridings.len() > 0 {
        lemma_seats_below_all(ridings.drop_last());
        Party::lemma_rank_at();
    }
}

proof fn lemma_counted_seats_below(ridings: Seq<RidingView>, n: nat)
    requires
        all_contested(ridings),
        n <= PARTY_COUNT,
    ensures
        counted_seats(totals_below(ridings, n)) == seats_below(ridings, n),
    decreases n,
{
    if n == 0 {
        lemma_seats_below_none(ridings);
    } else {
        let before = totals_below(ridings, (n - 1) as nat);
        let party = Party::at((n - 1) as nat);
        lemma_counted_seats_below(ridings, (n - 1) as nat);
        lemma_seats_below_step(ridings, n);
        if party_stands(ridings, party) {
            assert(before.push(vote_count(ridings, party)).drop_last() =~= before);
        } else {
            lemma_absent_seats(ridings, party);
        }
    }
}

} // verus!
