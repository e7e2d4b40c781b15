//! Ridings: who stood in an electoral district, what each of them got, and who won.

use vstd::prelude::*;

use crate::party::Party;
use crate::party::PARTY_COUNT;
use crate::poll::lemma_votes_total_prefix;
use crate::poll::votes_total;
use crate::poll::Poll;
use crate::poll::PollView;
use crate::ratio::Ratio;
use crate::ratio::Share;
use crate::views::views;

verus! {

/// Someone who stood in a riding, with the votes they got.
#[derive(Clone, Debug, PartialEq, Eq)]
pub struct Candidate {
    pub last_name: String,
    pub first_name: String,
    pub votes: usize,
}

/// A candidate as the contracts see them.
pub struct CandidateView {
    pub last_name: Seq<char>,
    pub first_name: Seq<char>,
    pub votes: nat,
}

impl View for Candidate {
    type V = CandidateView;

    open spec fn view(&self) -> CandidateView {
        CandidateView {
            last_name: self.last_name@,
            first_name: self.first_name@,
            votes: self.votes as nat,
        }
    }
}

/// A riding as the contracts see it: its name, and at most one candidate for each party.
pub struct RidingView {
    pub name: Seq<char>,
    pub candidates: Map<Party, CandidateView>,
}

/// The candidate that a poll counts votes for.
pub open spec fn candidate_of(poll: PollView) -> CandidateView {
    CandidateView { last_name: poll.last_name, first_name: poll.first_name, votes: poll.votes }
}

impl RidingView {
    /// The votes of `party` in this riding: none where it has no candidate.
    pub open spec fn votes_for(self, party: Party) -> nat {
        if self.candidates.dom().contains(party) {
            self.candidates[party].votes
        } else {
            0
        }
    }

    /// The votes of the first `n` parties of the list.
    pub open spec fn tally_below(self, n: nat) -> nat
        decreases n,
    {
        if n == 0 {
            0
        } else {
            self.tally_below((n - 1) as nat) + self.votes_for(Party::at((n - 1) as nat))
        }
    }

    /// All the votes cast in this riding.
    pub open spec fn tally(self) -> nat {
        self.tally_below(PARTY_COUNT as nat)
    }

    /// How many of the first `n` parties of the list have a candidate here.
    pub open spec fn count_below(self, n: nat) -> nat
        decreases n,
    {
        if n == 0 {
            0
        } else if self.candidates.dom().contains(Party::at((n - 1) as nat)) {
            self.count_below((n - 1) as nat) + 1
        } else {
            self.count_below((n - 1) as nat)
        }
    }

    /// How many candidates stood in this riding.
    pub open spec fn count(self) -> nat {
        self.count_below(PARTY_COUNT as nat)
    }

    /// `party` has a candidate here whom no other candidate beats: none has more votes, and
    /// none with as many votes stands for a party that comes earlier in the list.
    pub open spec fn leads(self, party: Party) -> bool {
        &&& self.candidates.dom().contains(party)
        &&& forall|other: Party| #[trigger]
            self.candidates.dom().contains(other) ==> self.votes_for(other) < self.votes_for(party)
                || (self.votes_for(other) == self.votes_for(party) && party.rank()
                <= other.rank())
    }

    /// The party that won this riding.
    pub open spec fn winner(self) -> Party {
        choose|party: Party| self.leads(party)
    }

    /// The most votes that a candidate other than that of `party` got, among the first `n`
    /// parties of the list.
    pub open spec fn rival_votes_below(self, party: Party, n: nat) -> nat
        decreases n,
    {
        if n == 0 {
            0
        } else {
            let up_to = self.rival_votes_below(party, (n - 1) as nat);
            let next = Party::at((n - 1) as nat);
            if next != party && self.votes_for(next) > up_to {
                self.votes_for(next)
            } else {
                up_to
            }
        }
    }

    /// The votes of the runner-up: the most that a candidate other than the winner got.
    pub open spec fn runner_up_votes(self) -> nat {
        self.rival_votes_below(self.winner(), PARTY_COUNT as nat)
    }

    /// The margin of victory: the winner's lead over the runner-up, as a share of all votes.
    pub open spec fn margin(self) -> Share {
        Share {
            num: (self.votes_for(self.winner()) - self.runner_up_votes()) as nat,
            den: self.tally(),
        }
    }

    /// This riding with `candidate` seated for `party`, in the place of an earlier one.
    pub open spec fn seat(self, party: Party, candidate: CandidateView) -> RidingView {
        RidingView { candidates: self.candidates.insert(party, candidate), ..self }
    }
}

/// The riding that one run of polls makes: it has the name of the first, and each poll seats
/// its candidate for its party, in the place of an earlier one for that party.
pub open spec fn riding_of(run: Seq<PollView>) -> RidingView
    decreases run.len(),
{
    if run.len() <= 1 {
        RidingView {
            name: run[0].riding,
            candidates: Map::empty().insert(run[0].party, candidate_of(run[0])),
        }
    } else {
        riding_of(run.drop_last()).seat(run.last().party, candidate_of(run.last()))
    }
}

/// An electoral district with its candidates, at most one for each party. A riding has at
/// least one candidate, and the votes of its candidates can be counted in a `usize`.
#[derive(Debug)]
pub struct Riding {
    name: String,
    slots: Vec<Option<Candidate>>,
}

impl View for Riding {
    type V = RidingView;

    closed spec fn view(&self) -> RidingView {
        RidingView { name: self.name@, candidates: seated(self.slots@) }
    }
}

/// The candidates that a row of slots holds, one slot for each party in the order of the list.
spec fn seated(slots: Seq<Option<Candidate>>) -> Map<Party, CandidateView> {
    Map::new(
        |party: Party| slots[party.rank() as int] is Some,
        |party: Party| slots[party.rank() as int]->0@,
    )
}

impl Riding {
    /// There is a slot for each party, one of them at least holds a candidate, and the votes
    /// of all candidates can be counted in a `usize`.
    #[verifier::type_invariant]
    spec fn sound(&self) -> bool {
        &&& self.slots@.len() == PARTY_COUNT
        &&& exists|i: int| 0 <= i < PARTY_COUNT && (#[trigger] self.slots@[i]) is Some
        &&& self@.tally() <= usize::MAX
    }

    /// The name of the riding.
    pub fn name(&self) -> (name: &String)
        ensures
            name@ == self@.name,
    {
        &self.name
    }

    /// The candidate of `party` in this riding, if it has one.
    pub fn candidate(&self, party: Party) -> (found: Option<&Candidate>)
        ensures
            match found {
                Some(candidate) => self@.candidates.dom().contains(party)
                    && candidate@ == self@.candidates[party],
                None => !self@.candidates.dom().contains(party),
            },
            self@.tally() <= usize::MAX,
    {
        proof {
            use_type_invariant(self);
        }
        self.slots[party.index()].as_ref()
    }

    /// How many candidates stood in this riding.
    pub fn candidate_count(&self) -> (n: usize)
        ensures
            n == self@.count(),
            n >= 1,
    {
        proof {
            use_type_invariant(self);
            Party::lemma_rank_at();
        }
        let ghost filled = choose|i: int|
            0 <= i < PARTY_COUNT && (#[trigger] self.slots@[i]) is Some;
        let mut n: usize = 0;
        for i in 0..PARTY_COUNT
            invariant
                self.slots@.len() == PARTY_COUNT,
                n == self@.count_below(i as nat),
                n <= i,
                0 <= filled < PARTY_COUNT && self.slots@[filled] is Some,
                filled < i ==> n >= 1,
        {
            proof {
                Party::lemma_rank_at();
                assert(Party::at(i as nat).rank() == i);
            }
            if self.slots[i].is_some() {
                n = n + 1;
            }
        }
        n
    }

    /// The total votes in this riding.
    pub fn total_votes(&self) -> (total: usize)
        ensures
            total == self@.tally(),
    {
        proof {
            use_type_invariant(self);
        }
        let mut total: usize = 0;
        for i in 0..PARTY_COUNT
            invariant
                self.slots@.len() == PARTY_COUNT,
                self@.tally() <= usize::MAX,
                total == self@.tally_below(i as nat),
        {
            proof {
                Party::lemma_rank_at();
                assert(Party::at(i as nat).rank() == i);
                self@.lemma_tally_grows((i + 1) as nat, PARTY_COUNT as nat);
            }
            match &self.slots[i] {
                Some(candidate) => {
                    total = total + candidate.votes;
                },
                None => {},
            }
        }
        total
    }

    /// The victorious party in this riding: that of the candidate with the most votes, and
    /// among several with the most votes the party that comes first in the list of parties.
    pub fn winner(&self) -> (party: Party)
        ensures
            self@.leads(party),
            party == self@.winner(),
    {
        proof {
            use_type_invariant(self);
        }
        let ghost filled = choose|i: int|
            0 <= i < PARTY_COUNT && (#[trigger] self.slots@[i]) is Some;
        let mut best: usize = 0;
        let mut most: usize = 0;
        let mut found = false;
        for i in 0..PARTY_COUNT
            invariant
                self.slots@.len() == PARTY_COUNT,
                0 <= filled < PARTY_COUNT && self.slots@[filled] is Some,
                filled < i ==> found,
                found ==> best < i && self.slots@[best as int] is Some
                    && self.slots@[best as int]->0.votes == most,
                forall|j: int|
                    0 <= j < i && (#[trigger] self.slots@[j]) is Some ==> found && (
                    self.slots@[j]->0.votes < most || (self.slots@[j]->0.votes == most && best
                        <= j)),
        {
            match &self.slots[i] {
                Some(candidate) => {
                    if !found || candidate.votes > most {
                        best = i;
                        most = candidate.votes;
                        found = true;
                    }
                },
                None => {},
            }
        }
        let party = Party::from_index(best);
        proof {
            Party::lemma_rank_at();
            assert(self@.leads(party)) by {
                assert forall|other: Party| #[trigger]
                    self@.candidates.dom().contains(other) implies self@.votes_for(other)
                    < self@.votes_for(party) || (self@.votes_for(other) == self@.votes_for(party)
                    && party.rank() <= other.rank()) by {
                    assert(self.slots@[other.rank() as int] is Some);
                }
            }
            self@.lemma_one_leads(party, self@.winner());
        }
        party
    }

    /// Was the given party the winner of this riding?
    pub fn was_winner(&self, party: &Party) -> (won: bool)
        ensures
            won == (*party == self@.winner()),
    {
        *party == self.winner()
    }

    /// The margin of victory for this riding: the winner's lead over the runner-up as a share
    /// of all votes, where at least two candidates stood. The lead is never more than all the
    /// votes, and it is nothing only where a rival has as many votes as the winner.
    pub fn victory_margin(&self) -> (margin: Option<Ratio>)
        ensures
            margin is Some <==> self@.count() >= 2,
            margin matches Some(m) ==> m@ == self@.margin() && m.num == self@.votes_for(
                self@.winner(),
            ) - self@.runner_up_votes(),
            margin matches Some(m) ==> m.num <= m.den && (m.num == 0 ==> exists|rival: Party|
                rival != self@.winner() && #[trigger] self@.candidates.dom().contains(rival)
                    && self@.votes_for(rival) == self@.votes_for(self@.winner())),
    {
        proof {
            use_type_invariant(self);
        }
        if self.candidate_count() < 2 {
            return None;
        }
        let total = self.total_votes();
        let first = self.winner();
        let top = match self.candidate(first) {
            Some(candidate) => candidate.votes,
            None => 0,
        };
        let mut second: usize = 0;
        for i in 0..PARTY_COUNT
            invariant
                self.slots@.len() == PARTY_COUNT,
                second == self@.rival_votes_below(first, i as nat),
        {
            proof {
                Party::lemma_rank_at();
                assert(Party::at(i as nat).rank() == i);
            }
            if i != first.index() {
                match &self.slots[i] {
                    Some(candidate) => {
                        if candidate.votes > second {
                            second = candidate.votes;
                        }
                    },
                    None => {},
                }
            }
        }
        proof {
            self@.lemma_margin_bounds();
        }
        Some(Ratio { num: top - second, den: total })
    }

    /// Makes the riding of one run of polls.
    pub(crate) fn from_run(run: Vec<Poll>) -> (riding: Riding)
        requires
            run.len() > 0,
            votes_total(views(run@)) <= usize::MAX,
        ensures
            riding@ == riding_of(views(run@)),
    {
        let ghost given = run@;
        let ghost all = views(run@);
        let ghost mut made = unseated(all[0].riding);
        let mut name: Option<String> = None;
        let mut slots = empty_slots();
        proof {
            assert(seated(slots@) =~= made.candidates);
            made.lemma_tally_of_none(PARTY_COUNT as nat);
        }
        for poll in it: run.into_iter()
            invariant
                it.seq() == given,
                all == views(given),
                all.len() > 0,
                votes_total(all) <= usize::MAX,
                slots@.len() == PARTY_COUNT,
                made.name == all[0].riding,
                made.candidates == seated(slots@),
                made == riding_up_to(all, it.index()),
                made.tally() <= votes_total(all.take(it.index())),
                it.index() == 0 ==> name is None,
                it.index() > 0 ==> name is Some && name->0@ == made.name,
                it.index() > 0 ==> exists|i: int|
                    0 <= i < PARTY_COUNT && (#[trigger] slots@[i]) is Some,
        {
            let ghost n = it.index();
            let ghost before = made;
            let Poll { riding, party, last_name, first_name, votes } = poll;
            let candidate = Candidate { last_name, first_name, votes };
            if name.is_none() {
                name = Some(riding);
            }
            let at = party.index();
            let ghost slots0 = slots@;
            slots.set(at, Some(candidate));
            proof {
                made = before.seat(party, candidate@);
                assert(slots@[at as int] is Some);
                lemma_seated_set(slots0, party, candidate);
                lemma_run_step(all, n, before);
            }
        }
        proof {
            assert(all.take(all.len() as int) =~= all);
        }
        Riding { name: name.unwrap(), slots }
    }
}

/// A row of empty slots, one for each party.
fn empty_slots() -> (slots: Vec<Option<Candidate>>)
    ensures
        slots@.len() == PARTY_COUNT,
        forall|i: int| 0 <= i < slots@.len() ==> slots@[i] is None,
{
    let mut slots: Vec<Option<Candidate>> = Vec::new();
    while slots.len() < PARTY_COUNT
        invariant
            slots@.len() <= PARTY_COUNT,
            forall|i: int| 0 <= i < slots@.len() ==> slots@[i] is None,
        decreases PARTY_COUNT - slots@.len(),
    {
        slots.push(None);
    }
    slots
}

/// Filling the slot of a party seats the candidate for it.
proof fn lemma_seated_set(slots: Seq<Option<Candidate>>, party: Party, candidate: Candidate)
    requires
        slots.len() == PARTY_COUNT,
    ensures
        seated(slots.update(party.rank() as int, Some(candidate))) == seated(slots).insert(
            party,
            candidate@,
        ),
{
    Party::lemma_rank_at();
    let after = slots.update(party.rank() as int, Some(candidate));
    assert forall|other: Party| other != party implies other.rank() != party.rank() by {
        assert(Party::at(other.rank()) == other);
        assert(Party::at(party.rank()) == party);
    }
    assert(seated(after) =~= seated(slots).insert(party, candidate@));
}

/// A riding of this name in which nobody is seated yet.
spec fn unseated(name: Seq<char>) -> RidingView {
    RidingView { name, candidates: Map::empty() }
}

/// The riding that the first `n` polls of a run make; nobody is seated before the first.
spec fn riding_up_to(run: Seq<PollView>, n: int) -> RidingView {
    if n == 0 {
        unseated(run[0].riding)
    } else {
        riding_of(run.take(n))
    }
}

/// Seating the candidate of one more poll of the run.
proof fn lemma_run_step(run: Seq<PollView>, n: int, before: RidingView)
    requires
        0 <= n < run.len(),
        before == riding_up_to(run, n),
        before.tally() <= votes_total(run.take(n)),
    ensures
        before.seat(run[n].party, candidate_of(run[n])) == riding_up_to(run, n + 1),
        before.seat(run[n].party, candidate_of(run[n])).tally() <= votes_total(run.take(n + 1)),
        votes_total(run.take(n + 1)) <= votes_total(run),
{
    assert(run.take(n + 1).drop_last() =~= run.take(n));
    assert(run.take(n + 1).last() == run[n]);
    before.lemma_seat_tally(run[n].party, candidate_of(run[n]), PARTY_COUNT as nat);
    lemma_votes_total_prefix(run, n + 1);
    if n == 0 {
        assert(run.take(1).len() == 1);
        assert(run.take(1)[0] == run[0]);
    }
}

impl RidingView {
    /// Where somebody stands, somebody wins: the winner leads.
    pub proof fn lemma_has_winner(self)
        requires
            self.count() >= 1,
        ensures
            self.leads(self.winner()),
    {
        Party::lemma_rank_at();
        self.lemma_front_runner(PARTY_COUNT as nat);
        let first = self.front_runner(PARTY_COUNT as nat);
        assert(self.leads(first)) by {
            assert forall|other: Party| #[trigger]
                self.candidates.dom().contains(other) implies self.votes_for(other)
                < self.votes_for(first) || (self.votes_for(other) == self.votes_for(first)
                && first.rank() <= other.rank()) by {
                assert(other.rank() < PARTY_COUNT);
            }
        }
    }

    /// Only one party leads.
    pub proof fn lemma_one_leads(self, a: Party, b: Party)
        requires
            self.leads(a),
            self.leads(b),
        ensures
            a == b,
    {
        Party::lemma_rank_at();
        assert(Party::at(a.rank()) == a);
        assert(Party::at(b.rank()) == b);
    }

    /// Margin bounds: where at least two candidates stood, the runner-up has no more votes
    /// than the winner, the winner's lead is no more than all the votes, and the lead is
    /// nothing only where a rival has exactly as many votes as the winner.
    pub proof fn lemma_margin_bounds(self)
        requires
            self.count() >= 2,
        ensures
            self.runner_up_votes() <= self.votes_for(self.winner()),
            self.margin().num <= self.margin().den,
            self.margin().num == 0 ==> exists|rival: Party|
                rival != self.winner() && #[trigger] self.candidates.dom().contains(rival)
                    && self.votes_for(rival) == self.votes_for(self.winner()),
    {
        Party::lemma_rank_at();
        self.lemma_has_winner();
        let first = self.winner();
        self.lemma_rival(first, PARTY_COUNT as nat);
        self.lemma_votes_in_tally(first);
        let rival = self.rival_below(first, PARTY_COUNT as nat);
        assert(self.candidates.dom().contains(rival));
    }

    /// The votes of one party are among the votes of all.
    pub proof fn lemma_votes_in_tally(self, party: Party)
        ensures
            self.votes_for(party) <= self.tally(),
    {
        Party::lemma_rank_at();
        let r = party.rank();
        assert(Party::at(r) == party);
        assert(self.tally_below(r + 1) == self.tally_below(r) + self.votes_for(party));
        self.lemma_tally_grows(r + 1, PARTY_COUNT as nat);
    }

    /// The votes of two parties together are among the votes of all.
    pub proof fn lemma_two_in_tally(self, a: Party, b: Party)
        requires
            a != b,
        ensures
            self.votes_for(a) + self.votes_for(b) <= self.tally(),
    {
        Party::lemma_rank_at();
        self.lemma_two_in_tally_below(a, b, PARTY_COUNT as nat);
    }

    /// A riding in which a party has a candidate has at least that one candidate.
    pub proof fn lemma_stands_counts(self, party: Party)
        requires
            self.candidates.dom().contains(party),
        ensures
            self.count() >= 1,
    {
        Party::lemma_rank_at();
        let r = party.rank();
        assert(Party::at(r) == party);
        assert(self.count_below(r + 1) == self.count_below(r) + 1);
        self.lemma_count_grows(r + 1, PARTY_COUNT as nat);
    }

    /// Seating a candidate changes the votes of that party and of no other.
    pub proof fn lemma_seat_tally(self, party: Party, candidate: CandidateView, n: nat)
        requires
            n <= PARTY_COUNT,
        ensures
            self.seat(party, candidate).tally_below(n) + (if party.rank() < n {
                self.votes_for(party)
            } else {
                0
            }) == self.tally_below(n) + (if party.rank() < n {
                candidate.votes
            } else {
                0
            }),
        decreases n,
    {
        if n > 0 {
            self.lemma_seat_tally(party, candidate, (n - 1) as nat);
            Party::lemma_rank_at();
            assert(Party::at((n - 1) as nat).rank() == n - 1);
        }
    }

    /// Seating a candidate for a party that had none adds one to the candidates.
    pub proof fn lemma_seat_count(self, party: Party, candidate: CandidateView, n: nat)
        requires
            n <= PARTY_COUNT,
            !self.candidates.dom().contains(party),
        ensures
            self.seat(party, candidate).count_below(n) == self.count_below(n) + (if party.rank()
                < n {
                1nat
            } else {
                0nat
            }),
        decreases n,
    {
        if n > 0 {
            self.lemma_seat_count(party, candidate, (n - 1) as nat);
            Party::lemma_rank_at();
            assert(Party::at((n - 1) as nat).rank() == n - 1);
        }
    }

    /// The first parties of the list have no more votes than a longer stretch of it.
    pub proof fn lemma_tally_grows(self, n: nat, m: nat)
        requires
            n <= m,
        ensures
            self.tally_below(n) <= self.tally_below(m),
        decreases m,
    {
        if n < m {
            self.lemma_tally_grows(n, (m - 1) as nat);
        }
    }

    /// The first parties of the list have no more candidates than a longer stretch of it.
    pub proof fn lemma_count_grows(self, n: nat, m: nat)
        requires
            n <= m,
        ensures
            self.count_below(n) <= self.count_below(m),
        decreases m,
    {
        if n < m {
            self.lemma_count_grows(n, (m - 1) as nat);
        }
    }

    /// Where nobody stands, nobody has votes.
    pub proof fn lemma_tally_of_none(self, n: nat)
        requires
            self.candidates.dom() =~= Set::empty(),
        ensures
            self.tally_below(n) == 0,
        decreases n,
    {
        if n > 0 {
            self.lemma_tally_of_none((n - 1) as nat);
        }
    }

    /// Where nobody stands, there are no candidates to count.
    pub proof fn lemma_count_of_none(self, n: nat)
        requires
            self.candidates.dom() =~= Set::empty(),
        ensures
            self.count_below(n) == 0,
        decreases n,
    {
        if n > 0 {
            self.lemma_count_of_none((n - 1) as nat);
        }
    }

    /// The votes of two parties are among the votes of the first `n` parties, where both are
    /// among these.
    pub proof fn lemma_two_in_tally_below(self, a: Party, b: Party, n: nat)
        requires
            a != b,
            n <= PARTY_COUNT,
        ensures
            (if a.rank() < n {
                self.votes_for(a)
            } else {
                0
            }) + (if b.rank() < n {
                self.votes_for(b)
            } else {
                0
            }) <= self.tally_below(n),
        decreases n,
    {
        if n > 0 {
            self.lemma_two_in_tally_below(a, b, (n - 1) as nat);
            Party::lemma_rank_at();
            assert(Party::at((n - 1) as nat).rank() == n - 1);
            assert(Party::at(a.rank()) == a);
            assert(Party::at(b.rank()) == b);
        }
    }

    /// Who is ahead among the first `n` parties of the list: the first of those with the
    /// most votes.
    spec fn front_runner(self, n: nat) -> Party
        decreases n,
    {
        if n == 0 {
            Party::at(0)
        } else {
            let ahead = self.front_runner((n - 1) as nat);
            let next = Party::at((n - 1) as nat);
            if self.candidates.dom().contains(next) && (self.count_below((n - 1) as nat) == 0
                || self.votes_for(next) > self.votes_for(ahead)) {
                next
            } else {
                ahead
            }
        }
    }

    /// The front runner among the first `n` parties stands, and none of these parties beats
    /// it.
    proof fn lemma_front_runner(self, n: nat)
        requires
            n <= PARTY_COUNT,
            self.count_below(n) >= 1,
        ensures
            self.candidates.dom().contains(self.front_runner(n)),
            self.front_runner(n).rank() < n,
            forall|other: Party| #[trigger]
                self.candidates.dom().contains(other) && other.rank() < n ==> self.votes_for(other)
                    < self.votes_for(self.front_runner(n)) || (self.votes_for(other)
                    == self.votes_for(self.front_runner(n)) && self.front_runner(n).rank()
                    <= other.rank()),
        decreases n,
    {
        Party::lemma_rank_at();
        let next = Party::at((n - 1) as nat);
        assert(next.rank() == n - 1);
        if self.count_below((n - 1) as nat) >= 1 {
            self.lemma_front_runner((n - 1) as nat);
        } else {
            self.lemma_none_below((n - 1) as nat);
        }
        assert forall|other: Party| #[trigger]
            self.candidates.dom().contains(other) && other.rank() < n implies self.votes_for(other)
            < self.votes_for(self.front_runner(n)) || (self.votes_for(other) == self.votes_for(
            self.front_runner(n),
        ) && self.front_runner(n).rank() <= other.rank()) by {
            if other.rank() == n - 1 {
                assert(Party::at(other.rank()) == other);
            }
        }
    }

    /// Where none of the first `n` parties is counted, none of them stands.
    proof fn lemma_none_below(self, n: nat)
        requires
            n <= PARTY_COUNT,
            self.count_below(n) == 0,
        ensures
            forall|party: Party| #[trigger]
                self.candidates.dom().contains(party) ==> party.rank() >= n,
        decreases n,
    {
        if n > 0 {
            Party::lemma_rank_at();
            self.lemma_none_below((n - 1) as nat);
            assert forall|party: Party| #[trigger]
                self.candidates.dom().contains(party) implies party.rank() >= n by {
                if party.rank() == n - 1 {
                    assert(Party::at(party.rank()) == party);
                }
            }
        }
    }

    /// The rival with the most votes among the first `n` parties of the list: the first of
    /// those candidates other than that of `party` who have the most votes.
    spec fn rival_below(self, party: Party, n: nat) -> Party
        decreases n,
    {
        if n == 0 {
            party
        } else {
            let so_far = self.rival_below(party, (n - 1) as nat);
            let next = Party::at((n - 1) as nat);
            if next != party && self.candidates.dom().contains(next) && (so_far == party
                || self.votes_for(next) > self.votes_for(so_far)) {
                next
            } else {
                so_far
            }
        }
    }

    /// Where `party` leads: the rival with the most votes among the first `n` parties has the
    /// votes of the runner-up there, and no more than `party`; and there is such a rival
    /// unless no candidate but that of `party` stands among these parties.
    proof fn lemma_rival(self, party: Party, n: nat)
        requires
            n <= PARTY_COUNT,
            self.leads(party),
        ensures
            self.rival_votes_below(party, n) <= self.votes_for(party),
            self.rival_below(party, n) == party ==> self.rival_votes_below(party, n) == 0
                && self.count_below(n) <= 1,
            self.rival_below(party, n) != party ==> self.candidates.dom().contains(
                self.rival_below(party, n),
            ) && self.votes_for(self.rival_below(party, n)) == self.rival_votes_below(party, n),
        decreases n,
    {
        if n > 0 {
            Party::lemma_rank_at();
            self.lemma_rival(party, (n - 1) as nat);
            if self.rival_below(party, n) == party {
                self.lemma_lone(party, n);
            }
            let next = Party::at((n - 1) as nat);
            assert(next.rank() == n - 1);
        }
    }

    /// Where no rival of `party` stands among the first `n` parties, at most one candidate
    /// stands among them.
    proof fn lemma_lone(self, party: Party, n: nat)
        requires
            n <= PARTY_COUNT,
            self.rival_below(party, n) == party,
        ensures
            self.count_below(n) == (if self.candidates.dom().contains(party) && party.rank() < n {
                1nat
            } else {
                0nat
            }),
        decreases n,
    {
        if n > 0 {
            Party::lemma_rank_at();
            let next = Party::at((n - 1) as nat);
            assert(next.rank() == n - 1);
            assert(Party::at(party.rank()) == party);
            self.lemma_lone(party, (n - 1) as nat);
        }
    }
}

} // verus!
