//! One reported line of a count: the votes that one candidate got at one poll, or in several
//! polls put together.

use vstd::prelude::*;

use crate::party::Party;
use crate::sort::Ranked;
use crate::text::compare_text;
use crate::text::lemma_text_chain;
use crate::text::lemma_text_flipped;
use crate::text::lemma_text_level;
use crate::text::text_placing;
use crate::text::Placing;
use crate::views::views;

verus! {

/// The votes for one candidate, as one poll reported them or as several were put together.
#[derive(Clone, Debug, PartialEq, Eq)]
pub struct Poll {
    pub riding: String,
    pub party: Party,
    pub last_name: String,
    pub first_name: String,
    pub votes: usize,
}

/// A poll as the contracts see it.
pub struct PollView {
    pub riding: Seq<char>,
    pub party: Party,
    pub last_name: Seq<char>,
    pub first_name: Seq<char>,
    pub votes: nat,
}

impl View for Poll {
    type V = PollView;

    open spec fn view(&self) -> PollView {
        PollView {
            riding: self.riding@,
            party: self.party,
            last_name: self.last_name@,
            first_name: self.first_name@,
            votes: self.votes as nat,
        }
    }
}

/// Where the party `a` stands relative to `b` in the list of parties.
pub open spec fn party_placing(a: Party, b: Party) -> Placing {
    if a.rank() < b.rank() {
        Placing::Before
    } else if a.rank() > b.rank() {
        Placing::After
    } else {
        Placing::Level
    }
}

impl PollView {
    /// Where this poll stands relative to `other`: by riding, then by party, then by the
    /// candidate's last name. First name and votes play no part.
    pub open spec fn placing(self, other: PollView) -> Placing {
        text_placing(self.riding, other.riding).followed_by(
            party_placing(self.party, other.party),
        ).followed_by(text_placing(self.last_name, other.last_name))
    }

    /// Both polls count votes for the same party in the same riding.
    pub open spec fn same_entry(self, other: PollView) -> bool {
        self.riding == other.riding && self.party == other.party
    }

    /// This poll with the votes of `other` added to its own.
    pub open spec fn fused(self, other: PollView) -> PollView {
        PollView { votes: self.votes + other.votes, ..self }
    }
}

impl Poll {
    /// Fuses two polls: the result is this one, with the votes of both.
    pub fn fuse(self, other: Poll) -> (out: Poll)
        requires
            self.votes + other.votes <= usize::MAX,
        ensures
            out@ == self@.fused(other@),
    {
        let mut out = self;
        out.votes = out.votes + other.votes;
        out
    }

    /// Compares two polls by riding, party and last name.
    pub fn compare(&self, other: &Poll) -> (r: Placing)
        ensures
            r == self@.placing(other@),
    {
        let by_riding = compare_text(self.riding.as_str(), other.riding.as_str());
        if by_riding != Placing::Level {
            return by_riding;
        }
        let a = self.party.index();
        let b = other.party.index();
        if a < b {
            Placing::Before
        } else if a > b {
            Placing::After
        } else {
            compare_text(self.last_name.as_str(), other.last_name.as_str())
        }
    }
}

impl Ranked for Poll {
    open spec fn precedes(a: PollView, b: PollView) -> bool {
        a.placing(b) != Placing::After
    }

    proof fn lemma_precedes_total(a: PollView, b: PollView) {
        lemma_text_flipped(a.riding, b.riding);
        lemma_text_flipped(a.last_name, b.last_name);
    }

    proof fn lemma_precedes_transitive(a: PollView, b: PollView, c: PollView) {
        lemma_text_chain(a.riding, b.riding, c.riding);
        if text_placing(a.riding, c.riding) == Placing::Level && party_placing(a.party, c.party)
            == Placing::Level {
            lemma_text_chain(a.last_name, b.last_name, c.last_name);
        }
    }

    fn comes_first(&self, other: &Poll) -> (b: bool) {
        self.compare(other) != Placing::After
    }
}

/// All the votes of `polls` together.
pub open spec fn votes_total(polls: Seq<PollView>) -> nat
    decreases polls.len(),
{
    if polls.len() == 0 {
        0
    } else {
        votes_total(polls.drop_last()) + polls.last().votes
    }
}

/// All the votes in `polls` for `party` in `riding`.
pub open spec fn entry_votes(polls: Seq<PollView>, riding: Seq<char>, party: Party) -> nat
    decreases polls.len(),
{
    if polls.len() == 0 {
        0
    } else if polls.last().riding == riding && polls.last().party == party {
        entry_votes(polls.drop_last(), riding, party) + polls.last().votes
    } else {
        entry_votes(polls.drop_last(), riding, party)
    }
}

/// Adds up the votes of `polls`, or finds that the sum is beyond what a `usize` holds.
pub fn checked_votes_total(polls: &Vec<Poll>) -> (total: Option<usize>)
    ensures
        match total {
            Some(t) => t == votes_total(views(polls@)),
            None => votes_total(views(polls@)) > usize::MAX,
        },
{
    let ghost all = views(polls@);
    let mut sum: usize = 0;
    let mut i: usize = 0;
    while i < polls.len()
        invariant
            i <= polls.len(),
            all == views(polls@),
            sum == votes_total(all.take(i as int)),
        decreases polls.len() - i,
    {
        assert(all.take(i + 1).drop_last() =~= all.take(i as int));
        match sum.checked_add(polls[i].votes) {
            Some(s) => {
                sum = s;
            },
            None => {
                proof {
                    lemma_votes_total_prefix(all, i + 1);
                }
                return None;
            },
        }
        i += 1;
    }
    assert(all.take(i as int) =~= all);
    Some(sum)
}

/// The votes of the first `n` polls are among the votes of all.
pub proof fn lemma_votes_total_prefix(polls: Seq<PollView>, n: int)
    requires
        0 <= n <= polls.len(),
    ensures
        votes_total(polls.take(n)) <= votes_total(polls),
    decreases polls.len(),
{
    if n == polls.len() {
        assert(polls.take(n) =~= polls);
    } else {
        assert(polls.drop_last().take(n) =~= polls.take(n));
        lemma_votes_total_prefix(polls.drop_last(), n);
    }
}

/// The votes of two lists laid end to end are the votes of both.
pub proof fn lemma_votes_total_concat(a: Seq<PollView>, b: Seq<PollView>)
    ensures
        votes_total(a + b) == votes_total(a) + votes_total(b),
    decreases b.len(),
{
    if b.len() == 0 {
        assert(a + b =~= a);
    } else {
        assert((a + b).drop_last() =~= a + b.drop_last());
        lemma_votes_total_concat(a, b.drop_last());
    }
}

/// Where no poll is for the party and riding of `entry`, there are no votes for them.
pub proof fn lemma_entry_votes_none(polls: Seq<PollView>, entry: PollView)
    requires
        forall|i: int| 0 <= i < polls.len() ==> !(#[trigger] polls[i]).same_entry(entry),
    ensures
        entry_votes(polls, entry.riding, entry.party) == 0,
    decreases polls.len(),
{
    if polls.len() > 0 {
        assert(!polls[polls.len() - 1].same_entry(entry));
        assert forall|i: int| 0 <= i < polls.drop_last().len() implies !(
        #[trigger] polls.drop_last()[i]).same_entry(entry) by {
            assert(!polls[i].same_entry(entry));
        }
        lemma_entry_votes_none(polls.drop_last(), entry);
    }
}

/// A poll that stands between two polls for the same party and riding is for that party and
/// riding too.
pub proof fn lemma_entry_between(a: PollView, b: PollView, c: PollView)
    requires
        Poll::precedes(a, b),
        Poll::precedes(b, c),
        a.same_entry(c),
    ensures
        b.same_entry(a),
        b.same_entry(c),
{
    lemma_text_chain(a.riding, b.riding, c.riding);
    lemma_text_level(a.riding, c.riding);
    lemma_text_level(a.riding, b.riding);
    Party::lemma_rank_at();
    assert(Party::at(a.party.rank()) == a.party);
    assert(Party::at(b.party.rank()) == b.party);
}

} // verus!
