//! From polls to ridings: each stretch of polls with the same riding name makes one riding.

use vstd::prelude::*;

use crate::fusion::entries_apart;
use crate::fusion::fused;
use crate::fusion::lemma_fusion_conserves_votes;
use crate::fusion::lemma_fusion_ordered;
use crate::party::Party;
use crate::party::PARTY_COUNT;
use crate::poll::votes_total;
use crate::poll::Poll;
use crate::poll::PollView;
use crate::riding::candidate_of;
use crate::riding::riding_of;
use crate::riding::Riding;
use crate::riding::RidingView;
use crate::runs::is_split;
use crate::runs::lemma_run_votes;
use crate::runs::lemma_split_nothing;
use crate::runs::lemma_split_peel;
use crate::runs::peeled;
use crate::runs::run_views;
use crate::runs::split_runs;
use crate::runs::Grain;
use crate::sort::lemma_front_ordered;
use crate::sort::ordered;
use crate::sort::Ranked;
use crate::text::lemma_text_chain;
use crate::text::lemma_text_level;
use crate::text::text_placing;
use crate::text::Placing;
use crate::views::views;

verus! {

/// The ridings that a list of polls makes: each stretch of neighbours with the same riding
/// name is one riding, named as they are. Each poll seats its candidate for its party, in the
/// place of an earlier one of the stretch for that party.
pub open spec fn built(polls: Seq<PollView>) -> Seq<RidingView>
    decreases polls.len(),
{
    if polls.len() == 0 {
        Seq::empty()
    } else {
        let before = built(polls.drop_last());
        let poll = polls.last();
        if polls.len() > 1 && polls[polls.len() - 2].riding == poll.riding {
            before.drop_last().push(before.last().seat(poll.party, candidate_of(poll)))
        } else {
            before.push(
                RidingView {
                    name: poll.riding,
                    candidates: Map::empty().insert(poll.party, candidate_of(poll)),
                },
            )
        }
    }
}

/// All the votes cast in these ridings.
pub open spec fn grand_total(ridings: Seq<RidingView>) -> nat
    decreases ridings.len(),
{
    if ridings.len() == 0 {
        0
    } else {
        grand_total(ridings.drop_last()) + ridings.last().tally()
    }
}

/// How many candidates these ridings seat.
pub open spec fn seats_total(ridings: Seq<RidingView>) -> nat
    decreases ridings.len(),
{
    if ridings.len() == 0 {
        0
    } else {
        seats_total(ridings.drop_last()) + ridings.last().count()
    }
}

/// The riding has the name of the poll, and seats its candidate for its party.
pub open spec fn holds(riding: RidingView, poll: PollView) -> bool {
    &&& riding.name == poll.riding
    &&& riding.candidates.dom().contains(poll.party)
    &&& riding.candidates[poll.party] == candidate_of(poll)
}

/// One of the ridings holds the poll.
pub open spec fn seated_in(ridings: Seq<RidingView>, poll: PollView) -> bool {
    exists|i: int| 0 <= i < ridings.len() && #[trigger] holds(ridings[i], poll)
}

/// In each of the ridings somebody stands.
pub open spec fn all_contested(ridings: Seq<RidingView>) -> bool {
    forall|i: int| 0 <= i < ridings.len() ==> (#[trigger] ridings[i]).count() >= 1
}

/// The names of the ridings come in the order of text, each before the next.
pub open spec fn names_ascend(ridings: Seq<RidingView>) -> bool {
    forall|i: int, j: int|
        0 <= i < j < ridings.len() ==> text_placing(
            (#[trigger] ridings[i]).name,
            (#[trigger] ridings[j]).name,
        ) == Placing::Before
}

/// Groups the polls into ridings: each stretch of neighbours with the same riding name becomes
/// one riding, in which every poll seats its candidate for its party. Where two polls of a
/// stretch name the same party, the later one takes the seat.
pub fn ridings(polls: Vec<Poll>) -> (out: Vec<Riding>)
    requires
        votes_total(views(polls@)) <= usize::MAX,
    ensures
        views(out@) == built(views(polls@)),
{
    let ghost given = views(polls@);
    let runs = split_runs(polls, Grain::Riding);
    let ghost parts = run_views(runs@);
    let ghost all = runs@;
    let mut out: Vec<Riding> = Vec::new();
    for run in it: runs.into_iter()
        invariant
            it.seq() == all,
            parts == run_views(all),
            is_split(given, parts, Grain::Riding),
            votes_total(given) <= usize::MAX,
            views(out@) == each_built(parts).take(it.index()),
    {
        let ghost n = it.index();
        let ghost made = views(out@);
        proof {
            lemma_run_votes(parts, n);
            assert(parts[n] == views(run@));
            assert(parts[n].len() > 0);
        }
        let riding = Riding::from_run(run);
        out.push(riding);
        assert(views(out@) =~= made.push(riding@));
        assert(views(out@) =~= each_built(parts).take(n + 1));
    }
    proof {
        assert(views(out@) =~= each_built(parts));
        lemma_built_by_runs(given, parts);
    }
    out
}

/// The riding of each run.
spec fn each_built(runs: Seq<Seq<PollView>>) -> Seq<RidingView> {
    runs.map_values(|run: Seq<PollView>| riding_of(run))
}

/// From the rows to the ridings no vote is lost: the ridings built from the fused polls hold
/// exactly the votes of the rows.
pub proof fn lemma_ridings_conserve_votes(polls: Seq<PollView>)
    ensures
        grand_total(built(fused(polls))) == votes_total(polls),
{
    lemma_fusion_ordered(polls);
    lemma_fusion_conserves_votes(polls);
    lemma_built_of_fused(fused(polls));
}

/// Ridings built from a fused list keep every vote and seat every poll: each poll of a list
/// that is ordered, and in which no two neighbours share riding and party, is held by a
/// riding; the ridings seat as many candidates as there are polls, and hold their votes.
pub proof fn lemma_built_of_fused(polls: Seq<PollView>)
    requires
        ordered::<Poll>(polls),
        entries_apart(polls),
    ensures
        grand_total(built(polls)) == votes_total(polls),
        seats_total(built(polls)) == polls.len(),
        forall|k: int| 0 <= k < polls.len() ==> seated_in(built(polls), #[trigger] polls[k]),
{
    lemma_built_counts(polls);
    assert forall|k: int| 0 <= k < polls.len() implies seated_in(
        built(polls),
        #[trigger] polls[k],
    ) by {
        lemma_built_seats(polls, k);
    }
}

/// Ridings built from an ordered list come in the order of their names, and no two of them
/// have the same name.
pub proof fn lemma_built_names(polls: Seq<PollView>)
    requires
        ordered::<Poll>(polls),
    ensures
        names_ascend(built(polls)),
        polls.len() > 0 ==> built(polls).len() > 0 && built(polls).last().name
            == polls.last().riding,
    decreases polls.len(),
{
    if polls.len() > 0 {
        let front = polls.drop_last();
        let before = built(front);
        let poll = polls.last();
        let out = built(polls);
        lemma_front_ordered::<Poll>(polls);
        lemma_built_names(front);
        if polls.len() > 1 && polls[polls.len() - 2].riding == poll.riding {
            assert forall|i: int, j: int| 0 <= i < j < out.len() implies text_placing(
                (#[trigger] out[i]).name,
                (#[trigger] out[j]).name,
            ) == Placing::Before by {
                assert(out[i].name == before[i].name);
                assert(out[j].name == before[j].name);
            }
        } else if polls.len() > 1 {
            let prior = polls[polls.len() - 2];
            assert(Poll::precedes(prior, poll));
            lemma_text_level(prior.riding, poll.riding);
            assert(text_placing(prior.riding, poll.riding) == Placing::Before);
            assert forall|i: int, j: int| 0 <= i < j < out.len() implies text_placing(
                (#[trigger] out[i]).name,
                (#[trigger] out[j]).name,
            ) == Placing::Before by {
                if j < before.len() {
                    assert(out[i] == before[i] && out[j] == before[j]);
                } else if i < before.len() - 1 {
                    assert(out[i] == before[i]);
                    assert(text_placing(before[i].name, before[before.len() - 1].name)
                        == Placing::Before);
                    lemma_text_chain(before[i].name, prior.riding, poll.riding);
                } else {
                    assert(out[i] == before[before.len() - 1]);
                }
            }
        } else {
            assert(out.len() == 1);
        }
    }
}

/// No riding is built without a candidate.
pub proof fn lemma_built_contested(polls: Seq<PollView>)
    ensures
        all_contested(built(polls)),
    decreases polls.len(),
{
    if polls.len() > 0 {
        let before = built(polls.drop_last());
        let poll = polls.last();
        let out = built(polls);
        lemma_built_contested(polls.drop_last());
        lemma_built_tally(polls.drop_last());
        assert(out.last().candidates.dom().contains(poll.party));
        out.last().lemma_stands_counts(poll.party);
        assert forall|i: int| 0 <= i < out.len() implies (#[trigger] out[i]).count() >= 1 by {
            if i < out.len() - 1 {
                assert(out[i] == before[i]);
            }
        }
    }
}

/// The ridings hold no more votes than the polls they were built from. They hold fewer where
/// a candidate was replaced.
pub proof fn lemma_built_tally(polls: Seq<PollView>)
    ensures
        grand_total(built(polls)) <= votes_total(polls),
        polls.len() > 0 ==> built(polls).len() > 0,
    decreases polls.len(),
{
    if polls.len() > 0 {
        let front = polls.drop_last();
        let before = built(front);
        let poll = polls.last();
        lemma_built_tally(front);
        if polls.len() > 1 && polls[polls.len() - 2].riding == poll.riding {
            let grown = before.last().seat(poll.party, candidate_of(poll));
            before.last().lemma_seat_tally(poll.party, candidate_of(poll), PARTY_COUNT as nat);
            assert(before.drop_last().push(grown).drop_last() =~= before.drop_last());
        } else {
            let base = RidingView { name: poll.riding, candidates: Map::empty() };
            base.lemma_tally_of_none(PARTY_COUNT as nat);
            base.lemma_seat_tally(poll.party, candidate_of(poll), PARTY_COUNT as nat);
            assert(before.push(base.seat(poll.party, candidate_of(poll))).drop_last() =~= before);
        }
    }
}

/// The first ridings hold no more votes than all of them.
pub proof fn lemma_grand_total_prefix(ridings: Seq<RidingView>, n: int)
    requires
        0 <= n <= ridings.len(),
    ensures
        grand_total(ridings.take(n)) <= grand_total(ridings),
    decreases ridings.len(),
{
    if n == ridings.len() {
        assert(ridings.take(n) =~= ridings);
    } else {
        assert(ridings.drop_last().take(n) =~= ridings.take(n));
        lemma_grand_total_prefix(ridings.drop_last(), n);
    }
}

/// Building run by run is building poll by poll.
proof fn lemma_built_by_runs(polls: Seq<PollView>, runs: Seq<Seq<PollView>>)
    requires
        is_split(polls, runs, Grain::Riding),
    ensures
        each_built(runs) == built(polls),
    decreases polls.len(),
{
    if polls.len() == 0 {
        lemma_split_nothing(runs, Grain::Riding);
        assert(each_built(runs) =~= built(polls));
    } else {
        lemma_split_peel(polls, runs, Grain::Riding);
        let rest = peeled(runs);
        lemma_built_by_runs(polls.drop_last(), rest);
        let last = runs.last();
        if last.len() == 1 {
            assert(each_built(runs) =~= each_built(rest).push(riding_of(last)));
        } else {
            assert(rest.last() == last.drop_last());
            assert(each_built(rest).last() == riding_of(last.drop_last()));
            assert(each_built(runs) =~= each_built(rest).drop_last().push(riding_of(last)));
        }
    }
}

/// A list that is ordered and whose neighbours never share riding and party stays so without
/// its last poll.
proof fn lemma_front_fused(polls: Seq<PollView>)
    requires
        ordered::<Poll>(polls),
        entries_apart(polls),
        polls.len() > 0,
    ensures
        ordered::<Poll>(polls.drop_last()),
        entries_apart(polls.drop_last()),
{
    let front = polls.drop_last();
    lemma_front_ordered::<Poll>(polls);
    assert forall|i: int| 0 < i < front.len() implies !(#[trigger] front[i]).same_entry(
        front[i - 1],
    ) by {
        assert(!polls[i].same_entry(polls[i - 1]));
    }
}

/// In an ordered list whose neighbours never share riding and party, a poll with the riding of
/// the one before it has a party that comes later in the list.
proof fn lemma_next_party(polls: Seq<PollView>)
    requires
        ordered::<Poll>(polls),
        entries_apart(polls),
        polls.len() > 1,
        polls[polls.len() - 2].riding == polls.last().riding,
    ensures
        polls[polls.len() - 2].party.rank() < polls.last().party.rank(),
{
    let a = polls[polls.len() - 2];
    let b = polls[polls.len() - 1];
    assert(Poll::precedes(a, b));
    assert(!b.same_entry(a));
    lemma_text_level(a.riding, b.riding);
    Party::lemma_rank_at();
    assert(Party::at(a.party.rank()) == a.party);
    assert(Party::at(b.party.rank()) == b.party);
}

/// The parties seated in the last riding come no later in the list than that of the last
/// poll, and the riding has the name of that poll.
spec fn last_in_step(polls: Seq<PollView>) -> bool {
    let last = built(polls).last();
    &&& built(polls).len() > 0
    &&& last.name == polls.last().riding
    &&& forall|party: Party| #[trigger]
        last.candidates.dom().contains(party) ==> party.rank() <= polls.last().party.rank()
}

proof fn lemma_built_last(polls: Seq<PollView>)
    requires
        ordered::<Poll>(polls),
        entries_apart(polls),
        polls.len() > 0,
    ensures
        last_in_step(polls),
    decreases polls.len(),
{
    if polls.len() > 1 {
        lemma_front_fused(polls);
        lemma_built_last(polls.drop_last());
        if polls[polls.len() - 2].riding == polls.last().riding {
            lemma_next_party(polls);
        }
    }
}

/// In a fused list, the party of the last poll has no seat yet in the riding that the polls
/// before it have built, where the poll belongs to that riding.
proof fn lemma_seat_free(polls: Seq<PollView>)
    requires
        ordered::<Poll>(polls),
        entries_apart(polls),
        polls.len() > 1,
        polls[polls.len() - 2].riding == polls.last().riding,
    ensures
        built(polls.drop_last()).len() > 0,
        !built(polls.drop_last()).last().candidates.dom().contains(polls.last().party),
{
    lemma_front_fused(polls);
    lemma_built_last(polls.drop_last());
    lemma_next_party(polls);
}

/// Ridings built from a fused list hold the votes of its polls, and seat as many candidates
/// as it has polls.
proof fn lemma_built_counts(polls: Seq<PollView>)
    requires
        ordered::<Poll>(polls),
        entries_apart(polls),
    ensures
        grand_total(built(polls)) == votes_total(polls),
        seats_total(built(polls)) == polls.len(),
    decreases polls.len(),
{
    if polls.len() > 0 {
        let before = built(polls.drop_last());
        let poll = polls.last();
        let out = built(polls);
        lemma_front_fused(polls);
        lemma_built_counts(polls.drop_last());
        if polls.len() > 1 && polls[polls.len() - 2].riding == poll.riding {
            lemma_seat_free(polls);
            before.last().lemma_seat_tally(poll.party, candidate_of(poll), PARTY_COUNT as nat);
            before.last().lemma_seat_count(poll.party, candidate_of(poll), PARTY_COUNT as nat);
            assert(out.drop_last() =~= before.drop_last());
        } else {
            let base = RidingView { name: poll.riding, candidates: Map::empty() };
            base.lemma_tally_of_none(PARTY_COUNT as nat);
            base.lemma_count_of_none(PARTY_COUNT as nat);
            base.lemma_seat_tally(poll.party, candidate_of(poll), PARTY_COUNT as nat);
            base.lemma_seat_count(poll.party, candidate_of(poll), PARTY_COUNT as nat);
            assert(out.drop_last() =~= before);
            assert(out.last() == base.seat(poll.party, candidate_of(poll)));
        }
    }
}

/// Each poll of a fused list is held by one of the ridings built from it.
proof fn lemma_built_seats(polls: Seq<PollView>, k: int)
    requires
        ordered::<Poll>(polls),
        entries_apart(polls),
        0 <= k < polls.len(),
    ensures
        seated_in(built(polls), polls[k]),
    decreases polls.len(),
{
    let front = polls.drop_last();
    let before = built(front);
    let poll = polls.last();
    let out = built(polls);
    lemma_built_tally(polls);
    if k == polls.len() - 1 {
        if polls.len() > 1 && polls[polls.len() - 2].riding == poll.riding {
            lemma_front_fused(polls);
            lemma_built_last(front);
        }
        assert(holds(out[out.len() - 1], poll));
    } else {
        lemma_front_fused(polls);
        lemma_built_seats(front, k);
        let i = choose|i: int| 0 <= i < before.len() && #[trigger] holds(before[i], front[k]);
        if polls[polls.len() - 2].riding == poll.riding && i == before.len() - 1 {
            lemma_seat_free(polls);
            assert(holds(out[i], polls[k]));
        } else {
            assert(out[i] == before[i]);
            assert(holds(out[i], polls[k]));
        }
    }
}

} // verus!
