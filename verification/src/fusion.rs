//! Fusion: all the polls that count votes for the same party in the same riding become one.
//!
//! Polls belong together by riding and party, whatever the name of the candidate: a riding
//! seats one candidate for each party, so the ridings built from a fused list hold every vote.
//! The fused poll keeps the names of the poll that sorts first.

use vstd::prelude::*;

use crate::poll::entry_votes;
use crate::poll::lemma_entry_between;
use crate::poll::lemma_entry_votes_none;
use crate::poll::lemma_votes_total_prefix;
use crate::poll::votes_total;
use crate::poll::Poll;
use crate::poll::PollView;
use crate::runs::is_split;
use crate::runs::lemma_run_votes;
use crate::runs::lemma_split_nothing;
use crate::runs::lemma_split_peel;
use crate::runs::peeled;
use crate::runs::run_views;
use crate::runs::split_runs;
use crate::runs::Grain;
use crate::sort::lemma_front_ordered;
use crate::sort::lemma_sorted_of_ordered;
use crate::sort::lemma_sorted_ordered;
use crate::sort::lemma_sorted_permutes;
use crate::sort::ordered;
use crate::sort::placed;
use crate::sort::sort_stable;
use crate::sort::sorted;
use crate::sort::Ranked;
use crate::views::views;

verus! {

/// `polls` with every stretch of neighbours that share riding and party fused into its first
/// poll.
pub open spec fn coalesced(polls: Seq<PollView>) -> Seq<PollView>
    decreases polls.len(),
{
    if polls.len() == 0 {
        polls
    } else {
        let before = coalesced(polls.drop_last());
        if polls.len() > 1 && polls[polls.len() - 2].same_entry(polls.last()) {
            before.drop_last().push(before.last().fused(polls.last()))
        } else {
            before.push(polls.last())
        }
    }
}

/// The fusion of `polls`: they are sorted by riding, party and last name, polls that are level
/// staying in the order they came in, and then neighbours that share riding and party are
/// fused. So each pair of riding and party keeps one poll: the one that sorts first, with the
/// votes of all.
pub open spec fn fused(polls: Seq<PollView>) -> Seq<PollView> {
    coalesced(sorted::<Poll>(polls))
}

/// Neighbours in `polls` never share riding and party.
pub open spec fn entries_apart(polls: Seq<PollView>) -> bool {
    forall|i: int| 0 < i < polls.len() ==> !(#[trigger] polls[i]).same_entry(polls[i - 1])
}

/// Fuses the polls: sorts them by riding, party and last name, and fuses each stretch of
/// polls for the same party in the same riding into the first of them.
pub fn fuse_polls(polls: Vec<Poll>) -> (out: Vec<Poll>)
    requires
        votes_total(views(polls@)) <= usize::MAX,
    ensures
        views(out@) == fused(views(polls@)),
{
    let ghost given = views(polls@);
    let in_order = sort_stable(polls);
    let ghost ranked = views(in_order@);
    let runs = split_runs(in_order, Grain::Entry);
    let ghost parts = run_views(runs@);
    let ghost all = runs@;
    proof {
        lemma_sorted_votes(given);
    }
    let mut out: Vec<Poll> = Vec::new();
    for run in it: runs.into_iter()
        invariant
            it.seq() == all,
            parts == run_views(all),
            is_split(ranked, parts, Grain::Entry),
            votes_total(ranked) <= usize::MAX,
            views(out@) == each_fused(parts).take(it.index()),
    {
        let ghost n = it.index();
        let ghost made = views(out@);
        proof {
            lemma_run_votes(parts, n);
            assert(parts[n] == views(run@));
            assert(parts[n].len() > 0);
        }
        let poll = fuse_run(run);
        out.push(poll);
        assert(views(out@) =~= made.push(poll@));
        assert(views(out@) =~= each_fused(parts).take(n + 1));
    }
    proof {
        assert(views(out@) =~= each_fused(parts));
        lemma_coalesced_by_runs(ranked, parts);
    }
    out
}

/// The polls of one run fused from the left: the first poll, with the votes of all.
spec fn fuse_all(run: Seq<PollView>) -> PollView
    decreases run.len(),
{
    if run.len() <= 1 {
        run[0]
    } else {
        fuse_all(run.drop_last()).fused(run.last())
    }
}

/// Each run fused on its own.
spec fn each_fused(runs: Seq<Seq<PollView>>) -> Seq<PollView> {
    runs.map_values(|run: Seq<PollView>| fuse_all(run))
}

/// Fuses the polls of one run into its first poll.
fn fuse_run(run: Vec<Poll>) -> (out: Poll)
    requires
        run.len() > 0,
        votes_total(views(run@)) <= usize::MAX,
    ensures
        out@ == fuse_all(views(run@)),
{
    let ghost all = views(run@);
    let ghost given = run@;
    let mut acc: Option<Poll> = None;
    for poll in it: run.into_iter()
        invariant
            it.seq() == given,
            all == views(given),
            votes_total(all) <= usize::MAX,
            it.index() == 0 ==> acc is None,
            it.index() > 0 ==> acc is Some && acc->0@ == fuse_all(all.take(it.index())),
            it.index() > 0 ==> acc->0.votes == votes_total(all.take(it.index())),
    {
        let ghost n = it.index();
        proof {
            assert(all.take(n + 1).drop_last() =~= all.take(n));
            assert(all.take(n + 1).last() == poll@);
            lemma_votes_total_prefix(all, n + 1);
        }
        acc = match acc {
            None => Some(poll),
            Some(sum) => Some(sum.fuse(poll)),
        };
        assert(votes_total(all.take(n + 1)) == votes_total(all.take(n)) + poll.votes);
    }
    assert(all.take(all.len() as int) =~= all);
    acc.unwrap()
}

/// Conservation: fusion neither drops nor invents a vote. The fused polls hold together
/// exactly the votes of the polls they were made from.
pub proof fn lemma_fusion_conserves_votes(polls: Seq<PollView>)
    ensures
        votes_total(fused(polls)) == votes_total(polls),
{
    lemma_sorted_votes(polls);
    lemma_coalesced_votes(sorted::<Poll>(polls));
}

/// Idempotence: a list that is already fused stays as it is when fused again.
pub proof fn lemma_fusion_idempotent(polls: Seq<PollView>)
    ensures
        fused(fused(polls)) == fused(polls),
{
    lemma_fusion_ordered(polls);
    lemma_sorted_of_ordered::<Poll>(fused(polls));
    lemma_coalesced_of_apart(fused(polls));
}

/// A fused list is ordered by riding, party and last name, and no two of its neighbours share
/// riding and party.
pub proof fn lemma_fusion_ordered(polls: Seq<PollView>)
    ensures
        ordered::<Poll>(fused(polls)),
        entries_apart(fused(polls)),
{
    lemma_sorted_ordered::<Poll>(polls);
    lemma_coalesced_ordered(sorted::<Poll>(polls));
}

/// In a fused list no two polls are for the same party in the same riding.
pub proof fn lemma_fusion_entries_distinct(polls: Seq<PollView>, i: int, j: int)
    requires
        0 <= i < j < fused(polls).len(),
    ensures
        !fused(polls)[i].same_entry(fused(polls)[j]),
{
    lemma_fusion_ordered(polls);
    lemma_apart_distinct(fused(polls), i, j);
}

/// Every poll has its party and riding in the fused list.
pub proof fn lemma_fusion_covers(polls: Seq<PollView>, k: int) -> (j: int)
    requires
        0 <= k < polls.len(),
    ensures
        0 <= j < fused(polls).len(),
        fused(polls)[j].same_entry(polls[k]),
{
    broadcast use vstd::seq_lib::group_to_multiset_ensures;

    lemma_sorted_permutes::<Poll>(polls);
    assert(polls.contains(polls[k]));
    assert(sorted::<Poll>(polls).to_multiset().count(polls[k]) > 0);
    assert(sorted::<Poll>(polls).contains(polls[k]));
    let in_order = sorted::<Poll>(polls);
    let m = choose|m: int| 0 <= m < in_order.len() && in_order[m] == polls[k];
    lemma_coalesced_covers(in_order, m)
}

/// Each fused poll has all the votes that the polls held for its party in its riding.
pub proof fn lemma_fusion_entry_votes(polls: Seq<PollView>, j: int)
    requires
        0 <= j < fused(polls).len(),
    ensures
        fused(polls)[j].votes == entry_votes(polls, fused(polls)[j].riding, fused(polls)[j].party),
{
    lemma_sorted_ordered::<Poll>(polls);
    lemma_coalesced_entry_votes(sorted::<Poll>(polls), j);
    lemma_sorted_entry_votes(polls, fused(polls)[j]);
}

/// Sorting keeps the votes.
pub proof fn lemma_sorted_votes(polls: Seq<PollView>)
    ensures
        votes_total(sorted::<Poll>(polls)) == votes_total(polls),
    decreases polls.len(),
{
    if polls.len() > 0 {
        lemma_sorted_votes(polls.drop_last());
        lemma_placed_votes(sorted::<Poll>(polls.drop_last()), polls.last());
    }
}

/// Fusing neighbours keeps the votes.
pub proof fn lemma_coalesced_votes(polls: Seq<PollView>)
    ensures
        votes_total(coalesced(polls)) == votes_total(polls),
        polls.len() > 0 ==> coalesced(polls).len() > 0,
    decreases polls.len(),
{
    if polls.len() > 0 {
        let front = polls.drop_last();
        let before = coalesced(front);
        lemma_coalesced_votes(front);
        if polls.len() > 1 && polls[polls.len() - 2].same_entry(polls.last()) {
            let grown = before.last().fused(polls.last());
            assert(before.drop_last().push(grown).drop_last() =~= before.drop_last());
        } else {
            assert(before.push(polls.last()).drop_last() =~= before);
        }
    }
}

/// Fusing run by run is fusing neighbour by neighbour.
proof fn lemma_coalesced_by_runs(polls: Seq<PollView>, runs: Seq<Seq<PollView>>)
    requires
        is_split(polls, runs, Grain::Entry),
    ensures
        each_fused(runs) == coalesced(polls),
    decreases polls.len(),
{
    if polls.len() == 0 {
        lemma_split_nothing(runs, Grain::Entry);
        assert(each_fused(runs) =~= coalesced(polls));
    } else {
        lemma_split_peel(polls, runs, Grain::Entry);
        let rest = peeled(runs);
        lemma_coalesced_by_runs(polls.drop_last(), rest);
        let last = runs.last();
        if last.len() == 1 {
            if polls.len() > 1 {
                assert(!polls[polls.len() - 2].same_entry(polls.last()));
            }
            assert(each_fused(runs) =~= each_fused(rest).push(polls.last()));
        } else {
            assert(polls[polls.len() - 2].same_entry(polls.last()));
            assert(rest.last() == last.drop_last());
            assert(each_fused(rest).last() == fuse_all(last.drop_last()));
            assert(each_fused(runs) =~= each_fused(rest).drop_last().push(
                each_fused(rest).last().fused(polls.last()),
            ));
        }
    }
}

proof fn lemma_placed_votes(polls: Seq<PollView>, poll: PollView)
    ensures
        votes_total(placed::<Poll>(polls, poll)) == votes_total(polls) + poll.votes,
    decreases polls.len(),
{
    if polls.len() == 0 {
        assert(seq![poll].drop_last() =~= polls);
    } else if Poll::precedes(polls.last(), poll) {
        assert(polls.push(poll).drop_last() =~= polls);
    } else {
        let inner = placed::<Poll>(polls.drop_last(), poll);
        lemma_placed_votes(polls.drop_last(), poll);
        assert(inner.push(polls.last()).drop_last() =~= inner);
    }
}

/// Where the last stretch of polls that share riding and party begins.
spec fn last_stretch(polls: Seq<PollView>) -> int
    decreases polls.len(),
{
    if polls.len() <= 1 {
        0
    } else if polls[polls.len() - 2].same_entry(polls.last()) {
        last_stretch(polls.drop_last())
    } else {
        polls.len() - 1
    }
}

/// What fusing neighbours leaves at the end is the first poll of the last stretch, but for its
/// votes.
proof fn lemma_coalesced_last(polls: Seq<PollView>)
    requires
        polls.len() > 0,
    ensures
        coalesced(polls).len() > 0,
        0 <= last_stretch(polls) < polls.len(),
        polls[last_stretch(polls)].same_entry(polls.last()),
        coalesced(polls).last() == (PollView {
            votes: coalesced(polls).last().votes,
            ..polls[last_stretch(polls)]
        }),
    decreases polls.len(),
{
    if polls.len() > 1 {
        lemma_coalesced_last(polls.drop_last());
    }
}

/// Fusing the neighbours of an ordered list leaves it ordered, with no two neighbours that
/// share riding and party.
proof fn lemma_coalesced_ordered(polls: Seq<PollView>)
    requires
        ordered::<Poll>(polls),
    ensures
        ordered::<Poll>(coalesced(polls)),
        entries_apart(coalesced(polls)),
    decreases polls.len(),
{
    if polls.len() > 0 {
        let front = polls.drop_last();
        let before = coalesced(front);
        let out = coalesced(polls);
        let poll = polls.last();
        lemma_front_ordered::<Poll>(polls);
        lemma_coalesced_ordered(front);
        if polls.len() == 1 {
            assert(before.len() == 0);
            Poll::lemma_precedes_total(poll, poll);
        } else {
            lemma_coalesced_last(front);
            let k = last_stretch(front);
            assert(Poll::precedes(polls[k], polls[polls.len() - 1]));
            if polls[polls.len() - 2].same_entry(poll) {
                assert forall|i: int, j: int| 0 <= i <= j < out.len() implies Poll::precedes(
                    out[i],
                    out[j],
                ) by {
                    assert(Poll::precedes(before[i], before[j]));
                }
                assert forall|i: int| 0 < i < out.len() implies !(#[trigger] out[i]).same_entry(
                    out[i - 1],
                ) by {
                    assert(!before[i].same_entry(before[i - 1]));
                }
            } else {
                assert forall|i: int, j: int| 0 <= i <= j < out.len() implies Poll::precedes(
                    out[i],
                    out[j],
                ) by {
                    if j < before.len() {
                        assert(Poll::precedes(before[i], before[j]));
                    } else if i < before.len() {
                        assert(Poll::precedes(before[i], before[before.len() - 1]));
                        assert(Poll::precedes(before.last(), poll));
                        Poll::lemma_precedes_transitive(before[i], before.last(), poll);
                    } else {
                        Poll::lemma_precedes_total(poll, poll);
                    }
                }
                assert forall|i: int| 0 < i < out.len() implies !(#[trigger] out[i]).same_entry(
                    out[i - 1],
                ) by {
                    if i < before.len() {
                        assert(!before[i].same_entry(before[i - 1]));
                    }
                }
            }
        }
    }
}

/// Where no two neighbours share riding and party, there is nothing to fuse.
proof fn lemma_coalesced_of_apart(polls: Seq<PollView>)
    requires
        entries_apart(polls),
    ensures
        coalesced(polls) == polls,
    decreases polls.len(),
{
    if polls.len() > 0 {
        let front = polls.drop_last();
        assert forall|i: int| 0 < i < front.len() implies !(#[trigger] front[i]).same_entry(
            front[i - 1],
        ) by {
            assert(!polls[i].same_entry(polls[i - 1]));
        }
        lemma_coalesced_of_apart(front);
        if polls.len() > 1 {
            assert(!polls[polls.len() - 1].same_entry(polls[polls.len() - 2]));
        }
        assert(front.push(polls.last()) =~= polls);
    }
}

/// In an ordered list whose neighbours never share riding and party, no two polls do.
proof fn lemma_apart_distinct(polls: Seq<PollView>, i: int, j: int)
    requires
        ordered::<Poll>(polls),
        entries_apart(polls),
        0 <= i < j < polls.len(),
    ensures
        !polls[i].same_entry(polls[j]),
{
    if polls[i].same_entry(polls[j]) {
        assert(Poll::precedes(polls[i], polls[j - 1]));
        assert(Poll::precedes(polls[j - 1], polls[j]));
        lemma_entry_between(polls[i], polls[j - 1], polls[j]);
        assert(!polls[j].same_entry(polls[j - 1]));
    }
}

/// In an ordered list, a poll that does not share riding and party with the one before it
/// shares them with none before it.
proof fn lemma_fresh_entry(polls: Seq<PollView>, i: int)
    requires
        ordered::<Poll>(polls),
        polls.len() > 1,
        !polls[polls.len() - 2].same_entry(polls.last()),
        0 <= i < polls.len() - 1,
    ensures
        !polls[i].same_entry(polls.last()),
{
    if polls[i].same_entry(polls.last()) {
        assert(Poll::precedes(polls[i], polls[polls.len() - 2]));
        assert(Poll::precedes(polls[polls.len() - 2], polls[polls.len() - 1]));
        lemma_entry_between(polls[i], polls[polls.len() - 2], polls.last());
    }
}

/// Every poll that fusing neighbours leaves is for the party and riding of a poll that was
/// there.
proof fn lemma_coalesced_from(polls: Seq<PollView>, j: int) -> (m: int)
    requires
        0 <= j < coalesced(polls).len(),
    ensures
        0 <= m < polls.len(),
        polls[m].same_entry(coalesced(polls)[j]),
        coalesced(polls)[j] == (PollView { votes: coalesced(polls)[j].votes, ..polls[m] }),
    decreases polls.len(),
{
    let front = polls.drop_last();
    let before = coalesced(front);
    if polls.len() > 1 && polls[polls.len() - 2].same_entry(polls.last()) {
        if j < before.len() - 1 {
            lemma_coalesced_from(front, j)
        } else {
            lemma_coalesced_last(front);
            last_stretch(front)
        }
    } else {
        if j < before.len() {
            lemma_coalesced_from(front, j)
        } else {
            polls.len() - 1
        }
    }
}

/// Every poll is for the party and riding of one that fusing neighbours leaves.
proof fn lemma_coalesced_covers(polls: Seq<PollView>, m: int) -> (j: int)
    requires
        0 <= m < polls.len(),
    ensures
        0 <= j < coalesced(polls).len(),
        coalesced(polls)[j].same_entry(polls[m]),
    decreases polls.len(),
{
    lemma_coalesced_last(polls);
    if m == polls.len() - 1 {
        coalesced(polls).len() - 1
    } else {
        lemma_coalesced_covers(polls.drop_last(), m)
    }
}

proof fn lemma_placed_entry_votes(polls: Seq<PollView>, poll: PollView, entry: PollView)
    ensures
        entry_votes(placed::<Poll>(polls, poll), entry.riding, entry.party) == entry_votes(
            polls,
            entry.riding,
            entry.party,
        ) + (if poll.same_entry(entry) {
            poll.votes as nat
        } else {
            0
        }),
    decreases polls.len(),
{
    if polls.len() == 0 {
        assert(seq![poll].drop_last() =~= polls);
    } else if Poll::precedes(polls.last(), poll) {
        assert(polls.push(poll).drop_last() =~= polls);
    } else {
        let inner = placed::<Poll>(polls.drop_last(), poll);
        lemma_placed_entry_votes(polls.drop_last(), poll, entry);
        assert(inner.push(polls.last()).drop_last() =~= inner);
    }
}

/// Sorting keeps the votes of every party in every riding.
proof fn lemma_sorted_entry_votes(polls: Seq<PollView>, entry: PollView)
    ensures
        entry_votes(sorted::<Poll>(polls), entry.riding, entry.party) == entry_votes(
            polls,
            entry.riding,
            entry.party,
        ),
    decreases polls.len(),
{
    if polls.len() > 0 {
        lemma_sorted_entry_votes(polls.drop_last(), entry);
        lemma_placed_entry_votes(sorted::<Poll>(polls.drop_last()), polls.last(), entry);
    }
}

/// Fusing the neighbours of an ordered list gives each poll that is left all the votes for
/// its party and riding.
proof fn lemma_coalesced_entry_votes(polls: Seq<PollView>, j: int)
    requires
        ordered::<Poll>(polls),
        0 <= j < coalesced(polls).len(),
    ensures
        coalesced(polls)[j].votes == entry_votes(
            polls,
            coalesced(polls)[j].riding,
            coalesced(polls)[j].party,
        ),
    decreases polls.len(),
{
    let front = polls.drop_last();
    let before = coalesced(front);
    let out = coalesced(polls);
    let poll = polls.last();
    lemma_front_ordered::<Poll>(polls);
    if polls.len() > 1 && polls[polls.len() - 2].same_entry(poll) {
        lemma_coalesced_last(front);
        assert(before.last().same_entry(poll));
        if j < before.len() - 1 {
            lemma_coalesced_entry_votes(front, j);
            lemma_coalesced_ordered(front);
            lemma_apart_distinct(before, j, before.len() - 1);
            assert(out[j] == before[j]);
            assert(!poll.same_entry(before[j]));
        } else {
            lemma_coalesced_entry_votes(front, before.len() - 1);
            assert(out[j] == before.last().fused(poll));
        }
    } else if j < before.len() {
        lemma_coalesced_entry_votes(front, j);
        let m = lemma_coalesced_from(front, j);
        assert(out[j] == before[j]);
        if polls.len() > 1 {
            lemma_fresh_entry(polls, m);
        }
        assert(!poll.same_entry(before[j]));
    } else {
        assert(out[j] == poll);
        assert forall|i: int| 0 <= i < front.len() implies !(#[trigger] front[i]).same_entry(
            poll,
        ) by {
            lemma_fresh_entry(polls, i);
        }
        lemma_entry_votes_none(front, poll);
    }
}

} // verus!
