//! Cutting a list of polls into runs: stretches of neighbours that belong together.

use itertools::Itertools;
use vstd::prelude::*;

use crate::party::Party;
use crate::poll::lemma_votes_total_concat;
use crate::poll::votes_total;
use crate::poll::Poll;
use crate::poll::PollView;
use crate::views::views;

verus! {

/// What the polls of one run have in common.
#[derive(Clone, Copy, Debug, PartialEq, Eq, Structural)]
pub enum Grain {
    /// The riding.
    Riding,
    /// The riding and the party.
    Entry,
}

/// Two polls belong to the same run at this grain.
pub open spec fn same_run(a: PollView, b: PollView, grain: Grain) -> bool {
    a.riding == b.riding && (grain == Grain::Entry ==> a.party == b.party)
}

/// The runs laid end to end.
pub open spec fn joined(runs: Seq<Seq<PollView>>) -> Seq<PollView>
    decreases runs.len(),
{
    if runs.len() == 0 {
        Seq::empty()
    } else {
        joined(runs.drop_last()) + runs.last()
    }
}

/// The views of the polls of each run.
pub open spec fn run_views(runs: Seq<Vec<Poll>>) -> Seq<Seq<PollView>> {
    runs.map_values(|run: Vec<Poll>| views(run@))
}

/// Run `i` starts where run `i - 1` ends because the two polls there do not belong together.
pub open spec fn parted(runs: Seq<Seq<PollView>>, i: int, grain: Grain) -> bool {
    !same_run(runs[i - 1].last(), runs[i][0], grain)
}

/// `runs` cuts `polls` into its runs: the runs are `polls` in order, none is empty, all polls
/// of a run belong with its first, and a run ends where the next poll no longer belongs.
pub open spec fn is_split(polls: Seq<PollView>, runs: Seq<Seq<PollView>>, grain: Grain) -> bool {
    &&& joined(runs) == polls
    &&& forall|i: int| 0 <= i < runs.len() ==> (#[trigger] runs[i]).len() > 0
    &&& forall|i: int, j: int|
        0 <= i < runs.len() && 0 <= j < runs[i].len() ==> same_run(
            runs[i][0],
            #[trigger] runs[i][j],
            grain,
        )
    &&& forall|i: int| 0 < i < runs.len() ==> #[trigger] parted(runs, i, grain)
}

/// What decides, at this grain, whether a poll belongs with its neighbour.
pub fn run_key(poll: &Poll, grain: Grain) -> (key: (String, Option<Party>))
    ensures
        key.0@ == poll.riding@,
        key.1 == (if grain == Grain::Entry {
            Some(poll.party)
        } else {
            None::<Party>
        }),
{
    let party = match grain {
        Grain::Entry => Some(poll.party),
        Grain::Riding => None,
    };
    (poll.riding.clone(), party)
}

/// Poll `j` of run `i` belongs with the poll before it in that run.
pub open spec fn linked(runs: Seq<Seq<PollView>>, i: int, j: int, grain: Grain) -> bool {
    same_run(runs[i][j - 1], runs[i][j], grain)
}

/// `runs` are the groups of `polls`: the groups are `polls` in order, none is empty, each
/// poll of a group but its first belongs with the poll before it, and a group ends where the
/// next poll does not belong with its last.
pub open spec fn is_grouped(polls: Seq<PollView>, runs: Seq<Seq<PollView>>, grain: Grain) -> bool {
    &&& joined(runs) == polls
    &&& forall|i: int| 0 <= i < runs.len() ==> (#[trigger] runs[i]).len() > 0
    &&& forall|i: int, j: int|
        0 <= i < runs.len() && 0 < j < runs[i].len() ==> #[trigger] linked(runs, i, j, grain)
    &&& forall|i: int| 0 < i < runs.len() ==> #[trigger] parted(runs, i, grain)
}

/// Groups `polls` with `Itertools::group_by`, keyed by [`run_key`]. Trusted: that `group_by`
/// hands out the items in order, each in exactly one group, that a group is never empty, and
/// that it starts a new group exactly where the key of an item differs from that of the item
/// before it.
#[verifier::external_body]
fn group_runs(polls: Vec<Poll>, grain: Grain) -> (runs: Vec<Vec<Poll>>)
    ensures
        is_grouped(views(polls@), run_views(runs@), grain),
{
    let groups = polls.into_iter().group_by(|poll| run_key(poll, grain));
    groups.into_iter().map(|(_, group)| group.collect()).collect()
}

/// Cuts `polls` into its runs.
pub(crate) fn split_runs(polls: Vec<Poll>, grain: Grain) -> (runs: Vec<Vec<Poll>>)
    ensures
        is_split(views(polls@), run_views(runs@), grain),
{
    let runs = group_runs(polls, grain);
    proof {
        lemma_grouped_is_split(views(polls@), run_views(runs@), grain);
    }
    runs
}

/// The groups of a list of polls are its runs.
pub proof fn lemma_grouped_is_split(polls: Seq<PollView>, runs: Seq<Seq<PollView>>, grain: Grain)
    requires
        is_grouped(polls, runs, grain),
    ensures
        is_split(polls, runs, grain),
{
    assert forall|i: int, j: int| 0 <= i < runs.len() && 0 <= j < runs[i].len() implies same_run(
        runs[i][0],
        #[trigger] runs[i][j],
        grain,
    ) by {
        lemma_linked_to_first(runs, i, j, grain);
    }
}

/// In a group, every poll belongs with the first: belonging carries over from neighbour to
/// neighbour.
proof fn lemma_linked_to_first(runs: Seq<Seq<PollView>>, i: int, j: int, grain: Grain)
    requires
        0 <= i < runs.len(),
        0 <= j < runs[i].len(),
        forall|k: int| 0 < k < runs[i].len() ==> #[trigger] linked(runs, i, k, grain),
    ensures
        same_run(runs[i][0], runs[i][j], grain),
    decreases j,
{
    if j > 0 {
        lemma_linked_to_first(runs, i, j - 1, grain);
        assert(linked(runs, i, j, grain));
    }
}

/// `runs` without the last poll of its last run; without that run, where it holds one poll.
pub open spec fn peeled(runs: Seq<Seq<PollView>>) -> Seq<Seq<PollView>> {
    if runs.last().len() == 1 {
        runs.drop_last()
    } else {
        runs.drop_last().push(runs.last().drop_last())
    }
}

/// Nothing is cut into no runs.
pub proof fn lemma_split_nothing(runs: Seq<Seq<PollView>>, grain: Grain)
    requires
        is_split(Seq::empty(), runs, grain),
    ensures
        runs.len() == 0,
{
    if runs.len() > 0 {
        assert(runs.last() == runs[runs.len() - 1]);
        assert(joined(runs).len() >= runs.last().len());
    }
}

/// Taking the last poll away takes it from the last run: what is left cuts the rest, and the
/// last run held more than that poll exactly where it belongs with the poll before it.
pub proof fn lemma_split_peel(polls: Seq<PollView>, runs: Seq<Seq<PollView>>, grain: Grain)
    requires
        is_split(polls, runs, grain),
        polls.len() > 0,
    ensures
        runs.len() > 0,
        runs.last().len() > 0,
        runs.last().last() == polls.last(),
        is_split(polls.drop_last(), peeled(runs), grain),
        polls.len() > 1 ==> (same_run(polls[polls.len() - 2], polls.last(), grain)
            <==> runs.last().len() > 1),
{
    let n = runs.len() - 1;
    let last = runs.last();
    let front = runs.drop_last();
    assert(runs.len() > 0);
    assert(last == runs[n]);
    assert(last.len() > 0);
    assert(polls == joined(front) + last);
    let rest = peeled(runs);
    assert forall|i: int| 0 <= i < front.len() implies front[i] == runs[i] by {}
    if last.len() == 1 {
        assert(polls.drop_last() =~= joined(front));
        assert forall|i: int| 0 < i < rest.len() implies #[trigger] parted(rest, i, grain) by {
            assert(parted(runs, i, grain));
        }
        assert(is_split(polls.drop_last(), rest, grain));
        if polls.len() > 1 {
            assert(front.len() > 0);
            let m = front.len() - 1;
            assert(front.last() == runs[m]);
            assert(joined(front) == joined(front.drop_last()) + front.last());
            assert(polls[polls.len() - 2] == front.last().last());
            assert(parted(runs, n, grain));
        }
    } else {
        assert(rest.drop_last() =~= front);
        assert(rest.last() == last.drop_last());
        assert(polls.drop_last() =~= joined(front) + last.drop_last());
        assert forall|i: int| 0 <= i < rest.len() implies (#[trigger] rest[i]).len() > 0 by {
            if i < n {
                assert(rest[i] == runs[i]);
            }
        }
        assert forall|i: int, j: int|
            0 <= i < rest.len() && 0 <= j < rest[i].len() implies same_run(
            rest[i][0],
            #[trigger] rest[i][j],
            grain,
        ) by {
            if i < n {
                assert(rest[i] == runs[i]);
            } else {
                assert(rest[i][j] == runs[n][j]);
                assert(rest[i][0] == runs[n][0]);
            }
        }
        assert forall|i: int| 0 < i < rest.len() implies #[trigger] parted(rest, i, grain) by {
            assert(parted(runs, i, grain));
            if i == n {
                assert(rest[i][0] == runs[n][0]);
                assert(rest[i - 1] == runs[i - 1]);
            }
        }
        assert(is_split(polls.drop_last(), rest, grain));
        assert(polls[polls.len() - 2] == runs[n][last.len() - 2]);
        assert(polls.last() == runs[n][last.len() - 1]);
    }
}

/// Determinism: a list of polls is cut into runs in one way only. Whatever cuts it as
/// [`is_split`] says gives the same runs; so does whatever groups it as [`is_grouped`] says,
/// by [`lemma_grouped_is_split`].
pub proof fn lemma_split_unique(
    polls: Seq<PollView>,
    a: Seq<Seq<PollView>>,
    b: Seq<Seq<PollView>>,
    grain: Grain,
)
    requires
        is_split(polls, a, grain),
        is_split(polls, b, grain),
    ensures
        a == b,
    decreases polls.len(),
{
    if polls.len() == 0 {
        lemma_split_nothing(a, grain);
        lemma_split_nothing(b, grain);
        assert(a =~= b);
    } else {
        lemma_split_peel(polls, a, grain);
        lemma_split_peel(polls, b, grain);
        lemma_split_unique(polls.drop_last(), peeled(a), peeled(b), grain);
        if polls.len() == 1 {
            lemma_split_nothing(peeled(a), grain);
            lemma_split_nothing(peeled(b), grain);
        }
        if a.last().len() == 1 {
            assert(a.last() =~= b.last());
        } else {
            let rest = peeled(a);
            assert(rest.drop_last() =~= a.drop_last());
            assert(rest.drop_last() =~= b.drop_last());
            assert(rest.last() == a.last().drop_last());
            assert(rest.last() == b.last().drop_last());
            assert(a.last() =~= a.last().drop_last().push(polls.last()));
            assert(b.last() =~= b.last().drop_last().push(polls.last()));
        }
        assert(a =~= a.drop_last().push(a.last()));
        assert(b =~= b.drop_last().push(b.last()));
    }
}

/// The votes of one run are among the votes of all.
pub proof fn lemma_run_votes(runs: Seq<Seq<PollView>>, i: int)
    requires
        0 <= i < runs.len(),
    ensures
        votes_total(runs[i]) <= votes_total(joined(runs)),
    decreases runs.len(),
{
    lemma_votes_total_concat(joined(runs.drop_last()), runs.last());
    if i < runs.len() - 1 {
        lemma_run_votes(runs.drop_last(), i);
    }
}

} // verus!
