//! The counting engine: which votes count, and how many points each choice
//! receives from them.

use crate::voting::{
    vote_views, Contest, ContestView, DecodedContestVote, VoteChoiceView, VoteView,
};
use std::collections::HashMap;
use vstd::prelude::*;
use vstd::std_specs::hash::*;

verus! {

/// The points that a list of selections gives to the choice `id`. A choice
/// selected twice is counted twice.
pub open spec fn selected_for(choices: Seq<VoteChoiceView>, id: int) -> nat
    decreases choices.len(),
{
    if choices.len() == 0 {
        0
    } else {
        selected_for(choices.drop_last(), id) + if choices.last().contest_choice.id == id {
            choices.last().selected
        } else {
            0
        }
    }
}

/// The points that one vote gives to the choice `id`: those of its
/// selections if the vote is valid, none otherwise.
pub open spec fn points_of(vote: VoteView, contest: ContestView, id: int) -> nat {
    if vote.is_valid(contest) {
        selected_for(vote.choices, id)
    } else {
        0
    }
}

/// The total of the choice `id` over all votes.
pub open spec fn count_for(votes: Seq<VoteView>, contest: ContestView, id: int) -> nat
    decreases votes.len(),
{
    if votes.len() == 0 {
        0
    } else {
        count_for(votes.drop_last(), contest, id) + points_of(votes.last(), contest, id)
    }
}

/// The number of valid votes.
pub open spec fn valid_votes(votes: Seq<VoteView>, contest: ContestView) -> nat
    decreases votes.len(),
{
    if votes.len() == 0 {
        0
    } else {
        valid_votes(votes.drop_last(), contest) + if votes.last().is_valid(contest) {
            1nat
        } else {
            0nat
        }
    }
}

/// Whether one of the selections names the choice `id`.
pub open spec fn names(choices: Seq<VoteChoiceView>, id: int) -> bool {
    exists|j: int| 0 <= j < choices.len() && (#[trigger] choices[j]).contest_choice.id == id
}

/// Whether a valid vote names the choice `id`.
pub open spec fn is_named(votes: Seq<VoteView>, contest: ContestView, id: int) -> bool {
    exists|i: int|
        0 <= i < votes.len() && (#[trigger] votes[i]).is_valid(contest) && names(
            votes[i].choices,
            id,
        )
}

/// Whether some total is too large for the integer that has to hold it: the
/// number of votes for an `i64`, a choice's total for a `u64`.
pub open spec fn counts_overflow(votes: Seq<VoteView>, contest: ContestView) -> bool {
    votes.len() > i64::MAX || exists|id: i64| count_for(votes, contest, id as int) > u64::MAX
}

/// There are no more valid votes than votes.
pub proof fn lemma_valid_votes_bound(votes: Seq<VoteView>, contest: ContestView)
    ensures
        valid_votes(votes, contest) <= votes.len(),
    decreases votes.len(),
{
    if votes.len() != 0 {
        lemma_valid_votes_bound(votes.drop_last(), contest);
    }
}

/// The first `j` selections give a choice no more points than all of them.
pub proof fn lemma_selected_for_prefix(choices: Seq<VoteChoiceView>, j: int, id: int)
    requires
        0 <= j <= choices.len(),
    ensures
        selected_for(choices.take(j), id) <= selected_for(choices, id),
    decreases choices.len(),
{
    if j == choices.len() {
        assert(choices.take(j) =~= choices);
    } else {
        lemma_selected_for_prefix(choices.drop_last(), j, id);
        assert(choices.drop_last().take(j) =~= choices.take(j));
    }
}

/// The first `i` votes give a choice no more points than all of them.
pub proof fn lemma_count_for_prefix(votes: Seq<VoteView>, contest: ContestView, i: int, id: int)
    requires
        0 <= i <= votes.len(),
    ensures
        count_for(votes.take(i), contest, id) <= count_for(votes, contest, id),
    decreases votes.len(),
{
    if i == votes.len() {
        assert(votes.take(i) =~= votes);
    } else {
        lemma_count_for_prefix(votes.drop_last(), contest, i, id);
        assert(votes.drop_last().take(i) =~= votes.take(i));
    }
}

/// What one more selection adds to a choice's points.
pub proof fn lemma_selected_for_step(choices: Seq<VoteChoiceView>, j: int, id: int)
    requires
        0 <= j < choices.len(),
    ensures
        selected_for(choices.take(j + 1), id) == selected_for(choices.take(j), id) + if choices[j].contest_choice.id
            == id {
            choices[j].selected
        } else {
            0
        },
{
    assert(choices.take(j + 1).drop_last() =~= choices.take(j));
}

/// What one more vote adds to a choice's total and to the number of valid
/// votes.
pub proof fn lemma_count_for_step(votes: Seq<VoteView>, contest: ContestView, i: int)
    requires
        0 <= i < votes.len(),
    ensures
        forall|id: int| #[trigger]
            count_for(votes.take(i + 1), contest, id) == count_for(votes.take(i), contest, id)
                + points_of(votes[i], contest, id),
        valid_votes(votes.take(i + 1), contest) == valid_votes(votes.take(i), contest)
            + if votes[i].is_valid(contest) {
            1nat
        } else {
            0nat
        },
{
    assert(votes.take(i + 1).drop_last() =~= votes.take(i));
}

/// What one more selection adds to the choices that are named.
pub proof fn lemma_names_step(choices: Seq<VoteChoiceView>, j: int, id: int)
    requires
        0 <= j < choices.len(),
    ensures
        names(choices.take(j + 1), id) <==> names(choices.take(j), id)
            || choices[j].contest_choice.id == id,
{
    let shorter = choices.take(j);
    let longer = choices.take(j + 1);
    if names(shorter, id) {
        let k = choose|k: int| 0 <= k < shorter.len() && (#[trigger] shorter[k]).contest_choice.id == id;
        assert(longer[k].contest_choice.id == id);
    }
    if choices[j].contest_choice.id == id {
        assert(longer[j].contest_choice.id == id);
    }
    if names(longer, id) {
        let k = choose|k: int| 0 <= k < longer.len() && (#[trigger] longer[k]).contest_choice.id == id;
        if k < j {
            assert(shorter[k].contest_choice.id == id);
        }
    }
}

/// What one more vote adds to the choices that are named.
pub proof fn lemma_is_named_step(votes: Seq<VoteView>, contest: ContestView, i: int, id: int)
    requires
        0 <= i < votes.len(),
    ensures
        is_named(votes.take(i + 1), contest, id) <==> is_named(votes.take(i), contest, id) || (
        votes[i].is_valid(contest) && names(votes[i].choices, id)),
{
    let shorter = votes.take(i);
    let longer = votes.take(i + 1);
    if is_named(shorter, contest, id) {
        let k = choose|k: int|
            0 <= k < shorter.len() && (#[trigger] shorter[k]).is_valid(contest) && names(
                shorter[k].choices,
                id,
            );
        assert(longer[k] == shorter[k]);
    }
    if votes[i].is_valid(contest) && names(votes[i].choices, id) {
        assert(longer[i] == votes[i]);
    }
    if is_named(longer, contest, id) {
        let k = choose|k: int|
            0 <= k < longer.len() && (#[trigger] longer[k]).is_valid(contest) && names(
                longer[k].choices,
                id,
            );
        if k < i {
            assert(shorter[k] == longer[k]);
        }
    }
}

/// Selections of at most one point each give a choice no more points than
/// there are selections.
pub proof fn lemma_selected_for_single_points(choices: Seq<VoteChoiceView>, id: int)
    requires
        forall|j: int| 0 <= j < choices.len() ==> (#[trigger] choices[j]).selected <= 1,
    ensures
        selected_for(choices, id) <= choices.len(),
    decreases choices.len(),
{
    if choices.len() != 0 {
        let rest = choices.drop_last();
        assert forall|j: int| 0 <= j < rest.len() implies (#[trigger] rest[j]).selected <= 1 by {
            assert(rest[j] == choices[j]);
        }
        lemma_selected_for_single_points(rest, id);
    }
}

/// Votes that give a choice at most `cap` points each give it no more than
/// `cap` times their number in all.
pub proof fn lemma_count_for_capped(votes: Seq<VoteView>, contest: ContestView, id: int, cap: nat)
    requires
        forall|i: int| 0 <= i < votes.len() ==> points_of(#[trigger] votes[i], contest, id) <= cap,
    ensures
        count_for(votes, contest, id) <= cap * votes.len(),
    decreases votes.len(),
{
    if votes.len() != 0 {
        let rest = votes.drop_last();
        assert forall|i: int| 0 <= i < rest.len() implies points_of(
            #[trigger] rest[i],
            contest,
            id,
        ) <= cap by {
            assert(rest[i] == votes[i]);
        }
        lemma_count_for_capped(rest, contest, id, cap);
        assert(points_of(votes.last(), contest, id) <= cap);
        assert(cap * votes.len() == cap * rest.len() + cap) by (nonlinear_arith)
            requires
                votes.len() == rest.len() + 1,
        ;
    } else {
        assert(cap * votes.len() == 0) by (nonlinear_arith)
            requires
                votes.len() == 0,
        ;
    }
}

/// Where every vote is valid, the number of valid votes is the number of
/// votes.
pub proof fn lemma_all_valid(votes: Seq<VoteView>, contest: ContestView)
    requires
        forall|i: int| 0 <= i < votes.len() ==> (#[trigger] votes[i]).is_valid(contest),
    ensures
        valid_votes(votes, contest) == votes.len(),
    decreases votes.len(),
{
    if votes.len() != 0 {
        let rest = votes.drop_last();
        assert forall|i: int| 0 <= i < rest.len() implies (#[trigger] rest[i]).is_valid(contest) by {
            assert(rest[i] == votes[i]);
        }
        lemma_all_valid(rest, contest);
    }
}

/// The totals of a batch of votes.
pub struct VoteCounts {
    /// The total of each choice that a valid vote selected, by identifier.
    pub counts: HashMap<i64, u64>,
    /// The number of valid votes.
    pub valid: usize,
    /// The number of invalid votes.
    pub invalid: usize,
}

impl VoteCounts {
    /// Whether these are the totals of `votes` in `contest`: the choices
    /// that a valid vote names have an entry, which holds their total, and
    /// the others have no points.
    pub open spec fn counts_votes(self, votes: Seq<VoteView>, contest: ContestView) -> bool {
        &&& self.valid == valid_votes(votes, contest)
        &&& self.valid + self.invalid == votes.len()
        &&& forall|id: i64| #[trigger]
            self.counts@.contains_key(id) <==> is_named(votes, contest, id as int)
        &&& forall|id: i64| #[trigger]
            self.counts@.contains_key(id) ==> self.counts@[id] == count_for(
                votes,
                contest,
                id as int,
            )
        &&& forall|id: i64|
            !self.counts@.contains_key(id) ==> #[trigger] count_for(votes, contest, id as int)
                == 0
    }
}

/// Sorts the votes into valid and invalid, and adds up the selections of the
/// valid ones by choice.
///
/// Returns nothing exactly when a choice's total does not fit a `u64`.
pub fn aggregate(votes: &Vec<DecodedContestVote>, contest: &Contest) -> (res: Option<VoteCounts>)
    ensures
        res is None <==> exists|id: i64|
            count_for(vote_views(votes@), contest@, id as int) > u64::MAX,
        res matches Some(totals) ==> totals.counts_votes(vote_views(votes@), contest@),
{
    broadcast use group_hash_axioms;

    let ghost vv = vote_views(votes@);
    let ghost cv = contest@;
    let mut counts: HashMap<i64, u64> = HashMap::new();
    let mut valid: usize = 0;
    let mut i: usize = 0;
    while i < votes.len()
        invariant
            i <= votes.len(),
            vv == vote_views(votes@),
            cv == contest@,
            valid == valid_votes(vv.take(i as int), cv),
            valid <= i,
            forall|id: i64| #[trigger]
                counts@.contains_key(id) <==> is_named(vv.take(i as int), cv, id as int),
            forall|id: i64| #[trigger]
                counts@.contains_key(id) ==> counts@[id] == count_for(
                    vv.take(i as int),
                    cv,
                    id as int,
                ),
            forall|id: i64|
                !counts@.contains_key(id) ==> #[trigger] count_for(vv.take(i as int), cv, id as int)
                    == 0,
        decreases votes.len() - i,
    {
        let vote = &votes[i];
        let ghost view = vv[i as int];
        proof {
            lemma_count_for_step(vv, cv, i as int);
            assert forall|id: i64|
                is_named(vv.take(i + 1), cv, id as int) <==> is_named(
                    vv.take(i as int),
                    cv,
                    id as int,
                ) || (view.is_valid(cv) && names(view.choices, id as int)) by {
                lemma_is_named_step(vv, cv, i as int, id as int);
            }
        }
        if vote.is_valid(contest) {
            let mut j: usize = 0;
            assert(view.choices.take(0) =~= Seq::<VoteChoiceView>::empty());
            while j < vote.choices.len()
                invariant
                    i < votes.len(),
                    vote == &votes[i as int],
                    view == vote@,
                    view == vv[i as int],
                    j <= vote.choices.len(),
                    vv == vote_views(votes@),
                    cv == contest@,
                    view.is_valid(cv),
                    forall|id: i64| #[trigger]
                        counts@.contains_key(id) <==> is_named(vv.take(i as int), cv, id as int)
                            || names(view.choices.take(j as int), id as int),
                    forall|id: i64| #[trigger]
                        counts@.contains_key(id) ==> counts@[id] == count_for(
                            vv.take(i as int),
                            cv,
                            id as int,
                        ) + selected_for(view.choices.take(j as int), id as int),
                    forall|id: i64|
                        !counts@.contains_key(id) ==> #[trigger] count_for(
                            vv.take(i as int),
                            cv,
                            id as int,
                        ) + selected_for(view.choices.take(j as int), id as int) == 0,
                decreases vote.choices.len() - j,
            {
                let id = vote.choices[j].contest_choice.id;
                let selected = vote.choices[j].selected;
                let before: u64 = match counts.get(&id) {
                    Some(count) => *count,
                    None => 0,
                };
                proof {
                    assert forall|other: int| #[trigger]
                        selected_for(view.choices.take(j + 1), other) == selected_for(
                            view.choices.take(j as int),
                            other,
                        ) + if view.choices[j as int].contest_choice.id == other {
                            view.choices[j as int].selected
                        } else {
                            0
                        } by {
                        lemma_selected_for_step(view.choices, j as int, other);
                    }
                    assert forall|other: i64|
                        names(view.choices.take(j + 1), other as int) <==> names(
                            view.choices.take(j as int),
                            other as int,
                        ) || view.choices[j as int].contest_choice.id == other by {
                        lemma_names_step(view.choices, j as int, other as int);
                    }
                    assert(view.choices[j as int] == vote.choices[j as int]@);
                }
                if selected > u64::MAX - before {
                    proof {
                        lemma_selected_for_prefix(view.choices, j + 1, id as int);
                        lemma_count_for_prefix(vv, cv, i + 1, id as int);
                        lemma_count_for_step(vv, cv, i as int);
                        assert(view.choices[j as int] == vote.choices[j as int]@);
                        assert(selected_for(view.choices.take(j + 1), id as int) == selected_for(
                            view.choices.take(j as int),
                            id as int,
                        ) + selected);
                        assert(count_for(vv.take(i + 1), cv, id as int) == count_for(
                            vv.take(i as int),
                            cv,
                            id as int,
                        ) + selected_for(view.choices, id as int));
                    }
                    return None;
                }
                counts.insert(id, before + selected);
                j += 1;
            }
            assert(view.choices.take(j as int) =~= view.choices);
            valid += 1;
        }
        i += 1;
    }
    proof {
        assert(vv.take(i as int) =~= vv);
        assert forall|id: i64| count_for(vv, cv, id as int) <= u64::MAX by {
            if !counts@.contains_key(id) {
            }
        }
    }
    Some(VoteCounts { counts, valid, invalid: votes.len() - valid })
}

} // verus!
