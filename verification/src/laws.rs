//! What holds of every tally, proved from the contracts of the engine.

use crate::counting::{count_for, lemma_valid_votes_bound};
use crate::ranking::{
    dense_rank, is_ranking, lemma_dense_rank_bounds, position_at, precedes, winner_count,
};
use crate::tally::{first_unknown, is_tally, lemma_first_unknown_none, VoteIdView};
use crate::voting::{
    first_position, has_choice, lemma_first_position, ChoiceResultView, ChoiceView, ContestView,
    ResultView, VoteView,
};
use vstd::prelude::*;

verus! {

/// Every vote is either valid or invalid: the two totals of a result add up
/// to the number of votes, and neither is negative.
pub proof fn lemma_votes_add_up(result: ResultView, contest: ContestView, votes: Seq<VoteView>)
    requires
        is_tally(result, contest, votes),
    ensures
        result.total_valid_votes + result.total_invalid_votes == votes.len(),
        result.total_valid_votes >= 0,
        result.total_invalid_votes >= 0,
{
    lemma_valid_votes_bound(votes, contest);
}

/// An entry has a winner position above 0 if and only if it is among the
/// first `min(num_winners, entries)` of the ranking, and those have totals
/// no smaller than the entries behind them.
pub proof fn lemma_positions_mark_winners(
    results: Seq<ChoiceResultView>,
    choices: Seq<ChoiceView>,
    totals: spec_fn(int) -> nat,
    seats: int,
)
    requires
        is_ranking(results, choices, totals, seats),
    ensures
        forall|t: int|
            0 <= t < results.len() ==> ((#[trigger] results[t]).winner_position > 0 <==> t
                < winner_count(seats, results.len())),
        forall|t: int, u: int|
            0 <= t < winner_count(seats, results.len()) <= u < results.len() ==> results[t].total_count
                >= results[u].total_count,
{
    assert forall|t: int| 0 <= t < results.len() implies ((#[trigger] results[t]).winner_position
        > 0 <==> t < winner_count(seats, results.len())) by {
        lemma_dense_rank_bounds(results, t);
        assert(results[t].winner_position == position_at(results, seats, t));
    }
    assert forall|t: int, u: int|
        0 <= t < winner_count(seats, results.len()) <= u < results.len() implies results[t].total_count
        >= results[u].total_count by {
        assert(precedes(choices, results[t], results[u]));
    }
}

/// Two winners next to each other share a position where their totals are
/// equal, and the second has the next position where they are not. Two
/// entries behind the winners both have position 0.
pub proof fn lemma_neighbours(
    results: Seq<ChoiceResultView>,
    choices: Seq<ChoiceView>,
    totals: spec_fn(int) -> nat,
    seats: int,
    t: int,
)
    requires
        is_ranking(results, choices, totals, seats),
        0 <= t,
        t + 1 < results.len(),
    ensures
        t + 1 < seats && results[t].total_count == results[t + 1].total_count ==> results[t
            + 1].winner_position == results[t].winner_position,
        t + 1 < seats && results[t].total_count != results[t + 1].total_count ==> results[t
            + 1].winner_position == results[t].winner_position + 1,
        seats <= t ==> results[t].winner_position == 0 && results[t + 1].winner_position == 0,
{
    assert(results[t].winner_position == position_at(results, seats, t));
    assert(results[t + 1].winner_position == position_at(results, seats, t + 1));
}

/// The choices of a contest that received a point.
pub open spec fn counted_choices(choices: Seq<ChoiceView>, totals: spec_fn(int) -> nat) -> Set<int> {
    Set::new(|id: int| has_choice(choices, id) && totals(id) >= 1)
}

/// A ranking has one entry for each choice that received a point: there are
/// finitely many of them, and as many as entries.
pub proof fn lemma_one_entry_per_counted_choice(
    results: Seq<ChoiceResultView>,
    choices: Seq<ChoiceView>,
    totals: spec_fn(int) -> nat,
    seats: int,
)
    requires
        is_ranking(results, choices, totals, seats),
    ensures
        counted_choices(choices, totals).finite(),
        counted_choices(choices, totals).len() == results.len(),
{
    let ids = Seq::new(results.len(), |t: int| results[t].contest_choice.id);
    assert forall|t: int, u: int| 0 <= t < ids.len() && 0 <= u < ids.len() && t != u implies ids[t]
        != ids[u] by {
        if t < u {
            assert(precedes(choices, results[t], results[u]));
        } else {
            assert(precedes(choices, results[u], results[t]));
        }
    }
    assert(ids.to_set() =~= counted_choices(choices, totals)) by {
        assert forall|id: int| ids.to_set().contains(id) implies counted_choices(
            choices,
            totals,
        ).contains(id) by {
            let t = choose|t: int| 0 <= t < ids.len() && ids[t] == id;
            assert(results[t].contest_choice.id == id);
        }
        assert forall|id: int| counted_choices(choices, totals).contains(id) implies ids.to_set().contains(
            id,
        ) by {
            assert(totals(id) >= 1);
            let t = choose|t: int|
                0 <= t < results.len() && (#[trigger] results[t]).contest_choice.id == id;
            assert(ids[t] == id);
        }
    }
    ids.unique_seq_to_set();
    vstd::seq_lib::seq_to_set_is_finite(ids);
}

/// There are as many winners as the district magnitude asks for, or as many
/// as choices received a point where those are fewer.
pub proof fn lemma_winner_count(result: ResultView, contest: ContestView, votes: Seq<VoteView>)
    requires
        is_tally(result, contest, votes),
    ensures
        counted_choices(contest.choices, |id: int| count_for(votes, contest, id)).finite(),
        result.winners.len() == winner_count(
            contest.num_winners,
            counted_choices(contest.choices, |id: int| count_for(votes, contest, id)).len(),
        ),
        result.winners.len() <= result.results.len(),
{
    let totals = |id: int| count_for(votes, contest, id);
    lemma_one_entry_per_counted_choice(result.results, contest.choices, totals, contest.num_winners);
}

/// Resolving loses nothing: a vote whose identifiers all name a choice is
/// found again in the identifiers of its resolved form.
pub proof fn lemma_resolve_keeps_identifiers(vote: VoteIdView, contest: ContestView)
    requires
        first_unknown(vote.choices, contest.choices) is None,
    ensures
        vote.resolve(contest).to_ids() == vote,
{
    lemma_first_unknown_none(vote.choices, contest.choices);
    let back = vote.resolve(contest).to_ids();
    assert forall|j: int| 0 <= j < vote.choices.len() implies back.choices[j]
        == vote.choices[j] by {
        assert(has_choice(contest.choices, vote.choices[j].contest_choice));
        lemma_first_position(contest.choices, vote.choices[j].contest_choice);
    }
    assert(back.choices =~= vote.choices);
}

/// Two votes whose identifiers all name a choice and that resolve to the same
/// vote are the same vote.
pub proof fn lemma_resolve_is_injective(first: VoteIdView, second: VoteIdView, contest: ContestView)
    requires
        first_unknown(first.choices, contest.choices) is None,
        first_unknown(second.choices, contest.choices) is None,
        first.resolve(contest) == second.resolve(contest),
    ensures
        first == second,
{
    lemma_resolve_keeps_identifiers(first, contest);
    lemma_resolve_keeps_identifiers(second, contest);
}

/// Positions depend on the totals up to the entry only.
proof fn lemma_dense_rank_by_totals(
    first: Seq<ChoiceResultView>,
    second: Seq<ChoiceResultView>,
    t: int,
)
    requires
        forall|u: int| 0 <= u <= t ==> (#[trigger] first[u]).total_count == second[u].total_count,
    ensures
        dense_rank(first, t) == dense_rank(second, t),
    decreases t,
{
    if t > 0 {
        lemma_dense_rank_by_totals(first, second, t - 1);
    }
}

/// `is_ranking`, kept folded so that a proof unfolds it one entry at a time.
#[verifier::opaque]
spec fn ranks(
    results: Seq<ChoiceResultView>,
    choices: Seq<ChoiceView>,
    totals: spec_fn(int) -> nat,
    seats: int,
) -> bool {
    is_ranking(results, choices, totals, seats)
}

/// What a ranking says of its entry `t`.
proof fn lemma_entry(
    results: Seq<ChoiceResultView>,
    choices: Seq<ChoiceView>,
    totals: spec_fn(int) -> nat,
    seats: int,
    t: int,
)
    requires
        ranks(results, choices, totals, seats),
        0 <= t < results.len(),
    ensures
        has_choice(choices, results[t].contest_choice.id),
        results[t].contest_choice == choices[first_position(choices, results[t].contest_choice.id)],
        results[t].total_count == totals(results[t].contest_choice.id),
        results[t].total_count >= 1,
        results[t].winner_position == position_at(results, seats, t),
{
    reveal(ranks);
}

/// The entry that a ranking has for a choice that received a point.
proof fn lemma_entry_of(
    results: Seq<ChoiceResultView>,
    choices: Seq<ChoiceView>,
    totals: spec_fn(int) -> nat,
    seats: int,
    id: int,
) -> (t: int)
    requires
        ranks(results, choices, totals, seats),
        has_choice(choices, id),
        totals(id) >= 1,
    ensures
        0 <= t < results.len(),
        results[t].contest_choice.id == id,
{
    reveal(ranks);
    choose|t: int| 0 <= t < results.len() && (#[trigger] results[t]).contest_choice.id == id
}

/// The order that a ranking puts two of its entries in.
proof fn lemma_order(
    results: Seq<ChoiceResultView>,
    choices: Seq<ChoiceView>,
    totals: spec_fn(int) -> nat,
    seats: int,
    t: int,
    u: int,
)
    requires
        ranks(results, choices, totals, seats),
        0 <= t < u < results.len(),
    ensures
        precedes(choices, results[t], results[u]),
{
    reveal(ranks);
}

/// Two rankings of one contest with the same totals agree on their first `n`
/// entries.
proof fn lemma_rankings_agree_up_to(
    first: Seq<ChoiceResultView>,
    second: Seq<ChoiceResultView>,
    choices: Seq<ChoiceView>,
    totals: spec_fn(int) -> nat,
    seats: int,
    n: int,
)
    requires
        ranks(first, choices, totals, seats),
        ranks(second, choices, totals, seats),
        first.len() == second.len(),
        0 <= n <= first.len(),
    ensures
        forall|t: int| 0 <= t < n ==> first[t] == second[t],
    decreases n,
{
    if n > 0 {
        lemma_rankings_agree_up_to(first, second, choices, totals, seats, n - 1);
        let t = n - 1;
        let a = first[t];
        let b = second[t];
        lemma_entry(first, choices, totals, seats, t);
        lemma_entry(second, choices, totals, seats, t);
        if a.contest_choice.id != b.contest_choice.id {
            let v = lemma_entry_of(second, choices, totals, seats, a.contest_choice.id);
            lemma_entry(second, choices, totals, seats, v);
            if v < t {
                assert(first[v] == second[v]);
                lemma_order(first, choices, totals, seats, v, t);
            }
            lemma_order(second, choices, totals, seats, t, v);
            let w = lemma_entry_of(first, choices, totals, seats, b.contest_choice.id);
            lemma_entry(first, choices, totals, seats, w);
            if w < t {
                assert(first[w] == second[w]);
                lemma_order(second, choices, totals, seats, w, t);
            }
            lemma_order(first, choices, totals, seats, t, w);
            assert(false);
        }
        assert forall|u: int| 0 <= u <= t implies (#[trigger] first[u]).total_count
            == second[u].total_count by {
            if u < t {
                assert(first[u] == second[u]);
            }
        }
        lemma_dense_rank_by_totals(first, second, t);
    }
}

/// A contest with given totals has one ranking: the order of the entries,
/// ties included, their totals and their positions are all determined.
pub proof fn lemma_ranking_is_unique(
    first: Seq<ChoiceResultView>,
    second: Seq<ChoiceResultView>,
    choices: Seq<ChoiceView>,
    totals: spec_fn(int) -> nat,
    seats: int,
)
    requires
        is_ranking(first, choices, totals, seats),
        is_ranking(second, choices, totals, seats),
    ensures
        first == second,
{
    lemma_one_entry_per_counted_choice(first, choices, totals, seats);
    lemma_one_entry_per_counted_choice(second, choices, totals, seats);
    assert(ranks(first, choices, totals, seats) && ranks(second, choices, totals, seats)) by {
        reveal(ranks);
    }
    lemma_rankings_agree_up_to(first, second, choices, totals, seats, first.len() as int);
    assert(first =~= second);
}

/// The votes of a contest have one outcome.
pub proof fn lemma_tally_is_unique(
    first: ResultView,
    second: ResultView,
    contest: ContestView,
    votes: Seq<VoteView>,
)
    requires
        is_tally(first, contest, votes),
        is_tally(second, contest, votes),
    ensures
        first == second,
{
    lemma_ranking_is_unique(
        first.results,
        second.results,
        contest.choices,
        |id: int| count_for(votes, contest, id),
        contest.num_winners,
    );
}

} // verus!
