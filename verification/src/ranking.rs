//! Ranking and winner assignment: the counted choices in order, larger
//! totals first, with tie-aware positions for the winners.

use crate::voting::{
    choice_result_views, choice_views, first_position, has_choice, lemma_first_position,
    lemma_first_position_is, ChoiceResultView, ChoiceView, Contest, ContestChoice,
    ContestChoiceResult,
};
use std::collections::HashMap;
use vstd::prelude::*;
use vstd::std_specs::hash::*;

verus! {

/// A choice in the running: its total, and where it stands in the contest's
/// list of choices.
#[derive(Clone, Copy, Debug)]
pub struct Candidate {
    pub count: u64,
    pub index: usize,
}

impl Candidate {
    /// A candidate comes before another if its total is larger, or, between
    /// equal totals, if the contest lists it first.
    pub open spec fn ranks_before(self, other: Candidate) -> bool {
        self.count > other.count || (self.count == other.count && self.index < other.index)
    }

    /// `ranks_before`, or the two are equal in total and place.
    pub open spec fn ranks_no_later(self, other: Candidate) -> bool {
        self.count > other.count || (self.count == other.count && self.index <= other.index)
    }

    /// Decides `ranks_before`.
    pub fn comes_before(&self, other: &Candidate) -> (res: bool)
        ensures
            res == self.ranks_before(*other),
    {
        self.count > other.count || (self.count == other.count && self.index < other.index)
    }
}

/// Whether each of the first `n` candidates of the list ranks no later than
/// those that follow it among them.
pub open spec fn is_ranked_up_to(list: Seq<Candidate>, n: int) -> bool {
    forall|a: int, b: int| 0 <= a < b < n ==> list[a].ranks_no_later(list[b])
}

/// Whether each candidate of the list ranks no later than those behind it.
pub open spec fn is_ranked(list: Seq<Candidate>) -> bool {
    is_ranked_up_to(list, list.len() as int)
}

/// Exchanging two entries of a list leaves its entries, as a multiset,
/// unchanged.
pub proof fn lemma_exchange_keeps_entries<A>(list: Seq<A>, a: int, b: int)
    requires
        0 <= a < list.len(),
        0 <= b < list.len(),
    ensures
        list.update(a, list[b]).update(b, list[a]).to_multiset() == list.to_multiset(),
{
    broadcast use vstd::multiset::group_multiset_axioms;

    let first = list.update(a, list[b]);
    vstd::seq_lib::to_multiset_update(list, a, list[b]);
    vstd::seq_lib::to_multiset_update(first, b, list[a]);
    if a == b {
        assert(first.update(b, list[a]) =~= list);
    } else {
        assert(list.contains(list[a]));
        assert(list.contains(list[b]));
        vstd::seq_lib::to_multiset_contains(list, list[a]);
        vstd::seq_lib::to_multiset_contains(list, list[b]);
        assert(first.update(b, list[a]).to_multiset() =~= list.to_multiset());
    }
}

/// Puts the candidates in ranking order: the same candidates, each no later
/// than those behind it.
pub fn sort_candidates(list: &mut Vec<Candidate>)
    ensures
        is_ranked(final(list)@),
        final(list)@.to_multiset() == old(list)@.to_multiset(),
{
    let n = list.len();
    if n < 2 {
        return;
    }
    let mut i: usize = 1;
    while i < n
        invariant
            1 <= i <= n,
            list.len() == n,
            is_ranked_up_to(list@, i as int),
            list@.to_multiset() == old(list)@.to_multiset(),
        decreases n - i,
    {
        let mut j: usize = i;
        while j > 0 && list[j].comes_before(&list[j - 1])
            invariant
                j <= i < n,
                list.len() == n,
                list@.to_multiset() == old(list)@.to_multiset(),
                forall|a: int, b: int|
                    0 <= a < b <= i && a != j && b != j ==> list[a].ranks_no_later(list[b]),
                forall|b: int| j < b <= i ==> list[j as int].ranks_no_later(list[b]),
            decreases j,
        {
            let moving = list[j];
            let displaced = list[j - 1];
            proof {
                lemma_exchange_keeps_entries(list@, j - 1, j as int);
            }
            list.set(j - 1, moving);
            list.set(j, displaced);
            j -= 1;
        }
        proof {
            let at = j as int;
            assert(at > 0 ==> list[at - 1].ranks_no_later(list[at]));
            assert forall|a: int, b: int| 0 <= a < b <= i implies list[a].ranks_no_later(
                list[b],
            ) by {
                if b == at && a < at - 1 {
                    assert(list[a].ranks_no_later(list[at - 1]));
                }
            }
        }
        i += 1;
    }
}

/// The total that `counts` holds for the choice `id`; a choice without an
/// entry has none.
pub open spec fn total_of(counts: Map<i64, u64>, id: int) -> nat {
    if i64::MIN <= id <= i64::MAX && counts.contains_key(id as i64) {
        counts[id as i64] as nat
    } else {
        0
    }
}

/// Whether `candidate` stands for a choice of the contest that received a
/// point: it holds the place of the first choice with that identifier, and
/// that choice's total.
pub open spec fn is_candidate(
    candidate: Candidate,
    choices: Seq<ChoiceView>,
    totals: spec_fn(int) -> nat,
) -> bool {
    &&& candidate.index < choices.len()
    &&& first_position(choices, choices[candidate.index as int].id) == candidate.index
    &&& candidate.count == totals(choices[candidate.index as int].id)
    &&& candidate.count >= 1
}

/// The candidate that stands for the choice `id`.
pub open spec fn candidate_of(choices: Seq<ChoiceView>, totals: spec_fn(int) -> nat, id: int) -> Candidate {
    Candidate { count: totals(id) as u64, index: first_position(choices, id) as usize }
}

/// Whether `list` holds one candidate for each choice of the contest that
/// received a point, and nothing else.
pub open spec fn are_candidates(
    list: Seq<Candidate>,
    choices: Seq<ChoiceView>,
    totals: spec_fn(int) -> nat,
) -> bool {
    &&& forall|t: int| 0 <= t < list.len() ==> is_candidate(#[trigger] list[t], choices, totals)
    &&& forall|id: int|
        has_choice(choices, id) && totals(id) >= 1 ==> list.contains(
            #[trigger] candidate_of(choices, totals, id),
        )
    &&& list.no_duplicates()
}

/// A list with the same entries as a list of candidates is one too.
pub proof fn lemma_same_entries_are_candidates(
    before: Seq<Candidate>,
    after: Seq<Candidate>,
    choices: Seq<ChoiceView>,
    totals: spec_fn(int) -> nat,
)
    requires
        are_candidates(before, choices, totals),
        after.to_multiset() == before.to_multiset(),
    ensures
        are_candidates(after, choices, totals),
{
    assert forall|t: int| 0 <= t < after.len() implies is_candidate(
        #[trigger] after[t],
        choices,
        totals,
    ) by {
        assert(after.contains(after[t]));
        vstd::seq_lib::to_multiset_contains(after, after[t]);
        vstd::seq_lib::to_multiset_contains(before, after[t]);
    }
    assert forall|id: int| has_choice(choices, id) && totals(id) >= 1 implies after.contains(
        #[trigger] candidate_of(choices, totals, id),
    ) by {
        let c = candidate_of(choices, totals, id);
        vstd::seq_lib::to_multiset_contains(after, c);
        vstd::seq_lib::to_multiset_contains(before, c);
    }
    before.lemma_multiset_has_no_duplicates();
    after.lemma_multiset_has_no_duplicates_conv();
}

/// Whether none of the first `j` choices carries `id`.
pub open spec fn absent_before(choices: Seq<ChoiceView>, id: int, j: int) -> bool {
    forall|k: int| 0 <= k < j ==> (#[trigger] choices[k]).id != id
}

/// Picks out, in the order of the contest's list, the choices that received
/// a point, each once however often its identifier occurs in the list.
pub fn collect_candidates(counts: HashMap<i64, u64>, choices: &Vec<ContestChoice>) -> (list: Vec<
    Candidate,
>)
    ensures
        are_candidates(list@, choice_views(choices@), |id: int| total_of(counts@, id)),
        forall|t: int, u: int| 0 <= t < u < list@.len() ==> list@[t].index < list@[u].index,
{
    broadcast use group_hash_axioms;

    let ghost views = choice_views(choices@);
    let ghost totals = |id: int| total_of(counts@, id);
    let mut remaining = counts;
    let mut list: Vec<Candidate> = Vec::new();
    let mut j: usize = 0;
    while j < choices.len()
        invariant
            j <= choices.len(),
            views == choice_views(choices@),
            totals == (|id: int| total_of(counts@, id)),
            forall|id: i64| #[trigger]
                remaining@.contains_key(id) ==> counts@.contains_key(id) && remaining@[id]
                    == counts@[id] && absent_before(views, id as int, j as int),
            forall|id: i64|
                counts@.contains_key(id) && absent_before(views, id as int, j as int)
                    ==> #[trigger] remaining@.contains_key(id),
            forall|t: int|
                0 <= t < list.len() ==> is_candidate(#[trigger] list[t], views, totals)
                    && list[t].index < j,
            forall|id: int|
                0 <= first_position(views, id) < j && totals(id) >= 1 ==> list@.contains(
                    #[trigger] candidate_of(views, totals, id),
                ),
            list@.no_duplicates(),
            forall|t: int, u: int| 0 <= t < u < list@.len() ==> list@[t].index < list@[u].index,
        decreases choices.len() - j,
    {
        let id = choices[j].id;
        let ghost earlier = list@;
        let ghost held = remaining@;
        let found = remaining.remove(&id);
        proof {
            assert(views[j as int].id == id);
            if held.contains_key(id) {
                lemma_first_position_is(views, id as int, j as int);
            }
            assert forall|other: i64| #[trigger] remaining@.contains_key(other) implies absent_before(
                views,
                other as int,
                j + 1,
            ) by {
                assert(held.contains_key(other));
                assert(other != id);
            }
            assert forall|other: i64|
                counts@.contains_key(other) && absent_before(
                    views,
                    other as int,
                    j + 1,
                ) implies #[trigger] remaining@.contains_key(other) by {
                assert(views[j as int].id != other);
                assert(absent_before(views, other as int, j as int));
                assert(held.contains_key(other));
            }
        }
        let mut added = false;
        match found {
            Some(count) => {
                if count >= 1 {
                    list.push(Candidate { count, index: j });
                    added = true;
                }
            },
            None => {},
        }
        proof {
            assert forall|other: int|
                0 <= first_position(views, other) < j + 1 && totals(other) >= 1 implies list@.contains(
                #[trigger] candidate_of(views, totals, other),
            ) by {
                lemma_first_position(views, other);
                if first_position(views, other) < j {
                    let c = candidate_of(views, totals, other);
                    assert(earlier.contains(c));
                    let t = choose|t: int| 0 <= t < earlier.len() && earlier[t] == c;
                    assert(list@[t] == c);
                } else {
                    assert(other == id);
                    assert(absent_before(views, id as int, j as int));
                    assert(held.contains_key(id));
                    assert(added);
                    assert(list@[list.len() - 1] == candidate_of(views, totals, other));
                }
            }
        }
        j += 1;
    }
    proof {
        assert forall|id: int| has_choice(views, id) && totals(id) >= 1 implies list@.contains(
            #[trigger] candidate_of(views, totals, id),
        ) by {
            lemma_first_position(views, id);
        }
    }
    list
}

/// The position of the entry `t` of a ranked list: 1 for the first entry,
/// that of the entry before where the two totals are equal, and one more
/// where they differ.
pub open spec fn dense_rank(results: Seq<ChoiceResultView>, t: int) -> nat
    decreases t,
{
    if t <= 0 {
        1
    } else if results[t].total_count == results[t - 1].total_count {
        dense_rank(results, t - 1)
    } else {
        dense_rank(results, t - 1) + 1
    }
}

/// The winner position of the entry `t` where the first `seats` entries win:
/// its position among them, and 0 for the entries behind them.
pub open spec fn position_at(results: Seq<ChoiceResultView>, seats: int, t: int) -> nat {
    if t < seats {
        dense_rank(results, t)
    } else {
        0
    }
}

/// How many of `ranked` entries win where `seats` are to be filled.
pub open spec fn winner_count(seats: int, ranked: nat) -> nat {
    if seats <= 0 {
        0
    } else if seats < ranked {
        seats as nat
    } else {
        ranked
    }
}

/// The winners of a ranked list: the choices of its first entries, in order.
pub open spec fn winners_of(results: Seq<ChoiceResultView>, seats: int) -> Seq<ChoiceView> {
    Seq::new(winner_count(seats, results.len()), |t: int| results[t].contest_choice)
}

/// An entry comes before another if its total is larger, or, between equal
/// totals, if the contest lists its choice first.
pub open spec fn precedes(choices: Seq<ChoiceView>, a: ChoiceResultView, b: ChoiceResultView) -> bool {
    a.total_count > b.total_count || (a.total_count == b.total_count && first_position(
        choices,
        a.contest_choice.id,
    ) < first_position(choices, b.contest_choice.id))
}

/// Whether `results` is the ranking of a contest with these `choices` and
/// `seats` in which the choice `id` has the total `totals(id)`:
/// - each entry holds a choice of the contest that received a point (the
///   first one listed with its identifier), its total, and its winner
///   position;
/// - each choice of the contest that received a point has an entry;
/// - each entry comes before those behind it.
pub open spec fn is_ranking(
    results: Seq<ChoiceResultView>,
    choices: Seq<ChoiceView>,
    totals: spec_fn(int) -> nat,
    seats: int,
) -> bool {
    &&& forall|t: int|
        0 <= t < results.len() ==> {
            let entry = #[trigger] results[t];
            &&& has_choice(choices, entry.contest_choice.id)
            &&& entry.contest_choice == choices[first_position(choices, entry.contest_choice.id)]
            &&& entry.total_count == totals(entry.contest_choice.id)
            &&& entry.total_count >= 1
            &&& entry.winner_position == position_at(results, seats, t)
        }
    &&& forall|id: int|
        has_choice(choices, id) && #[trigger] totals(id) >= 1 ==> exists|t: int|
            0 <= t < results.len() && (#[trigger] results[t]).contest_choice.id == id
    &&& forall|t: int, u: int|
        0 <= t < u < results.len() ==> precedes(choices, results[t], results[u])
}

/// `dense_rank` for a list of candidates.
pub open spec fn rank_of(list: Seq<Candidate>, t: int) -> nat
    decreases t,
{
    if t <= 0 {
        1
    } else if list[t].count == list[t - 1].count {
        rank_of(list, t - 1)
    } else {
        rank_of(list, t - 1) + 1
    }
}

/// A position is at least 1 and at most the number of entries up to its own.
pub proof fn lemma_rank_of_bounds(list: Seq<Candidate>, t: int)
    requires
        0 <= t,
    ensures
        1 <= rank_of(list, t) <= t + 1,
    decreases t,
{
    if t > 0 {
        lemma_rank_of_bounds(list, t - 1);
    }
}

/// A position is at least 1 and at most the number of entries up to its own.
pub proof fn lemma_dense_rank_bounds(results: Seq<ChoiceResultView>, t: int)
    requires
        0 <= t,
    ensures
        1 <= dense_rank(results, t) <= t + 1,
    decreases t,
{
    if t > 0 {
        lemma_dense_rank_bounds(results, t - 1);
    }
}

/// Entries with the totals of the candidates have their positions.
pub proof fn lemma_dense_rank_is_rank_of(results: Seq<ChoiceResultView>, list: Seq<Candidate>, t: int)
    requires
        0 <= t < results.len(),
        results.len() == list.len(),
        forall|u: int| 0 <= u < results.len() ==> (#[trigger] results[u]).total_count == list[u].count,
    ensures
        dense_rank(results, t) == rank_of(list, t),
    decreases t,
{
    if t > 0 {
        lemma_dense_rank_is_rank_of(results, list, t - 1);
    }
}

/// The entry that the candidate `t` of a ranked list of candidates stands
/// for.
pub open spec fn entry_for(
    list: Seq<Candidate>,
    choices: Seq<ChoiceView>,
    seats: int,
    t: int,
) -> ChoiceResultView {
    ChoiceResultView {
        contest_choice: choices[list[t].index as int],
        total_count: list[t].count as nat,
        winner_position: if t < seats {
            rank_of(list, t)
        } else {
            0
        },
    }
}

/// The entries that a ranked list of candidates stands for are the ranking.
pub proof fn lemma_entries_are_ranking(
    entries: Seq<ChoiceResultView>,
    list: Seq<Candidate>,
    choices: Seq<ChoiceView>,
    totals: spec_fn(int) -> nat,
    seats: int,
)
    requires
        choices.len() <= usize::MAX,
        are_candidates(list, choices, totals),
        is_ranked(list),
        entries.len() == list.len(),
        forall|t: int|
            0 <= t < entries.len() ==> #[trigger] entries[t] == entry_for(list, choices, seats, t),
    ensures
        is_ranking(entries, choices, totals, seats),
{
    assert forall|t: int| 0 <= t < entries.len() implies {
        let entry = #[trigger] entries[t];
        &&& has_choice(choices, entry.contest_choice.id)
        &&& entry.contest_choice == choices[first_position(choices, entry.contest_choice.id)]
        &&& entry.total_count == totals(entry.contest_choice.id)
        &&& entry.total_count >= 1
        &&& entry.winner_position == position_at(entries, seats, t)
    } by {
        assert(is_candidate(list[t], choices, totals));
        assert forall|u: int| 0 <= u < entries.len() implies (#[trigger] entries[u]).total_count
            == list[u].count by {}
        lemma_dense_rank_is_rank_of(entries, list, t);
    }
    assert forall|id: int| has_choice(choices, id) && #[trigger] totals(id) >= 1 implies exists|
        t: int,
    |
        0 <= t < entries.len() && (#[trigger] entries[t]).contest_choice.id == id by {
        let c = candidate_of(choices, totals, id);
        assert(list.contains(c));
        let t = choose|t: int| 0 <= t < list.len() && list[t] == c;
        lemma_first_position(choices, id);
        assert(c.index == first_position(choices, id));
        assert(entries[t] == entry_for(list, choices, seats, t));
        assert(entries[t].contest_choice.id == id);
    }
    assert forall|t: int, u: int| 0 <= t < u < entries.len() implies precedes(
        choices,
        entries[t],
        entries[u],
    ) by {
        assert(is_candidate(list[t], choices, totals));
        assert(is_candidate(list[u], choices, totals));
        assert(list[t].ranks_no_later(list[u]));
        assert(list[t] != list[u]);
    }
}

/// The ordered outcome of a contest.
pub struct Ranking {
    /// One entry for each choice that received a point, in ranking order.
    pub results: Vec<ContestChoiceResult>,
    /// The choices of the winning entries, in the same order.
    pub winners: Vec<ContestChoice>,
}

/// The number of winners as a machine integer.
fn seats_to_fill(num_winners: i64, ranked: usize) -> (seats: usize)
    ensures
        seats == winner_count(num_winners as int, ranked as nat),
{
    if num_winners <= 0 {
        0
    } else if (num_winners as u64) < (ranked as u64) {
        num_winners as usize
    } else {
        ranked
    }
}

/// Ranks the counted choices of a contest and names its winners.
///
/// `counts` holds the total of each choice by identifier. The entries come
/// out with larger totals first, equal totals in the order of the contest's
/// list. The first `min(num_winners, entries)` of them win and are given their
/// positions; the others have position 0.
pub fn rank(counts: HashMap<i64, u64>, contest: &Contest) -> (res: Ranking)
    ensures
        is_ranking(
            choice_result_views(res.results@),
            contest@.choices,
            |id: int| total_of(counts@, id),
            contest@.num_winners,
        ),
        choice_views(res.winners@) == winners_of(
            choice_result_views(res.results@),
            contest@.num_winners,
        ),
{
    let ghost choices = contest@.choices;
    let ghost totals = |id: int| total_of(counts@, id);
    let ghost num_winners = contest@.num_winners;
    let mut list = collect_candidates(counts, &contest.choices);
    let ghost collected = list@;
    sort_candidates(&mut list);
    proof {
        lemma_same_entries_are_candidates(collected, list@, choices, totals);
        assert(choices =~= choice_views(contest.choices@));
    }
    let n = list.len();
    let seats = seats_to_fill(contest.num_winners, n);
    let mut results: Vec<ContestChoiceResult> = Vec::new();
    let mut winners: Vec<ContestChoice> = Vec::new();
    let mut position: u64 = 0;
    let mut t: usize = 0;
    while t < n
        invariant
            t <= n,
            n == list.len(),
            choices == contest@.choices,
            choices == choice_views(contest.choices@),
            num_winners == contest@.num_winners,
            seats == winner_count(num_winners, n as nat),
            are_candidates(list@, choices, totals),
            is_ranked(list@),
            results.len() == t,
            winners.len() == if t < seats {
                t
            } else {
                seats
            },
            t > 0 ==> position == rank_of(list@, t - 1),
            t == 0 ==> position == 0,
            forall|u: int|
                0 <= u < t ==> {
                    let entry = #[trigger] results[u]@;
                    &&& entry.contest_choice == choices[list[u].index as int]
                    &&& entry.total_count == list[u].count
                    &&& entry.winner_position == if u < num_winners {
                        rank_of(list@, u)
                    } else {
                        0
                    }
                },
            forall|u: int| 0 <= u < winners.len() ==> (#[trigger] winners[u])@ == choices[list[u].index as int],
        decreases n - t,
    {
        let candidate = list[t];
        proof {
            lemma_rank_of_bounds(list@, t as int);
            if t > 0 {
                lemma_rank_of_bounds(list@, t - 1);
            }
            assert(is_candidate(list@[t as int], choices, totals));
        }
        if t == 0 || candidate.count != list[t - 1].count {
            position += 1;
        }
        let choice = &contest.choices[candidate.index];
        let winner_position = if t < seats {
            winners.push(choice.clone());
            position
        } else {
            0
        };
        results.push(
            ContestChoiceResult {
                contest_choice: choice.clone(),
                total_count: candidate.count,
                winner_position,
            },
        );
        t += 1;
    }
    proof {
        let entries = choice_result_views(results@);
        assert forall|u: int| 0 <= u < entries.len() implies #[trigger] entries[u] == entry_for(
            list@,
            choices,
            num_winners,
            u,
        ) by {
            assert(entries[u] == results[u]@);
        }
        assert(choices.len() == contest.choices.len());
        lemma_entries_are_ranking(entries, list@, choices, totals, num_winners);
        assert(choice_views(winners@) =~= winners_of(entries, num_winners)) by {
            assert forall|u: int| 0 <= u < winners.len() implies choice_views(winners@)[u]
                == winners_of(entries, num_winners)[u] by {
                assert(entries[u] == results[u]@);
            }
        }
    }
    Ranking { results, winners }
}

} // verus!
