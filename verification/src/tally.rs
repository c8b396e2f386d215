//! The tally itself: votes by identifier in, the contest's result out.

use crate::counting::{aggregate, count_for, counts_overflow, valid_votes};
use crate::error::TallyError;
use crate::ranking::{is_ranking, rank, total_of, winners_of};
use crate::voting::{
    choice_views, first_position, has_choice, lemma_first_position, lemma_first_position_is,
    vote_views, ChoiceResultView, ChoiceView, Contest, ContestChoice, ContestResult, ContestView,
    DecodedContestVote, DecodedVoteChoice, ResultView, VoteChoiceView, VoteView,
};
use std::collections::HashMap;
use vstd::prelude::*;
use vstd::std_specs::hash::*;

verus! {

/// One selection of a vote as submitted, as contracts see it.
pub struct VoteChoiceIdView {
    pub contest_choice: int,
    pub selected: nat,
}

/// A vote as submitted, as contracts see it.
pub struct VoteIdView {
    pub is_explicit_invalid: bool,
    pub choices: Seq<VoteChoiceIdView>,
}

/// A contest with its votes as submitted, as contracts see them.
pub struct InputView {
    pub contest: ContestView,
    pub votes: Seq<VoteIdView>,
}

/// One selection of a vote as submitted: the identifier of a choice, and the
/// points given to it.
#[derive(Clone, Copy, Debug)]
pub struct DecodedVoteChoiceId {
    pub contest_choice: i64,
    pub selected: u64,
}

impl View for DecodedVoteChoiceId {
    type V = VoteChoiceIdView;

    open spec fn view(&self) -> VoteChoiceIdView {
        VoteChoiceIdView { contest_choice: self.contest_choice as int, selected: self.selected as nat }
    }
}

/// A vote as submitted: its selections name their choices by identifier.
#[derive(Debug)]
pub struct DecodedContestVoteId {
    pub is_explicit_invalid: bool,
    pub choices: Vec<DecodedVoteChoiceId>,
}

impl View for DecodedContestVoteId {
    type V = VoteIdView;

    open spec fn view(&self) -> VoteIdView {
        VoteIdView {
            is_explicit_invalid: self.is_explicit_invalid,
            choices: Seq::new(self.choices@.len(), |j: int| self.choices@[j]@),
        }
    }
}

/// A contest and the votes submitted for it.
#[derive(Debug)]
pub struct InputJson {
    pub contest: Contest,
    pub votes: Vec<DecodedContestVoteId>,
}

impl View for InputJson {
    type V = InputView;

    open spec fn view(&self) -> InputView {
        InputView {
            contest: self.contest@,
            votes: Seq::new(self.votes@.len(), |i: int| self.votes@[i]@),
        }
    }
}

/// The identifier named by the first of `selections` that names no choice of
/// the list, if there is one.
pub open spec fn first_unknown(selections: Seq<VoteChoiceIdView>, choices: Seq<ChoiceView>) -> Option<
    int,
>
    decreases selections.len(),
{
    if selections.len() == 0 {
        None
    } else if !has_choice(choices, selections[0].contest_choice) {
        Some(selections[0].contest_choice)
    } else {
        first_unknown(selections.drop_first(), choices)
    }
}

/// The identifier named by the first selection, going through the votes in
/// order, that names no choice of the list, if there is one.
pub open spec fn first_unknown_in(votes: Seq<VoteIdView>, choices: Seq<ChoiceView>) -> Option<int>
    decreases votes.len(),
{
    if votes.len() == 0 {
        None
    } else {
        match first_unknown(votes[0].choices, choices) {
            Some(id) => Some(id),
            None => first_unknown_in(votes.drop_first(), choices),
        }
    }
}

impl VoteIdView {
    /// The resolved form of the vote in `contest`: each identifier replaced
    /// by the first choice of the contest that carries it. Meant for votes
    /// whose identifiers all name a choice.
    pub open spec fn resolve(self, contest: ContestView) -> VoteView {
        VoteView {
            is_explicit_invalid: self.is_explicit_invalid,
            choices: Seq::new(
                self.choices.len(),
                |j: int|
                    VoteChoiceView {
                        contest_choice: contest.choices[first_position(
                            contest.choices,
                            self.choices[j].contest_choice,
                        )],
                        selected: self.choices[j].selected,
                    },
            ),
            contest,
        }
    }
}

impl VoteView {
    /// The submitted form of the vote: each choice replaced by its
    /// identifier.
    pub open spec fn to_ids(self) -> VoteIdView {
        VoteIdView {
            is_explicit_invalid: self.is_explicit_invalid,
            choices: Seq::new(
                self.choices.len(),
                |j: int|
                    VoteChoiceIdView {
                        contest_choice: self.choices[j].contest_choice.id,
                        selected: self.choices[j].selected,
                    },
            ),
        }
    }
}

impl InputView {
    /// The resolved forms of the votes, in order.
    pub open spec fn resolved_votes(self) -> Seq<VoteView> {
        Seq::new(self.votes.len(), |i: int| self.votes[i].resolve(self.contest))
    }
}

/// No selection without a choice: each identifier names a choice.
pub proof fn lemma_first_unknown_none(selections: Seq<VoteChoiceIdView>, choices: Seq<ChoiceView>)
    ensures
        first_unknown(selections, choices) is None <==> forall|j: int|
            0 <= j < selections.len() ==> has_choice(
                choices,
                (#[trigger] selections[j]).contest_choice,
            ),
        first_unknown(selections, choices) matches Some(id) ==> !has_choice(choices, id),
    decreases selections.len(),
{
    if selections.len() != 0 {
        let rest = selections.drop_first();
        lemma_first_unknown_none(rest, choices);
        if has_choice(choices, selections[0].contest_choice) {
            if first_unknown(rest, choices) is None {
                assert forall|j: int| 0 <= j < selections.len() implies has_choice(
                    choices,
                    (#[trigger] selections[j]).contest_choice,
                ) by {
                    if j > 0 {
                        assert(selections[j] == rest[j - 1]);
                    }
                }
            } else {
                let j = choose|j: int|
                    0 <= j < rest.len() && !has_choice(choices, (#[trigger] rest[j]).contest_choice);
                assert(selections[j + 1] == rest[j]);
            }
        }
    }
}

/// A table from identifier to place in a contest's list of choices, built
/// once and consulted for every selection of every vote.
pub struct ChoiceIndex {
    positions: HashMap<i64, usize>,
    choices: Ghost<Seq<ChoiceView>>,
}

impl ChoiceIndex {
    #[verifier::type_invariant]
    spec fn consistent(self) -> bool {
        &&& forall|id: i64| #[trigger]
            self.positions@.contains_key(id) <==> has_choice(self.choices@, id as int)
        &&& forall|id: i64| #[trigger]
            self.positions@.contains_key(id) ==> self.positions@[id] == first_position(
                self.choices@,
                id as int,
            )
    }

    /// The choices that the table was built for.
    pub closed spec fn choices(self) -> Seq<ChoiceView> {
        self.choices@
    }

    /// Builds the table for a list of choices.
    pub fn new(choices: &Vec<ContestChoice>) -> (index: Self)
        ensures
            index.choices() == choice_views(choices@),
    {
        broadcast use group_hash_axioms;

        let ghost views = choice_views(choices@);
        let mut positions: HashMap<i64, usize> = HashMap::new();
        let mut j: usize = 0;
        while j < choices.len()
            invariant
                j <= choices.len(),
                views == choice_views(choices@),
                forall|id: i64| #[trigger]
                    positions@.contains_key(id) <==> 0 <= first_position(views, id as int) < j,
                forall|id: i64| #[trigger]
                    positions@.contains_key(id) ==> positions@[id] == first_position(
                        views,
                        id as int,
                    ),
            decreases choices.len() - j,
        {
            let id = choices[j].id;
            proof {
                assert(views[j as int].id == id);
                lemma_first_position(views, id as int);
                if !positions@.contains_key(id) {
                    lemma_first_position_is(views, id as int, j as int);
                }
                assert forall|other: i64| other != id implies first_position(views, other as int)
                    != j by {
                    lemma_first_position(views, other as int);
                }
            }
            if !positions.contains_key(&id) {
                positions.insert(id, j);
            }
            j += 1;
        }
        proof {
            assert forall|id: i64| #[trigger]
                positions@.contains_key(id) <==> has_choice(views, id as int) by {
                lemma_first_position(views, id as int);
            }
        }
        ChoiceIndex { positions, choices: Ghost(views) }
    }

    /// The place of the first choice that carries `id`.
    pub fn position(&self, id: i64) -> (res: Option<usize>)
        ensures
            res is Some <==> has_choice(self.choices(), id as int),
            res matches Some(j) ==> j == first_position(self.choices(), id as int),
    {
        broadcast use group_hash_axioms;

        proof {
            use_type_invariant(self);
        }
        match self.positions.get(&id) {
            Some(j) => Some(*j),
            None => None,
        }
    }
}

/// The identifiers of the selections from the `j`-th on name no unknown
/// choice other than the whole list does, once those before are known.
proof fn lemma_first_unknown_skip(selections: Seq<VoteChoiceIdView>, choices: Seq<ChoiceView>, j: int)
    requires
        0 <= j < selections.len(),
        first_unknown(selections, choices) == first_unknown(selections.skip(j), choices),
    ensures
        has_choice(choices, selections[j].contest_choice) ==> first_unknown(selections, choices)
            == first_unknown(selections.skip(j + 1), choices),
        !has_choice(choices, selections[j].contest_choice) ==> first_unknown(selections, choices)
            == Some(selections[j].contest_choice),
{
    assert(selections.skip(j)[0] == selections[j]);
    assert(selections.skip(j).drop_first() =~= selections.skip(j + 1));
}

/// The same for the votes from the `i`-th on.
proof fn lemma_first_unknown_in_skip(votes: Seq<VoteIdView>, choices: Seq<ChoiceView>, i: int)
    requires
        0 <= i < votes.len(),
        first_unknown_in(votes, choices) == first_unknown_in(votes.skip(i), choices),
    ensures
        first_unknown(votes[i].choices, choices) is None ==> first_unknown_in(votes, choices)
            == first_unknown_in(votes.skip(i + 1), choices),
        first_unknown(votes[i].choices, choices) is Some ==> first_unknown_in(votes, choices)
            == first_unknown(votes[i].choices, choices),
{
    assert(votes.skip(i)[0] == votes[i]);
    assert(votes.skip(i).drop_first() =~= votes.skip(i + 1));
}

impl DecodedContestVoteId {
    /// Resolves the vote with a table built for the contest's choices.
    fn resolve_with(&self, contest: &Contest, index: &ChoiceIndex) -> (res: Result<
        DecodedContestVote,
        TallyError,
    >)
        requires
            index.choices() == contest@.choices,
        ensures
            match res {
                Ok(vote) => first_unknown(self@.choices, contest@.choices) is None && vote@
                    == self@.resolve(contest@),
                Err(e) => e matches TallyError::Reference { choice_id } && first_unknown(
                    self@.choices,
                    contest@.choices,
                ) == Some(choice_id as int),
            },
    {
        let ghost selections = self@.choices;
        let ghost known = contest@.choices;
        let mut choices: Vec<DecodedVoteChoice> = Vec::new();
        let mut j: usize = 0;
        assert(selections.skip(0) =~= selections);
        while j < self.choices.len()
            invariant
                j <= self.choices.len(),
                selections == self@.choices,
                known == contest@.choices,
                known == choice_views(contest.choices@),
                index.choices() == known,
                first_unknown(selections, known) == first_unknown(selections.skip(j as int), known),
                choices.len() == j,
                forall|k: int| 0 <= k < j ==> (#[trigger] choices[k])@ == self@.resolve(contest@).choices[k],
            decreases self.choices.len() - j,
        {
            let selection = self.choices[j];
            proof {
                assert(selections[j as int] == selection@);
                lemma_first_unknown_skip(selections, known, j as int);
                lemma_first_position(known, selection.contest_choice as int);
            }
            match index.position(selection.contest_choice) {
                Some(place) => {
                    choices.push(
                        DecodedVoteChoice {
                            contest_choice: contest.choices[place].clone(),
                            selected: selection.selected,
                        },
                    );
                },
                None => {
                    return Err(TallyError::Reference { choice_id: selection.contest_choice });
                },
            }
            j += 1;
        }
        let vote = DecodedContestVote {
            is_explicit_invalid: self.is_explicit_invalid,
            choices,
            contest: contest.clone(),
        };
        proof {
            assert(selections.skip(j as int) =~= Seq::<VoteChoiceIdView>::empty());
            assert(vote@.choices =~= self@.resolve(contest@).choices);
        }
        Ok(vote)
    }

    /// Resolves the vote against a contest: each identifier is replaced by
    /// the first choice of the contest that carries it.
    ///
    /// Fails with [`TallyError::Reference`], naming the first identifier
    /// without a choice, exactly when there is one.
    pub fn resolve(&self, contest: &Contest) -> (res: Result<DecodedContestVote, TallyError>)
        ensures
            match res {
                Ok(vote) => first_unknown(self@.choices, contest@.choices) is None && vote@
                    == self@.resolve(contest@),
                Err(e) => e matches TallyError::Reference { choice_id } && first_unknown(
                    self@.choices,
                    contest@.choices,
                ) == Some(choice_id as int),
            },
    {
        let index = ChoiceIndex::new(&contest.choices);
        self.resolve_with(contest, &index)
    }
}

impl DecodedContestVote {
    /// The submitted form of the vote: each choice replaced by its
    /// identifier.
    pub fn to_ids(&self) -> (submitted: DecodedContestVoteId)
        ensures
            submitted@ == self@.to_ids(),
    {
        let mut choices: Vec<DecodedVoteChoiceId> = Vec::new();
        let mut j: usize = 0;
        while j < self.choices.len()
            invariant
                j <= self.choices.len(),
                choices.len() == j,
                forall|k: int| 0 <= k < j ==> (#[trigger] choices[k])@ == self@.to_ids().choices[k],
            decreases self.choices.len() - j,
        {
            let selection = &self.choices[j];
            choices.push(
                DecodedVoteChoiceId {
                    contest_choice: DecodedVoteChoice::to_id(&selection.contest_choice),
                    selected: selection.selected,
                },
            );
            j += 1;
        }
        let submitted = DecodedContestVoteId {
            is_explicit_invalid: self.is_explicit_invalid,
            choices,
        };
        assert(submitted@.choices =~= self@.to_ids().choices);
        submitted
    }
}

/// No vote names an unknown choice if none of them does in its own
/// selections.
pub proof fn lemma_first_unknown_in_none(votes: Seq<VoteIdView>, choices: Seq<ChoiceView>)
    requires
        forall|i: int| 0 <= i < votes.len() ==> first_unknown((#[trigger] votes[i]).choices, choices) is None,
    ensures
        first_unknown_in(votes, choices) is None,
    decreases votes.len(),
{
    if votes.len() != 0 {
        let rest = votes.drop_first();
        assert forall|i: int| 0 <= i < rest.len() implies first_unknown(
            (#[trigger] rest[i]).choices,
            choices,
        ) is None by {
            assert(rest[i] == votes[i + 1]);
        }
        lemma_first_unknown_in_none(rest, choices);
        assert(first_unknown(votes[0].choices, choices) is None);
    }
}

/// Why the resolved `votes` of `contest` cannot be tallied, if they cannot:
/// the contest has no district magnitude; or a total does not fit its
/// integer; or no vote is valid.
pub open spec fn tally_error(contest: ContestView, votes: Seq<VoteView>) -> Option<TallyError> {
    if contest.district_magnitude() is None {
        Some(TallyError::Configuration)
    } else if counts_overflow(votes, contest) {
        Some(TallyError::CountOverflow)
    } else if valid_votes(votes, contest) == 0 {
        Some(TallyError::EmptyResult)
    } else {
        None
    }
}

/// Why `input` cannot be tallied, if it cannot: the contest has no district
/// magnitude; or a vote names a choice that the contest lacks; or the
/// resolved votes cannot be tallied.
pub open spec fn input_error(input: InputView) -> Option<TallyError> {
    if input.contest.district_magnitude() is None {
        Some(TallyError::Configuration)
    } else {
        match first_unknown_in(input.votes, input.contest.choices) {
            Some(id) => Some(TallyError::Reference { choice_id: id as i64 }),
            None => tally_error(input.contest, input.resolved_votes()),
        }
    }
}

/// Whether `result` is the outcome of `contest` for the resolved `votes`:
/// it holds the contest, the numbers of valid and invalid votes, the ranking
/// of the choices by their totals, and the winners.
pub open spec fn is_tally(result: ResultView, contest: ContestView, votes: Seq<VoteView>) -> bool {
    &&& result.contest == contest
    &&& result.total_valid_votes == valid_votes(votes, contest)
    &&& result.total_invalid_votes == votes.len() - valid_votes(votes, contest)
    &&& is_ranking(
        result.results,
        contest.choices,
        |id: int| count_for(votes, contest, id),
        contest.num_winners,
    )
    &&& result.winners == winners_of(result.results, contest.num_winners)
}

/// A ranking depends on the totals of the contest's own choices only.
pub proof fn lemma_ranking_by_equal_totals(
    results: Seq<ChoiceResultView>,
    choices: Seq<ChoiceView>,
    totals: spec_fn(int) -> nat,
    others: spec_fn(int) -> nat,
    seats: int,
)
    requires
        is_ranking(results, choices, totals, seats),
        forall|id: int| has_choice(choices, id) ==> totals(id) == others(id),
    ensures
        is_ranking(results, choices, others, seats),
{
    assert forall|id: int| has_choice(choices, id) && #[trigger] others(id) >= 1 implies exists|
        t: int,
    |
        0 <= t < results.len() && (#[trigger] results[t]).contest_choice.id == id by {
        assert(totals(id) >= 1);
    }
}

/// Tallies the resolved votes of a contest.
///
/// A vote counts unless it is marked invalid or the number of its selections
/// lies outside the contest's bounds. The valid votes give each choice they
/// select the points of the selection. The choices of the contest that
/// received a point are ranked, larger totals first, and the first
/// `num_winners` of them win.
///
/// Fails with [`TallyError::Configuration`] where the contest has no district
/// magnitude, with [`TallyError::CountOverflow`] where a total does not fit
/// its integer, and with [`TallyError::EmptyResult`] where no vote is valid.
pub fn create_contest_results(votes: Vec<DecodedContestVote>, contest: &Contest) -> (res: Result<
    ContestResult,
    TallyError,
>)
    ensures
        match res {
            Ok(result) => tally_error(contest@, vote_views(votes@)) is None && is_tally(
                result@,
                contest@,
                vote_views(votes@),
            ),
            Err(e) => tally_error(contest@, vote_views(votes@)) == Some(e),
        },
{
    let ghost vv = vote_views(votes@);
    let ghost cv = contest@;
    match contest.get_district_magnitude() {
        None => {
            return Err(TallyError::Configuration);
        },
        Some(_) => {},
    }
    if votes.len() as u64 > i64::MAX as u64 {
        return Err(TallyError::CountOverflow);
    }
    let totals = match aggregate(&votes, contest) {
        Some(totals) => totals,
        None => {
            return Err(TallyError::CountOverflow);
        },
    };
    if totals.valid == 0 {
        return Err(TallyError::EmptyResult);
    }
    let total_valid_votes = totals.valid as i64;
    let total_invalid_votes = totals.invalid as i64;
    let ghost held = totals.counts@;
    let ranking = rank(totals.counts, contest);
    let result = ContestResult {
        contest: contest.clone(),
        total_valid_votes,
        total_invalid_votes,
        results: ranking.results,
        winners: ranking.winners,
    };
    proof {
        assert(cv.choices == choice_views(contest.choices@));
        assert forall|id: int| has_choice(cv.choices, id) implies total_of(held, id) == count_for(
            vv,
            cv,
            id,
        ) by {
            lemma_first_position(cv.choices, id);
            let place = first_position(cv.choices, id);
            assert(cv.choices[place].id == contest.choices[place].id);
            let key = id as i64;
            if !held.contains_key(key) {
                assert(count_for(vv, cv, key as int) == 0);
            }
        }
        lemma_ranking_by_equal_totals(
            result@.results,
            cv.choices,
            |id: int| total_of(held, id),
            |id: int| count_for(vv, cv, id),
            cv.num_winners,
        );
    }
    Ok(result)
}

/// Tallies a contest from its votes as submitted.
///
/// Each vote is resolved against the contest, and the resolved votes are
/// tallied as [`create_contest_results`] does.
///
/// Fails with [`TallyError::Configuration`] where the contest has no district
/// magnitude; otherwise with [`TallyError::Reference`], naming the first
/// identifier without a choice, where a vote names a choice that the contest
/// lacks; otherwise as `create_contest_results` does.
pub fn count_votes(input: &InputJson) -> (res: Result<ContestResult, TallyError>)
    ensures
        match res {
            Ok(result) => input_error(input@) is None && is_tally(
                result@,
                input@.contest,
                input@.resolved_votes(),
            ),
            Err(e) => input_error(input@) == Some(e),
        },
{
    let contest = &input.contest;
    match contest.get_district_magnitude() {
        None => {
            return Err(TallyError::Configuration);
        },
        Some(_) => {},
    }
    let ghost submitted = input@.votes;
    let ghost known = contest@.choices;
    let index = ChoiceIndex::new(&contest.choices);
    let mut votes: Vec<DecodedContestVote> = Vec::new();
    let mut i: usize = 0;
    assert(submitted.skip(0) =~= submitted);
    while i < input.votes.len()
        invariant
            i <= input.votes.len(),
            contest == &input.contest,
            contest@.district_magnitude() is Some,
            submitted == input@.votes,
            known == contest@.choices,
            index.choices() == known,
            first_unknown_in(submitted, known) == first_unknown_in(submitted.skip(i as int), known),
            votes.len() == i,
            forall|k: int| 0 <= k < i ==> (#[trigger] votes[k])@ == input@.resolved_votes()[k],
        decreases input.votes.len() - i,
    {
        proof {
            assert(submitted[i as int] == input.votes[i as int]@);
            lemma_first_unknown_in_skip(submitted, known, i as int);
        }
        match input.votes[i].resolve_with(contest, &index) {
            Ok(vote) => {
                votes.push(vote);
            },
            Err(e) => {
                return Err(e);
            },
        }
        i += 1;
    }
    proof {
        assert(submitted.skip(i as int) =~= Seq::<VoteIdView>::empty());
        assert(vote_views(votes@) =~= input@.resolved_votes());
    }
    create_contest_results(votes, contest)
}

} // verus!
