//! The contest, its choices, the votes in both their forms, and the result.

use crate::error::TallyError;
use vstd::prelude::*;

verus! {

/// What a [`ContestChoice`] stands for in contracts.
pub struct ChoiceView {
    pub id: int,
    pub text: Seq<char>,
    pub urls: Seq<Seq<char>>,
}

/// What a [`Contest`] stands for in contracts.
pub struct ContestView {
    pub id: int,
    pub description: Seq<char>,
    pub tally_type: Seq<char>,
    pub num_winners: int,
    pub min_choices: int,
    pub max_choices: int,
    pub choices: Seq<ChoiceView>,
}

/// One option of a contest.
#[derive(Debug)]
pub struct ContestChoice {
    pub id: i64,
    pub text: String,
    pub urls: Vec<String>,
}

impl View for ContestChoice {
    type V = ChoiceView;

    open spec fn view(&self) -> ChoiceView {
        ChoiceView { id: self.id as int, text: self.text@, urls: self.urls.deep_view() }
    }
}

impl Clone for ContestChoice {
    fn clone(&self) -> (res: Self)
        ensures
            res@ == self@,
    {
        let urls = self.urls.clone();
        assert(urls.deep_view() =~= self.urls.deep_view());
        ContestChoice { id: self.id, text: self.text.clone(), urls }
    }
}

/// A contest: what is asked, how it is tallied, and the choices on offer.
#[derive(Debug)]
pub struct Contest {
    pub id: i64,
    pub description: String,
    pub tally_type: String,
    pub num_winners: i64,
    pub min_choices: i64,
    pub max_choices: i64,
    pub choices: Vec<ContestChoice>,
}

/// The views of a list of choices, in order.
pub open spec fn choice_views(choices: Seq<ContestChoice>) -> Seq<ChoiceView> {
    Seq::new(choices.len(), |i: int| choices[i]@)
}

impl View for Contest {
    type V = ContestView;

    open spec fn view(&self) -> ContestView {
        ContestView {
            id: self.id as int,
            description: self.description@,
            tally_type: self.tally_type@,
            num_winners: self.num_winners as int,
            min_choices: self.min_choices as int,
            max_choices: self.max_choices as int,
            choices: choice_views(self.choices@),
        }
    }
}

/// Copies a list of choices, one by one.
pub fn clone_choices(choices: &Vec<ContestChoice>) -> (res: Vec<ContestChoice>)
    ensures
        choice_views(res@) == choice_views(choices@),
{
    let mut res: Vec<ContestChoice> = Vec::new();
    let mut i: usize = 0;
    while i < choices.len()
        invariant
            i <= choices.len(),
            res.len() == i,
            forall|j: int| 0 <= j < i ==> res[j]@ == choices[j]@,
        decreases choices.len() - i,
    {
        res.push(choices[i].clone());
        i += 1;
    }
    assert(choice_views(res@) =~= choice_views(choices@));
    res
}

impl Clone for Contest {
    fn clone(&self) -> (res: Self)
        ensures
            res@ == self@,
    {
        Contest {
            id: self.id,
            description: self.description.clone(),
            tally_type: self.tally_type.clone(),
            num_winners: self.num_winners,
            min_choices: self.min_choices,
            max_choices: self.max_choices,
            choices: clone_choices(&self.choices),
        }
    }
}

/// The one tally type this engine counts.
pub open spec fn plurality_at_large() -> Seq<char> {
    "plurality-at-large"@
}

impl ContestView {
    /// The number of winners to select: the common value of `num_winners`,
    /// `min_choices` and `max_choices` of a plurality-at-large contest, and
    /// nothing for any other contest.
    pub open spec fn district_magnitude(self) -> Option<int> {
        if self.tally_type == plurality_at_large() && self.num_winners == self.min_choices
            && self.num_winners == self.max_choices {
            Some(self.num_winners)
        } else {
            None
        }
    }
}

impl Contest {
    /// The district magnitude of the contest, if the engine can tally it.
    ///
    /// A negative common value comes out as the `u64` with the same bits.
    pub fn get_district_magnitude(&self) -> (res: Option<u64>)
        ensures
            res is Some <==> self@.district_magnitude() is Some,
            res matches Some(m) ==> m == self.num_winners as u64,
    {
        let expected = "plurality-at-large".to_owned();
        if self.tally_type == expected && (self.num_winners == self.min_choices
            && self.num_winners == self.max_choices) {
            return Some(self.num_winners as u64);
        }
        None
    }
}

/// The position of the first choice that carries `id`, or the length of the
/// list where none does.
pub open spec fn first_position(choices: Seq<ChoiceView>, id: int) -> int
    decreases choices.len(),
{
    if choices.len() == 0 {
        0
    } else if choices[0].id == id {
        0
    } else {
        1 + first_position(choices.drop_first(), id)
    }
}

/// Whether some choice of the list carries `id`.
pub open spec fn has_choice(choices: Seq<ChoiceView>, id: int) -> bool {
    first_position(choices, id) < choices.len()
}

/// What `first_position` returns lies within the list or just behind it, the
/// choice found there carries `id`, and no earlier choice does.
pub proof fn lemma_first_position(choices: Seq<ChoiceView>, id: int)
    ensures
        0 <= first_position(choices, id) <= choices.len(),
        has_choice(choices, id) ==> choices[first_position(choices, id)].id == id,
        forall|k: int| 0 <= k < first_position(choices, id) ==> (#[trigger] choices[k]).id != id,
    decreases choices.len(),
{
    if choices.len() != 0 && choices[0].id != id {
        let rest = choices.drop_first();
        lemma_first_position(rest, id);
        assert forall|k: int| 0 <= k < first_position(choices, id) implies (
        #[trigger] choices[k]).id != id by {
            if k > 0 {
                assert(choices[k] == rest[k - 1]);
            }
        }
    }
}

/// A position whose choice carries `id`, with no earlier choice that does,
/// is the first position of `id`.
pub proof fn lemma_first_position_is(choices: Seq<ChoiceView>, id: int, j: int)
    requires
        0 <= j < choices.len(),
        choices[j].id == id,
        forall|k: int| 0 <= k < j ==> (#[trigger] choices[k]).id != id,
    ensures
        first_position(choices, id) == j,
{
    lemma_first_position(choices, id);
    let p = first_position(choices, id);
    if p > j {
        assert(choices[j].id != id);
    }
}

/// Without a choice that carries `id`, the first position of `id` is the
/// length of the list.
pub proof fn lemma_first_position_absent(choices: Seq<ChoiceView>, id: int)
    requires
        forall|k: int| 0 <= k < choices.len() ==> (#[trigger] choices[k]).id != id,
    ensures
        !has_choice(choices, id),
{
    lemma_first_position(choices, id);
}

/// One selection of a resolved vote, as contracts see it.
pub struct VoteChoiceView {
    pub contest_choice: ChoiceView,
    pub selected: nat,
}

/// A resolved vote, as contracts see it.
pub struct VoteView {
    pub is_explicit_invalid: bool,
    pub choices: Seq<VoteChoiceView>,
    pub contest: ContestView,
}

/// One selection of a vote: the choice made and how many points it was given
/// (0 or 1 in plurality at large).
#[derive(Debug)]
pub struct DecodedVoteChoice {
    pub contest_choice: ContestChoice,
    pub selected: u64,
}

impl View for DecodedVoteChoice {
    type V = VoteChoiceView;

    open spec fn view(&self) -> VoteChoiceView {
        VoteChoiceView { contest_choice: self.contest_choice@, selected: self.selected as nat }
    }
}

impl Clone for DecodedVoteChoice {
    fn clone(&self) -> (res: Self)
        ensures
            res@ == self@,
    {
        DecodedVoteChoice { contest_choice: self.contest_choice.clone(), selected: self.selected }
    }
}

/// The views of a list of selections, in order.
pub open spec fn vote_choice_views(choices: Seq<DecodedVoteChoice>) -> Seq<VoteChoiceView> {
    Seq::new(choices.len(), |i: int| choices[i]@)
}

/// A vote whose selections hold the choices themselves.
#[derive(Debug)]
pub struct DecodedContestVote {
    pub is_explicit_invalid: bool,
    pub choices: Vec<DecodedVoteChoice>,
    pub contest: Contest,
}

impl View for DecodedContestVote {
    type V = VoteView;

    open spec fn view(&self) -> VoteView {
        VoteView {
            is_explicit_invalid: self.is_explicit_invalid,
            choices: vote_choice_views(self.choices@),
            contest: self.contest@,
        }
    }
}

/// The views of a list of votes, in order.
pub open spec fn vote_views(votes: Seq<DecodedContestVote>) -> Seq<VoteView> {
    Seq::new(votes.len(), |i: int| votes[i]@)
}

impl Clone for DecodedContestVote {
    fn clone(&self) -> (res: Self)
        ensures
            res@ == self@,
    {
        let mut choices: Vec<DecodedVoteChoice> = Vec::new();
        let mut i: usize = 0;
        while i < self.choices.len()
            invariant
                i <= self.choices.len(),
                choices.len() == i,
                forall|j: int| 0 <= j < i ==> choices[j]@ == self.choices[j]@,
            decreases self.choices.len() - i,
        {
            choices.push(self.choices[i].clone());
            i += 1;
        }
        assert(vote_choice_views(choices@) =~= vote_choice_views(self.choices@));
        DecodedContestVote {
            is_explicit_invalid: self.is_explicit_invalid,
            choices,
            contest: self.contest.clone(),
        }
    }
}

/// The outcome for one choice, as contracts see it.
pub struct ChoiceResultView {
    pub contest_choice: ChoiceView,
    pub total_count: nat,
    pub winner_position: nat,
}

/// The outcome of a contest, as contracts see it.
pub struct ResultView {
    pub contest: ContestView,
    pub total_valid_votes: int,
    pub total_invalid_votes: int,
    pub results: Seq<ChoiceResultView>,
    pub winners: Seq<ChoiceView>,
}

/// The outcome for one choice: its total, and its position among the winners
/// (1 for the first; tied choices share a position), or 0 if it did not win.
#[derive(Debug)]
pub struct ContestChoiceResult {
    pub contest_choice: ContestChoice,
    pub total_count: u64,
    pub winner_position: u64,
}

impl View for ContestChoiceResult {
    type V = ChoiceResultView;

    open spec fn view(&self) -> ChoiceResultView {
        ChoiceResultView {
            contest_choice: self.contest_choice@,
            total_count: self.total_count as nat,
            winner_position: self.winner_position as nat,
        }
    }
}

impl Clone for ContestChoiceResult {
    fn clone(&self) -> (res: Self)
        ensures
            res@ == self@,
    {
        ContestChoiceResult {
            contest_choice: self.contest_choice.clone(),
            total_count: self.total_count,
            winner_position: self.winner_position,
        }
    }
}

/// The views of a list of outcomes, in order.
pub open spec fn choice_result_views(results: Seq<ContestChoiceResult>) -> Seq<ChoiceResultView> {
    Seq::new(results.len(), |i: int| results[i]@)
}

/// The outcome of a contest: how many votes counted and how many did not,
/// every choice that received a point in ranked order, and the winners.
#[derive(Debug)]
pub struct ContestResult {
    pub contest: Contest,
    pub total_valid_votes: i64,
    pub total_invalid_votes: i64,
    pub results: Vec<ContestChoiceResult>,
    pub winners: Vec<ContestChoice>,
}

impl View for ContestResult {
    type V = ResultView;

    open spec fn view(&self) -> ResultView {
        ResultView {
            contest: self.contest@,
            total_valid_votes: self.total_valid_votes as int,
            total_invalid_votes: self.total_invalid_votes as int,
            results: choice_result_views(self.results@),
            winners: choice_views(self.winners@),
        }
    }
}

impl Clone for ContestResult {
    fn clone(&self) -> (res: Self)
        ensures
            res@ == self@,
    {
        let mut results: Vec<ContestChoiceResult> = Vec::new();
        let mut i: usize = 0;
        while i < self.results.len()
            invariant
                i <= self.results.len(),
                results.len() == i,
                forall|j: int| 0 <= j < i ==> results[j]@ == self.results[j]@,
            decreases self.results.len() - i,
        {
            results.push(self.results[i].clone());
            i += 1;
        }
        assert(choice_result_views(results@) =~= choice_result_views(self.results@));
        ContestResult {
            contest: self.contest.clone(),
            total_valid_votes: self.total_valid_votes,
            total_invalid_votes: self.total_invalid_votes,
            results,
            winners: clone_choices(&self.winners),
        }
    }
}

/// The selection that the pair (`id`, `selected`) stands for in a contest
/// with these choices: the first choice that carries `id`, with the same
/// points. Nothing where no choice carries `id`.
pub open spec fn resolve_choice(choices: Seq<ChoiceView>, id: int, selected: nat) -> Option<
    VoteChoiceView,
> {
    if has_choice(choices, id) {
        Some(VoteChoiceView { contest_choice: choices[first_position(choices, id)], selected })
    } else {
        None
    }
}

/// Finds the first choice that carries `id`.
pub fn find_choice(choices: &Vec<ContestChoice>, id: i64) -> (res: Option<usize>)
    ensures
        res is Some <==> has_choice(choice_views(choices@), id as int),
        res matches Some(j) ==> j == first_position(choice_views(choices@), id as int),
{
    let ghost views = choice_views(choices@);
    let mut i: usize = 0;
    while i < choices.len()
        invariant
            i <= choices.len(),
            views == choice_views(choices@),
            forall|k: int| 0 <= k < i ==> (#[trigger] views[k]).id != id,
        decreases choices.len() - i,
    {
        if choices[i].id == id {
            proof {
                lemma_first_position_is(views, id as int, i as int);
            }
            return Some(i);
        }
        i += 1;
    }
    proof {
        lemma_first_position_absent(views, id as int);
    }
    None
}

impl DecodedVoteChoice {
    /// Resolves one selection of a vote against the choices of its contest.
    ///
    /// Fails with [`TallyError::Reference`] exactly when no choice carries
    /// `id`.
    pub fn get_vote_choice_by_id(id: i64, contest_choices: Vec<ContestChoice>, selected: u64) -> (res:
        Result<Self, TallyError>)
        ensures
            match res {
                Ok(choice) => resolve_choice(
                    choice_views(contest_choices@),
                    id as int,
                    selected as nat,
                ) == Some(choice@),
                Err(e) => e == (TallyError::Reference { choice_id: id }) && resolve_choice(
                    choice_views(contest_choices@),
                    id as int,
                    selected as nat,
                ) is None,
            },
    {
        match find_choice(&contest_choices, id) {
            Some(j) => {
                let mut choices = contest_choices;
                let contest_choice = choices.swap_remove(j);
                Ok(DecodedVoteChoice { contest_choice, selected })
            },
            None => Err(TallyError::Reference { choice_id: id }),
        }
    }

    /// The identifier of a choice, by which a selection names it once written
    /// out.
    pub fn to_id(contest_choice: &ContestChoice) -> (id: i64)
        ensures
            id == contest_choice@.id,
    {
        contest_choice.id
    }
}

impl VoteView {
    /// A vote counts unless it is marked invalid or the number of its
    /// selections lies outside the contest's bounds.
    pub open spec fn is_valid(self, contest: ContestView) -> bool {
        !self.is_explicit_invalid && contest.min_choices <= self.choices.len()
            <= contest.max_choices
    }
}

impl DecodedContestVote {
    /// Whether the vote counts in `contest`.
    pub fn is_valid(&self, contest: &Contest) -> (valid: bool)
        ensures
            valid == self@.is_valid(contest@),
    {
        let n: u64 = self.choices.len() as u64;
        let too_few = contest.min_choices > 0 && n < contest.min_choices as u64;
        let too_many = contest.max_choices < 0 || n > contest.max_choices as u64;
        !self.is_explicit_invalid && !too_few && !too_many
    }

    /// The identifier of the contest that a vote belongs to, by which the
    /// vote names it once written out.
    pub fn to_id(contest: &Contest) -> (id: i64)
        ensures
            id == contest@.id,
    {
        contest.id
    }
}

} // verus!
