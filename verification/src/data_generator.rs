//! Sample data: a made-up contest with made-up votes, ready to be tallied.

use crate::counting::{
    count_for, lemma_all_valid, lemma_count_for_capped, lemma_selected_for_single_points,
    points_of,
};
use crate::random::{
    fake_name, fake_number, fake_safe_email, fake_words, random_in, sample_indices,
};
use crate::tally::{
    first_unknown, input_error, lemma_first_unknown_in_none, lemma_first_unknown_none,
    DecodedContestVoteId, InputJson, InputView, VoteIdView,
};
use crate::voting::{
    has_choice, lemma_first_position, plurality_at_large, ChoiceView, Contest, ContestChoice,
    ContestView, DecodedContestVote, DecodedVoteChoice, VoteChoiceView, VoteView,
};
use vstd::prelude::*;
use vstd::string::*;

verus! {

/// The words of a list, in order, with `separator` between each two.
pub open spec fn joined(words: Seq<Seq<char>>, separator: Seq<char>) -> Seq<char>
    decreases words.len(),
{
    if words.len() == 0 {
        Seq::empty()
    } else if words.len() == 1 {
        words[0]
    } else {
        joined(words.drop_last(), separator) + separator + words.last()
    }
}

/// Joins words into one text, with `separator` between each two.
pub fn join_words(words: &Vec<String>, separator: &str) -> (text: String)
    ensures
        text@ == joined(words.deep_view(), separator@),
{
    let ghost views = words.deep_view();
    let mut text = String::new();
    let mut i: usize = 0;
    assert(views.take(0) =~= Seq::<Seq<char>>::empty());
    while i < words.len()
        invariant
            i <= words.len(),
            views == words.deep_view(),
            views.len() == words.len(),
            text@ == joined(views.take(i as int), separator@),
        decreases words.len() - i,
    {
        proof {
            assert(views.take(i + 1).drop_last() =~= views.take(i as int));
            assert(views.take(i + 1).last() == words[i as int]@);
        }
        if i > 0 {
            text.append(separator);
        }
        text.append(words[i].as_str());
        i += 1;
    }
    assert(views.take(i as int) =~= views);
    text
}

/// Whether a choice is one that [`ContestChoice::dummy`] makes.
pub open spec fn is_sample_choice(choice: ChoiceView) -> bool {
    1 <= choice.id < 9999 && 1 <= choice.urls.len() < 3
}

impl ContestChoice {
    /// Makes up a choice: an identifier from 1 to 9998, a name for its text,
    /// and one or two addresses.
    pub fn dummy() -> (choice: Self)
        ensures
            is_sample_choice(choice@),
    {
        let id = fake_number(1, 9999);
        let text = fake_name();
        let count = random_in(1, 3);
        let mut urls: Vec<String> = Vec::new();
        let mut i: usize = 0;
        while i < count
            invariant
                i <= count,
                urls.len() == i,
            decreases count - i,
        {
            urls.push(fake_safe_email());
            i += 1;
        }
        ContestChoice { id, text, urls }
    }
}

/// Whether a contest is one that [`Contest::dummy`] makes.
pub open spec fn is_sample_contest(contest: ContestView) -> bool {
    &&& 1 <= contest.id < 9999
    &&& exists|words: Seq<Seq<char>>|
        3 <= words.len() < 5 && contest.description == joined(words, " "@)
    &&& contest.tally_type == plurality_at_large()
    &&& 1 <= contest.num_winners < 5
    &&& contest.min_choices == contest.num_winners
    &&& contest.max_choices == contest.num_winners
    &&& contest.choices.len() == 50 - contest.num_winners
    &&& forall|j: int| 0 <= j < contest.choices.len() ==> is_sample_choice(#[trigger] contest.choices[j])
}

impl Contest {
    /// Makes up a plurality-at-large contest: a district magnitude from 1 to
    /// 4, as many made-up choices as the district magnitude lacks to 50, an
    /// identifier from 1 to 9998, and three or four words for a description.
    pub fn dummy() -> (contest: Self)
        ensures
            is_sample_contest(contest@),
    {
        let id = fake_number(1, 9999);
        let words = fake_words(3, 5);
        let description = join_words(&words, " ");
        let tally_type = "plurality-at-large".to_owned();
        let district_magnitude = fake_number(1, 5);
        let mut choices: Vec<ContestChoice> = Vec::new();
        let mut i: i64 = district_magnitude;
        while i < 50
            invariant
                1 <= district_magnitude <= i <= 50,
                choices.len() == i - district_magnitude,
                forall|j: int| 0 <= j < choices.len() ==> is_sample_choice(#[trigger] choices[j]@),
            decreases 50 - i,
        {
            choices.push(ContestChoice::dummy());
            i += 1;
        }
        let contest = Contest {
            id,
            description,
            tally_type,
            num_winners: district_magnitude,
            min_choices: district_magnitude,
            max_choices: district_magnitude,
            choices,
        };
        proof {
            let views = words.deep_view();
            assert(views.len() == words.len());
            assert(3 <= views.len() < 5 && contest@.description == joined(views, " "@));
        }
        contest
    }
}

/// Whether `vote` is one that [`DecodedContestVote::dummy`] makes for
/// `contest`: a vote not marked invalid that gives one point each to
/// `district_magnitude` choices of the contest at different places of its
/// list, or to all of them where they are fewer.
pub open spec fn is_sample_vote(vote: VoteView, contest: ContestView, district_magnitude: nat) -> bool {
    &&& !vote.is_explicit_invalid
    &&& vote.contest == contest
    &&& vote.choices.len() == if district_magnitude <= contest.choices.len() {
        district_magnitude
    } else {
        contest.choices.len()
    }
    &&& exists|places: Seq<int>|
        {
            &&& places.len() == vote.choices.len()
            &&& places.no_duplicates()
            &&& forall|j: int|
                0 <= j < places.len() ==> 0 <= #[trigger] places[j] < contest.choices.len()
                    && vote.choices[j] == (VoteChoiceView {
                    contest_choice: contest.choices[places[j]],
                    selected: 1,
                })
        }
}

impl DecodedContestVote {
    /// Makes up a vote for `contest`: `district_magnitude` of its choices,
    /// picked at random without repetition, with one point each.
    pub fn dummy(contest: Contest, district_magnitude: u64) -> (vote: Self)
        ensures
            is_sample_vote(vote@, contest@, district_magnitude as nat),
    {
        let available = contest.choices.len();
        let amount: usize = if district_magnitude >= available as u64 {
            available
        } else {
            district_magnitude as usize
        };
        let picked = sample_indices(available, amount);
        let mut choices: Vec<DecodedVoteChoice> = Vec::new();
        let mut j: usize = 0;
        while j < picked.len()
            invariant
                j <= picked.len(),
                available == contest.choices.len(),
                forall|k: int| 0 <= k < picked@.len() ==> picked@[k] < available,
                choices.len() == j,
                forall|k: int|
                    0 <= k < j ==> (#[trigger] choices[k])@ == (VoteChoiceView {
                        contest_choice: contest.choices[picked[k] as int]@,
                        selected: 1,
                    }),
            decreases picked.len() - j,
        {
            choices.push(
                DecodedVoteChoice { contest_choice: contest.choices[picked[j]].clone(), selected: 1 },
            );
            j += 1;
        }
        let vote = DecodedContestVote { is_explicit_invalid: false, choices, contest };
        proof {
            let places = Seq::new(picked@.len(), |k: int| picked@[k] as int);
            assert(places.no_duplicates());
            assert forall|k: int| 0 <= k < places.len() implies 0 <= #[trigger] places[k]
                < vote@.contest.choices.len() && vote@.choices[k] == (VoteChoiceView {
                contest_choice: vote@.contest.choices[places[k]],
                selected: 1,
            }) by {
                assert(vote@.choices[k] == choices[k]@);
            }
        }
        vote
    }
}

/// A source of sample data.
pub trait UseDataGenerator {
    /// A contest.
    fn generate_contest(&self) -> Contest;

    /// Votes for `contest`, each selecting `district_magnitude` choices.
    fn generate_votes(&self, contest: &Contest, district_magnitude: u64) -> Vec<DecodedContestVote>;
}

/// The source of sample data that draws on the random number generator of
/// the calling thread.
pub struct DataGenerator {}

impl UseDataGenerator for DataGenerator {
    /// A made-up plurality-at-large contest, as [`Contest::dummy`] makes it.
    fn generate_contest(&self) -> (contest: Contest)
        ensures
            is_sample_contest(contest@),
    {
        Contest::dummy()
    }

    /// From 100 to 399 made-up votes for `contest`, each as
    /// [`DecodedContestVote::dummy`] makes it.
    fn generate_votes(&self, contest: &Contest, district_magnitude: u64) -> (votes: Vec<
        DecodedContestVote,
    >)
        ensures
            100 <= votes.len() < 400,
            forall|i: int|
                0 <= i < votes.len() ==> is_sample_vote(
                    (#[trigger] votes[i])@,
                    contest@,
                    district_magnitude as nat,
                ),
    {
        let end = random_in(200, 500);
        let mut votes: Vec<DecodedContestVote> = Vec::new();
        let mut i: usize = 100;
        while i < end
            invariant
                100 <= i <= end < 500,
                votes.len() == i - 100,
                forall|k: int|
                    0 <= k < votes.len() ==> is_sample_vote(
                        (#[trigger] votes[k])@,
                        contest@,
                        district_magnitude as nat,
                    ),
            decreases end - i,
        {
            votes.push(DecodedContestVote::dummy(contest.clone(), district_magnitude));
            i += 1;
        }
        votes
    }
}

/// Whether `input` is a sample: a made-up contest with 100 to 399 votes, each
/// the submitted form of a vote made up for the contest and its district
/// magnitude.
pub open spec fn is_sample_input(input: InputView) -> bool {
    &&& is_sample_contest(input.contest)
    &&& 100 <= input.votes.len() < 400
    &&& forall|i: int|
        0 <= i < input.votes.len() ==> is_submitted_sample(#[trigger] input.votes[i], input.contest)
}

/// Whether `submitted` is the submitted form of a vote made up for `contest`
/// and its district magnitude.
pub open spec fn is_submitted_sample(submitted: VoteIdView, contest: ContestView) -> bool {
    exists|vote: VoteView|
        is_sample_vote(vote, contest, contest.num_winners as nat) && submitted == vote.to_ids()
}

/// A vote made up for a made-up contest, once submitted, names choices of the
/// contest only, and is valid once resolved: it gives one point each to as
/// many choices as the district magnitude asks for.
pub proof fn lemma_sample_vote_counts(submitted: VoteIdView, contest: ContestView)
    requires
        is_sample_contest(contest),
        is_submitted_sample(submitted, contest),
    ensures
        first_unknown(submitted.choices, contest.choices) is None,
        submitted.resolve(contest).is_valid(contest),
        forall|id: int| points_of(submitted.resolve(contest), contest, id) <= 4,
{
    let vote = choose|vote: VoteView|
        is_sample_vote(vote, contest, contest.num_winners as nat) && submitted == vote.to_ids();
    let places = choose|places: Seq<int>|
        {
            &&& places.len() == vote.choices.len()
            &&& places.no_duplicates()
            &&& forall|j: int|
                0 <= j < places.len() ==> 0 <= #[trigger] places[j] < contest.choices.len()
                    && vote.choices[j] == (VoteChoiceView {
                    contest_choice: contest.choices[places[j]],
                    selected: 1,
                })
        };
    assert forall|j: int| 0 <= j < submitted.choices.len() implies has_choice(
        contest.choices,
        (#[trigger] submitted.choices[j]).contest_choice,
    ) by {
        let place = places[j];
        assert(submitted.choices[j].contest_choice == contest.choices[place].id);
        lemma_first_position(contest.choices, contest.choices[place].id);
    }
    lemma_first_unknown_none(submitted.choices, contest.choices);
    let resolved = submitted.resolve(contest);
    assert(resolved.choices.len() == contest.num_winners);
    assert forall|id: int| points_of(resolved, contest, id) <= 4 by {
        assert forall|j: int| 0 <= j < resolved.choices.len() implies (
        #[trigger] resolved.choices[j]).selected <= 1 by {
            assert(0 <= places[j] < contest.choices.len());
            assert(vote.choices[j].selected == 1);
            assert(submitted.choices[j].selected == 1);
        }
        lemma_selected_for_single_points(resolved.choices, id);
    }
}

/// A sample can be tallied: the engine finds no fault with it.
pub proof fn lemma_sample_input_tallies(input: InputView)
    requires
        is_sample_input(input),
    ensures
        input_error(input) is None,
{
    let contest = input.contest;
    let resolved = input.resolved_votes();
    assert forall|i: int| 0 <= i < input.votes.len() implies first_unknown(
        (#[trigger] input.votes[i]).choices,
        contest.choices,
    ) is None by {
        lemma_sample_vote_counts(input.votes[i], contest);
    }
    lemma_first_unknown_in_none(input.votes, contest.choices);
    assert forall|i: int| 0 <= i < resolved.len() implies (#[trigger] resolved[i]).is_valid(
        contest,
    ) by {
        lemma_sample_vote_counts(input.votes[i], contest);
    }
    lemma_all_valid(resolved, contest);
    assert forall|id: i64| count_for(resolved, contest, id as int) <= u64::MAX by {
        assert forall|i: int| 0 <= i < resolved.len() implies points_of(
            #[trigger] resolved[i],
            contest,
            id as int,
        ) <= 4 by {
            lemma_sample_vote_counts(input.votes[i], contest);
        }
        lemma_count_for_capped(resolved, contest, id as int, 4);
    }
}

/// Makes up a contest and votes for it, in the form in which votes are
/// submitted.
pub fn generate_input() -> (input: InputJson)
    ensures
        is_sample_input(input@),
        input_error(input@) is None,
{
    let generator = DataGenerator {};
    let contest = generator.generate_contest();
    let district_magnitude: u64 = match contest.get_district_magnitude() {
        Some(district_magnitude) => district_magnitude,
        None => vstd::pervasive::unreached(),
    };
    let votes = generator.generate_votes(&contest, district_magnitude);
    let mut submitted: Vec<DecodedContestVoteId> = Vec::new();
    let mut i: usize = 0;
    while i < votes.len()
        invariant
            i <= votes.len(),
            submitted.len() == i,
            forall|k: int| 0 <= k < i ==> (#[trigger] submitted[k])@ == votes[k]@.to_ids(),
        decreases votes.len() - i,
    {
        submitted.push(votes[i].to_ids());
        i += 1;
    }
    let input = InputJson { contest, votes: submitted };
    proof {
        assert forall|k: int| 0 <= k < input@.votes.len() implies is_submitted_sample(
            #[trigger] input@.votes[k],
            input@.contest,
        ) by {
            assert(input@.votes[k] == submitted[k]@);
            assert(is_sample_vote(votes[k]@, input@.contest, input@.contest.num_winners as nat));
        }
        lemma_sample_input_tallies(input@);
    }
    input
}

} // verus!
