use plurality_tally::error::TallyError;
use plurality_tally::tally::{ChoiceIndex, DecodedContestVoteId, DecodedVoteChoiceId};
use plurality_tally::data_generator::join_words;
use plurality_tally::voting::{
    clone_choices, find_choice, Contest, ContestChoice, ContestChoiceResult, ContestResult,
    DecodedContestVote, DecodedVoteChoice,
};

fn choice(id: i64, text: &str) -> ContestChoice {
    ContestChoice {
        id,
        text: text.into(),
        urls: vec![format!("https://example.org/{text}")],
    }
}

fn contest(tally_type: &str, num_winners: i64, min_choices: i64, max_choices: i64) -> Contest {
    Contest {
        id: 12,
        description: "Conseil municipal".into(),
        tally_type: tally_type.into(),
        num_winners,
        min_choices,
        max_choices,
        choices: vec![choice(10, "ten"), choice(20, "twenty"), choice(30, "thirty")],
    }
}

fn resolved(contest: &Contest, ids: &[i64], is_explicit_invalid: bool) -> DecodedContestVote {
    DecodedContestVote {
        is_explicit_invalid,
        choices: ids
            .iter()
            .map(|id| DecodedVoteChoice {
                contest_choice: choice(*id, "x"),
                selected: 1,
            })
            .collect(),
        contest: contest.clone(),
    }
}

#[test]
fn district_magnitude_of_a_plurality_at_large_contest() {
    assert_eq!(
        contest("plurality-at-large", 3, 3, 3).get_district_magnitude(),
        Some(3)
    );
    assert_eq!(
        contest("plurality-at-large", 0, 0, 0).get_district_magnitude(),
        Some(0)
    );
}

#[test]
fn no_district_magnitude_without_equal_bounds() {
    assert_eq!(
        contest("plurality-at-large", 3, 2, 3).get_district_magnitude(),
        None
    );
    assert_eq!(
        contest("plurality-at-large", 3, 3, 4).get_district_magnitude(),
        None
    );
    assert_eq!(
        contest("plurality-at-large", 2, 3, 3).get_district_magnitude(),
        None
    );
}

#[test]
fn no_district_magnitude_for_another_tally_type() {
    assert_eq!(contest("borda", 3, 3, 3).get_district_magnitude(), None);
    assert_eq!(
        contest("Plurality-at-large", 3, 3, 3).get_district_magnitude(),
        None
    );
    assert_eq!(contest("", 3, 3, 3).get_district_magnitude(), None);
}

#[test]
fn negative_district_magnitude_keeps_its_bits() {
    assert_eq!(
        contest("plurality-at-large", -1, -1, -1).get_district_magnitude(),
        Some(u64::MAX)
    );
}

#[test]
fn finds_the_first_choice_with_an_identifier() {
    let choices = vec![
        choice(5, "a"),
        choice(7, "b"),
        choice(5, "c"),
        choice(9, "d"),
    ];
    assert_eq!(find_choice(&choices, 5), Some(0));
    assert_eq!(find_choice(&choices, 7), Some(1));
    assert_eq!(find_choice(&choices, 9), Some(3));
    assert_eq!(find_choice(&choices, 6), None);
    assert_eq!(find_choice(&Vec::new(), 5), None);
}

#[test]
fn index_agrees_with_the_search() {
    let choices = vec![
        choice(5, "a"),
        choice(7, "b"),
        choice(5, "c"),
        choice(-9, "d"),
    ];
    let index = ChoiceIndex::new(&choices);
    for id in [-9, 0, 5, 6, 7, 9] {
        assert_eq!(index.position(id), find_choice(&choices, id));
    }
}

#[test]
fn vote_choice_by_id_takes_the_choice_and_the_points() {
    let choices = vec![choice(5, "a"), choice(7, "b"), choice(5, "c")];
    let found = DecodedVoteChoice::get_vote_choice_by_id(5, choices.clone(), 1).unwrap();
    assert_eq!(found.contest_choice.id, 5);
    assert_eq!(found.contest_choice.text, "a");
    assert_eq!(found.contest_choice.urls, vec!["https://example.org/a"]);
    assert_eq!(found.selected, 1);
    let other = DecodedVoteChoice::get_vote_choice_by_id(7, choices, 0).unwrap();
    assert_eq!(other.contest_choice.text, "b");
    assert_eq!(other.selected, 0);
}

#[test]
fn vote_choice_by_unknown_id_is_a_reference_error() {
    let choices = vec![choice(5, "a"), choice(7, "b")];
    let missing = DecodedVoteChoice::get_vote_choice_by_id(999, choices, 1).unwrap_err();
    assert_eq!(missing, TallyError::Reference { choice_id: 999 });
    let empty = DecodedVoteChoice::get_vote_choice_by_id(5, vec![], 1).unwrap_err();
    assert_eq!(empty, TallyError::Reference { choice_id: 5 });
}

#[test]
fn vote_with_the_right_number_of_choices_is_valid() {
    let contest = contest("plurality-at-large", 3, 3, 3);
    assert!(resolved(&contest, &[10, 20, 30], false).is_valid(&contest));
}

#[test]
fn vote_of_two_choices_where_three_are_asked_is_invalid() {
    let contest = contest("plurality-at-large", 3, 3, 3);
    assert!(!resolved(&contest, &[10, 20], false).is_valid(&contest));
    assert!(!resolved(&contest, &[10, 20], true).is_valid(&contest));
}

#[test]
fn vote_outside_the_bounds_or_marked_invalid_is_invalid() {
    let contest = contest("plurality-at-large", 2, 1, 2);
    assert!(!resolved(&contest, &[], false).is_valid(&contest));
    assert!(resolved(&contest, &[10], false).is_valid(&contest));
    assert!(resolved(&contest, &[10, 20], false).is_valid(&contest));
    assert!(!resolved(&contest, &[10, 20, 30], false).is_valid(&contest));
    assert!(!resolved(&contest, &[10], true).is_valid(&contest));
}

#[test]
fn negative_bounds_admit_no_vote() {
    let contest = contest("plurality-at-large", -1, -1, -1);
    assert!(!resolved(&contest, &[], false).is_valid(&contest));
    assert!(!resolved(&contest, &[10], false).is_valid(&contest));
    let open_below = Contest {
        min_choices: -5,
        max_choices: 1,
        ..contest
    };
    assert!(resolved(&open_below, &[], false).is_valid(&open_below));
    assert!(resolved(&open_below, &[10], false).is_valid(&open_below));
    assert!(!resolved(&open_below, &[10, 20], false).is_valid(&open_below));
}

#[test]
fn resolving_replaces_identifiers_by_choices() {
    let contest = contest("plurality-at-large", 2, 2, 2);
    let submitted = DecodedContestVoteId {
        is_explicit_invalid: true,
        choices: vec![
            DecodedVoteChoiceId {
                contest_choice: 30,
                selected: 1,
            },
            DecodedVoteChoiceId {
                contest_choice: 10,
                selected: 0,
            },
        ],
    };
    let vote = submitted.resolve(&contest).unwrap();
    assert!(vote.is_explicit_invalid);
    assert_eq!(vote.contest.id, 12);
    assert_eq!(vote.choices.len(), 2);
    assert_eq!(vote.choices[0].contest_choice.text, "thirty");
    assert_eq!(vote.choices[0].selected, 1);
    assert_eq!(vote.choices[1].contest_choice.text, "ten");
    assert_eq!(vote.choices[1].selected, 0);
}

#[test]
fn resolving_and_writing_out_gives_the_vote_back() {
    let contest = contest("plurality-at-large", 2, 2, 2);
    let submitted = DecodedContestVoteId {
        is_explicit_invalid: false,
        choices: vec![
            DecodedVoteChoiceId {
                contest_choice: 20,
                selected: 1,
            },
            DecodedVoteChoiceId {
                contest_choice: 20,
                selected: 1,
            },
            DecodedVoteChoiceId {
                contest_choice: 10,
                selected: 0,
            },
        ],
    };
    let back = submitted.resolve(&contest).unwrap().to_ids();
    assert_eq!(back.is_explicit_invalid, submitted.is_explicit_invalid);
    let pairs = |vote: &DecodedContestVoteId| -> Vec<(i64, u64)> {
        vote.choices
            .iter()
            .map(|c| (c.contest_choice, c.selected))
            .collect()
    };
    assert_eq!(pairs(&back), pairs(&submitted));
    assert_eq!(pairs(&back), vec![(20, 1), (20, 1), (10, 0)]);
}

#[test]
fn resolving_names_the_first_unknown_identifier() {
    let contest = contest("plurality-at-large", 2, 2, 2);
    let submitted = DecodedContestVoteId {
        is_explicit_invalid: false,
        choices: vec![
            DecodedVoteChoiceId {
                contest_choice: 20,
                selected: 1,
            },
            DecodedVoteChoiceId {
                contest_choice: 999,
                selected: 1,
            },
            DecodedVoteChoiceId {
                contest_choice: 998,
                selected: 1,
            },
        ],
    };
    assert_eq!(
        submitted.resolve(&contest).unwrap_err(),
        TallyError::Reference { choice_id: 999 }
    );
}

#[test]
fn identifiers_of_contest_and_choice() {
    let contest = contest("plurality-at-large", 2, 2, 2);
    assert_eq!(DecodedContestVote::to_id(&contest), 12);
    assert_eq!(DecodedVoteChoice::to_id(&contest.choices[1]), 20);
}

#[test]
fn clones_are_equal_in_every_field() {
    let contest = contest("plurality-at-large", 2, 2, 2);
    let copy = contest.clone();
    assert_eq!(copy.id, contest.id);
    assert_eq!(copy.description, contest.description);
    assert_eq!(copy.tally_type, contest.tally_type);
    assert_eq!(copy.num_winners, contest.num_winners);
    assert_eq!(copy.min_choices, contest.min_choices);
    assert_eq!(copy.max_choices, contest.max_choices);
    assert_eq!(copy.choices.len(), 3);
    let choices = clone_choices(&contest.choices);
    for (made, given) in choices.iter().zip(contest.choices.iter()) {
        assert_eq!(made.id, given.id);
        assert_eq!(made.text, given.text);
        assert_eq!(made.urls, given.urls);
    }
    let vote = resolved(&contest, &[10, 30], true).clone();
    assert!(vote.is_explicit_invalid);
    assert_eq!(vote.choices.len(), 2);
    assert_eq!(vote.choices[1].clone().contest_choice.id, 30);
    let result = ContestResult {
        contest: contest.clone(),
        total_valid_votes: 4,
        total_invalid_votes: 1,
        results: vec![ContestChoiceResult {
            contest_choice: choice(10, "ten"),
            total_count: 4,
            winner_position: 1,
        }],
        winners: vec![choice(10, "ten")],
    }
    .clone();
    assert_eq!(result.total_valid_votes, 4);
    assert_eq!(result.total_invalid_votes, 1);
    assert_eq!(result.results[0].clone().total_count, 4);
    assert_eq!(result.results[0].winner_position, 1);
    assert_eq!(result.winners[0].text, "ten");
}

#[test]
fn words_are_joined_with_the_separator_between() {
    let words: Vec<String> = vec!["de".into(), "rerum".into(), "natura".into()];
    assert_eq!(join_words(&words, " "), "de rerum natura");
    assert_eq!(join_words(&words, ", "), "de, rerum, natura");
    assert_eq!(join_words(&words[..1].to_vec(), " "), "de");
    assert_eq!(join_words(&Vec::new(), " "), "");
}

#[test]
fn every_error_has_its_message() {
    assert_eq!(
        TallyError::Configuration.message(),
        "the contest is not a plurality-at-large contest with one district magnitude"
    );
    assert_eq!(
        TallyError::Reference { choice_id: 3 }.message(),
        "a vote refers to a choice that the contest does not have"
    );
    assert_eq!(
        TallyError::CountOverflow.message(),
        "a total is too large to be represented"
    );
    assert_eq!(TallyError::EmptyResult.message(), "there is no valid vote");
}
