use plurality_tally::error::TallyError;
use plurality_tally::tally::{count_votes, DecodedContestVoteId, DecodedVoteChoiceId, InputJson};
use plurality_tally::voting::{Contest, ContestChoice};

fn choices_up_to(n: i64) -> Vec<ContestChoice> {
    (1..=n)
        .map(|i| ContestChoice {
            id: i,
            text: i.to_string(),
            urls: vec![],
        })
        .collect()
}

fn contest_with(district_magnitude: i64, choices: Vec<ContestChoice>) -> Contest {
    Contest {
        id: 1,
        description: "Bonjour !".into(),
        tally_type: "plurality-at-large".into(),
        num_winners: district_magnitude,
        min_choices: district_magnitude,
        max_choices: district_magnitude,
        choices,
    }
}

fn vote_for(ids: &[i64]) -> DecodedContestVoteId {
    DecodedContestVoteId {
        is_explicit_invalid: false,
        choices: ids
            .iter()
            .map(|id| DecodedVoteChoiceId {
                contest_choice: *id,
                selected: 1,
            })
            .collect(),
    }
}

#[test]
fn test_count_votes() {
    let district_magnitude = 3;

    let choices: Vec<ContestChoice> = (1..=6)
        .map(|i| ContestChoice {
            id: i,
            text: i.to_string(),
            urls: vec![],
        })
        .collect();

    let contest = Contest {
        id: 1,
        description: "Bonjour !".into(),
        tally_type: "plurality-at-large".into(),
        num_winners: district_magnitude,
        min_choices: district_magnitude,
        max_choices: district_magnitude,
        choices,
    };

    let vote1 = DecodedContestVoteId {
        is_explicit_invalid: false,
        choices: vec![
            DecodedVoteChoiceId {
                contest_choice: 1,
                selected: 1,
            },
            DecodedVoteChoiceId {
                contest_choice: 2,
                selected: 1,
            },
            DecodedVoteChoiceId {
                contest_choice: 3,
                selected: 1,
            },
        ],
    };

    let vote2 = DecodedContestVoteId {
        is_explicit_invalid: false,
        choices: vec![
            DecodedVoteChoiceId {
                contest_choice: 1,
                selected: 1,
            },
            DecodedVoteChoiceId {
                contest_choice: 2,
                selected: 1,
            },
            DecodedVoteChoiceId {
                contest_choice: 4,
                selected: 1,
            },
        ],
    };

    let vote3 = DecodedContestVoteId {
        is_explicit_invalid: false,
        choices: vec![
            DecodedVoteChoiceId {
                contest_choice: 1,
                selected: 1,
            },
            DecodedVoteChoiceId {
                contest_choice: 2,
                selected: 1,
            },
            DecodedVoteChoiceId {
                contest_choice: 4,
                selected: 1,
            },
        ],
    };

    let votes = vec![vote1, vote2, vote3];

    let input = InputJson {
        contest: contest.clone(),
        votes,
    };

    let cr = count_votes(&input).unwrap();

    assert_eq!(cr.contest.id, contest.id);
    assert_eq!(cr.total_valid_votes, 3);
    assert_eq!(cr.total_invalid_votes, 0);

    // assert winner contest_choice
    let winner_ids = vec![1, 2, 4];
    for w in &cr.winners {
        assert!(winner_ids.iter().any(|id| *id == w.id));
    }

    println!(
        "{:?}",
        cr.results
            .iter()
            .map(|res| res.winner_position)
            .collect::<Vec<u64>>()
    );

    // assert winner_position: ties share a position, and the next total
    // takes the next one
    assert_eq!(
        cr.results
            .iter()
            .take(3)
            .map(|res| res.winner_position)
            .collect::<Vec<u64>>(),
        vec![1, 1, 2]
    );
}

#[test]
fn ranks_choices_by_total_with_ties_in_contest_order() {
    let input = InputJson {
        contest: contest_with(3, choices_up_to(6)),
        votes: vec![vote_for(&[1, 2, 3]), vote_for(&[1, 2, 4]), vote_for(&[1, 2, 4])],
    };
    let result = count_votes(&input).unwrap();
    let ranked: Vec<(i64, u64, u64)> = result
        .results
        .iter()
        .map(|r| (r.contest_choice.id, r.total_count, r.winner_position))
        .collect();
    assert_eq!(ranked, vec![(1, 3, 1), (2, 3, 1), (4, 2, 2), (3, 1, 0)]);
    let winners: Vec<i64> = result.winners.iter().map(|w| w.id).collect();
    assert_eq!(winners, vec![1, 2, 4]);
    assert_eq!(result.winners[2].text, "4");
}

#[test]
fn short_vote_is_invalid_whatever_its_flag() {
    let mut flagged = vote_for(&[1, 2]);
    flagged.is_explicit_invalid = true;
    let input = InputJson {
        contest: contest_with(3, choices_up_to(6)),
        votes: vec![vote_for(&[1, 2]), flagged, vote_for(&[4, 5, 6])],
    };
    let result = count_votes(&input).unwrap();
    assert_eq!(result.total_valid_votes, 1);
    assert_eq!(result.total_invalid_votes, 2);
    let ranked: Vec<(i64, u64)> = result
        .results
        .iter()
        .map(|r| (r.contest_choice.id, r.total_count))
        .collect();
    assert_eq!(ranked, vec![(4, 1), (5, 1), (6, 1)]);
}

#[test]
fn all_votes_invalid_is_an_empty_result() {
    let mut flagged = vote_for(&[1, 2, 3]);
    flagged.is_explicit_invalid = true;
    let input = InputJson {
        contest: contest_with(3, choices_up_to(6)),
        votes: vec![flagged, vote_for(&[1]), vote_for(&[1, 2, 3, 4])],
    };
    assert_eq!(count_votes(&input).unwrap_err(), TallyError::EmptyResult);
}

#[test]
fn no_votes_is_an_empty_result() {
    let input = InputJson {
        contest: contest_with(3, choices_up_to(6)),
        votes: vec![],
    };
    assert_eq!(count_votes(&input).unwrap_err(), TallyError::EmptyResult);
}

#[test]
fn unknown_choice_is_a_reference_error() {
    let input = InputJson {
        contest: contest_with(3, choices_up_to(6)),
        votes: vec![vote_for(&[1, 2, 3]), vote_for(&[1, 999, 1000])],
    };
    assert_eq!(
        count_votes(&input).unwrap_err(),
        TallyError::Reference { choice_id: 999 }
    );
}

#[test]
fn unknown_choice_in_an_invalid_vote_is_still_a_reference_error() {
    let mut flagged = vote_for(&[999]);
    flagged.is_explicit_invalid = true;
    let input = InputJson {
        contest: contest_with(3, choices_up_to(6)),
        votes: vec![vote_for(&[1, 2, 3]), flagged],
    };
    assert_eq!(
        count_votes(&input).unwrap_err(),
        TallyError::Reference { choice_id: 999 }
    );
}

#[test]
fn unequal_bounds_are_a_configuration_error() {
    let mut contest = contest_with(3, choices_up_to(6));
    contest.max_choices = 4;
    let input = InputJson {
        contest,
        votes: vec![vote_for(&[1, 2, 999])],
    };
    assert_eq!(count_votes(&input).unwrap_err(), TallyError::Configuration);
}

#[test]
fn other_tally_type_is_a_configuration_error() {
    let mut contest = contest_with(3, choices_up_to(6));
    contest.tally_type = "borda".into();
    let input = InputJson {
        contest,
        votes: vec![vote_for(&[1, 2, 3])],
    };
    assert_eq!(count_votes(&input).unwrap_err(), TallyError::Configuration);
}

#[test]
fn total_beyond_u64_is_an_overflow() {
    let heavy = DecodedContestVoteId {
        is_explicit_invalid: false,
        choices: vec![DecodedVoteChoiceId {
            contest_choice: 1,
            selected: u64::MAX,
        }],
    };
    let input = InputJson {
        contest: contest_with(1, choices_up_to(2)),
        votes: vec![heavy, vote_for(&[1])],
    };
    assert_eq!(count_votes(&input).unwrap_err(), TallyError::CountOverflow);
}

#[test]
fn fewer_counted_choices_than_seats() {
    let input = InputJson {
        contest: contest_with(2, choices_up_to(5)),
        votes: vec![vote_for(&[3, 3])],
    };
    let result = count_votes(&input).unwrap();
    assert_eq!(result.results.len(), 1);
    assert_eq!(result.results[0].contest_choice.id, 3);
    // a choice selected twice in one vote is counted twice
    assert_eq!(result.results[0].total_count, 2);
    assert_eq!(result.results[0].winner_position, 1);
    assert_eq!(result.winners.len(), 1);
}

#[test]
fn tie_across_the_last_seat() {
    let input = InputJson {
        contest: contest_with(1, choices_up_to(3)),
        votes: vec![vote_for(&[2]), vote_for(&[1])],
    };
    let result = count_votes(&input).unwrap();
    let ranked: Vec<(i64, u64, u64)> = result
        .results
        .iter()
        .map(|r| (r.contest_choice.id, r.total_count, r.winner_position))
        .collect();
    assert_eq!(ranked, vec![(1, 1, 1), (2, 1, 0)]);
    assert_eq!(result.winners.len(), 1);
    assert_eq!(result.winners[0].id, 1);
}

#[test]
fn selections_of_zero_points_give_no_entry() {
    let blank = DecodedContestVoteId {
        is_explicit_invalid: false,
        choices: vec![
            DecodedVoteChoiceId {
                contest_choice: 1,
                selected: 0,
            },
            DecodedVoteChoiceId {
                contest_choice: 2,
                selected: 1,
            },
        ],
    };
    let input = InputJson {
        contest: contest_with(2, choices_up_to(3)),
        votes: vec![blank],
    };
    let result = count_votes(&input).unwrap();
    assert_eq!(result.total_valid_votes, 1);
    assert_eq!(result.results.len(), 1);
    assert_eq!(result.results[0].contest_choice.id, 2);
}

#[test]
fn valid_and_invalid_add_up_to_the_votes() {
    let mut flagged = vote_for(&[1, 2]);
    flagged.is_explicit_invalid = true;
    let input = InputJson {
        contest: contest_with(2, choices_up_to(4)),
        votes: vec![
            vote_for(&[1, 2]),
            flagged,
            vote_for(&[3]),
            vote_for(&[3, 4]),
            vote_for(&[1, 2, 3]),
        ],
    };
    let result = count_votes(&input).unwrap();
    assert_eq!(result.total_valid_votes, 2);
    assert_eq!(result.total_invalid_votes, 3);
    assert_eq!(
        result.total_valid_votes + result.total_invalid_votes,
        input.votes.len() as i64
    );
}
