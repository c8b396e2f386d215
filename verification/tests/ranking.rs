use plurality_tally::counting::aggregate;
use plurality_tally::error::TallyError;
use plurality_tally::ranking::{collect_candidates, rank, sort_candidates, Candidate};
use plurality_tally::tally::create_contest_results;
use plurality_tally::voting::{Contest, ContestChoice, DecodedContestVote, DecodedVoteChoice};
use std::collections::HashMap;

fn choice(id: i64) -> ContestChoice {
    ContestChoice {
        id,
        text: format!("choice {id}"),
        urls: vec![],
    }
}

fn contest(district_magnitude: i64, ids: &[i64]) -> Contest {
    Contest {
        id: 1,
        description: "Bonjour !".into(),
        tally_type: "plurality-at-large".into(),
        num_winners: district_magnitude,
        min_choices: district_magnitude,
        max_choices: district_magnitude,
        choices: ids.iter().map(|id| choice(*id)).collect(),
    }
}

fn vote(contest: &Contest, selections: &[(i64, u64)]) -> DecodedContestVote {
    DecodedContestVote {
        is_explicit_invalid: false,
        choices: selections
            .iter()
            .map(|(id, selected)| DecodedVoteChoice {
                contest_choice: choice(*id),
                selected: *selected,
            })
            .collect(),
        contest: contest.clone(),
    }
}

fn pairs(list: &[Candidate]) -> Vec<(u64, usize)> {
    list.iter().map(|c| (c.count, c.index)).collect()
}

#[test]
fn candidates_compare_by_total_then_by_place() {
    let a = Candidate { count: 3, index: 5 };
    let b = Candidate { count: 2, index: 0 };
    let c = Candidate { count: 3, index: 6 };
    assert!(a.comes_before(&b));
    assert!(!b.comes_before(&a));
    assert!(a.comes_before(&c));
    assert!(!c.comes_before(&a));
    assert!(!a.comes_before(&a));
}

#[test]
fn sort_puts_larger_totals_first_and_ties_in_place_order() {
    let mut list = vec![
        Candidate { count: 1, index: 0 },
        Candidate { count: 3, index: 1 },
        Candidate { count: 2, index: 2 },
        Candidate { count: 3, index: 3 },
        Candidate { count: 1, index: 4 },
        Candidate { count: 5, index: 5 },
    ];
    sort_candidates(&mut list);
    assert_eq!(
        pairs(&list),
        vec![(5, 5), (3, 1), (3, 3), (2, 2), (1, 0), (1, 4)]
    );
}

#[test]
fn sort_of_short_lists() {
    let mut none: Vec<Candidate> = vec![];
    sort_candidates(&mut none);
    assert!(none.is_empty());
    let mut one = vec![Candidate { count: 1, index: 0 }];
    sort_candidates(&mut one);
    assert_eq!(pairs(&one), vec![(1, 0)]);
    let mut two = vec![
        Candidate { count: 1, index: 7 },
        Candidate { count: 1, index: 2 },
    ];
    sort_candidates(&mut two);
    assert_eq!(pairs(&two), vec![(1, 2), (1, 7)]);
}

#[test]
fn candidates_are_the_counted_choices_in_contest_order() {
    let choices: Vec<ContestChoice> = [4, 8, 4, 15, 16, 23].iter().map(|id| choice(*id)).collect();
    let mut counts: HashMap<i64, u64> = HashMap::new();
    counts.insert(4, 2);
    counts.insert(15, 0);
    counts.insert(23, 7);
    counts.insert(42, 9);
    let list = collect_candidates(counts, &choices);
    assert_eq!(pairs(&list), vec![(2, 0), (7, 5)]);
}

#[test]
fn rank_gives_positions_to_the_winners_only() {
    let contest = contest(3, &[1, 2, 3, 4, 5, 6]);
    let mut counts: HashMap<i64, u64> = HashMap::new();
    counts.insert(1, 3);
    counts.insert(2, 3);
    counts.insert(3, 1);
    counts.insert(4, 2);
    let ranking = rank(counts, &contest);
    let entries: Vec<(i64, u64, u64)> = ranking
        .results
        .iter()
        .map(|r| (r.contest_choice.id, r.total_count, r.winner_position))
        .collect();
    assert_eq!(entries, vec![(1, 3, 1), (2, 3, 1), (4, 2, 2), (3, 1, 0)]);
    let winners: Vec<i64> = ranking.winners.iter().map(|w| w.id).collect();
    assert_eq!(winners, vec![1, 2, 4]);
    assert_eq!(ranking.winners[0].text, "choice 1");
}

#[test]
fn rank_positions_rise_by_one_for_each_new_total() {
    let contest = contest(6, &[1, 2, 3, 4, 5, 6, 7]);
    let mut counts: HashMap<i64, u64> = HashMap::new();
    for (id, count) in [(1, 9), (2, 4), (3, 9), (4, 1), (5, 4), (6, 4), (7, 1)] {
        counts.insert(id, count);
    }
    let ranking = rank(counts, &contest);
    let entries: Vec<(i64, u64, u64)> = ranking
        .results
        .iter()
        .map(|r| (r.contest_choice.id, r.total_count, r.winner_position))
        .collect();
    assert_eq!(
        entries,
        vec![
            (1, 9, 1),
            (3, 9, 1),
            (2, 4, 2),
            (5, 4, 2),
            (6, 4, 2),
            (4, 1, 3),
            (7, 1, 0)
        ]
    );
    assert_eq!(ranking.winners.len(), 6);
}

#[test]
fn rank_without_seats_or_without_counts() {
    let mut counts: HashMap<i64, u64> = HashMap::new();
    counts.insert(1, 3);
    let none = rank(counts.clone(), &contest(0, &[1, 2]));
    assert_eq!(none.results.len(), 1);
    assert_eq!(none.results[0].winner_position, 0);
    assert!(none.winners.is_empty());
    let negative = rank(counts, &contest(-2, &[1, 2]));
    assert_eq!(negative.results[0].winner_position, 0);
    assert!(negative.winners.is_empty());
    let empty = rank(HashMap::new(), &contest(2, &[1, 2]));
    assert!(empty.results.is_empty());
    assert!(empty.winners.is_empty());
}

#[test]
fn rank_leaves_out_what_the_contest_does_not_list() {
    let mut counts: HashMap<i64, u64> = HashMap::new();
    counts.insert(1, 3);
    counts.insert(999, 30);
    let ranking = rank(counts, &contest(2, &[1, 2]));
    assert_eq!(ranking.results.len(), 1);
    assert_eq!(ranking.results[0].contest_choice.id, 1);
}

#[test]
fn aggregate_adds_up_the_valid_votes_only() {
    let contest = contest(2, &[1, 2, 3]);
    let mut flagged = vote(&contest, &[(1, 1), (2, 1)]);
    flagged.is_explicit_invalid = true;
    let votes = vec![
        vote(&contest, &[(1, 1), (2, 1)]),
        vote(&contest, &[(1, 1), (3, 0)]),
        vote(&contest, &[(2, 1)]),
        flagged,
        vote(&contest, &[(2, 1), (2, 1)]),
    ];
    let totals = aggregate(&votes, &contest).unwrap();
    assert_eq!(totals.valid, 3);
    assert_eq!(totals.invalid, 2);
    let mut held: Vec<(i64, u64)> = totals.counts.iter().map(|(k, v)| (*k, *v)).collect();
    held.sort();
    assert_eq!(held, vec![(1, 2), (2, 3), (3, 0)]);
}

#[test]
fn aggregate_gives_up_where_a_total_exceeds_u64() {
    let contest = contest(1, &[1, 2]);
    let votes = vec![
        vote(&contest, &[(1, u64::MAX - 1)]),
        vote(&contest, &[(2, u64::MAX)]),
        vote(&contest, &[(1, 1)]),
    ];
    assert!(aggregate(&votes, &contest).is_some());
    let more = vec![
        vote(&contest, &[(1, u64::MAX - 1)]),
        vote(&contest, &[(1, 1)]),
        vote(&contest, &[(1, 1)]),
    ];
    assert!(aggregate(&more, &contest).is_none());
}

#[test]
fn results_of_resolved_votes() {
    let contest = contest(2, &[1, 2, 3]);
    let votes = vec![
        vote(&contest, &[(3, 1), (2, 1)]),
        vote(&contest, &[(3, 1), (1, 1)]),
        vote(&contest, &[(3, 1)]),
    ];
    let result = create_contest_results(votes, &contest).unwrap();
    assert_eq!(result.contest.id, 1);
    assert_eq!(result.total_valid_votes, 2);
    assert_eq!(result.total_invalid_votes, 1);
    let entries: Vec<(i64, u64, u64)> = result
        .results
        .iter()
        .map(|r| (r.contest_choice.id, r.total_count, r.winner_position))
        .collect();
    assert_eq!(entries, vec![(3, 2, 1), (1, 1, 2), (2, 1, 0)]);
    let winners: Vec<i64> = result.winners.iter().map(|w| w.id).collect();
    assert_eq!(winners, vec![3, 1]);
}

#[test]
fn results_take_the_choice_from_the_contest() {
    let contest = contest(1, &[1, 2]);
    let mut stray = vote(&contest, &[(2, 1)]);
    stray.choices[0].contest_choice.text = "written on the ballot".into();
    let result = create_contest_results(vec![stray], &contest).unwrap();
    assert_eq!(result.results[0].contest_choice.text, "choice 2");
    assert_eq!(result.winners[0].text, "choice 2");
}

#[test]
fn results_of_resolved_votes_fail_as_the_tally_does() {
    let good = contest(1, &[1, 2]);
    let mut bad = contest(1, &[1, 2]);
    bad.min_choices = 0;
    assert_eq!(
        create_contest_results(vec![vote(&bad, &[(1, 1)])], &bad).unwrap_err(),
        TallyError::Configuration
    );
    assert_eq!(
        create_contest_results(vec![vote(&good, &[(1, 1), (2, 1)])], &good).unwrap_err(),
        TallyError::EmptyResult
    );
    assert_eq!(
        create_contest_results(
            vec![vote(&good, &[(1, u64::MAX)]), vote(&good, &[(1, 1)])],
            &good
        )
        .unwrap_err(),
        TallyError::CountOverflow
    );
}

#[test]
fn valid_votes_without_points_give_an_empty_ranking() {
    let contest = contest(1, &[1, 2]);
    let result = create_contest_results(vec![vote(&contest, &[(1, 0)])], &contest).unwrap();
    assert_eq!(result.total_valid_votes, 1);
    assert_eq!(result.total_invalid_votes, 0);
    assert!(result.results.is_empty());
    assert!(result.winners.is_empty());
}
