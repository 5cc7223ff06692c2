use hypervariate_core::distribution::{
    find_share, get_result_distribution_from_vec, Distribution, TeamShare,
};
use hypervariate_core::error::BalanceError;
use hypervariate_core::game::{GameMatch, GameMatches, GameVariables, Variable};
use hypervariate_core::math::{SAMPLE_LIMIT, VALUE_LIMIT};

fn variables(entries: &[(&str, i64)]) -> GameVariables {
    GameVariables {
        variables: entries
            .iter()
            .map(|(name, value)| Variable {
                name: name.to_string(),
                value: *value,
            })
            .collect(),
    }
}

fn record(time: u64, winner: u64, entries: &[(&str, i64)]) -> GameMatch {
    GameMatch {
        time,
        winner,
        variables: variables(entries),
    }
}

fn history_of(winners_at: &[(u64, u64)]) -> GameMatches {
    let mut history = GameMatches::new(2, variables(&[("x", 1_000_000)]));
    for (time, winner) in winners_at {
        history.report_result(record(*time, *winner, &[("x", *time as i64)]));
    }
    history
}

#[test]
fn new_history_is_empty() {
    let base = variables(&[("x", 1_000_000), ("y", -2_000_000)]);
    let history = GameMatches::new(4, base.clone());
    assert_eq!(history.games_played, 0);
    assert!(history.results.is_empty());
    assert_eq!(history.num_teams, 4);
    assert_eq!(history.base_variables, base);
}

#[test]
fn default_history_is_empty() {
    let history = GameMatches::default();
    assert_eq!(history.games_played, 0);
    assert!(history.results.is_empty());
    assert_eq!(history.num_teams, 0);
    assert!(history.base_variables.variables.is_empty());
}

#[test]
fn report_result_appends_and_counts() {
    let mut history = GameMatches::new(2, variables(&[]));
    history.report_result(record(5, 1, &[("x", 3)]));
    assert_eq!(history.games_played, 1);
    history.report_result(record(2, 0, &[("x", 4)]));
    assert_eq!(history.games_played, 2);
    assert_eq!(
        history.results,
        vec![record(5, 1, &[("x", 3)]), record(2, 0, &[("x", 4)])]
    );
}

#[test]
fn report_results_is_report_result_in_order() {
    let batch = vec![
        record(1, 0, &[("x", 1)]),
        record(3, 1, &[("x", 2)]),
        record(2, 0, &[("x", 3)]),
    ];
    let mut one_by_one = GameMatches::new(2, variables(&[]));
    one_by_one.report_result(record(9, 1, &[]));
    for m in batch.iter() {
        one_by_one.report_result(m.clone());
    }
    let mut at_once = GameMatches::new(2, variables(&[]));
    at_once.report_result(record(9, 1, &[]));
    at_once.report_results(batch);
    assert_eq!(at_once.games_played, 4);
    assert_eq!(at_once.games_played, one_by_one.games_played);
    assert_eq!(at_once.results, one_by_one.results);
    at_once.report_results(vec![]);
    assert_eq!(at_once.games_played, 4);
}

#[test]
fn a_record_keeps_its_own_variables() {
    let mut live = variables(&[("x", 1)]);
    let mut history = GameMatches::new(1, live.clone());
    history.report_result(GameMatch {
        time: 1,
        winner: 0,
        variables: live.clone(),
    });
    live.variables[0].value = 99;
    assert_eq!(history.results[0].variables.variables[0].value, 1);
    assert_eq!(history.base_variables.variables[0].value, 1);
}

#[test]
fn results_after_keeps_later_matches_in_order() {
    let history = history_of(&[(5, 0), (1, 1), (9, 0), (5, 1), (7, 2)]);
    let later = history.get_results_after_timestamp(5);
    let times: Vec<(u64, u64)> = later.iter().map(|m| (m.time, m.winner)).collect();
    assert_eq!(times, vec![(9, 0), (7, 2)]);
    assert_eq!(history.get_results_after_timestamp(0).len(), 5);
    assert_eq!(history.get_results_after_timestamp(9).len(), 0);
    assert_eq!(history.get_results_after_timestamp(u64::MAX).len(), 0);
    // the history itself is untouched
    assert_eq!(history.games_played, 5);
    assert_eq!(history.results.len(), 5);
}

#[test]
fn results_after_shrinks_as_the_threshold_grows() {
    let history = history_of(&[(4, 0), (8, 1), (1, 0), (6, 1), (3, 0), (8, 0), (2, 1)]);
    for earlier in 0..10u64 {
        for later in earlier..10u64 {
            let wide = history.get_results_after_timestamp(earlier);
            let narrow = history.get_results_after_timestamp(later);
            assert!(narrow.len() <= wide.len());
            for m in narrow.iter() {
                assert!(wide.contains(m));
            }
            let again: Vec<GameMatch> = wide.into_iter().filter(|m| m.time > later).collect();
            assert_eq!(again, narrow);
        }
    }
}

#[test]
fn distribution_counts_wins_in_order_of_first_win() {
    let history = history_of(&[(1, 2), (2, 0), (3, 2), (4, 2), (5, 0), (6, 7)]);
    let distribution = history.get_result_distribution().unwrap();
    assert_eq!(
        distribution,
        Distribution {
            shares: vec![
                TeamShare { team: 2, wins: 3 },
                TeamShare { team: 0, wins: 2 },
                TeamShare { team: 7, wins: 1 },
            ],
            total: 6,
        }
    );
}

#[test]
fn distribution_leaves_out_teams_without_a_win() {
    let history = history_of(&[(1, 1), (2, 1)]);
    let distribution = history.get_result_distribution().unwrap();
    assert_eq!(distribution.shares, vec![TeamShare { team: 1, wins: 2 }]);
    assert_eq!(distribution.total, 2);
    assert_eq!(find_share(&distribution.shares, 1), Some(0));
    assert_eq!(find_share(&distribution.shares, 0), None);
}

#[test]
fn distribution_sums_to_one() {
    let mut seed: u64 = 7;
    for round in 1..40u64 {
        let mut records: Vec<GameMatch> = Vec::new();
        for time in 0..round {
            seed = seed.wrapping_mul(6364136223846793005).wrapping_add(1442695040888963407);
            records.push(record(time, (seed >> 40) % 5, &[]));
        }
        let distribution = get_result_distribution_from_vec(&records).unwrap();
        assert_eq!(distribution.total, round);
        let wins: u64 = distribution.shares.iter().map(|s| s.wins).sum();
        assert_eq!(wins, distribution.total);
        let sum: f64 = distribution
            .shares
            .iter()
            .map(|s| s.wins as f64 / distribution.total as f64)
            .sum();
        assert!((sum - 1.0).abs() < 1e-9);
        for share in distribution.shares.iter() {
            assert!(share.wins >= 1);
            let counted = records.iter().filter(|m| m.winner == share.team).count() as u64;
            assert_eq!(share.wins, counted);
        }
    }
}

#[test]
fn distribution_is_the_same_when_asked_twice() {
    let history = history_of(&[(1, 0), (2, 1), (3, 1), (4, 0), (5, 1)]);
    let first = history.get_result_distribution().unwrap();
    let second = history.get_result_distribution().unwrap();
    assert_eq!(first, second);
    let records = history.get_results_after_timestamp(0);
    assert_eq!(
        get_result_distribution_from_vec(&records),
        get_result_distribution_from_vec(&records)
    );
    assert_eq!(get_result_distribution_from_vec(&records).unwrap(), first);
}

#[test]
fn distribution_of_no_match_fails() {
    let history = GameMatches::new(2, variables(&[("x", 1)]));
    assert_eq!(
        history.get_result_distribution(),
        Err(BalanceError::EmptyHistory)
    );
    assert_eq!(
        get_result_distribution_from_vec(&Vec::new()),
        Err(BalanceError::EmptyHistory)
    );
}

#[test]
fn distribution_after_timestamp_counts_later_matches_only() {
    let history = history_of(&[(1, 0), (2, 1), (3, 1), (4, 0), (5, 1)]);
    let distribution = history.get_result_distribution_after_timestamp(2).unwrap();
    assert_eq!(
        distribution,
        Distribution {
            shares: vec![
                TeamShare { team: 1, wins: 2 },
                TeamShare { team: 0, wins: 1 },
            ],
            total: 3,
        }
    );
    assert_eq!(
        history.get_result_distribution_after_timestamp(5),
        Err(BalanceError::EmptyHistory)
    );
}

#[test]
fn variables_are_found_by_name() {
    let set = variables(&[("x", 1), ("y", -2), ("x", 3)]);
    assert_eq!(set.get(&"x".to_string()), Some(1));
    assert_eq!(set.get(&"y".to_string()), Some(-2));
    assert_eq!(set.get(&"z".to_string()), None);
    assert_eq!(set.get(&"".to_string()), None);
    assert_eq!(GameVariables::default().get(&"x".to_string()), None);
}

#[test]
fn clones_are_equal() {
    let set = variables(&[("x", 1), ("y", -2)]);
    assert_eq!(set.clone(), set);
    let m = record(3, 1, &[("x", 1), ("y", -2)]);
    assert_eq!(m.clone(), m);
    let v = Variable {
        name: "attempts".to_string(),
        value: 10_000_000,
    };
    assert_eq!(v.clone(), v);
}

#[test]
fn limits_are_checked() {
    assert!(variables(&[("x", VALUE_LIMIT), ("y", -VALUE_LIMIT)]).is_within_limit());
    assert!(!variables(&[("x", 0), ("y", VALUE_LIMIT + 1)]).is_within_limit());
    assert!(!variables(&[("x", -VALUE_LIMIT - 1)]).is_within_limit());
    assert!(variables(&[]).is_within_limit());

    let mut history = GameMatches::new(2, variables(&[("x", VALUE_LIMIT)]));
    assert!(history.is_within_limits());
    history.report_result(record(1, 0, &[("x", -VALUE_LIMIT)]));
    assert!(history.is_within_limits());
    history.report_result(record(2, 0, &[("x", 1), ("y", i64::MIN)]));
    assert!(!history.is_within_limits());

    let history = GameMatches::new(2, variables(&[("x", VALUE_LIMIT + 1)]));
    assert!(!history.is_within_limits());

    let mut history = GameMatches::new(2, variables(&[]));
    let batch: Vec<GameMatch> = (0..SAMPLE_LIMIT as u64).map(|t| record(t, 0, &[])).collect();
    history.report_results(batch);
    assert!(history.is_within_limits());
    history.report_result(record(0, 1, &[]));
    assert!(!history.is_within_limits());
}
