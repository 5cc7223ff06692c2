use hypervariate_core::correlation::{TeamCorrelation, VariableCorrelation};
use hypervariate_core::error::BalanceError;
use hypervariate_core::game::{GameMatch, GameMatches, GameVariables, Variable};

const ONE: i64 = 1_000_000;

fn variables(entries: &[(&str, i64)]) -> GameVariables {
    GameVariables {
        variables: entries
            .iter()
            .map(|(name, value)| Variable {
                name: name.to_string(),
                value: *value,
            })
            .collect(),
    }
}

fn record(time: u64, winner: u64, entries: &[(&str, i64)]) -> GameMatch {
    GameMatch {
        time,
        winner,
        variables: variables(entries),
    }
}

// One hundred matches with x from 1 to 100; team zero wins where x is above 50.
fn threshold_history() -> GameMatches {
    let mut history = GameMatches::new(2, variables(&[("x", 50 * ONE)]));
    for i in 1..=100u64 {
        let winner = if i > 50 { 0 } else { 1 };
        history.report_result(record(i, winner, &[("x", i as i64 * ONE)]));
    }
    history
}

// Team zero won 80 of 100 matches and team one 20; x is high where team zero wins.
fn lopsided_history(num_teams: u32) -> GameMatches {
    let mut history = GameMatches::new(num_teams, variables(&[("x", 50 * ONE)]));
    for i in 0..100u64 {
        let step = (i % 2) as i64 * 10;
        if i % 5 == 4 {
            history.report_result(record(i, 1, &[("x", (30 + step) * ONE)]));
        } else {
            history.report_result(record(i, 0, &[("x", (60 + step) * ONE)]));
        }
    }
    history
}

fn small_history(num_teams: u32) -> GameMatches {
    let mut history = GameMatches::new(num_teams, variables(&[("x", 10 * ONE), ("y", -2 * ONE)]));
    history.report_results(vec![
        record(1, 0, &[("x", ONE), ("y", 5 * ONE)]),
        record(2, 0, &[("x", 2 * ONE), ("y", 3 * ONE)]),
        record(3, 0, &[("x", 3 * ONE), ("y", 4 * ONE)]),
        record(4, 1, &[("x", 4 * ONE), ("y", ONE)]),
    ]);
    history
}

#[test]
fn correlation_with_a_threshold_on_the_variable() {
    let history = threshold_history();
    let for_zero = history
        .calculate_variable_correlation_single_team("x".to_string(), 0)
        .unwrap();
    let for_one = history
        .calculate_variable_correlation_single_team("x".to_string(), 1)
        .unwrap();
    // the exact coefficient of an even spread against its upper half is the
    // square root of three quarters, a little more for whole steps
    assert_eq!(for_zero, 866_068);
    assert_eq!(for_one, -866_068);
    assert!(for_zero as f64 / 1e6 > 0.85);
    assert!((for_one as f64 / 1e6) < -0.85);
}

#[test]
fn correlation_for_a_team_that_never_wins_is_zero() {
    let history = threshold_history();
    assert_eq!(
        history.calculate_variable_correlation_single_team("x".to_string(), 2),
        Ok(0)
    );
}

#[test]
fn correlation_of_a_constant_variable_fails() {
    let mut history = GameMatches::new(2, variables(&[("x", ONE)]));
    for i in 0..10u64 {
        history.report_result(record(i, i % 2, &[("x", 7 * ONE), ("y", i as i64)]));
    }
    for team in 0..4u32 {
        assert_eq!(
            history.calculate_variable_correlation_single_team("x".to_string(), team),
            Err(BalanceError::DegenerateInput)
        );
        assert!(history
            .calculate_variable_correlation_single_team("y".to_string(), team)
            .is_ok());
    }
    assert_eq!(
        history.calculate_variable_correlation_single_variable("x".to_string()),
        Err(BalanceError::DegenerateInput)
    );
    assert_eq!(
        history.calculate_variable_correlation(),
        Err(BalanceError::DegenerateInput)
    );
    assert_eq!(history.balance(), Err(BalanceError::DegenerateInput));
}

#[test]
fn correlation_of_a_variable_with_one_reading_fails() {
    let mut history = GameMatches::new(1, variables(&[("x", ONE)]));
    history.report_result(record(1, 0, &[("x", 3 * ONE)]));
    history.report_result(record(2, 1, &[("y", 4 * ONE)]));
    assert_eq!(
        history.calculate_variable_correlation_single_team("x".to_string(), 0),
        Err(BalanceError::DegenerateInput)
    );
}

#[test]
fn correlation_of_an_unrecorded_variable_fails() {
    let history = threshold_history();
    assert_eq!(
        history.calculate_variable_correlation_single_team("speed".to_string(), 0),
        Err(BalanceError::DegenerateInput)
    );
    let empty = GameMatches::new(2, variables(&[("x", ONE)]));
    assert_eq!(
        empty.calculate_variable_correlation_single_team("x".to_string(), 0),
        Err(BalanceError::DegenerateInput)
    );
}

#[test]
fn correlation_skips_matches_without_the_variable() {
    let mut history = GameMatches::new(1, variables(&[("x", ONE)]));
    history.report_results(vec![
        record(1, 0, &[("x", 0)]),
        record(2, 1, &[("y", 1_000)]),
        record(3, 0, &[("x", 10)]),
        record(4, 0, &[]),
        record(5, 1, &[("y", 5), ("x", 20)]),
    ]);
    // the samples are (0, 0), (10, 0), (20, 1) for team one
    assert_eq!(
        history.calculate_variable_correlation_single_team("x".to_string(), 1),
        Ok(866_025)
    );
    assert_eq!(
        history.calculate_variable_correlation_single_team("x".to_string(), 0),
        Ok(-866_025)
    );
}

#[test]
fn correlation_of_two_teams_is_opposite() {
    let mut seed: u64 = 99;
    let mut history = GameMatches::new(9, variables(&[("x", ONE)]));
    for time in 0..60u64 {
        seed = seed.wrapping_mul(6364136223846793005).wrapping_add(1442695040888963407);
        let winner = if (seed >> 50) % 3 == 0 { 3 } else { 8 };
        seed = seed.wrapping_mul(6364136223846793005).wrapping_add(1442695040888963407);
        let x = ((seed >> 33) % 200_000_001) as i64 - 100_000_000;
        history.report_result(record(time, winner, &[("x", x)]));
        if time >= 1 {
            let a = history.calculate_variable_correlation_single_team("x".to_string(), 3);
            let b = history.calculate_variable_correlation_single_team("x".to_string(), 8);
            assert_eq!(a.map(|r| -r), b);
        }
    }
}

#[test]
fn correlation_for_a_variable_covers_teams_zero_through_num_teams() {
    let history = small_history(1);
    assert_eq!(
        history.calculate_variable_correlation_single_variable("x".to_string()),
        Ok(vec![
            TeamCorrelation {
                team: 0,
                coefficient: -774_596
            },
            TeamCorrelation {
                team: 1,
                coefficient: 774_596
            },
        ])
    );
    let history = small_history(3);
    let row = history
        .calculate_variable_correlation_single_variable("y".to_string())
        .unwrap();
    assert_eq!(
        row,
        vec![
            TeamCorrelation {
                team: 0,
                coefficient: 878_310
            },
            TeamCorrelation {
                team: 1,
                coefficient: -878_310
            },
            TeamCorrelation {
                team: 2,
                coefficient: 0
            },
            TeamCorrelation {
                team: 3,
                coefficient: 0
            },
        ]
    );
    let history = small_history(0);
    assert_eq!(
        history
            .calculate_variable_correlation_single_variable("x".to_string())
            .unwrap()
            .len(),
        1
    );
}

#[test]
fn correlation_table_has_a_row_for_each_base_variable() {
    let history = small_history(1);
    assert_eq!(
        history.calculate_variable_correlation(),
        Ok(vec![
            VariableCorrelation {
                variable: "x".to_string(),
                teams: vec![
                    TeamCorrelation {
                        team: 0,
                        coefficient: -774_596
                    },
                    TeamCorrelation {
                        team: 1,
                        coefficient: 774_596
                    },
                ],
            },
            VariableCorrelation {
                variable: "y".to_string(),
                teams: vec![
                    TeamCorrelation {
                        team: 0,
                        coefficient: 878_310
                    },
                    TeamCorrelation {
                        team: 1,
                        coefficient: -878_310
                    },
                ],
            },
        ])
    );
}

#[test]
fn correlation_table_of_no_base_variable_is_empty() {
    let mut history = GameMatches::new(1, variables(&[]));
    history.report_result(record(1, 0, &[("x", 1)]));
    assert_eq!(history.calculate_variable_correlation(), Ok(vec![]));
}

#[test]
fn correlation_table_fails_on_the_first_variable_without_variance() {
    let mut history = GameMatches::new(1, variables(&[("x", ONE), ("z", ONE)]));
    history.report_results(vec![
        record(1, 0, &[("x", 1), ("z", 4)]),
        record(2, 1, &[("x", 2), ("z", 4)]),
    ]);
    assert_eq!(
        history.calculate_variable_correlation(),
        Err(BalanceError::DegenerateInput)
    );
}

#[test]
fn balance_lowers_a_variable_that_favours_the_stronger_team() {
    let history = lopsided_history(1);
    let distribution = history.get_result_distribution().unwrap();
    assert_eq!(distribution.total, 100);
    assert_eq!(distribution.shares[0].wins, 80);
    assert_eq!(distribution.shares[1].wins, 20);
    assert_eq!(
        history.calculate_variable_correlation_single_team("x".to_string(), 0),
        Ok(923_076)
    );
    let balanced = history.balance().unwrap();
    assert_eq!(balanced.variables.len(), 1);
    assert_eq!(balanced.variables[0].name, "x");
    assert!(balanced.variables[0].value < 50 * ONE);
    // deficits of -0.3 and 0.3, coefficients of 0.923076 and -0.923076
    assert_eq!(balanced.variables[0].value, 49_446_155);
    // the history and its base configuration are as before
    assert_eq!(history.base_variables, variables(&[("x", 50 * ONE)]));
    assert_eq!(history.games_played, 100);
}

#[test]
fn balance_raises_a_variable_that_favours_the_weaker_team() {
    let history = small_history(1);
    let balanced = history.balance().unwrap();
    assert_eq!(
        balanced,
        variables(&[("x", 10_387_298), ("y", -2_439_155)])
    );
}

#[test]
fn balance_with_three_teams() {
    let mut history = GameMatches::new(2, variables(&[("x", 0)]));
    let rounds: [(u64, i64); 8] = [
        (0, 1),
        (1, 5),
        (2, 9),
        (0, 2),
        (0, 3),
        (1, 6),
        (2, 7),
        (0, 1),
    ];
    for (i, (winner, x)) in rounds.iter().enumerate() {
        history.report_result(record(i as u64, *winner, &[("x", x * ONE)]));
    }
    assert_eq!(
        history.calculate_variable_correlation_single_variable("x".to_string()),
        Ok(vec![
            TeamCorrelation {
                team: 0,
                coefficient: -901_669
            },
            TeamCorrelation {
                team: 1,
                coefficient: 260_289
            },
            TeamCorrelation {
                team: 2,
                coefficient: 780_868
            },
        ])
    );
    assert_eq!(history.balance(), Ok(variables(&[("x", 237_041)])));
}

#[test]
fn balance_of_an_empty_history_fails() {
    let history = GameMatches::new(2, variables(&[("x", ONE)]));
    assert_eq!(history.balance(), Err(BalanceError::EmptyHistory));
    let mut history = GameMatches::new(2, variables(&[]));
    history.report_results(vec![]);
    assert_eq!(history.balance(), Err(BalanceError::EmptyHistory));
}

#[test]
fn balance_fails_where_a_team_has_no_share() {
    // teams zero through two are asked for; team two never won
    let history = lopsided_history(2);
    assert_eq!(history.balance(), Err(BalanceError::MissingTeamDeficit));
    let history = small_history(5);
    assert_eq!(history.balance(), Err(BalanceError::MissingTeamDeficit));
}

#[test]
fn balance_reports_missing_variance_before_a_missing_team() {
    let mut history = GameMatches::new(3, variables(&[("x", ONE)]));
    history.report_results(vec![
        record(1, 0, &[("x", 5)]),
        record(2, 0, &[("x", 5)]),
    ]);
    assert_eq!(history.balance(), Err(BalanceError::DegenerateInput));
}

#[test]
fn balance_without_base_variables_returns_none() {
    let mut history = GameMatches::new(7, variables(&[]));
    history.report_result(record(1, 0, &[("x", 5)]));
    assert_eq!(history.balance(), Ok(variables(&[])));
}

#[test]
fn balance_is_the_same_when_asked_twice() {
    let history = small_history(1);
    assert_eq!(history.balance(), history.balance());
}
