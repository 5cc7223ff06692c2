use hypervariate_core::game::{GameMatch, GameMatches, GameVariables, Variable};
use hypervariate_core::{wrap, State};
use rand::Rng;

struct RangeGuessingGame {
    range_upper: u32,
    attempts: u32,
}

impl RangeGuessingGame {
    pub fn new(range_upper: u32, attempts: u32) -> Self {
        Self {
            range_upper,
            attempts,
        }
    }

    // The variables in millionths, as the library holds them.
    pub fn get_variables(&self) -> Vec<Variable> {
        vec![
            Variable {
                name: "attempts".to_owned(),
                value: self.attempts as i64 * 1_000_000,
            },
            Variable {
                name: "range_upper".to_owned(),
                value: self.range_upper as i64 * 1_000_000,
            },
        ]
    }

    // Simulates playing a higher-lower game with a range and number of attempts.
    // A win for the guesser is when they guess the number correctly, and a win for the chooser is when the guesser runs out of attempts.
    pub fn simulate(&mut self) -> GameMatch {
        let mut rng = rand::thread_rng();
        let number = rng.gen_range(0..self.range_upper);
        let mut guess = self.range_upper / 2;

        for _ in 0..self.attempts {
            match guess.cmp(&number) {
                std::cmp::Ordering::Less => guess += (self.range_upper - guess) / 2,
                std::cmp::Ordering::Greater => guess /= 2,
                std::cmp::Ordering::Equal => {
                    return GameMatch {
                        winner: 0,
                        variables: GameVariables {
                            variables: self.get_variables(),
                        },
                        time: 0,
                    }
                }
            }
        }

        GameMatch {
            winner: 1,
            variables: GameVariables {
                variables: self.get_variables(),
            },
            time: 0,
        }
    }
}

#[test]
fn test_guessing_game() {
    let mut game = RangeGuessingGame::new(100, 10);
    let result = game.simulate();
    assert!(result.winner == 0 || result.winner == 1);
}

#[test]
fn test_state() {
    let state = State {
        variables: GameVariables::default(),
        matches: GameMatches::default(),
    };
    assert_eq!(state.variables.variables.len(), 0);
}

#[test]
fn test_balance() {
    let mut game = RangeGuessingGame::new(100, 10);
    let mut game2 = RangeGuessingGame::new(10000, 7);
    // Teams are numbered from zero through `num_teams`: the guesser is team
    // zero and the chooser team one.
    let mut matches = GameMatches::new(
        1,
        GameVariables {
            variables: game.get_variables(),
        },
    );

    let mut results = vec![];

    for _ in 0..=100 {
        results.push(game.simulate());
        results.push(game2.simulate());
    }

    matches.report_results(results);
    assert!(matches.is_within_limits());
    let balanced = matches.balance().unwrap();
    println!("{:?}", balanced);
    assert_ne!(
        GameVariables {
            variables: game.get_variables(),
        },
        balanced
    );
}

#[test]
fn test_state_holds_what_it_was_given() {
    let base = GameVariables {
        variables: vec![Variable {
            name: "speed".to_owned(),
            value: 2_500_000,
        }],
    };
    let state = State {
        variables: base.clone(),
        matches: GameMatches::new(3, base.clone()),
    };
    assert_eq!(state.variables, base);
    assert_eq!(state.matches.num_teams, 3);
    assert_eq!(state.matches.games_played, 0);
    assert_eq!(state.matches.base_variables, base);
}

#[test]
fn test_wrap_shares_one_value() {
    let shared = wrap(41u32);
    let other = shared.clone();
    *other.lock().unwrap() += 1;
    assert_eq!(*shared.lock().unwrap(), 42);
}
