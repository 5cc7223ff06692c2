//! The balancing pass: from the spread of wins and the correlations to an
//! adjusted configuration.

use crate::correlation::{
    is_correlation_row, is_correlation_table, samples, some_lacks_variance, TeamCorrelation,
    VariableCorrelation,
};
use crate::distribution::{
    find_share, lemma_winners, lemma_wins_bound, shares_of, winners, wins, Distribution,
};
use crate::error::BalanceError;
use crate::game::{GameMatches, GameVariables, MatchView, Variable};
use crate::math::{coefficient, SAMPLE_LIMIT, SCALE, VALUE_LIMIT};
use vstd::prelude::*;

verus! {

/// How far `team` is below its target share of the wins, times the number of
/// winners and the number of matches. The target is the same share for every
/// winner, so the deficit itself is one over the number of winners, less the
/// team's wins over the number of matches.
pub open spec fn deficit_part(records: Seq<MatchView>, team: u64) -> int {
    records.len() - winners(records).len() * wins(records, team)
}

/// The sum, over the first `teams` teams, of a team's `deficit_part` times
/// the coefficient of the variable `name` for this team.
pub open spec fn weighted_deficits(records: Seq<MatchView>, name: Seq<char>, teams: nat) -> int
    decreases teams,
{
    if teams == 0 {
        0
    } else {
        let team = (teams - 1) as u64;
        weighted_deficits(records, name, (teams - 1) as nat) + deficit_part(records, team)
            * coefficient(samples(records, name, team))
    }
}

/// `a` divided by the positive number `b`, rounded toward zero.
pub open spec fn quotient_toward_zero(a: int, b: int) -> int {
    if a >= 0 {
        a / b
    } else {
        -((-a) / b)
    }
}

/// The change that balancing makes to the variable `name`, in millionths:
/// the sum over the teams from zero through `num_teams` of the team's deficit
/// times the variable's coefficient for it, rounded toward zero.
pub open spec fn adjustment(records: Seq<MatchView>, name: Seq<char>, num_teams: u32) -> int {
    quotient_toward_zero(
        weighted_deficits(records, name, (num_teams + 1) as nat),
        (winners(records).len() * records.len()) as int,
    )
}

/// Whether one of the teams from zero through `num_teams` won no match.
pub open spec fn some_team_never_won(records: Seq<MatchView>, num_teams: u32) -> bool {
    exists|t: int| 0 <= t <= num_teams && #[trigger] wins(records, t as u64) == 0
}

/// The base configuration with each value changed by its adjustment.
pub open spec fn is_balanced(
    balanced: Seq<(Seq<char>, i64)>,
    records: Seq<MatchView>,
    entries: Seq<(Seq<char>, i64)>,
    num_teams: u32,
) -> bool {
    &&& balanced.len() == entries.len()
    &&& forall|i: int|
        0 <= i < entries.len() ==> {
            &&& (#[trigger] balanced[i]).0 == entries[i].0
            &&& balanced[i].1 == entries[i].1 + adjustment(records, entries[i].0, num_teams)
        }
}

/// The largest magnitude of one team's part in a weighted sum.
spec fn part_limit(records: Seq<MatchView>) -> int {
    (winners(records).len() * records.len()) * SCALE
}

impl GameMatches {
    /// The weighted deficits of one row of coefficients, summed over all its
    /// teams. There is no sum where one of the teams never won.
    fn weigh_row(&self, distribution: &Distribution, entry: &VariableCorrelation) -> (r: Option<
        i128,
    >)
        requires
            0 < self.records().len() <= SAMPLE_LIMIT,
            distribution.shares@ == shares_of(self.records()),
            distribution.total == self.records().len(),
            is_correlation_row(entry.teams@, self.records(), entry.variable@, self.num_teams),
        ensures
            match r {
                Some(sum) => {
                    &&& !some_team_never_won(self.records(), self.num_teams)
                    &&& sum == weighted_deficits(
                        self.records(),
                        entry.variable@,
                        (self.num_teams + 1) as nat,
                    )
                    &&& -((self.num_teams + 1) * part_limit(self.records())) <= sum <= (
                    self.num_teams + 1) * part_limit(self.records())
                },
                None => some_team_never_won(self.records(), self.num_teams),
            },
    {
        let ghost records = self.records();
        let ghost name = entry.variable@;
        let ghost limit = part_limit(records);
        let winner_count: i128 = distribution.shares.len() as i128;
        let total: i128 = distribution.total as i128;
        proof {
            lemma_winners(records);
            assert(0 < winner_count * total <= 1_000_000_000_000) by (nonlinear_arith)
                requires
                    0 < winner_count <= 1_000_000,
                    0 < total <= 1_000_000,
            ;
        }
        let mut sum: i128 = 0;
        let mut t: usize = 0;
        while t < entry.teams.len()
            invariant
                t <= entry.teams@.len(),
                entry.teams@.len() == self.num_teams + 1,
                records == self.records(),
                name == entry.variable@,
                limit == part_limit(records),
                limit == (winner_count * total) * SCALE,
                0 < winner_count * total <= 1_000_000_000_000,
                0 < total <= SAMPLE_LIMIT,
                0 < winner_count <= SAMPLE_LIMIT,
                winner_count == winners(records).len(),
                total == records.len(),
                distribution.shares@ == shares_of(records),
                is_correlation_row(entry.teams@, records, name, self.num_teams),
                sum == weighted_deficits(records, name, t as nat),
                -(t * limit) <= sum <= t * limit,
                forall|u: int| 0 <= u < t ==> #[trigger] wins(records, u as u64) > 0,
            decreases entry.teams.len() - t,
        {
            let cell: TeamCorrelation = entry.teams[t];
            assert(cell.team == t);
            proof {
                lemma_winners(records);
                lemma_wins_bound(records, cell.team as u64);
            }
            match find_share(&distribution.shares, cell.team as u64) {
                None => {
                    proof {
                        if winners(records).contains(cell.team as u64) {
                            let k = choose|k: int|
                                0 <= k < winners(records).len() && winners(records)[k]
                                    == cell.team as u64;
                            assert(distribution.shares@[k].team == cell.team as u64);
                        }
                        assert(wins(records, t as u64) == 0);
                    }
                    return None;
                },
                Some(j) => {
                    let won: i128 = distribution.shares[j].wins as i128;
                    assert(won == wins(records, cell.team as u64)) by {
                        assert(winners(records).contains(winners(records)[j as int]));
                        lemma_wins_bound(records, winners(records)[j as int]);
                    }
                    assert(won > 0) by {
                        assert(winners(records).contains(winners(records)[j as int]));
                    }
                    proof {
                        assert(0 <= winner_count * won <= winner_count * total)
                            by (nonlinear_arith)
                            requires
                                0 <= won <= total,
                                0 < winner_count,
                        ;
                        assert(total <= winner_count * total) by (nonlinear_arith)
                            requires
                                0 < total,
                                1 <= winner_count,
                        ;
                    }
                    let part: i128 = total - winner_count * won;
                    proof {
                        assert(-limit <= part * cell.coefficient <= limit) by (nonlinear_arith)
                            requires
                                -(winner_count * total) <= part <= winner_count * total,
                                -SCALE <= cell.coefficient <= SCALE,
                                limit == (winner_count * total) * SCALE,
                        ;
                        assert(limit <= 1_000_000_000_000_000_000);
                        assert((t + 1) * limit == t * limit + limit) by (nonlinear_arith);
                        assert(t * limit <= 4_294_967_296 * 1_000_000_000_000_000_000)
                            by (nonlinear_arith)
                            requires
                                0 <= t <= 4_294_967_296,
                                0 <= limit <= 1_000_000_000_000_000_000,
                        ;
                    }
                    sum = sum + part * (cell.coefficient as i128);
                },
            }
            t = t + 1;
        }
        proof {
            assert forall|u: int| 0 <= u <= self.num_teams implies #[trigger] wins(
                records,
                u as u64,
            ) != 0 by {}
        }
        Some(sum)
    }

    /// Adjusts the base configuration to make the game fairer. Each variable
    /// is changed by the sum, over the teams from zero through `num_teams`,
    /// of the team's deficit times the variable's coefficient for this team:
    /// a variable that goes along with the wins of a team that wins too often
    /// is lowered. The deficit of a team is the share of wins that it would
    /// have if all winners won equally often, less the share that it has.
    ///
    /// Fails with `EmptyHistory` where no match was reported; else with
    /// `DegenerateInput` where the readings of a variable of the base
    /// configuration do not vary; else with `MissingTeamDeficit` where the
    /// base configuration has a variable and one of the teams never won.
    pub fn balance(&self) -> (r: Result<GameVariables, BalanceError>)
        requires
            self.within_limits(),
        ensures
            match r {
                Ok(balanced) => {
                    &&& self.records().len() > 0
                    &&& !some_lacks_variance(self.records(), self.base_variables@)
                    &&& self.base_variables@.len() == 0 || !some_team_never_won(
                        self.records(),
                        self.num_teams,
                    )
                    &&& is_balanced(
                        balanced@,
                        self.records(),
                        self.base_variables@,
                        self.num_teams,
                    )
                },
                Err(BalanceError::EmptyHistory) => self.records().len() == 0,
                Err(BalanceError::DegenerateInput) => {
                    &&& self.records().len() > 0
                    &&& some_lacks_variance(self.records(), self.base_variables@)
                },
                Err(BalanceError::MissingTeamDeficit) => {
                    &&& self.records().len() > 0
                    &&& !some_lacks_variance(self.records(), self.base_variables@)
                    &&& self.base_variables@.len() > 0
                    &&& some_team_never_won(self.records(), self.num_teams)
                },
            },
    {
        let distribution: Distribution = match self.get_result_distribution() {
            Ok(d) => d,
            Err(e) => {
                return Err(e);
            },
        };
        let table: Vec<VariableCorrelation> = match self.calculate_variable_correlation() {
            Ok(t) => t,
            Err(e) => {
                return Err(e);
            },
        };
        let ghost records = self.records();
        let ghost entries = self.base_variables@;
        let ghost limit = part_limit(records);
        let winner_count: i128 = distribution.shares.len() as i128;
        let total: i128 = distribution.total as i128;
        proof {
            lemma_winners(records);
            assert(0 < winner_count * total <= 1_000_000_000_000) by (nonlinear_arith)
                requires
                    0 < winner_count <= 1_000_000,
                    0 < total <= 1_000_000,
            ;
        }
        let divisor: i128 = winner_count * total;
        let mut balanced: Vec<Variable> = Vec::new();
        let mut i: usize = 0;
        while i < table.len()
            invariant
                i <= table@.len(),
                self.within_limits(),
                records == self.records(),
                entries == self.base_variables@,
                0 < records.len() <= SAMPLE_LIMIT,
                distribution.shares@ == shares_of(records),
                distribution.total == records.len(),
                is_correlation_table(table@, records, entries, self.num_teams),
                divisor == winners(records).len() * records.len(),
                0 < divisor <= 1_000_000_000_000,
                limit == divisor * SCALE,
                limit == part_limit(records),
                !some_lacks_variance(records, entries),
                balanced@.len() == i,
                i > 0 ==> !some_team_never_won(records, self.num_teams),
                forall|j: int|
                    0 <= j < i ==> {
                        &&& (#[trigger] balanced@[j]).name@ == entries[j].0
                        &&& balanced@[j].value == entries[j].1 + adjustment(
                            records,
                            entries[j].0,
                            self.num_teams,
                        )
                    },
            decreases table.len() - i,
        {
            assert(table@[i as int].variable@ == entries[i as int].0);
            let sum: i128 = match self.weigh_row(&distribution, &table[i]) {
                Some(s) => s,
                None => {
                    return Err(BalanceError::MissingTeamDeficit);
                },
            };
            let base: &Variable = &self.base_variables.variables[i];
            assert(base@ == entries[i as int]);
            let ghost teams = self.num_teams + 1;
            proof {
                assert(teams * limit <= 4_294_967_296 * 1_000_000_000_000_000_000)
                    by (nonlinear_arith)
                    requires
                        0 <= teams <= 4_294_967_296,
                        0 <= limit <= 1_000_000_000_000_000_000,
                ;
            }
            let change: i128 = if sum >= 0 {
                sum / divisor
            } else {
                -((-sum) / divisor)
            };
            proof {
                assert(-(teams * SCALE) <= change <= teams * SCALE) by (nonlinear_arith)
                    requires
                        -(teams * (divisor * SCALE)) <= sum <= teams * (divisor * SCALE),
                        divisor > 0,
                        teams >= 0,
                        change == quotient_toward_zero(sum as int, divisor as int),
                ;
                assert(teams * SCALE <= 4_294_967_296 * 1_000_000) by (nonlinear_arith)
                    requires
                        0 <= teams <= 4_294_967_296,
                        SCALE == 1_000_000,
                ;
                assert(-VALUE_LIMIT <= entries[i as int].1 <= VALUE_LIMIT);
            }
            let value: i64 = base.value + change as i64;
            balanced.push(Variable { name: base.name.clone(), value });
            i = i + 1;
        }
        let result = GameVariables { variables: balanced };
        proof {
            assert(result@.len() == entries.len());
            assert forall|j: int| 0 <= j < entries.len() implies {
                &&& (#[trigger] result@[j]).0 == entries[j].0
                &&& result@[j].1 == entries[j].1 + adjustment(
                    records,
                    entries[j].0,
                    self.num_teams,
                )
            } by {
                assert(result@[j] == balanced@[j]@);
            }
        }
        Ok(result)
    }
}

} // verus!
