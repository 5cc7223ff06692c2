//! How strongly each variable goes along with each team's wins.

use crate::error::BalanceError;
use crate::game::{value_of, values_within_limit, GameMatches, MatchView};
use crate::math::{
    calculate_correlation_coefficient, coefficient, within_limits, SCALE, VALUE_LIMIT,
};
use vstd::prelude::*;

verus! {

/// A team and the coefficient of a variable's correlation with its wins, in
/// millionths.
#[derive(Debug, Clone, Copy, PartialEq, Eq, Structural)]
pub struct TeamCorrelation {
    pub team: u32,
    pub coefficient: i64,
}

/// A variable and its coefficients, one for each team.
#[derive(Debug, PartialEq, Eq)]
pub struct VariableCorrelation {
    pub variable: String,
    pub teams: Vec<TeamCorrelation>,
}

/// The values of the variable `name` in those of `records` that hold it, in
/// their order.
pub open spec fn readings(records: Seq<MatchView>, name: Seq<char>) -> Seq<i64>
    decreases records.len(),
{
    if records.len() == 0 {
        Seq::empty()
    } else {
        let earlier = readings(records.drop_last(), name);
        match value_of(records.last().variables, name) {
            Some(value) => earlier.push(value),
            None => earlier,
        }
    }
}

/// One if the team won, zero if it did not.
pub open spec fn indicator(won: bool) -> i64 {
    if won {
        1
    } else {
        0
    }
}

/// For each of `records` that holds the variable `name`: its value there,
/// paired with whether `team` won that match.
pub open spec fn samples(records: Seq<MatchView>, name: Seq<char>, team: u64) -> Seq<(i64, i64)>
    decreases records.len(),
{
    if records.len() == 0 {
        Seq::empty()
    } else {
        let earlier = samples(records.drop_last(), name, team);
        match value_of(records.last().variables, name) {
            Some(value) => earlier.push((value, indicator(records.last().winner == team))),
            None => earlier,
        }
    }
}

/// No value at all, or one value throughout: nothing to correlate with.
pub open spec fn lacks_variance(values: Seq<i64>) -> bool {
    values.len() == 0 || forall|i: int| 0 <= i < values.len() ==> #[trigger] values[i] == values[0]
}

/// A row of coefficients for the variable `name`: one entry for each team
/// from zero through `num_teams`, in this order.
pub open spec fn is_correlation_row(
    row: Seq<TeamCorrelation>,
    records: Seq<MatchView>,
    name: Seq<char>,
    num_teams: u32,
) -> bool {
    &&& row.len() == num_teams + 1
    &&& forall|t: int|
        0 <= t <= num_teams ==> {
            &&& (#[trigger] row[t]).team == t
            &&& row[t].coefficient == coefficient(samples(records, name, t as u64))
            &&& -SCALE <= row[t].coefficient <= SCALE
        }
}

/// Whether some variable of `entries` has readings that do not vary.
pub open spec fn some_lacks_variance(records: Seq<MatchView>, entries: Seq<(Seq<char>, i64)>) -> bool {
    exists|i: int|
        0 <= i < entries.len() && lacks_variance(readings(records, (#[trigger] entries[i]).0))
}

/// A table of coefficients: one row for each variable of `entries`, in their
/// order.
pub open spec fn is_correlation_table(
    table: Seq<VariableCorrelation>,
    records: Seq<MatchView>,
    entries: Seq<(Seq<char>, i64)>,
    num_teams: u32,
) -> bool {
    &&& table.len() == entries.len()
    &&& forall|i: int|
        0 <= i < entries.len() ==> {
            &&& (#[trigger] table[i]).variable@ == entries[i].0
            &&& is_correlation_row(table[i].teams@, records, entries[i].0, num_teams)
        }
}

/// The samples of a variable hold its readings, whichever team they are
/// taken for.
pub proof fn lemma_sample_values(records: Seq<MatchView>, name: Seq<char>, team: u64)
    ensures
        samples(records, name, team).len() == readings(records, name).len(),
        forall|i: int|
            0 <= i < readings(records, name).len() ==> {
                &&& (#[trigger] samples(records, name, team)[i]).0 == readings(records, name)[i]
                &&& 0 <= samples(records, name, team)[i].1 <= 1
            },
    decreases records.len(),
{
    if records.len() > 0 {
        lemma_sample_values(records.drop_last(), name, team);
    }
}

/// A value that is looked up is one of the entries' values.
pub proof fn lemma_value_of_limit(entries: Seq<(Seq<char>, i64)>, name: Seq<char>)
    requires
        values_within_limit(entries),
    ensures
        match value_of(entries, name) {
            Some(value) => -VALUE_LIMIT <= value <= VALUE_LIMIT,
            None => true,
        },
    decreases entries.len(),
{
    if entries.len() > 0 {
        assert(-VALUE_LIMIT <= entries[0].1 <= VALUE_LIMIT);
        assert forall|i: int| 0 <= i < entries.drop_first().len() implies -VALUE_LIMIT <= (
        #[trigger] entries.drop_first()[i]).1 <= VALUE_LIMIT by {
            assert(entries.drop_first()[i] == entries[i + 1]);
        }
        lemma_value_of_limit(entries.drop_first(), name);
    }
}

impl GameMatches {
    /// The coefficient, in millionths, of the correlation between the
    /// variable and the wins of `team`, over the matches that recorded the
    /// variable. There is none, and the call fails, where no match recorded
    /// the variable or all of them recorded the same value.
    pub fn calculate_variable_correlation_single_team(&self, variable: String, team: u32) -> (r:
        Result<i64, BalanceError>)
        requires
            self.within_limits(),
        ensures
            match r {
                Ok(c) => {
                    &&& !lacks_variance(readings(self.records(), variable@))
                    &&& c == coefficient(samples(self.records(), variable@, team as u64))
                    &&& -SCALE <= c <= SCALE
                },
                Err(e) => {
                    &&& e == BalanceError::DegenerateInput
                    &&& lacks_variance(readings(self.records(), variable@))
                },
            },
    {
        let ghost all = self.records();
        let mut pairs: Vec<(i64, i64)> = Vec::new();
        let mut i: usize = 0;
        assert(pairs@ =~= samples(all.take(0), variable@, team as u64));
        while i < self.results.len()
            invariant
                i <= self.results@.len(),
                all == self.records(),
                self.within_limits(),
                pairs@ == samples(all.take(i as int), variable@, team as u64),
                pairs@.len() <= i,
                forall|k: int|
                    0 <= k < pairs@.len() ==> -VALUE_LIMIT <= (#[trigger] pairs@[k]).0
                        <= VALUE_LIMIT && 0 <= pairs@[k].1 <= 1,
            decreases self.results.len() - i,
        {
            proof {
                assert(all.take(i + 1).drop_last() =~= all.take(i as int));
                assert(all.take(i + 1).last() == all[i as int]);
                assert(all[i as int].variables == self.results@[i as int].variables@);
                lemma_value_of_limit(all[i as int].variables, variable@);
            }
            match self.results[i].variables.get(&variable) {
                Some(value) => {
                    let won: i64 = if self.results[i].winner == team as u64 {
                        1
                    } else {
                        0
                    };
                    pairs.push((value, won));
                },
                None => {},
            }
            i = i + 1;
        }
        proof {
            assert(all.take(i as int) =~= all);
            lemma_sample_values(all, variable@, team as u64);
        }
        if pairs.len() == 0 {
            return Err(BalanceError::DegenerateInput);
        }
        let first: i64 = pairs[0].0;
        let mut k: usize = 1;
        let mut varies: bool = false;
        while k < pairs.len() && !varies
            invariant
                1 <= k <= pairs@.len(),
                first == pairs@[0].0,
                !varies ==> forall|j: int| 0 <= j < k ==> (#[trigger] pairs@[j]).0 == first,
                varies ==> exists|j: int| 0 <= j < pairs@.len() && (#[trigger] pairs@[j]).0 != first,
            decreases pairs.len() - k + if varies { 0int } else { 1int },
        {
            if pairs[k].0 != first {
                varies = true;
            } else {
                k = k + 1;
            }
        }
        if !varies {
            let ghost values = readings(all, variable@);
            assert forall|j: int| 0 <= j < values.len() implies #[trigger] values[j]
                == values[0] by {
                assert(pairs@[j].0 == first);
                assert(pairs@[0].0 == first);
            }
            return Err(BalanceError::DegenerateInput);
        }
        proof {
            let j = choose|j: int| 0 <= j < pairs@.len() && (#[trigger] pairs@[j]).0 != first;
            assert(readings(all, variable@)[j] != readings(all, variable@)[0]) by {
                assert(pairs@[j].0 == readings(all, variable@)[j]);
                assert(pairs@[0].0 == readings(all, variable@)[0]);
            }
        }
        Ok(calculate_correlation_coefficient(pairs))
    }
    /// The coefficients of the variable for every team from zero through
    /// `num_teams`, in this order. Fails where the variable's readings do not
    /// vary.
    pub fn calculate_variable_correlation_single_variable(&self, variable: String) -> (r: Result<
        Vec<TeamCorrelation>,
        BalanceError,
    >)
        requires
            self.within_limits(),
        ensures
            match r {
                Ok(row) => {
                    &&& !lacks_variance(readings(self.records(), variable@))
                    &&& is_correlation_row(row@, self.records(), variable@, self.num_teams)
                },
                Err(e) => {
                    &&& e == BalanceError::DegenerateInput
                    &&& lacks_variance(readings(self.records(), variable@))
                },
            },
    {
        let mut row: Vec<TeamCorrelation> = Vec::new();
        let mut next: u64 = 0;
        while next <= self.num_teams as u64
            invariant
                next <= self.num_teams + 1,
                self.within_limits(),
                row@.len() == next,
                next > 0 ==> !lacks_variance(readings(self.records(), variable@)),
                forall|t: int|
                    0 <= t < next ==> {
                        &&& (#[trigger] row@[t]).team == t
                        &&& row@[t].coefficient == coefficient(
                            samples(self.records(), variable@, t as u64),
                        )
                        &&& -SCALE <= row@[t].coefficient <= SCALE
                    },
            decreases self.num_teams + 1 - next,
        {
            let team: u32 = next as u32;
            match self.calculate_variable_correlation_single_team(variable.clone(), team) {
                Ok(c) => {
                    row.push(TeamCorrelation { team, coefficient: c });
                },
                Err(e) => {
                    return Err(e);
                },
            }
            next = next + 1;
        }
        Ok(row)
    }

    /// The coefficients of every variable of the base configuration, for
    /// every team. Fails where the readings of one of these variables do not
    /// vary.
    pub fn calculate_variable_correlation(&self) -> (r: Result<
        Vec<VariableCorrelation>,
        BalanceError,
    >)
        requires
            self.within_limits(),
        ensures
            match r {
                Ok(table) => {
                    &&& !some_lacks_variance(self.records(), self.base_variables@)
                    &&& is_correlation_table(
                        table@,
                        self.records(),
                        self.base_variables@,
                        self.num_teams,
                    )
                },
                Err(e) => {
                    &&& e == BalanceError::DegenerateInput
                    &&& some_lacks_variance(self.records(), self.base_variables@)
                },
            },
    {
        let ghost entries = self.base_variables@;
        let mut table: Vec<VariableCorrelation> = Vec::new();
        let mut i: usize = 0;
        while i < self.base_variables.variables.len()
            invariant
                i <= entries.len(),
                entries == self.base_variables@,
                self.within_limits(),
                table@.len() == i,
                forall|j: int|
                    0 <= j < i ==> {
                        &&& (#[trigger] table@[j]).variable@ == entries[j].0
                        &&& is_correlation_row(
                            table@[j].teams@,
                            self.records(),
                            entries[j].0,
                            self.num_teams,
                        )
                        &&& !lacks_variance(readings(self.records(), entries[j].0))
                    },
            decreases self.base_variables.variables.len() - i,
        {
            let name: String = self.base_variables.variables[i].name.clone();
            assert(name@ == entries[i as int].0);
            match self.calculate_variable_correlation_single_variable(name.clone()) {
                Ok(teams) => {
                    table.push(VariableCorrelation { variable: name, teams });
                },
                Err(e) => {
                    return Err(e);
                },
            }
            i = i + 1;
        }
        proof {
            assert forall|j: int| 0 <= j < entries.len() implies !lacks_variance(
                readings(self.records(), (#[trigger] entries[j]).0),
            ) by {
                assert(table@[j].variable@ == entries[j].0);
            }
        }
        Ok(table)
    }
}

} // verus!
