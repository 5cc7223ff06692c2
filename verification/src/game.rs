//! Game variables, match records and the history that owns them.

use crate::math::VALUE_LIMIT;
use vstd::prelude::*;

verus! {

/// One tunable parameter of the game: a name and a value. Values are
/// fixed-point numbers in millionths, so `1_500_000` stands for one and a
/// half.
#[derive(Debug, PartialEq, Eq)]
pub struct Variable {
    pub name: String,
    pub value: i64,
}

impl View for Variable {
    type V = (Seq<char>, i64);

    open spec fn view(&self) -> (Seq<char>, i64) {
        (self.name@, self.value)
    }
}

impl Clone for Variable {
    fn clone(&self) -> (r: Self)
        ensures
            r == *self,
    {
        Variable { name: self.name.clone(), value: self.value }
    }
}

/// A configuration of the game: variables by name. Where a name stands more
/// than once, its first entry counts.
#[derive(Debug, PartialEq, Eq)]
pub struct GameVariables {
    pub variables: Vec<Variable>,
}

/// The value that `entries` give to `name`: that of the first entry with this
/// name.
pub open spec fn value_of(entries: Seq<(Seq<char>, i64)>, name: Seq<char>) -> Option<i64>
    decreases entries.len(),
{
    if entries.len() == 0 {
        None
    } else if entries[0].0 == name {
        Some(entries[0].1)
    } else {
        value_of(entries.drop_first(), name)
    }
}

/// Whether every value of `entries` is at most `VALUE_LIMIT` in magnitude.
pub open spec fn values_within_limit(entries: Seq<(Seq<char>, i64)>) -> bool {
    forall|i: int|
        0 <= i < entries.len() ==> -VALUE_LIMIT <= (#[trigger] entries[i]).1 <= VALUE_LIMIT
}

impl View for GameVariables {
    type V = Seq<(Seq<char>, i64)>;

    open spec fn view(&self) -> Seq<(Seq<char>, i64)> {
        self.variables@.map_values(|v: Variable| v@)
    }
}

impl Clone for GameVariables {
    fn clone(&self) -> (r: Self)
        ensures
            r@ == self@,
    {
        let mut copy: Vec<Variable> = Vec::new();
        let mut i: usize = 0;
        while i < self.variables.len()
            invariant
                i <= self.variables.len(),
                copy@ == self.variables@.take(i as int),
            decreases self.variables.len() - i,
        {
            copy.push(self.variables[i].clone());
            assert(copy@ =~= self.variables@.take(i + 1));
            i = i + 1;
        }
        assert(copy@ =~= self.variables@);
        GameVariables { variables: copy }
    }
}

impl Default for GameVariables {
    fn default() -> (r: Self)
        ensures
            r@.len() == 0,
    {
        GameVariables { variables: Vec::new() }
    }
}

impl GameVariables {
    /// The value of the variable `name`, if the configuration has it.
    pub fn get(&self, name: &String) -> (r: Option<i64>)
        ensures
            r == value_of(self@, name@),
    {
        let mut i: usize = 0;
        assert(self@.skip(0) =~= self@);
        while i < self.variables.len()
            invariant
                i <= self.variables.len(),
                value_of(self@, name@) == value_of(self@.skip(i as int), name@),
            decreases self.variables.len() - i,
        {
            if self.variables[i].name == *name {
                assert(self@.skip(i as int)[0] == self@[i as int]);
                return Some(self.variables[i].value);
            }
            assert(self@.skip(i as int)[0] == self@[i as int]);
            assert(self@.skip(i as int).drop_first() =~= self@.skip(i + 1));
            i = i + 1;
        }
        assert(self@.skip(i as int).len() == 0);
        None
    }

    /// Whether every value is at most `VALUE_LIMIT` in magnitude.
    pub fn is_within_limit(&self) -> (r: bool)
        ensures
            r == values_within_limit(self@),
    {
        let mut i: usize = 0;
        while i < self.variables.len()
            invariant
                i <= self.variables.len(),
                forall|j: int|
                    0 <= j < i ==> -VALUE_LIMIT <= (#[trigger] self@[j]).1 <= VALUE_LIMIT,
            decreases self.variables.len() - i,
        {
            let value: i64 = self.variables[i].value;
            if value < -VALUE_LIMIT || value > VALUE_LIMIT {
                assert(self@[i as int].1 == value);
                return false;
            }
            assert(self@[i as int].1 == value);
            i = i + 1;
        }
        true
    }
}

/// One finished match: when it ended, who won, and the configuration it was
/// played under.
#[derive(Debug, PartialEq, Eq)]
pub struct GameMatch {
    pub time: u64,
    pub winner: u64,
    pub variables: GameVariables,
}

/// What a match record holds, as plain values.
pub struct MatchView {
    pub time: u64,
    pub winner: u64,
    pub variables: Seq<(Seq<char>, i64)>,
}

impl View for GameMatch {
    type V = MatchView;

    open spec fn view(&self) -> MatchView {
        MatchView { time: self.time, winner: self.winner, variables: self.variables@ }
    }
}

impl Clone for GameMatch {
    fn clone(&self) -> (r: Self)
        ensures
            r@ == self@,
    {
        GameMatch { time: self.time, winner: self.winner, variables: self.variables.clone() }
    }
}

/// What the records of `matches` hold, in the same order.
pub open spec fn match_views(matches: Seq<GameMatch>) -> Seq<MatchView> {
    matches.map_values(|m: GameMatch| m@)
}

/// The test that a record ended later than `timestamp`.
pub open spec fn is_after(timestamp: u64) -> spec_fn(MatchView) -> bool {
    |m: MatchView| m.time > timestamp
}

/// Whether `records` are few enough, and their values small enough, for the
/// exact arithmetic of the statistics.
pub open spec fn records_within_limits(records: Seq<MatchView>) -> bool {
    &&& records.len() <= crate::math::SAMPLE_LIMIT
    &&& forall|i: int|
        0 <= i < records.len() ==> values_within_limit((#[trigger] records[i]).variables)
}

/// The history of a game: the matches reported so far, in the order of
/// reporting, and the configuration under test. The statistics cover the
/// teams numbered from zero through `num_teams`.
#[derive(Debug)]
pub struct GameMatches {
    pub games_played: u64,
    pub results: Vec<GameMatch>,
    pub num_teams: u32,
    pub base_variables: GameVariables,
}

impl Default for GameMatches {
    fn default() -> (r: Self)
        ensures
            r.wf(),
            r.records().len() == 0,
            r.num_teams == 0,
            r.base_variables@.len() == 0,
    {
        GameMatches {
            games_played: 0,
            results: Vec::new(),
            num_teams: 0,
            base_variables: GameVariables::default(),
        }
    }
}

impl Clone for GameMatches {
    fn clone(&self) -> (r: Self)
        ensures
            r.games_played == self.games_played,
            r.records() == self.records(),
            r.num_teams == self.num_teams,
            r.base_variables@ == self.base_variables@,
    {
        let mut results: Vec<GameMatch> = Vec::new();
        let mut i: usize = 0;
        while i < self.results.len()
            invariant
                i <= self.results@.len(),
                match_views(results@) == self.records().take(i as int),
            decreases self.results.len() - i,
        {
            let copy: GameMatch = self.results[i].clone();
            let ghost before = results@;
            results.push(copy);
            assert(match_views(results@) =~= match_views(before).push(copy@));
            assert(self.records().take(i + 1) =~= self.records().take(i as int).push(
                self.results@[i as int]@,
            ));
            i = i + 1;
        }
        assert(self.records().take(i as int) =~= self.records());
        GameMatches {
            games_played: self.games_played,
            results,
            num_teams: self.num_teams,
            base_variables: self.base_variables.clone(),
        }
    }
}

impl GameMatches {
    /// The reported matches as plain values, in the order of reporting.
    pub open spec fn records(&self) -> Seq<MatchView> {
        match_views(self.results@)
    }

    /// The history counts exactly the matches that it holds.
    pub open spec fn wf(&self) -> bool {
        self.games_played == self.results@.len()
    }

    /// Whether the history is within what the statistics have room for.
    pub open spec fn within_limits(&self) -> bool {
        records_within_limits(self.records()) && values_within_limit(self.base_variables@)
    }

    /// An empty history for `num_teams` teams and the configuration
    /// `base_variables`.
    pub fn new(num_teams: u32, base_variables: GameVariables) -> (r: Self)
        ensures
            r.wf(),
            r.games_played == 0,
            r.records() == Seq::<MatchView>::empty(),
            r.num_teams == num_teams,
            r.base_variables == base_variables,
    {
        let r = GameMatches { games_played: 0, results: Vec::new(), num_teams, base_variables };
        assert(r.records() =~= Seq::<MatchView>::empty());
        r
    }

    /// Appends one match to the history, which then counts one match more.
    pub fn report_result(&mut self, result: GameMatch)
        ensures
            final(self).wf(),
            old(self).wf() ==> final(self).games_played == old(self).games_played + 1,
            final(self).records() == old(self).records().push(result@),
            final(self).num_teams == old(self).num_teams,
            final(self).base_variables == old(self).base_variables,
    {
        self.results.push(result);
        self.games_played = self.results.len() as u64;
        assert(self.records() =~= old(self).records().push(result@));
    }

    /// Appends a batch of matches to the history, in their order: as if each
    /// had been reported by itself.
    pub fn report_results(&mut self, results: Vec<GameMatch>)
        ensures
            final(self).wf(),
            old(self).wf() ==> final(self).games_played == old(self).games_played
                + results@.len(),
            final(self).records() == old(self).records() + match_views(results@),
            final(self).num_teams == old(self).num_teams,
            final(self).base_variables == old(self).base_variables,
    {
        let mut batch: Vec<GameMatch> = results;
        self.results.append(&mut batch);
        self.games_played = self.results.len() as u64;
        assert(self.records() =~= old(self).records() + match_views(results@));
    }

    /// The matches that ended later than `timestamp`, in the order of
    /// reporting.
    pub fn get_results_after_timestamp(&self, timestamp: u64) -> (r: Vec<GameMatch>)
        ensures
            match_views(r@) == self.records().filter(is_after(timestamp)),
    {
        let mut later: Vec<GameMatch> = Vec::new();
        let mut i: usize = 0;
        proof {
            reveal(Seq::filter);
            assert(self.records().take(0).filter(is_after(timestamp)) =~= Seq::<
                MatchView,
            >::empty());
        }
        while i < self.results.len()
            invariant
                i <= self.results.len(),
                match_views(later@) == self.records().take(i as int).filter(is_after(timestamp)),
            decreases self.results.len() - i,
        {
            proof {
                assert(self.records().take(i + 1) =~= self.records().take(i as int).push(
                    self.results@[i as int]@,
                ));
                self.records().take(i as int).lemma_filter_push(
                    self.results@[i as int]@,
                    is_after(timestamp),
                );
            }
            if self.results[i].time > timestamp {
                let copy: GameMatch = self.results[i].clone();
                let ghost before = later@;
                later.push(copy);
                assert(match_views(later@) =~= match_views(before).push(copy@));
            }
            i = i + 1;
        }
        assert(self.records().take(i as int) =~= self.records());
        later
    }

    /// Whether the history is within what the statistics have room for.
    pub fn is_within_limits(&self) -> (r: bool)
        ensures
            r == self.within_limits(),
    {
        if self.results.len() > crate::math::SAMPLE_LIMIT {
            return false;
        }
        if !self.base_variables.is_within_limit() {
            return false;
        }
        let mut i: usize = 0;
        while i < self.results.len()
            invariant
                i <= self.results.len(),
                forall|j: int|
                    0 <= j < i ==> values_within_limit((#[trigger] self.records()[j]).variables),
            decreases self.results.len() - i,
        {
            if !self.results[i].variables.is_within_limit() {
                assert(self.records()[i as int].variables == self.results@[i as int].variables@);
                return false;
            }
            assert(self.records()[i as int].variables == self.results@[i as int].variables@);
            i = i + 1;
        }
        true
    }
}

} // verus!
