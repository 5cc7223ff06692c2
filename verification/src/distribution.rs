//! How the wins of a set of matches are spread over the teams.

use crate::error::BalanceError;
use crate::game::{is_after, match_views, GameMatch, GameMatches, MatchView};
use vstd::prelude::*;

verus! {

/// A team and the number of matches it won.
#[derive(Debug, Clone, Copy, PartialEq, Eq, Structural)]
pub struct TeamShare {
    pub team: u64,
    pub wins: u64,
}

/// The spread of wins over the teams that won at least once. A team's
/// probability of winning is its `wins` divided by `total`.
#[derive(Debug, PartialEq, Eq)]
pub struct Distribution {
    pub shares: Vec<TeamShare>,
    pub total: u64,
}

/// The number of `records` that `team` won.
pub open spec fn wins(records: Seq<MatchView>, team: u64) -> nat
    decreases records.len(),
{
    if records.len() == 0 {
        0
    } else {
        wins(records.drop_last(), team) + if records.last().winner == team {
            1nat
        } else {
            0nat
        }
    }
}

/// The teams that won at least one of `records`, each once, in the order of
/// their first win.
pub open spec fn winners(records: Seq<MatchView>) -> Seq<u64>
    decreases records.len(),
{
    if records.len() == 0 {
        Seq::empty()
    } else {
        let earlier = winners(records.drop_last());
        if earlier.contains(records.last().winner) {
            earlier
        } else {
            earlier.push(records.last().winner)
        }
    }
}

/// The winners of `records`, each with the number of its wins.
pub open spec fn shares_of(records: Seq<MatchView>) -> Seq<TeamShare> {
    Seq::new(
        winners(records).len(),
        |i: int|
            TeamShare { team: winners(records)[i], wins: wins(records, winners(records)[i]) as u64 },
    )
}

/// The wins of all `shares` together.
pub open spec fn total_wins(shares: Seq<TeamShare>) -> int
    decreases shares.len(),
{
    if shares.len() == 0 {
        0
    } else {
        total_wins(shares.drop_last()) + shares.last().wins
    }
}

/// No team won more matches than there are.
pub proof fn lemma_wins_bound(records: Seq<MatchView>, team: u64)
    ensures
        wins(records, team) <= records.len(),
    decreases records.len(),
{
    if records.len() > 0 {
        lemma_wins_bound(records.drop_last(), team);
    }
}

/// The winners are the teams with at least one win, and none is listed
/// twice.
pub proof fn lemma_winners(records: Seq<MatchView>)
    ensures
        winners(records).no_duplicates(),
        winners(records).len() <= records.len(),
        records.len() > 0 ==> winners(records).len() > 0,
        forall|team: u64| #[trigger] winners(records).contains(team) <==> wins(records, team) > 0,
    decreases records.len(),
{
    if records.len() > 0 {
        let earlier = winners(records.drop_last());
        let last = records.last().winner;
        lemma_winners(records.drop_last());
        if earlier.contains(last) {
        } else {
            assert(earlier.push(last)[earlier.len() as int] == last);
            assert forall|team: u64| #[trigger]
                winners(records).contains(team) <==> wins(records, team) > 0 by {
                if winners(records).contains(team) {
                    let k = choose|k: int|
                        0 <= k < winners(records).len() && winners(records)[k] == team;
                    if k < earlier.len() {
                        assert(earlier[k] == team);
                        assert(earlier.contains(team));
                    }
                }
                if wins(records, team) > 0 && team != last {
                    assert(earlier.contains(team));
                    let k = choose|k: int| 0 <= k < earlier.len() && earlier[k] == team;
                    assert(winners(records)[k] == team);
                }
            }
        }
    }
}

/// The wins of the teams `teams` in `records`, summed.
pub open spec fn wins_among(records: Seq<MatchView>, teams: Seq<u64>) -> int
    decreases teams.len(),
{
    if teams.len() == 0 {
        0
    } else {
        wins_among(records, teams.drop_last()) + wins(records, teams.last())
    }
}

proof fn lemma_wins_among_step(records: Seq<MatchView>, teams: Seq<u64>)
    requires
        records.len() > 0,
        teams.no_duplicates(),
    ensures
        wins_among(records, teams) == wins_among(records.drop_last(), teams) + if teams.contains(
            records.last().winner,
        ) {
            1int
        } else {
            0int
        },
    decreases teams.len(),
{
    if teams.len() > 0 {
        let front = teams.drop_last();
        let last = records.last().winner;
        lemma_wins_among_step(records, front);
        if teams.last() == last {
            assert(!front.contains(last)) by {
                if front.contains(last) {
                    let k = choose|k: int| 0 <= k < front.len() && front[k] == last;
                    assert(teams[k] == teams[teams.len() - 1]);
                }
            }
            assert(teams.contains(last)) by {
                assert(teams[teams.len() - 1] == last);
            }
        } else {
            if front.contains(last) {
                let k = choose|k: int| 0 <= k < front.len() && front[k] == last;
                assert(teams[k] == last);
            }
            if teams.contains(last) {
                let k = choose|k: int| 0 <= k < teams.len() && teams[k] == last;
                assert(front[k] == last);
            }
        }
    }
}

proof fn lemma_total_wins_among(records: Seq<MatchView>, teams: Seq<u64>)
    requires
        records.len() <= u64::MAX,
    ensures
        total_wins(
            Seq::new(
                teams.len(),
                |i: int| TeamShare { team: teams[i], wins: wins(records, teams[i]) as u64 },
            ),
        ) == wins_among(records, teams),
    decreases teams.len(),
{
    if teams.len() > 0 {
        let shares = Seq::new(
            teams.len(),
            |i: int| TeamShare { team: teams[i], wins: wins(records, teams[i]) as u64 },
        );
        let front = teams.drop_last();
        let front_shares = Seq::new(
            front.len(),
            |i: int| TeamShare { team: front[i], wins: wins(records, front[i]) as u64 },
        );
        lemma_total_wins_among(records, front);
        assert(shares.drop_last() =~= front_shares);
        lemma_wins_bound(records, teams.last());
    }
}

/// The shares of wins add up to the number of matches: the probabilities of
/// a distribution sum to one.
pub proof fn lemma_shares_sum(records: Seq<MatchView>)
    requires
        records.len() <= u64::MAX,
    ensures
        total_wins(shares_of(records)) == records.len(),
{
    lemma_winner_wins_sum(records);
    lemma_total_wins_among(records, winners(records));
}

proof fn lemma_winner_wins_sum(records: Seq<MatchView>)
    ensures
        wins_among(records, winners(records)) == records.len(),
    decreases records.len(),
{
    if records.len() > 0 {
        let earlier = winners(records.drop_last());
        let last = records.last().winner;
        lemma_winner_wins_sum(records.drop_last());
        lemma_winners(records.drop_last());
        lemma_winners(records);
        lemma_wins_among_step(records, winners(records));
        if earlier.contains(last) {
        } else {
            assert(winners(records).drop_last() =~= earlier);
            assert(winners(records).last() == last);
            assert(winners(records).contains(last));
            assert(wins(records.drop_last(), last) == 0);
        }
    }
}

/// Where `team` first stands among `shares`, if it does.
pub fn find_share(shares: &Vec<TeamShare>, team: u64) -> (r: Option<usize>)
    ensures
        match r {
            Some(j) => {
                &&& j < shares@.len()
                &&& shares@[j as int].team == team
                &&& forall|k: int| 0 <= k < j ==> shares@[k].team != team
            },
            None => forall|k: int| 0 <= k < shares@.len() ==> shares@[k].team != team,
        },
{
    let mut j: usize = 0;
    while j < shares.len()
        invariant
            j <= shares@.len(),
            forall|k: int| 0 <= k < j ==> shares@[k].team != team,
        decreases shares.len() - j,
    {
        if shares[j].team == team {
            return Some(j);
        }
        j = j + 1;
    }
    None
}

/// The spread of wins over the teams that won at least one of `records`: for
/// each such team the number of its wins, beside the number of all matches.
/// The teams stand in the order of their first win, and their wins add up to
/// the total. Without a match there is no distribution.
pub fn get_result_distribution_from_vec(records: &Vec<GameMatch>) -> (r: Result<
    Distribution,
    BalanceError,
>)
    ensures
        match r {
            Ok(d) => {
                &&& records@.len() > 0
                &&& d.total == records@.len()
                &&& d.shares@ == shares_of(match_views(records@))
                &&& total_wins(d.shares@) == d.total
            },
            Err(e) => records@.len() == 0 && e == BalanceError::EmptyHistory,
        },
{
    if records.len() == 0 {
        return Err(BalanceError::EmptyHistory);
    }
    let ghost all = match_views(records@);
    let mut shares: Vec<TeamShare> = Vec::new();
    let mut i: usize = 0;
    assert(shares@ =~= shares_of(all.take(0)));
    while i < records.len()
        invariant
            i <= records@.len(),
            all == match_views(records@),
            shares@ == shares_of(all.take(i as int)),
        decreases records.len() - i,
    {
        let winner: u64 = records[i].winner;
        let ghost before = all.take(i as int);
        let ghost after = all.take(i + 1);
        proof {
            assert(after.drop_last() =~= before);
            assert(after.last().winner == winner);
            lemma_winners(before);
            lemma_winners(after);
            lemma_wins_bound(after, winner);
        }
        match find_share(&shares, winner) {
            Some(j) => {
                let share: TeamShare = shares[j];
                assert(winners(before)[j as int] == winner);
                assert(winners(before).contains(winner));
                shares.set(j, TeamShare { team: share.team, wins: share.wins + 1 });
                assert(shares@ =~= shares_of(after)) by {
                    assert forall|k: int| 0 <= k < shares@.len() implies shares@[k] == shares_of(
                        after,
                    )[k] by {
                        lemma_wins_bound(after, winners(before)[k]);
                    }
                }
            },
            None => {
                assert(!winners(before).contains(winner)) by {
                    if winners(before).contains(winner) {
                        let k = choose|k: int|
                            0 <= k < winners(before).len() && winners(before)[k] == winner;
                        assert(shares@[k].team == winner);
                    }
                }
                shares.push(TeamShare { team: winner, wins: 1 });
                assert(shares@ =~= shares_of(after)) by {
                    assert forall|k: int| 0 <= k < shares@.len() implies shares@[k] == shares_of(
                        after,
                    )[k] by {
                        if k < winners(before).len() {
                            assert(winners(before).contains(winners(before)[k]));
                            lemma_wins_bound(after, winners(before)[k]);
                        }
                    }
                }
            },
        }
        i = i + 1;
    }
    proof {
        assert(all.take(i as int) =~= all);
        lemma_shares_sum(all);
    }
    Ok(Distribution { shares, total: records.len() as u64 })
}

impl GameMatches {
    /// The spread of wins over all reported matches.
    pub fn get_result_distribution(&self) -> (r: Result<Distribution, BalanceError>)
        ensures
            match r {
                Ok(d) => {
                    &&& self.records().len() > 0
                    &&& d.total == self.records().len()
                    &&& d.shares@ == shares_of(self.records())
                    &&& total_wins(d.shares@) == d.total
                },
                Err(e) => self.records().len() == 0 && e == BalanceError::EmptyHistory,
            },
    {
        get_result_distribution_from_vec(&self.results)
    }

    /// The spread of wins over the matches that ended later than
    /// `timestamp`.
    pub fn get_result_distribution_after_timestamp(&self, timestamp: u64) -> (r: Result<
        Distribution,
        BalanceError,
    >)
        ensures
            match r {
                Ok(d) => {
                    &&& self.records().filter(is_after(timestamp)).len() > 0
                    &&& d.total == self.records().filter(is_after(timestamp)).len()
                    &&& d.shares@ == shares_of(self.records().filter(is_after(timestamp)))
                    &&& total_wins(d.shares@) == d.total
                },
                Err(e) => {
                    &&& self.records().filter(is_after(timestamp)).len() == 0
                    &&& e == BalanceError::EmptyHistory
                },
            },
    {
        let later: Vec<GameMatch> = self.get_results_after_timestamp(timestamp);
        get_result_distribution_from_vec(&later)
    }
}

} // verus!
