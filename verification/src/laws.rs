//! What holds of the statistics for every history.

use crate::correlation::{indicator, lacks_variance, readings, samples};
use crate::distribution::{shares_of, Distribution};
use crate::game::{is_after, value_of, MatchView};
use crate::correlation::lemma_sample_values;
use crate::math::{
    coefficient, is_root_ratio, lemma_root_ratio, lemma_spread_positive, moments, SCALE,
};
use vstd::prelude::*;

verus! {

/// A variable that has one and the same value in every match that records it
/// has readings without variance: its correlation with any team's wins
/// fails.
pub proof fn lemma_constant_variable(records: Seq<MatchView>, name: Seq<char>, value: i64)
    requires
        forall|i: int|
            0 <= i < records.len() ==> {
                ||| value_of((#[trigger] records[i]).variables, name) == Some(value)
                ||| value_of(records[i].variables, name) == None::<i64>
            },
    ensures
        lacks_variance(readings(records, name)),
{
    lemma_constant_readings(records, name, value);
}

proof fn lemma_constant_readings(records: Seq<MatchView>, name: Seq<char>, value: i64)
    requires
        forall|i: int|
            0 <= i < records.len() ==> {
                ||| value_of((#[trigger] records[i]).variables, name) == Some(value)
                ||| value_of(records[i].variables, name) == None::<i64>
            },
    ensures
        forall|i: int|
            0 <= i < readings(records, name).len() ==> #[trigger] readings(records, name)[i]
                == value,
    decreases records.len(),
{
    if records.len() > 0 {
        assert forall|i: int| 0 <= i < records.drop_last().len() implies {
            ||| value_of((#[trigger] records.drop_last()[i]).variables, name) == Some(value)
            ||| value_of(records.drop_last()[i].variables, name) == None::<i64>
        } by {
            assert(records.drop_last()[i] == records[i]);
        }
        lemma_constant_readings(records.drop_last(), name, value);
        assert(records.last() == records[records.len() - 1]);
        let earlier = readings(records.drop_last(), name);
        assert forall|i: int| 0 <= i < readings(records, name).len() implies #[trigger] readings(
            records,
            name,
        )[i] == value by {
            if i < earlier.len() {
                assert(earlier[i] == value);
            }
        }
    }
}

proof fn lemma_complement_moments(records: Seq<MatchView>, name: Seq<char>, a: u64, b: u64)
    requires
        a != b,
        forall|i: int|
            0 <= i < records.len() ==> (#[trigger] records[i]).winner == a || records[i].winner
                == b,
    ensures
        ({
            let ma = moments(samples(records, name, a));
            let mb = moments(samples(records, name, b));
            &&& mb.count == ma.count
            &&& mb.sum_x == ma.sum_x
            &&& mb.sum_xx == ma.sum_xx
            &&& ma.sum_yy == ma.sum_y
            &&& mb.sum_yy == mb.sum_y
            &&& mb.sum_y == ma.count - ma.sum_y
            &&& mb.sum_xy == ma.sum_x - ma.sum_xy
        }),
    decreases records.len(),
{
    if records.len() > 0 {
        let front = records.drop_last();
        assert forall|i: int| 0 <= i < front.len() implies (#[trigger] front[i]).winner == a
            || front[i].winner == b by {
            assert(front[i] == records[i]);
        }
        lemma_complement_moments(front, name, a, b);
        assert(records.last() == records[records.len() - 1]);
        match value_of(records.last().variables, name) {
            Some(value) => {
                let ya = indicator(records.last().winner == a);
                let yb = indicator(records.last().winner == b);
                let sa = samples(front, name, a);
                let sb = samples(front, name, b);
                assert(samples(records, name, a) == sa.push((value, ya)));
                assert(samples(records, name, b) == sb.push((value, yb)));
                assert(sa.push((value, ya)).drop_last() =~= sa);
                assert(sb.push((value, yb)).drop_last() =~= sb);
                assert(ya + yb == 1);
                assert(ya * ya == ya && yb * yb == yb) by (nonlinear_arith)
                    requires
                        0 <= ya <= 1,
                        0 <= yb <= 1,
                ;
                assert(value * yb == value - value * ya) by (nonlinear_arith)
                    requires
                        ya + yb == 1,
                ;
            },
            None => {},
        }
    }
}

/// Where every match was won by one of two teams, a variable's coefficient
/// for the one team is the negative of its coefficient for the other.
pub proof fn lemma_two_team_symmetry(records: Seq<MatchView>, name: Seq<char>, a: u64, b: u64)
    requires
        a != b,
        forall|i: int|
            0 <= i < records.len() ==> (#[trigger] records[i]).winner == a || records[i].winner
                == b,
    ensures
        coefficient(samples(records, name, a)) == -coefficient(samples(records, name, b)),
{
    let ma = moments(samples(records, name, a));
    let mb = moments(samples(records, name, b));
    lemma_complement_moments(records, name, a, b);
    let n = ma.count;
    let sx = ma.sum_x;
    let sy = ma.sum_y;
    let sxy = ma.sum_xy;
    assert(mb.co_spread() == -ma.co_spread()) by (nonlinear_arith)
        requires
            mb.co_spread() == n * (sx - sxy) - sx * (n - sy),
            ma.co_spread() == n * sxy - sx * sy,
    ;
    assert(mb.spread_y() == ma.spread_y()) by (nonlinear_arith)
        requires
            mb.spread_y() == n * (n - sy) - (n - sy) * (n - sy),
            ma.spread_y() == n * sy - sy * sy,
    ;
    assert(mb.spread_x() == ma.spread_x());
    let d = ma.spread_x() * ma.spread_y();
    if ma.spread_x() > 0 && ma.spread_y() > 0 && ma.co_spread() == 0 {
        assert(d > 0) by (nonlinear_arith)
            requires
                d == ma.spread_x() * ma.spread_y(),
                ma.spread_x() > 0,
                ma.spread_y() > 0,
        ;
        assert(is_root_ratio(0, 0, d)) by (nonlinear_arith)
            requires
                d > 0,
        ;
        lemma_root_ratio(0, 0, d);
        assert(SCALE * ma.co_spread() == 0);
        assert(SCALE * mb.co_spread() == 0);
    } else if ma.spread_x() > 0 && ma.spread_y() > 0 {
        assert(-mb.co_spread() == ma.co_spread());
        assert(-ma.co_spread() == mb.co_spread());
    }
}

/// Where a variable's readings vary, the spread of its samples' values is
/// positive for every team: the coefficient does not fall back on zero for
/// want of variance in the variable.
pub proof fn lemma_varying_readings_spread(records: Seq<MatchView>, name: Seq<char>, team: u64)
    requires
        !lacks_variance(readings(records, name)),
    ensures
        moments(samples(records, name, team)).spread_x() > 0,
{
    let values = readings(records, name);
    let i = choose|i: int| 0 <= i < values.len() && #[trigger] values[i] != values[0];
    lemma_sample_values(records, name, team);
    let pairs = samples(records, name, team);
    assert(pairs[i].0 == values[i]);
    assert(pairs[0].0 == values[0]);
    lemma_spread_positive(pairs, i, 0);
}

/// Raising the threshold only removes matches: those later than `later` are
/// those among the matches later than `earlier` that are later than `later`.
pub proof fn lemma_results_after_monotonic(records: Seq<MatchView>, earlier: u64, later: u64)
    requires
        earlier <= later,
    ensures
        records.filter(is_after(later)) == records.filter(is_after(earlier)).filter(
            is_after(later),
        ),
        forall|m: MatchView|
            records.filter(is_after(later)).contains(m) ==> records.filter(
                is_after(earlier),
            ).contains(m),
    decreases records.len(),
{
    reveal(Seq::filter);
    if records.len() > 0 {
        let front = records.drop_last();
        lemma_results_after_monotonic(front, earlier, later);
        front.filter(is_after(earlier)).lemma_filter_push(records.last(), is_after(later));
    }
    let wide = records.filter(is_after(earlier));
    assert forall|m: MatchView| records.filter(is_after(later)).contains(m) implies wide.contains(
        m,
    ) by {
        wide.lemma_filter_contains_rev(is_after(later), m);
    }
}

/// The distribution is a function of the records: two distributions of the
/// same records are the same.
pub proof fn lemma_distribution_repeatable(
    first: Distribution,
    second: Distribution,
    records: Seq<MatchView>,
)
    requires
        first.shares@ == shares_of(records),
        first.total == records.len(),
        second.shares@ == shares_of(records),
        second.total == records.len(),
    ensures
        first.shares@ == second.shares@,
        first.total == second.total,
{
}

} // verus!
