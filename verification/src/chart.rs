//! What a chart of a list of transactions shows: its size, the range of
//! the amounts, and one point for each run of transactions of one day.

use crate::date::Date;
use crate::account::Account;
use crate::query::{chronological, lemma_sort_by_date, select, sort_by_date, total, Filter};
use crate::transaction::{views, Transaction, TransactionView};
use vstd::prelude::*;

verus! {

/// The height of every chart.
pub const HEIGHT: i128 = 600;

/// The margin above the plot.
pub const TOP: i128 = 90;

/// The margin to the right of the plot.
pub const RIGHT: i128 = 40;

/// The margin below the plot.
pub const BOTTOM: i128 = 50;

/// The margin to the left of the plot.
pub const LEFT: i128 = 60;

/// The width that each transaction adds to a chart.
pub const STEP: i128 = 50;

/// A chart before it is drawn. Amounts are in minor units.
#[derive(Debug)]
pub struct Chart {
    pub width: i128,
    pub height: i128,
    /// The width left for the plot between the left and the right margin.
    pub plot_width: i128,
    /// The height left for the plot between the top and the bottom margin.
    pub plot_height: i128,
    /// The lower end of the amount axis: the smallest amount, or 0 where no
    /// amount is negative.
    pub smallest: i128,
    /// The upper end of the amount axis: the biggest amount, or 0 where no
    /// amount is positive.
    pub biggest: i128,
    /// The points of the line: a day, and the sum of the amounts of the
    /// transactions of that day that stand next to each other.
    pub points: Vec<(Date, i128)>,
}

/// The smallest amount of `records`, and at most 0.
pub open spec fn smallest_amount(records: Seq<TransactionView>) -> int
    decreases records.len(),
{
    if records.len() == 0 {
        0
    } else {
        let before = smallest_amount(records.drop_last());
        if records.last().amount() < before {
            records.last().amount()
        } else {
            before
        }
    }
}

/// The biggest amount of `records`, and at least 0.
pub open spec fn biggest_amount(records: Seq<TransactionView>) -> int
    decreases records.len(),
{
    if records.len() == 0 {
        0
    } else {
        let before = biggest_amount(records.drop_last());
        if records.last().amount() > before {
            records.last().amount()
        } else {
            before
        }
    }
}

/// One point for each run of records of one day, with the sum of the run.
pub open spec fn daily_totals(records: Seq<TransactionView>) -> Seq<(Date, int)>
    decreases records.len(),
{
    if records.len() == 0 {
        Seq::empty()
    } else {
        let before = daily_totals(records.drop_last());
        let t = records.last();
        if before.len() > 0 && before.last().0 == t.date() {
            before.update(before.len() - 1, (t.date(), before.last().1 + t.amount()))
        } else {
            before.push((t.date(), t.amount()))
        }
    }
}

/// The sum of the values of a series of points.
pub open spec fn points_total(points: Seq<(Date, int)>) -> int
    decreases points.len(),
{
    if points.len() == 0 {
        0
    } else {
        points_total(points.drop_last()) + points.last().1
    }
}

pub open spec fn point_views(points: Seq<(Date, i128)>) -> Seq<(Date, int)> {
    points.map_values(|p: (Date, i128)| (p.0, p.1 as int))
}

/// Every amount lies between the ends of the amount axis, and so does 0.
pub proof fn lemma_amount_axis(records: Seq<TransactionView>)
    ensures
        smallest_amount(records) <= 0 <= biggest_amount(records),
        forall|i: int|
            0 <= i < records.len() ==> smallest_amount(records) <= (#[trigger] records[i]).amount()
                <= biggest_amount(records),
    decreases records.len(),
{
    if records.len() > 0 {
        lemma_amount_axis(records.drop_last());
        assert forall|i: int| 0 <= i < records.len() implies smallest_amount(records) <= (
        #[trigger] records[i]).amount() <= biggest_amount(records) by {
            if i < records.len() - 1 {
                assert(records.drop_last()[i] == records[i]);
            }
        }
    }
}

/// The points of a chart add up to the total of the transactions charted.
pub proof fn lemma_points_keep_total(records: Seq<TransactionView>)
    ensures
        points_total(daily_totals(records)) == total(records),
        daily_totals(records).len() <= records.len(),
    decreases records.len(),
{
    if records.len() > 0 {
        lemma_points_keep_total(records.drop_last());
        let before = daily_totals(records.drop_last());
        let t = records.last();
        if before.len() > 0 && before.last().0 == t.date() {
            let after = before.update(before.len() - 1, (t.date(), before.last().1 + t.amount()));
            assert(after.drop_last() =~= before.drop_last());
        } else {
            assert(before.push((t.date(), t.amount())).drop_last() =~= before);
        }
    }
}

/// Each point of a chart is the sum of some of the transactions charted,
/// and so lies within their number times the largest amount of one.
pub proof fn lemma_points_bound(records: Seq<Transaction>)
    ensures
        forall|k: int|
            0 <= k < daily_totals(views(records)).len() ==> -0x8000_0000_0000_0000
                * records.len() <= (#[trigger] daily_totals(views(records))[k]).1
                <= 0x8000_0000_0000_0000 * records.len(),
    decreases records.len(),
{
    if records.len() > 0 {
        lemma_points_bound(records.drop_last());
        assert(views(records).drop_last() =~= views(records.drop_last()));
        let last = records.last();
        assert(views(records).last() == last@);
        assert(-0x8000_0000_0000_0000 <= last@.amount() <= 0x8000_0000_0000_0000) by {
            match last {
                Transaction::Income(item) => {
                    assert(last@.amount() == item.amount as int);
                },
                Transaction::Spending(item) => {
                    assert(last@.amount() == -(item.amount as int));
                },
            }
        }
        let before = daily_totals(views(records.drop_last()));
        let after = daily_totals(views(records));
        assert forall|k: int| 0 <= k < after.len() implies -0x8000_0000_0000_0000 * records.len() <= (
        #[trigger] after[k]).1 <= 0x8000_0000_0000_0000 * records.len() by {
            if k < before.len() {
                assert(-0x8000_0000_0000_0000 * (records.len() - 1) <= before[k].1
                    <= 0x8000_0000_0000_0000 * (records.len() - 1));
            }
        }
    }
}

/// The chart of `transaction`: as wide as the transactions are many, with
/// an amount axis that holds every amount and 0, and one point for each run
/// of transactions of one day.
pub fn build(transaction: &[Transaction]) -> (chart: Chart)
    ensures
        chart.width == STEP * transaction@.len(),
        chart.height == HEIGHT,
        chart.plot_width == chart.width - LEFT - RIGHT,
        chart.plot_height == HEIGHT - TOP - BOTTOM,
        chart.smallest == smallest_amount(views(transaction@)),
        chart.biggest == biggest_amount(views(transaction@)),
        point_views(chart.points@) == daily_totals(views(transaction@)),
{
    let width: i128 = STEP * (transaction.len() as i128);
    let mut smallest: i128 = 0;
    let mut biggest: i128 = 0;
    let mut points: Vec<(Date, i128)> = Vec::new();
    let mut i: usize = 0;
    proof {
        assert(views(transaction@).take(0) =~= Seq::empty());
        assert(point_views(points@) =~= Seq::empty());
    }
    while i < transaction.len()
        invariant
            0 <= i <= transaction@.len(),
            smallest == smallest_amount(views(transaction@).take(i as int)),
            biggest == biggest_amount(views(transaction@).take(i as int)),
            point_views(points@) == daily_totals(views(transaction@).take(i as int)),
        decreases transaction@.len() - i,
    {
        let t = &transaction[i];
        let amount = t.amount();
        let date = t.date();
        proof {
            let seen = views(transaction@).take(i as int);
            assert(views(transaction@).take(i + 1) =~= seen.push(t@));
            assert(seen.push(t@).drop_last() =~= seen);
            assert(views(transaction@.take(i as int)) =~= seen);
            assert(views(transaction@.take(i + 1)) =~= seen.push(t@));
            lemma_points_bound(transaction@.take(i as int));
            lemma_points_bound(transaction@.take(i + 1));
        }
        if amount < smallest {
            smallest = amount;
        }
        if amount > biggest {
            biggest = amount;
        }
        let n = points.len();
        proof {
            if n > 0 {
                let seen = daily_totals(views(transaction@.take(i as int)));
                assert(point_views(points@)[n - 1] == (points@[n - 1].0, points@[n - 1].1 as int));
                assert(-0x8000_0000_0000_0000 * i <= seen[n - 1].1 <= 0x8000_0000_0000_0000 * i);
            }
        }
        if n > 0 && points[n - 1].0 == date {
            let ghost before = points@;
            let sum = points[n - 1].1 + amount;
            points.set(n - 1, (date, sum));
            proof {
                assert(point_views(before)[n - 1] == (before[n - 1].0, before[n - 1].1 as int));
                assert(point_views(points@) =~= point_views(before).update(
                    n - 1,
                    (date, sum as int),
                ));
            }
        } else {
            let ghost before = points@;
            points.push((date, amount));
            proof {
                if n > 0 {
                    assert(point_views(before)[n - 1] == (before[n - 1].0, before[n - 1].1 as int));
                }
                assert(point_views(points@) =~= point_views(before).push((date, amount as int)));
            }
        }
        i += 1;
    }
    assert(views(transaction@).take(i as int) =~= views(transaction@));
    Chart {
        width,
        height: HEIGHT,
        plot_width: width - LEFT - RIGHT,
        plot_height: HEIGHT - TOP - BOTTOM,
        smallest,
        biggest,
        points,
    }
}

/// The days of the points of a chart, where the records charted are in
/// chronological order: each day has one point, and the points are in
/// chronological order too.
pub proof fn lemma_points_one_per_day(records: Seq<TransactionView>)
    requires
        chronological(records),
    ensures
        forall|i: int, j: int|
            0 <= i < j < daily_totals(records).len() ==> (#[trigger] daily_totals(records)[i]).0.before(
                (#[trigger] daily_totals(records)[j]).0,
            ),
        records.len() > 0 ==> daily_totals(records).len() > 0 && daily_totals(records).last().0
            == records.last().date(),
    decreases records.len(),
{
    if records.len() > 0 {
        let front = records.drop_last();
        let t = records.last();
        assert(chronological(front)) by {
            assert forall|i: int, j: int| 0 <= i <= j < front.len() implies (#[trigger] front[i]).date().on_or_before(
                (#[trigger] front[j]).date(),
            ) by {
                assert(front[i] == records[i] && front[j] == records[j]);
            }
        }
        lemma_points_one_per_day(front);
        let before = daily_totals(front);
        let after = daily_totals(records);
        if front.len() > 0 {
            assert(front.last() == records[records.len() - 2]);
            assert(records[records.len() - 2].date().on_or_before(records[records.len() - 1].date()));
        }
        assert forall|i: int, j: int| 0 <= i < j < after.len() implies (#[trigger] after[i]).0.before(
            (#[trigger] after[j]).0,
        ) by {
            if j < before.len() - 1 || (j == before.len() - 1 && after.len() > before.len()) {
                assert(after[i] == before[i] && after[j] == before[j]);
            } else if after.len() == before.len() {
                assert(after[i] == before[i]);
                assert(before[i].0.before(before[j].0));
            } else {
                assert(after[i] == before[i]);
                if i < before.len() - 1 {
                    assert(before[i].0.before(before[before.len() - 1].0));
                }
            }
        }
    }
}

impl Chart {
    /// Whether this is the chart of `records`.
    pub open spec fn shows(self, records: Seq<TransactionView>) -> bool {
        &&& self.width == STEP * records.len()
        &&& self.height == HEIGHT
        &&& self.plot_width == self.width - LEFT - RIGHT
        &&& self.plot_height == HEIGHT - TOP - BOTTOM
        &&& self.smallest == smallest_amount(records)
        &&& self.biggest == biggest_amount(records)
        &&& point_views(self.points@) == daily_totals(records)
    }
}

/// The chart of the transactions of `account` dated from `start` to `end`,
/// both days included, in chronological order. There is a chart only where
/// one is wanted and the range holds a transaction.
pub fn chart_between(account: &Account, start: Option<Date>, end: Option<Date>, wanted: bool) -> (chart:
    Option<Chart>)
    ensures
        match chart {
            Some(drawn) => wanted && select(account@.records, Filter::range(start, end)).len() > 0
                && drawn.shows(sort_by_date(select(account@.records, Filter::range(start, end)))),
            None => !wanted || select(account@.records, Filter::range(start, end)).len() == 0,
        },
{
    if !wanted {
        return None;
    }
    let listed = account.transactions_between(start, end);
    proof {
        lemma_sort_by_date(select(account@.records, Filter::range(start, end)));
    }
    if listed.len() == 0 {
        None
    } else {
        Some(build(listed.as_slice()))
    }
}

} // verus!
