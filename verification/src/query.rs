//! What a query over a transaction log means: which records a filter
//! accepts, in which order they are listed, and what they add up to.
//!
//! Both bounds of a date range are inclusive: a record dated on the first
//! or on the last day of the range belongs to it.

use crate::date::Date;
use crate::transaction::TransactionView;
use vstd::prelude::*;

verus! {

/// A filter over transactions: an optional first day, an optional last day
/// and an optional tag. A part that is absent accepts everything.
pub struct Filter {
    pub start: Option<Date>,
    pub end: Option<Date>,
    pub tag: Option<Seq<char>>,
}

impl Filter {
    /// The filter that accepts every transaction.
    pub open spec fn all() -> Filter {
        Filter { start: None, end: None, tag: None }
    }

    /// The filter of a date range alone.
    pub open spec fn range(start: Option<Date>, end: Option<Date>) -> Filter {
        Filter { start, end, tag: None }
    }

    /// The filter of a tag alone.
    pub open spec fn tagged(tag: Option<Seq<char>>) -> Filter {
        Filter { start: None, end: None, tag }
    }

    pub open spec fn accepts_date(self, date: Date) -> bool {
        &&& self.start matches Some(first) ==> first.on_or_before(date)
        &&& self.end matches Some(last) ==> date.on_or_before(last)
    }

    pub open spec fn accepts_tags(self, t: TransactionView) -> bool {
        self.tag matches Some(label) ==> t.has_tag(label)
    }

    pub open spec fn accepts(self, t: TransactionView) -> bool {
        self.accepts_date(t.date()) && self.accepts_tags(t)
    }
}

/// The records that `filter` accepts, in the order of `records`.
pub open spec fn select(records: Seq<TransactionView>, filter: Filter) -> Seq<TransactionView> {
    records.filter(|t: TransactionView| filter.accepts(t))
}

/// The sum of the amounts of `records`, income counted positive and
/// spending negative.
pub open spec fn total(records: Seq<TransactionView>) -> int
    decreases records.len(),
{
    if records.len() == 0 {
        0
    } else {
        total(records.drop_last()) + records.last().amount()
    }
}

/// `sorted` with `t` put behind the last record that is dated on or before it.
pub open spec fn insert_by_date(sorted: Seq<TransactionView>, t: TransactionView) -> Seq<
    TransactionView,
>
    decreases sorted.len(),
{
    if sorted.len() == 0 {
        seq![t]
    } else if sorted.last().date().on_or_before(t.date()) {
        sorted.push(t)
    } else {
        insert_by_date(sorted.drop_last(), t).push(sorted.last())
    }
}

/// `records` in chronological order; records of one day keep the order they
/// had in `records`.
pub open spec fn sort_by_date(records: Seq<TransactionView>) -> Seq<TransactionView>
    decreases records.len(),
{
    if records.len() == 0 {
        records
    } else {
        insert_by_date(sort_by_date(records.drop_last()), records.last())
    }
}

/// Each record is dated on or before the one that follows it.
pub open spec fn chronological(records: Seq<TransactionView>) -> bool {
    forall|i: int, j: int|
        0 <= i <= j < records.len() ==> (#[trigger] records[i]).date().on_or_before(
            (#[trigger] records[j]).date(),
        )
}

pub proof fn lemma_select_push(records: Seq<TransactionView>, t: TransactionView, filter: Filter)
    ensures
        select(records.push(t), filter) == if filter.accepts(t) {
            select(records, filter).push(t)
        } else {
            select(records, filter)
        },
{
    records.lemma_filter_push(t, |t: TransactionView| filter.accepts(t));
}

pub proof fn lemma_select_empty(filter: Filter)
    ensures
        select(Seq::<TransactionView>::empty(), filter) == Seq::<TransactionView>::empty(),
{
    reveal(Seq::filter);
}

pub proof fn lemma_total_push(records: Seq<TransactionView>, t: TransactionView)
    ensures
        total(records.push(t)) == total(records) + t.amount(),
{
    assert(records.push(t).drop_last() =~= records);
}

/// The total of two logs in a row is the sum of their totals.
pub proof fn lemma_total_concat(a: Seq<TransactionView>, b: Seq<TransactionView>)
    ensures
        total(a + b) == total(a) + total(b),
    decreases b.len(),
{
    if b.len() == 0 {
        assert(a + b =~= a);
    } else {
        lemma_total_concat(a, b.drop_last());
        assert((a + b).drop_last() =~= a + b.drop_last());
    }
}

/// Where the records of `sorted` from `at` on are all dated after `t`, and
/// the one before `at` is not, inserting `t` by date puts it at `at`.
pub proof fn lemma_insert_position(sorted: Seq<TransactionView>, t: TransactionView, at: int)
    requires
        0 <= at <= sorted.len(),
        forall|k: int| at <= k < sorted.len() ==> !sorted[k].date().on_or_before(t.date()),
        at > 0 ==> sorted[at - 1].date().on_or_before(t.date()),
    ensures
        insert_by_date(sorted, t) == sorted.insert(at, t),
    decreases sorted.len() - at,
{
    if sorted.len() == 0 {
        assert(sorted.insert(at, t) =~= seq![t]);
    } else if at == sorted.len() {
        assert(sorted.insert(at, t) =~= sorted.push(t));
    } else {
        lemma_insert_position(sorted.drop_last(), t, at);
        assert(sorted.drop_last().insert(at, t).push(sorted.last()) =~= sorted.insert(at, t));
    }
}

/// Inserting by date changes the total by the amount of the new record.
pub proof fn lemma_insert_total(sorted: Seq<TransactionView>, t: TransactionView)
    ensures
        total(insert_by_date(sorted, t)) == total(sorted) + t.amount(),
    decreases sorted.len(),
{
    if sorted.len() == 0 {
        lemma_total_push(Seq::empty(), t);
        assert(seq![t] =~= Seq::<TransactionView>::empty().push(t));
    } else if sorted.last().date().on_or_before(t.date()) {
        lemma_total_push(sorted, t);
    } else {
        lemma_insert_total(sorted.drop_last(), t);
        lemma_total_push(insert_by_date(sorted.drop_last(), t), sorted.last());
    }
}

/// Listing records in chronological order does not change what they add up to.
pub proof fn lemma_sort_keeps_total(records: Seq<TransactionView>)
    ensures
        total(sort_by_date(records)) == total(records),
    decreases records.len(),
{
    if records.len() > 0 {
        lemma_sort_keeps_total(records.drop_last());
        lemma_insert_total(sort_by_date(records.drop_last()), records.last());
    }
}

/// Inserting by date keeps exactly the records there were, and the new one.
pub proof fn lemma_insert_is_permutation(sorted: Seq<TransactionView>, t: TransactionView)
    ensures
        insert_by_date(sorted, t).to_multiset() == sorted.to_multiset().insert(t),
        insert_by_date(sorted, t).len() == sorted.len() + 1,
    decreases sorted.len(),
{
    broadcast use vstd::seq_lib::to_multiset_build;

    if sorted.len() == 0 {
        assert(seq![t] =~= sorted.push(t));
    } else if sorted.last().date().on_or_before(t.date()) {
    } else {
        lemma_insert_is_permutation(sorted.drop_last(), t);
        assert(sorted.drop_last().push(sorted.last()) =~= sorted);
        assert(insert_by_date(sorted, t).to_multiset() =~= sorted.to_multiset().insert(t));
    }
}

/// Inserting by date into a chronological list gives a chronological list.
pub proof fn lemma_insert_keeps_order(sorted: Seq<TransactionView>, t: TransactionView)
    requires
        chronological(sorted),
    ensures
        chronological(insert_by_date(sorted, t)),
    decreases sorted.len(),
{
    let out = insert_by_date(sorted, t);
    if sorted.len() == 0 {
    } else if sorted.last().date().on_or_before(t.date()) {
        assert forall|i: int, j: int| 0 <= i <= j < out.len() implies (#[trigger] out[i]).date().on_or_before(
            (#[trigger] out[j]).date(),
        ) by {
            if j == sorted.len() && i < j {
                assert(sorted[i].date().on_or_before(sorted.last().date()));
            }
        }
    } else {
        let front = sorted.drop_last();
        assert(chronological(front)) by {
            assert forall|i: int, j: int| 0 <= i <= j < front.len() implies (#[trigger] front[i]).date().on_or_before(
                (#[trigger] front[j]).date(),
            ) by {
                assert(front[i] == sorted[i] && front[j] == sorted[j]);
            }
        }
        lemma_insert_keeps_order(front, t);
        lemma_insert_is_permutation(front, t);
        let mid = insert_by_date(front, t);
        assert forall|i: int, j: int| 0 <= i <= j < out.len() implies (#[trigger] out[i]).date().on_or_before(
            (#[trigger] out[j]).date(),
        ) by {
            if j == mid.len() && i < j {
                // out[i] is either `t` or a record of `front`
                broadcast use vstd::seq_lib::to_multiset_contains;
                assert(mid.contains(mid[i]));
                assert(mid.to_multiset().count(mid[i]) > 0);
                if mid[i] != t {
                    assert(front.to_multiset().count(mid[i]) > 0);
                    assert(front.contains(mid[i]));
                    let k = choose|k: int| 0 <= k < front.len() && front[k] == mid[i];
                    assert(sorted[k].date().on_or_before(sorted.last().date()));
                }
            } else if j < mid.len() {
                assert(out[i] == mid[i] && out[j] == mid[j]);
            }
        }
    }
}

/// A list sorted by date is chronological and holds the records it was
/// made from, each as often as it occurred.
pub proof fn lemma_sort_by_date(records: Seq<TransactionView>)
    ensures
        chronological(sort_by_date(records)),
        sort_by_date(records).to_multiset() == records.to_multiset(),
        sort_by_date(records).len() == records.len(),
    decreases records.len(),
{
    broadcast use vstd::seq_lib::to_multiset_build;

    if records.len() == 0 {
    } else {
        lemma_sort_by_date(records.drop_last());
        lemma_insert_keeps_order(sort_by_date(records.drop_last()), records.last());
        lemma_insert_is_permutation(sort_by_date(records.drop_last()), records.last());
        assert(records.drop_last().push(records.last()) =~= records);
    }
}

/// A balance under a filter is the sum over the records of the date range,
/// listed in chronological order, that carry the tag; and where nothing is
/// filtered, it is the sum over the whole log.
pub proof fn lemma_balance_additivity(records: Seq<TransactionView>, filter: Filter)
    ensures
        total(select(records, filter)) == total(
            select(
                sort_by_date(select(records, Filter::range(filter.start, filter.end))),
                Filter::tagged(filter.tag),
            ),
        ),
        total(select(records, Filter::all())) == total(records),
{
    lemma_select_all(records);
    lemma_select_in_steps(records, filter);
    let ranged = select(records, Filter::range(filter.start, filter.end));
    lemma_sort_then_select_total(ranged, Filter::tagged(filter.tag));
}

/// The filter that accepts everything selects the whole log.
pub proof fn lemma_select_all(records: Seq<TransactionView>)
    ensures
        select(records, Filter::all()) == records,
    decreases records.len(),
{
    if records.len() == 0 {
        lemma_select_empty(Filter::all());
        assert(records =~= Seq::empty());
    } else {
        lemma_select_all(records.drop_last());
        lemma_select_push(records.drop_last(), records.last(), Filter::all());
        assert(records.drop_last().push(records.last()) =~= records);
    }
}

/// Selecting by a whole filter is selecting by its date range and then by
/// its tag.
pub proof fn lemma_select_in_steps(records: Seq<TransactionView>, filter: Filter)
    ensures
        select(records, filter) == select(
            select(records, Filter::range(filter.start, filter.end)),
            Filter::tagged(filter.tag),
        ),
    decreases records.len(),
{
    let by_range = Filter::range(filter.start, filter.end);
    let by_tag = Filter::tagged(filter.tag);
    if records.len() == 0 {
        lemma_select_empty(filter);
        lemma_select_empty(by_range);
        lemma_select_empty(by_tag);
        assert(records =~= Seq::empty());
    } else {
        let front = records.drop_last();
        let last = records.last();
        assert(front.push(last) =~= records);
        lemma_select_in_steps(front, filter);
        lemma_select_push(front, last, filter);
        lemma_select_push(front, last, by_range);
        if by_range.accepts(last) {
            lemma_select_push(select(front, by_range), last, by_tag);
        }
    }
}

/// Selecting from a list and from the same list sorted by date gives records
/// with the same total.
pub proof fn lemma_sort_then_select_total(records: Seq<TransactionView>, filter: Filter)
    ensures
        total(select(sort_by_date(records), filter)) == total(select(records, filter)),
    decreases records.len(),
{
    if records.len() == 0 {
    } else {
        let front = records.drop_last();
        let last = records.last();
        assert(front.push(last) =~= records);
        lemma_sort_then_select_total(front, filter);
        lemma_insert_then_select_total(sort_by_date(front), last, filter);
        lemma_select_push(front, last, filter);
        if filter.accepts(last) {
            lemma_total_push(select(front, filter), last);
        }
    }
}

pub proof fn lemma_insert_then_select_total(
    sorted: Seq<TransactionView>,
    t: TransactionView,
    filter: Filter,
)
    ensures
        total(select(insert_by_date(sorted, t), filter)) == total(select(sorted, filter)) + if filter.accepts(
            t,
        ) {
            t.amount()
        } else {
            0
        },
    decreases sorted.len(),
{
    if sorted.len() == 0 {
        assert(seq![t] =~= sorted.push(t));
        lemma_select_push(sorted, t, filter);
        if filter.accepts(t) {
            lemma_total_push(select(sorted, filter), t);
        }
    } else if sorted.last().date().on_or_before(t.date()) {
        lemma_select_push(sorted, t, filter);
        if filter.accepts(t) {
            lemma_total_push(select(sorted, filter), t);
        }
    } else {
        let front = sorted.drop_last();
        let last = sorted.last();
        assert(front.push(last) =~= sorted);
        lemma_insert_then_select_total(front, t, filter);
        lemma_select_push(insert_by_date(front, t), last, filter);
        lemma_select_push(front, last, filter);
        if filter.accepts(last) {
            lemma_total_push(select(insert_by_date(front, t), filter), last);
            lemma_total_push(select(front, filter), last);
        }
    }
}

/// An empty log has the balance 0 under every filter.
pub proof fn lemma_empty_balance(filter: Filter)
    ensures
        total(select(Seq::<TransactionView>::empty(), filter)) == 0,
{
    lemma_select_empty(filter);
}

/// Both ends of a date range belong to it: a record dated on the first or
/// on the last day of a range is accepted.
pub proof fn lemma_range_includes_bounds(first: Date, last: Date)
    requires
        first.on_or_before(last),
    ensures
        Filter::range(Some(first), Some(last)).accepts_date(first),
        Filter::range(Some(first), Some(last)).accepts_date(last),
        Filter::range(Some(first), None).accepts_date(first),
        Filter::range(None, Some(last)).accepts_date(last),
{
}

/// A record outside a date range is not accepted, whatever its tags.
pub proof fn lemma_range_excludes_outside(first: Date, last: Date, t: TransactionView)
    requires
        t.date().before(first) || last.before(t.date()),
    ensures
        !Filter::range(Some(first), Some(last)).accepts(t),
{
}

/// Appending a record changes the balance under a filter by the amount of
/// the record where the filter accepts it, and not at all where it does not.
pub proof fn lemma_append_balance(records: Seq<TransactionView>, t: TransactionView, filter: Filter)
    ensures
        total(select(records.push(t), filter)) == total(select(records, filter)) + if filter.accepts(
            t,
        ) {
            t.amount()
        } else {
            0
        },
{
    lemma_select_push(records, t, filter);
    if filter.accepts(t) {
        lemma_total_push(select(records, filter), t);
    }
}

/// Replacing a record changes the total by the difference of the amounts
/// of the new and of the old record.
pub proof fn lemma_replace_total(records: Seq<TransactionView>, index: int, t: TransactionView)
    requires
        0 <= index < records.len(),
    ensures
        total(records.update(index, t)) == total(records) - records[index].amount() + t.amount(),
    decreases records.len(),
{
    if index == records.len() - 1 {
        assert(records.update(index, t).drop_last() =~= records.drop_last());
    } else {
        lemma_replace_total(records.drop_last(), index, t);
        assert(records.update(index, t).drop_last() =~= records.drop_last().update(index, t));
    }
}

/// In a list sorted by date, the first record is dated on or before every
/// record the list was made from, and the last one on or after.
pub proof fn lemma_period_spans(records: Seq<TransactionView>, i: int)
    requires
        0 <= i < records.len(),
    ensures
        sort_by_date(records).len() > 0,
        sort_by_date(records).first().date().on_or_before(records[i].date()),
        records[i].date().on_or_before(sort_by_date(records).last().date()),
{
    broadcast use vstd::seq_lib::to_multiset_contains;

    let sorted = sort_by_date(records);
    lemma_sort_by_date(records);
    assert(records.contains(records[i]));
    assert(records.to_multiset().count(records[i]) > 0);
    assert(sorted.to_multiset().count(records[i]) > 0);
    assert(sorted.contains(records[i]));
    let k = choose|k: int| 0 <= k < sorted.len() && sorted[k] == records[i];
    assert(sorted[0].date().on_or_before(sorted[k].date()));
    assert(sorted[k].date().on_or_before(sorted[sorted.len() - 1].date()));
}

/// Every record of a listing is a record of the log that the filter accepts.
pub proof fn lemma_listed_from_log(records: Seq<TransactionView>, filter: Filter, k: int)
    requires
        0 <= k < sort_by_date(select(records, filter)).len(),
    ensures
        records.contains(sort_by_date(select(records, filter))[k]),
        filter.accepts(sort_by_date(select(records, filter))[k]),
{
    broadcast use vstd::seq_lib::to_multiset_contains;

    let chosen = select(records, filter);
    let sorted = sort_by_date(chosen);
    let t = sorted[k];
    lemma_sort_by_date(chosen);
    assert(sorted.contains(t));
    assert(sorted.to_multiset().count(t) > 0);
    assert(chosen.to_multiset().count(t) > 0);
    assert(chosen.contains(t));
    let accepted = |t: TransactionView| filter.accepts(t);
    records.lemma_filter_contains_rev(accepted, t);
    let at = choose|at: int| 0 <= at < chosen.len() && chosen[at] == t;
    records.lemma_filter_pred(accepted, at);
}

/// The records of `records` that are dated `day`, in their order.
pub open spec fn on_day(records: Seq<TransactionView>, day: Date) -> Seq<TransactionView> {
    records.filter(|t: TransactionView| t.date() == day)
}

pub proof fn lemma_on_day_push(records: Seq<TransactionView>, t: TransactionView, day: Date)
    ensures
        on_day(records.push(t), day) == if t.date() == day {
            on_day(records, day).push(t)
        } else {
            on_day(records, day)
        },
{
    records.lemma_filter_push(t, |t: TransactionView| t.date() == day);
}

pub proof fn lemma_insert_on_day(sorted: Seq<TransactionView>, t: TransactionView, day: Date)
    ensures
        on_day(insert_by_date(sorted, t), day) == if t.date() == day {
            on_day(sorted, day).push(t)
        } else {
            on_day(sorted, day)
        },
    decreases sorted.len(),
{
    if sorted.len() == 0 {
        assert(seq![t] =~= sorted.push(t));
        lemma_on_day_push(sorted, t, day);
    } else if sorted.last().date().on_or_before(t.date()) {
        lemma_on_day_push(sorted, t, day);
    } else {
        let front = sorted.drop_last();
        let last = sorted.last();
        assert(front.push(last) =~= sorted);
        lemma_insert_on_day(front, t, day);
        lemma_on_day_push(insert_by_date(front, t), last, day);
        lemma_on_day_push(front, last, day);
    }
}

/// Sorting by date is stable: the records of any one day stand in the
/// sorted list in the order they had before.
pub proof fn lemma_sort_stable(records: Seq<TransactionView>, day: Date)
    ensures
        on_day(sort_by_date(records), day) == on_day(records, day),
    decreases records.len(),
{
    if records.len() > 0 {
        let front = records.drop_last();
        let last = records.last();
        assert(front.push(last) =~= records);
        lemma_sort_stable(front, day);
        lemma_insert_on_day(sort_by_date(front), last, day);
        lemma_on_day_push(front, last, day);
    }
}

} // verus!
