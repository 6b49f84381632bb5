//! Putting things in order: identifiers as a sorted list without
//! repetitions, and records by date, the newest first.

use crate::record::{record_views, text_views, Record, RecordView};
use crate::select::{dated, distinct_identifiers, has_identifier, kept};
use crate::text::{
    lemma_text_le_antisymmetric, lemma_text_le_reflexive, lemma_text_le_total,
    lemma_text_le_transitive, same_text, text_at_most, text_le,
};
use vstd::prelude::*;

verus! {

/// Each text comes strictly before those that follow it.
pub open spec fn strictly_increasing(list: Seq<Seq<char>>) -> bool {
    forall|i: int, j: int| 0 <= i < j < list.len() ==> !text_le(#[trigger] list[j], #[trigger] list[i])
}

/// A sorted list with one more text put in its place, unless it is there.
pub open spec fn with_text(sorted: Seq<Seq<char>>, text: Seq<char>) -> Seq<Seq<char>>
    decreases sorted.len(),
{
    if sorted.len() == 0 {
        seq![text]
    } else if sorted.last() == text {
        sorted
    } else if text_le(sorted.last(), text) {
        sorted.push(text)
    } else {
        with_text(sorted.drop_last(), text).push(sorted.last())
    }
}

/// The texts in order, each once.
pub open spec fn sorted_set(texts: Seq<Seq<char>>) -> Seq<Seq<char>>
    decreases texts.len(),
{
    if texts.len() == 0 {
        Seq::empty()
    } else {
        with_text(sorted_set(texts.drop_last()), texts.last())
    }
}

/// Where everything from `p` on comes strictly after `text`, putting `text`
/// in leaves that tail as it is.
proof fn lemma_with_text_tail(sorted: Seq<Seq<char>>, text: Seq<char>, p: int)
    requires
        0 <= p <= sorted.len(),
        forall|k: int| p <= k < sorted.len() ==> !text_le(#[trigger] sorted[k], text),
    ensures
        with_text(sorted, text) == with_text(sorted.take(p), text) + sorted.skip(p),
    decreases sorted.len() - p,
{
    if p == sorted.len() {
        assert(sorted.take(p) =~= sorted);
        assert(with_text(sorted, text) + sorted.skip(p) =~= with_text(sorted, text));
    } else {
        let shorter = sorted.drop_last();
        assert(!text_le(sorted[sorted.len() - 1], text));
        lemma_text_le_reflexive(text);
        assert(sorted.last() != text);
        lemma_with_text_tail(shorter, text, p);
        assert(shorter.take(p) =~= sorted.take(p));
        assert((with_text(shorter.take(p), text) + shorter.skip(p)).push(sorted.last())
            =~= with_text(sorted.take(p), text) + sorted.skip(p));
    }
}

/// Putting a text in makes a list longer by one at most.
pub proof fn lemma_with_text_grows_by_one(sorted: Seq<Seq<char>>, text: Seq<char>)
    ensures
        with_text(sorted, text).len() <= sorted.len() + 1,
    decreases sorted.len(),
{
    if sorted.len() > 0 {
        lemma_with_text_grows_by_one(sorted.drop_last(), text);
    }
}

/// Putting a text into a sorted list keeps it sorted and adds just that text.
pub proof fn lemma_with_text(sorted: Seq<Seq<char>>, text: Seq<char>)
    requires
        strictly_increasing(sorted),
    ensures
        strictly_increasing(with_text(sorted, text)),
        forall|x: Seq<char>| #[trigger]
            with_text(sorted, text).contains(x) <==> sorted.contains(x) || x == text,
    decreases sorted.len(),
{
    let after = with_text(sorted, text);
    if sorted.len() == 0 {
        assert(after[0] == text);
        assert forall|x: Seq<char>| #[trigger] after.contains(x) <==> sorted.contains(x) || x
            == text by {
            if x == text {
                assert(after[0] == x);
            }
        }
    } else if sorted.last() == text {
        assert(sorted[sorted.len() - 1] == text);
    } else if text_le(sorted.last(), text) {
        assert forall|i: int, j: int| 0 <= i < j < after.len() implies !text_le(
            #[trigger] after[j],
            #[trigger] after[i],
        ) by {
            if j < sorted.len() {
                assert(after[i] == sorted[i] && after[j] == sorted[j]);
            } else {
                assert(after[j] == text && after[i] == sorted[i]);
                if text_le(text, sorted[i]) {
                    if i < sorted.len() - 1 {
                        lemma_text_le_transitive(sorted.last(), text, sorted[i]);
                        assert(!text_le(sorted[sorted.len() - 1], sorted[i]));
                    } else {
                        lemma_text_le_antisymmetric(sorted.last(), text);
                    }
                }
            }
        }
        assert forall|x: Seq<char>| #[trigger] after.contains(x) <==> sorted.contains(x) || x
            == text by {
            if sorted.contains(x) {
                let k = choose|k: int| 0 <= k < sorted.len() && sorted[k] == x;
                assert(after[k] == x);
            }
            if x == text {
                assert(after[sorted.len() as int] == x);
            }
            if after.contains(x) {
                let k = choose|k: int| 0 <= k < after.len() && after[k] == x;
                if k < sorted.len() {
                    assert(sorted[k] == x);
                }
            }
        }
    } else {
        let shorter = sorted.drop_last();
        let last = sorted.last();
        assert forall|i: int, j: int| 0 <= i < j < shorter.len() implies !text_le(
            #[trigger] shorter[j],
            #[trigger] shorter[i],
        ) by {
            assert(shorter[i] == sorted[i] && shorter[j] == sorted[j]);
        }
        lemma_with_text(shorter, text);
        let inner = with_text(shorter, text);
        assert forall|i: int, j: int| 0 <= i < j < after.len() implies !text_le(
            #[trigger] after[j],
            #[trigger] after[i],
        ) by {
            if j < inner.len() {
                assert(after[i] == inner[i] && after[j] == inner[j]);
            } else {
                assert(after[j] == last && after[i] == inner[i]);
                assert(inner.contains(inner[i]));
                if inner[i] == text {
                } else {
                    let k = choose|k: int| 0 <= k < shorter.len() && shorter[k] == inner[i];
                    assert(sorted[k] == inner[i]);
                    assert(!text_le(sorted[sorted.len() - 1], sorted[k]));
                }
            }
        }
        assert forall|x: Seq<char>| #[trigger] after.contains(x) <==> sorted.contains(x) || x
            == text by {
            if sorted.contains(x) {
                let k = choose|k: int| 0 <= k < sorted.len() && sorted[k] == x;
                if k < shorter.len() {
                    assert(shorter[k] == x);
                    assert(shorter.contains(x));
                    assert(inner.contains(x));
                    let m = choose|m: int| 0 <= m < inner.len() && inner[m] == x;
                    assert(after[m] == x);
                } else {
                    assert(after[inner.len() as int] == x);
                }
            }
            if x == text {
                assert(inner.contains(x));
                let m = choose|m: int| 0 <= m < inner.len() && inner[m] == x;
                assert(after[m] == x);
            }
            if after.contains(x) {
                let k = choose|k: int| 0 <= k < after.len() && after[k] == x;
                if k < inner.len() {
                    assert(inner[k] == x);
                    assert(inner.contains(x));
                    if x != text {
                        let m = choose|m: int| 0 <= m < shorter.len() && shorter[m] == x;
                        assert(sorted[m] == x);
                    }
                } else {
                    assert(sorted[sorted.len() - 1] == x);
                }
            }
        }
    }
}

/// The sorted set of some texts is strictly increasing, so it holds nothing
/// twice, and it holds just the texts that were given.
pub proof fn lemma_sorted_set(texts: Seq<Seq<char>>)
    ensures
        strictly_increasing(sorted_set(texts)),
        forall|x: Seq<char>| #[trigger] sorted_set(texts).contains(x) <==> texts.contains(x),
    decreases texts.len(),
{
    if texts.len() > 0 {
        let shorter = texts.drop_last();
        lemma_sorted_set(shorter);
        lemma_with_text(sorted_set(shorter), texts.last());
        assert forall|x: Seq<char>| #[trigger]
            sorted_set(texts).contains(x) <==> texts.contains(x) by {
            if texts.contains(x) {
                let k = choose|k: int| 0 <= k < texts.len() && texts[k] == x;
                if k < shorter.len() {
                    assert(shorter[k] == x);
                    assert(shorter.contains(x));
                }
            }
            if sorted_set(texts).contains(x) && x != texts.last() {
                assert(sorted_set(shorter).contains(x));
                assert(shorter.contains(x));
                let k = choose|k: int| 0 <= k < shorter.len() && shorter[k] == x;
                assert(texts[k] == x);
            }
            if x == texts.last() {
                assert(texts[texts.len() - 1] == x);
            }
        }
    }
}

/// A set of texts, kept as a sorted list.
pub struct TextSet {
    items: Vec<String>,
}

impl View for TextSet {
    type V = Seq<Seq<char>>;

    /// The texts of the set, in order.
    closed spec fn view(&self) -> Seq<Seq<char>> {
        text_views(self.items@)
    }
}

impl TextSet {
    #[verifier::type_invariant]
    spec fn sorted(self) -> bool {
        strictly_increasing(text_views(self.items@))
    }

    /// The empty set.
    pub fn new() -> (r: TextSet)
        ensures
            r@ == Seq::<Seq<char>>::empty(),
    {
        let items: Vec<String> = Vec::new();
        assert(text_views(items@) =~= Seq::empty());
        TextSet { items }
    }

    /// How many texts the set holds.
    pub fn len(&self) -> (n: usize)
        ensures
            n == self@.len(),
            strictly_increasing(self@),
    {
        proof {
            use_type_invariant(self);
        }
        self.items.len()
    }

    /// The place behind the texts of the set that are at most `text`.
    fn place_of(&self, text: &str) -> (p: usize)
        ensures
            p <= self@.len(),
            strictly_increasing(self@),
            forall|k: int| 0 <= k < p ==> text_le(#[trigger] self@[k], text@),
            forall|k: int| p <= k < self@.len() ==> !text_le(#[trigger] self@[k], text@),
    {
        proof {
            use_type_invariant(self);
        }
        let ghost list = text_views(self.items@);
        let mut low: usize = 0;
        let mut high: usize = self.items.len();
        while low < high
            invariant
                low <= high <= self.items.len(),
                list == text_views(self.items@),
                strictly_increasing(list),
                forall|k: int| 0 <= k < low ==> text_le(#[trigger] list[k], text@),
                forall|k: int| high <= k < list.len() ==> !text_le(#[trigger] list[k], text@),
            decreases high - low,
        {
            let middle = low + (high - low) / 2;
            if text_at_most(self.items[middle].as_str(), text) {
                assert forall|k: int| 0 <= k < middle + 1 implies text_le(
                    #[trigger] list[k],
                    text@,
                ) by {
                    if k < middle {
                        lemma_text_le_total(list[k], list[middle as int]);
                        lemma_text_le_transitive(list[k], list[middle as int], text@);
                    }
                }
                low = middle + 1;
            } else {
                assert forall|k: int| middle <= k < list.len() implies !text_le(
                    #[trigger] list[k],
                    text@,
                ) by {
                    if k > middle && text_le(list[k], text@) {
                        lemma_text_le_total(list[middle as int], list[k]);
                        lemma_text_le_transitive(list[middle as int], list[k], text@);
                    }
                }
                high = middle;
            }
        }
        low
    }

    /// Whether the set holds `text`.
    pub fn contains(&self, text: &str) -> (r: bool)
        ensures
            r == self@.contains(text@),
    {
        let p = self.place_of(text);
        let found = p > 0 && same_text(self.items[p - 1].as_str(), text);
        proof {
            let list = self@;
            if found {
                assert(list[p - 1] == text@);
            }
            if list.contains(text@) {
                let k = choose|k: int| 0 <= k < list.len() && list[k] == text@;
                lemma_text_le_reflexive(text@);
                assert(k < p);
                if k < p - 1 {
                    assert(!text_le(list[p - 1], list[k]));
                }
            }
        }
        found
    }

    /// The set with `text` put in, unless the set holds it.
    pub fn with(self, text: String) -> (r: TextSet)
        ensures
            r@ == with_text(self@, text@),
            forall|x: Seq<char>| #[trigger] r@.contains(x) <==> self@.contains(x) || x == text@,
    {
        let p = self.place_of(text.as_str());
        let ghost list = self@;
        proof {
            lemma_with_text_tail(list, text@, p as int);
            lemma_with_text(list, text@);
        }
        let ghost head = list.take(p as int);
        if p > 0 && same_text(self.items[p - 1].as_str(), text.as_str()) {
            assert(head.last() == text@);
            assert(head + list.skip(p as int) =~= list);
            self
        } else {
            proof {
                if p > 0 {
                    assert(head.last() == list[p - 1]);
                    assert(with_text(head, text@) == head.push(text@));
                } else {
                    assert(with_text(head, text@) =~= seq![text@]);
                }
                assert(list.insert(p as int, text@) =~= with_text(head, text@) + list.skip(
                    p as int,
                ));
                assert(text_views(self.items@.insert(p as int, text)) =~= list.insert(
                    p as int,
                    text@,
                ));
            }
            let mut items = self.items;
            items.insert(p, text);
            TextSet { items }
        }
    }

    /// The texts of the set as a list, in order.
    pub fn into_sorted(self) -> (list: Vec<String>)
        ensures
            text_views(list@) == self@,
            strictly_increasing(text_views(list@)),
    {
        proof {
            use_type_invariant(&self);
        }
        self.items
    }
}

/// The dates never go up from one record to the next.
pub open spec fn is_newest_first(records: Seq<RecordView>) -> bool {
    forall|i: int, j: int|
        0 <= i < j < records.len() ==> text_le((#[trigger] records[j]).date, (#[trigger] records[i]).date)
}

/// A sequence that is newest first with one more record put in: behind all
/// records of its date or a later one.
pub open spec fn with_record(sorted: Seq<RecordView>, record: RecordView) -> Seq<RecordView>
    decreases sorted.len(),
{
    if sorted.len() == 0 {
        seq![record]
    } else if text_le(record.date, sorted.last().date) {
        sorted.push(record)
    } else {
        with_record(sorted.drop_last(), record).push(sorted.last())
    }
}

/// The records by date, the newest first; records of one date stay in the
/// order in which they came.
pub open spec fn newest_first(records: Seq<RecordView>) -> Seq<RecordView>
    decreases records.len(),
{
    if records.len() == 0 {
        Seq::empty()
    } else {
        with_record(newest_first(records.drop_last()), records.last())
    }
}

/// Putting a record in keeps the sequence newest first, adds just that
/// record, and leaves the records of each date in their order, the new one
/// last among those of its date.
pub proof fn lemma_with_record(sorted: Seq<RecordView>, record: RecordView, date: Seq<char>)
    requires
        is_newest_first(sorted),
    ensures
        is_newest_first(with_record(sorted, record)),
        with_record(sorted, record).to_multiset() == sorted.to_multiset().insert(record),
        kept(with_record(sorted, record), dated(date)) == kept(sorted.push(record), dated(date)),
    decreases sorted.len(),
{
    broadcast use vstd::seq_lib::group_to_multiset_ensures;

    let after = with_record(sorted, record);
    if sorted.len() == 0 {
        assert(after =~= sorted.push(record));
    } else if text_le(record.date, sorted.last().date) {
        assert forall|i: int, j: int| 0 <= i < j < after.len() implies text_le(
            (#[trigger] after[j]).date,
            (#[trigger] after[i]).date,
        ) by {
            if j < sorted.len() {
                assert(after[i] == sorted[i] && after[j] == sorted[j]);
            } else {
                assert(after[i] == sorted[i]);
                if i < sorted.len() - 1 {
                    assert(text_le(sorted[sorted.len() - 1].date, sorted[i].date));
                    lemma_text_le_transitive(record.date, sorted.last().date, sorted[i].date);
                }
            }
        }
    } else {
        let shorter = sorted.drop_last();
        let last = sorted.last();
        assert(sorted =~= shorter.push(last));
        assert forall|i: int, j: int| 0 <= i < j < shorter.len() implies text_le(
            (#[trigger] shorter[j]).date,
            (#[trigger] shorter[i]).date,
        ) by {
            assert(shorter[i] == sorted[i] && shorter[j] == sorted[j]);
        }
        lemma_with_record(shorter, record, date);
        let inner = with_record(shorter, record);
        lemma_text_le_total(record.date, last.date);
        assert forall|i: int, j: int| 0 <= i < j < after.len() implies text_le(
            (#[trigger] after[j]).date,
            (#[trigger] after[i]).date,
        ) by {
            if j < inner.len() {
                assert(after[i] == inner[i] && after[j] == inner[j]);
            } else {
                assert(after[j] == last && after[i] == inner[i]);
                assert(inner.to_multiset().contains(inner[i])) by {
                    inner.to_multiset_ensures();
                }
                if inner[i] == record {
                } else {
                    assert(shorter.to_multiset().contains(inner[i]));
                    shorter.to_multiset_ensures();
                    assert(shorter.contains(inner[i]));
                    let k = choose|k: int| 0 <= k < shorter.len() && shorter[k] == inner[i];
                    assert(sorted[k] == inner[i]);
                    assert(text_le(sorted[sorted.len() - 1].date, sorted[k].date));
                }
            }
        }
        assert(after.to_multiset() =~= sorted.to_multiset().insert(record));
        assert(after.drop_last() =~= inner);
        assert(sorted.push(record).drop_last() =~= sorted);
        assert(shorter.push(record).drop_last() =~= shorter);
        if last.date == date {
            assert(record.date != date) by {
                lemma_text_le_reflexive(date);
            }
        }
        assert(after.last() == last);
        assert(sorted.push(record).last() == record);
        assert(shorter.push(record).last() == record);
        assert(sorted.drop_last() == shorter);
        assert(kept(after, dated(date)) == if dated(date)(last) {
            kept(inner, dated(date)).push(last)
        } else {
            kept(inner, dated(date))
        });
        assert(kept(shorter.push(record), dated(date)) == if dated(date)(record) {
            kept(shorter, dated(date)).push(record)
        } else {
            kept(shorter, dated(date))
        });
        assert(kept(sorted.push(record), dated(date)) == if dated(date)(record) {
            kept(sorted, dated(date)).push(record)
        } else {
            kept(sorted, dated(date))
        });
        assert(kept(sorted, dated(date)) == if dated(date)(last) {
            kept(shorter, dated(date)).push(last)
        } else {
            kept(shorter, dated(date))
        });
    }
}

/// Sorting by date gives a sequence that is newest first, holds the very
/// records that were given, each as often as it was given, and leaves the
/// records of each date in the order in which they came.
pub proof fn lemma_newest_first(records: Seq<RecordView>, date: Seq<char>)
    ensures
        is_newest_first(newest_first(records)),
        newest_first(records).to_multiset() == records.to_multiset(),
        newest_first(records).len() == records.len(),
        kept(newest_first(records), dated(date)) == kept(records, dated(date)),
    decreases records.len(),
{
    broadcast use vstd::seq_lib::group_to_multiset_ensures;

    if records.len() > 0 {
        let shorter = records.drop_last();
        lemma_newest_first(shorter, date);
        lemma_with_record(newest_first(shorter), records.last(), date);
        assert(records =~= shorter.push(records.last()));
        assert(newest_first(shorter).push(records.last()).drop_last() =~= newest_first(shorter));
        assert(newest_first(shorter).push(records.last()).last() == records.last());
        newest_first(records).to_multiset_ensures();
        records.to_multiset_ensures();
    } else {
        assert(newest_first(records) =~= records);
    }
}

/// Two sequences that are newest first, made one: whatever stands in the
/// first comes before what the second holds of the same date.
pub open spec fn merged(first: Seq<RecordView>, second: Seq<RecordView>) -> Seq<RecordView>
    decreases first.len() + second.len(),
{
    if second.len() == 0 {
        first
    } else if first.len() == 0 {
        second
    } else if text_le(second.last().date, first.last().date) {
        merged(first, second.drop_last()).push(second.last())
    } else {
        merged(first.drop_last(), second).push(first.last())
    }
}

/// A part of a sequence that is newest first is newest first.
proof fn lemma_newest_first_drop_last(records: Seq<RecordView>)
    requires
        is_newest_first(records),
        records.len() > 0,
    ensures
        is_newest_first(records.drop_last()),
{
    let shorter = records.drop_last();
    assert forall|i: int, j: int| 0 <= i < j < shorter.len() implies text_le(
        (#[trigger] shorter[j]).date,
        (#[trigger] shorter[i]).date,
    ) by {
        assert(shorter[i] == records[i] && shorter[j] == records[j]);
    }
}

/// Putting a record into the second of two sequences and then making them
/// one is putting it into the one that they make.
proof fn lemma_merged_with_record(
    first: Seq<RecordView>,
    second: Seq<RecordView>,
    record: RecordView,
)
    requires
        is_newest_first(first),
        is_newest_first(second),
    ensures
        merged(first, with_record(second, record)) == with_record(merged(first, second), record),
    decreases first.len() + second.len(),
{
    let whole = merged(first, second);
    let put = with_record(second, record);
    if second.len() == 0 {
        assert(put =~= seq![record]);
        assert(put.drop_last() =~= second);
        assert(put.last() == record);
        if first.len() > 0 && !text_le(record.date, first.last().date) {
            lemma_newest_first_drop_last(first);
            lemma_merged_with_record(first.drop_last(), second, record);
        }
    } else if first.len() == 0 {
        assert(put.len() > 0) by {
            lemma_with_record_longer(second, record);
        }
    } else {
        let a = first.last();
        let b = second.last();
        lemma_newest_first_drop_last(first);
        lemma_newest_first_drop_last(second);
        lemma_text_le_total(b.date, a.date);
        lemma_text_le_total(record.date, a.date);
        lemma_text_le_total(record.date, b.date);
        if text_le(record.date, b.date) {
            assert(put == second.push(record));
            assert(put.drop_last() =~= second);
            assert(put.last() == record);
            if text_le(record.date, a.date) {
                assert(merged(first, put) == whole.push(record));
                if text_le(b.date, a.date) {
                    assert(whole.last() == b);
                } else {
                    assert(whole.last() == a);
                }
            } else {
                if text_le(b.date, a.date) {
                    lemma_text_le_transitive(record.date, b.date, a.date);
                }
                lemma_merged_with_record(first.drop_last(), second, record);
                assert(whole == merged(first.drop_last(), second).push(a));
                assert(whole.drop_last() =~= merged(first.drop_last(), second));
                assert(whole.last() == a);
            }
        } else {
            let inner = with_record(second.drop_last(), record);
            assert(put == inner.push(b));
            assert(put.drop_last() =~= inner);
            assert(put.last() == b);
            if text_le(b.date, a.date) {
                lemma_merged_with_record(first, second.drop_last(), record);
                assert(whole == merged(first, second.drop_last()).push(b));
                assert(whole.drop_last() =~= merged(first, second.drop_last()));
                assert(whole.last() == b);
            } else {
                if text_le(record.date, a.date) {
                    lemma_text_le_transitive(record.date, a.date, b.date);
                }
                lemma_merged_with_record(first.drop_last(), second, record);
                assert(whole == merged(first.drop_last(), second).push(a));
                assert(whole.drop_last() =~= merged(first.drop_last(), second));
                assert(whole.last() == a);
            }
        }
    }
}

/// Putting a record in makes a sequence longer by one.
proof fn lemma_with_record_longer(sorted: Seq<RecordView>, record: RecordView)
    ensures
        with_record(sorted, record).len() == sorted.len() + 1,
    decreases sorted.len(),
{
    if sorted.len() > 0 && !text_le(record.date, sorted.last().date) {
        lemma_with_record_longer(sorted.drop_last(), record);
    }
}

/// Sorting two parts and making them one is sorting the whole.
pub proof fn lemma_merged_sorts(first: Seq<RecordView>, second: Seq<RecordView>)
    ensures
        merged(newest_first(first), newest_first(second)) == newest_first(first + second),
    decreases second.len(),
{
    if second.len() == 0 {
        assert(first + second =~= first);
    } else {
        let shorter = second.drop_last();
        lemma_merged_sorts(first, shorter);
        lemma_newest_first(first, Seq::empty());
        lemma_newest_first(shorter, Seq::empty());
        lemma_merged_with_record(newest_first(first), newest_first(shorter), second.last());
        assert((first + second).drop_last() =~= first + shorter);
        assert((first + second).last() == second.last());
    }
}

/// The records in the opposite order.
pub open spec fn backwards(records: Seq<RecordView>) -> Seq<RecordView> {
    Seq::new(records.len(), |i: int| records[records.len() - 1 - i])
}

/// Makes one sequence of two that are newest first.
fn merge_newest_first(first: Vec<Record>, second: Vec<Record>) -> (out: Vec<Record>)
    ensures
        record_views(out@) == merged(record_views(first@), record_views(second@)),
{
    let ghost whole = merged(record_views(first@), record_views(second@));
    let mut first = first;
    let mut second = second;
    let mut taken: Vec<Record> = Vec::new();
    assert(whole + backwards(record_views(taken@)) =~= whole);
    while first.len() > 0 || second.len() > 0
        invariant
            whole == merged(record_views(first@), record_views(second@)) + backwards(
                record_views(taken@),
            ),
        decreases first.len() + second.len(),
    {
        let ghost left = record_views(first@);
        let ghost right = record_views(second@);
        let ghost tail = backwards(record_views(taken@));
        let from_second = if second.len() == 0 {
            false
        } else if first.len() == 0 {
            true
        } else {
            text_at_most(
                second[second.len() - 1].date.as_str(),
                first[first.len() - 1].date.as_str(),
            )
        };
        let moved = if from_second {
            assert(right.last() == second@[second@.len() - 1]@);
            second.pop()
        } else {
            assert(left.last() == first@[first@.len() - 1]@);
            first.pop()
        };
        if let Some(record) = moved {
            proof {
                if from_second {
                    assert(record_views(second@) =~= right.drop_last());
                    assert(merged(left, right) == merged(left, right.drop_last()).push(record@));
                } else {
                    assert(record_views(first@) =~= left.drop_last());
                    if right.len() == 0 {
                        assert(merged(left.drop_last(), right).push(record@) =~= left);
                    }
                    assert(merged(left, right) == merged(left.drop_last(), right).push(record@));
                }
            }
            taken.push(record);
            assert(backwards(record_views(taken@)) =~= seq![record@] + tail);
            assert(merged(left, right) + tail =~= merged(
                record_views(first@),
                record_views(second@),
            ) + backwards(record_views(taken@)));
        }
    }
    assert(merged(record_views(first@), record_views(second@)) =~= Seq::empty());
    assert(whole =~= backwards(record_views(taken@)));
    let mut out: Vec<Record> = Vec::new();
    assert(record_views(out@) + backwards(record_views(taken@)) =~= whole);
    while taken.len() > 0
        invariant
            whole == record_views(out@) + backwards(record_views(taken@)),
        decreases taken.len(),
    {
        let ghost done = record_views(out@);
        let ghost tail = backwards(record_views(taken@));
        if let Some(record) = taken.pop() {
            assert(tail[0] == record@);
            out.push(record);
            assert(record_views(out@) =~= done.push(record@));
            assert(backwards(record_views(taken@)) =~= tail.drop_first());
            assert(done + tail =~= record_views(out@) + backwards(record_views(taken@)));
        }
    }
    assert(whole =~= record_views(out@));
    out
}

/// Sorts the records by date, the newest first. Dates are compared as
/// strings; records of one date stay in the order in which they came.
pub fn sort_newest_first(records: Vec<Record>) -> (r: Vec<Record>)
    ensures
        record_views(r@) == newest_first(record_views(records@)),
        is_newest_first(record_views(r@)),
        record_views(r@).to_multiset() == record_views(records@).to_multiset(),
        r@.len() == records@.len(),
    decreases records@.len(),
{
    let ghost all = record_views(records@);
    proof {
        lemma_newest_first(all, Seq::empty());
    }
    if records.len() <= 1 {
        proof {
            if all.len() == 1 {
                assert(all.drop_last().len() == 0);
                assert(newest_first(all.drop_last()).len() == 0);
                assert(with_record(newest_first(all.drop_last()), all.last()) =~= seq![all.last()]);
                assert(newest_first(all) =~= all);
            } else {
                assert(newest_first(all) =~= all);
            }
        }
        return records;
    }
    let mut first = records;
    let half = first.len() / 2;
    let second = first.split_off(half);
    let ghost left = record_views(first@);
    let ghost right = record_views(second@);
    assert(left + right =~= all);
    let sorted_first = sort_newest_first(first);
    let sorted_second = sort_newest_first(second);
    proof {
        lemma_merged_sorts(left, right);
    }
    let out = merge_newest_first(sorted_first, sorted_second);
    assert(record_views(out@).len() == out@.len());
    out
}

/// Putting a record in is an insertion at some place.
proof fn lemma_insertion_point(sorted: Seq<RecordView>, record: RecordView) -> (p: int)
    ensures
        0 <= p <= sorted.len(),
        with_record(sorted, record) == sorted.insert(p, record),
    decreases sorted.len(),
{
    if sorted.len() == 0 {
        assert(with_record(sorted, record) =~= sorted.insert(0, record));
        0
    } else if text_le(record.date, sorted.last().date) {
        assert(sorted.push(record) =~= sorted.insert(sorted.len() as int, record));
        sorted.len() as int
    } else {
        let p = lemma_insertion_point(sorted.drop_last(), record);
        assert(sorted.drop_last().insert(p, record).push(sorted.last()) =~= sorted.insert(
            p,
            record,
        ));
        p
    }
}

/// Sorting by date moves records and changes none: what comes out was put
/// in, what was put in comes out, and identifiers that differed before
/// still differ.
pub proof fn lemma_newest_first_keeps(records: Seq<RecordView>)
    ensures
        forall|k: int|
            0 <= k < newest_first(records).len() ==> records.contains(
                #[trigger] newest_first(records)[k],
            ),
        forall|i: int|
            0 <= i < records.len() ==> newest_first(records).contains(#[trigger] records[i]),
        forall|identifier: Seq<char>| #[trigger]
            has_identifier(newest_first(records), identifier) <==> has_identifier(
                records,
                identifier,
            ),
        distinct_identifiers(records) ==> distinct_identifiers(newest_first(records)),
    decreases records.len(),
{
    let result = newest_first(records);
    if records.len() > 0 {
        let shorter = records.drop_last();
        let last = records.last();
        let inner = newest_first(shorter);
        let n = records.len() - 1;
        lemma_newest_first_keeps(shorter);
        let p = lemma_insertion_point(inner, last);
        assert(result == inner.insert(p, last));
        assert forall|k: int| 0 <= k < result.len() implies records.contains(
            #[trigger] result[k],
        ) by {
            if k == p {
                assert(records[n] == result[k]);
            } else {
                let q = if k < p {
                    k
                } else {
                    k - 1
                };
                assert(result[k] == inner[q]);
                assert(shorter.contains(inner[q]));
                let i = choose|i: int| 0 <= i < shorter.len() && shorter[i] == inner[q];
                assert(records[i] == result[k]);
            }
        }
        assert forall|i: int| 0 <= i < records.len() implies result.contains(
            #[trigger] records[i],
        ) by {
            if i == n {
                assert(result[p] == records[i]);
            } else {
                assert(shorter[i] == records[i]);
                assert(inner.contains(shorter[i]));
                let q = choose|q: int| 0 <= q < inner.len() && inner[q] == shorter[i];
                let k = if q < p {
                    q
                } else {
                    q + 1
                };
                assert(result[k] == records[i]);
            }
        }
        assert forall|identifier: Seq<char>| #[trigger]
            has_identifier(result, identifier) <==> has_identifier(records, identifier) by {
            if has_identifier(result, identifier) {
                let k = choose|k: int|
                    0 <= k < result.len() && (#[trigger] result[k]).identifier == identifier;
                assert(records.contains(result[k]));
                let i = choose|i: int| 0 <= i < records.len() && records[i] == result[k];
                assert(records[i].identifier == identifier);
            }
            if has_identifier(records, identifier) {
                let i = choose|i: int|
                    0 <= i < records.len() && (#[trigger] records[i]).identifier == identifier;
                assert(result.contains(records[i]));
                let k = choose|k: int| 0 <= k < result.len() && result[k] == records[i];
                assert(result[k].identifier == identifier);
            }
        }
        if distinct_identifiers(records) {
            assert forall|k: int, m: int| 0 <= k < m < shorter.len() implies (
            #[trigger] shorter[k]).identifier != (#[trigger] shorter[m]).identifier by {
                assert(shorter[k] == records[k] && shorter[m] == records[m]);
            }
            assert(distinct_identifiers(inner));
            assert forall|q: int| 0 <= q < inner.len() implies (#[trigger] inner[q]).identifier
                != last.identifier by {
                assert(shorter.contains(inner[q]));
                let i = choose|i: int| 0 <= i < shorter.len() && shorter[i] == inner[q];
                assert(records[i] == inner[q]);
                assert(records[i].identifier != records[n].identifier);
            }
            assert forall|k: int, m: int| 0 <= k < m < result.len() implies (
            #[trigger] result[k]).identifier != (#[trigger] result[m]).identifier by {
                let a = if k < p {
                    k
                } else {
                    k - 1
                };
                let b = if m < p {
                    m
                } else {
                    m - 1
                };
                if k == p {
                    assert(result[m] == inner[b]);
                } else if m == p {
                    assert(result[k] == inner[a]);
                } else {
                    assert(result[k] == inner[a] && result[m] == inner[b]);
                }
            }
        }
    }
}

} // verus!
