//! The filters of the report: by cutoff date, by day, and by threshold.

use crate::order::TextSet;
use crate::record::{record_views, Record, RecordView};
use crate::text::{parse_u32, parsed_u32, same_text, text_at_most, text_le};
use vstd::prelude::*;

verus! {

/// The records that `keep` holds of, in their order.
pub open spec fn kept(records: Seq<RecordView>, keep: spec_fn(RecordView) -> bool) -> Seq<
    RecordView,
>
    decreases records.len(),
{
    if records.len() == 0 {
        Seq::empty()
    } else if keep(records.last()) {
        kept(records.drop_last(), keep).push(records.last())
    } else {
        kept(records.drop_last(), keep)
    }
}

/// Holds of the records dated on the cutoff or later.
pub open spec fn on_or_after(cutoff: Seq<char>) -> spec_fn(RecordView) -> bool {
    |r: RecordView| text_le(cutoff, r.date)
}

/// Holds of the records dated before the cutoff.
pub open spec fn earlier_than(cutoff: Seq<char>) -> spec_fn(RecordView) -> bool {
    |r: RecordView| !text_le(cutoff, r.date)
}

/// Holds of the records of one day.
pub open spec fn dated(day: Seq<char>) -> spec_fn(RecordView) -> bool {
    |r: RecordView| r.date == day
}

/// The records dated on the cutoff or later.
pub open spec fn since_filter(records: Seq<RecordView>, cutoff: Seq<char>) -> Seq<RecordView> {
    kept(records, on_or_after(cutoff))
}

/// The records dated before the cutoff.
pub open spec fn before_filter(records: Seq<RecordView>, cutoff: Seq<char>) -> Seq<RecordView> {
    kept(records, earlier_than(cutoff))
}

/// The records of one day.
pub open spec fn day_filter(records: Seq<RecordView>, day: Seq<char>) -> Seq<RecordView> {
    kept(records, dated(day))
}

/// What is kept holds the predicate, stands in the input, and is no more
/// than the input.
pub proof fn lemma_kept(records: Seq<RecordView>, keep: spec_fn(RecordView) -> bool)
    ensures
        kept(records, keep).len() <= records.len(),
        forall|i: int|
            0 <= i < kept(records, keep).len() ==> keep(#[trigger] kept(records, keep)[i])
                && records.contains(kept(records, keep)[i]),
    decreases records.len(),
{
    if records.len() > 0 {
        let before = kept(records.drop_last(), keep);
        let after = kept(records, keep);
        lemma_kept(records.drop_last(), keep);
        assert forall|i: int| 0 <= i < after.len() implies keep(#[trigger] after[i])
            && records.contains(after[i]) by {
            if i < before.len() {
                assert(after[i] == before[i]);
                let j = choose|j: int|
                    0 <= j < records.drop_last().len() && records.drop_last()[j] == before[i];
                assert(records[j] == after[i]);
            } else {
                assert(after[i] == records[records.len() - 1]);
            }
        }
    }
}

/// Every record that the predicate holds of is kept.
pub proof fn lemma_kept_holds_all(
    records: Seq<RecordView>,
    keep: spec_fn(RecordView) -> bool,
    i: int,
)
    requires
        0 <= i < records.len(),
        keep(records[i]),
    ensures
        kept(records, keep).contains(records[i]),
    decreases records.len(),
{
    let after = kept(records, keep);
    if i == records.len() - 1 {
        assert(after[after.len() - 1] == records[i]);
    } else {
        let before = kept(records.drop_last(), keep);
        lemma_kept_holds_all(records.drop_last(), keep, i);
        let k = choose|k: int| 0 <= k < before.len() && before[k] == records.drop_last()[i];
        assert(after[k] == records[i]);
    }
}

/// What a predicate keeps and what it drops make up the input, by number.
pub proof fn lemma_kept_and_dropped(records: Seq<RecordView>, keep: spec_fn(RecordView) -> bool)
    ensures
        kept(records, keep).len() + kept(records, |r: RecordView| !keep(r)).len()
            == records.len(),
    decreases records.len(),
{
    if records.len() > 0 {
        lemma_kept_and_dropped(records.drop_last(), keep);
    }
}

/// After the cutoff filter every record is dated on the cutoff or later, and
/// the records that were dropped, those dated before it, are as many as the
/// filter made the sequence shorter.
pub proof fn lemma_since_filter(records: Seq<RecordView>, cutoff: Seq<char>)
    ensures
        forall|i: int|
            0 <= i < since_filter(records, cutoff).len() ==> text_le(
                cutoff,
                #[trigger] since_filter(records, cutoff)[i].date,
            ),
        before_filter(records, cutoff).len() == records.len() - since_filter(
            records,
            cutoff,
        ).len(),
{
    let keep = on_or_after(cutoff);
    lemma_kept(records, keep);
    lemma_kept_and_dropped(records, keep);
    lemma_kept_same(records, |r: RecordView| !keep(r), earlier_than(cutoff));
}

/// Predicates that agree keep the same.
pub proof fn lemma_kept_same(
    records: Seq<RecordView>,
    first: spec_fn(RecordView) -> bool,
    second: spec_fn(RecordView) -> bool,
)
    requires
        forall|r: RecordView| #[trigger] first(r) == second(r),
    ensures
        kept(records, first) == kept(records, second),
    decreases records.len(),
{
    if records.len() > 0 {
        lemma_kept_same(records.drop_last(), first, second);
    }
}

/// Keeps the records dated on the cutoff or later, in their order; dates are
/// compared as strings.
pub fn retain_since(records: Vec<Record>, cutoff: &str) -> (r: Vec<Record>)
    ensures
        record_views(r@) == since_filter(record_views(records@), cutoff@),
        forall|i: int| 0 <= i < r@.len() ==> text_le(cutoff@, #[trigger] r@[i]@.date),
        r@.len() <= records@.len(),
{
    let ghost all = record_views(records@);
    let mut out: Vec<Record> = Vec::new();
    assert(all.take(0) =~= Seq::empty());
    for record in it: records
        invariant
            it.seq() == records@,
            all == record_views(records@),
            record_views(out@) == since_filter(all.take(it.index() as int), cutoff@),
    {
        let ghost before = record_views(out@);
        let ghost upto = all.take(it.index() + 1);
        assert(upto.drop_last() =~= all.take(it.index() as int));
        assert(upto.last() == record@);
        if text_at_most(cutoff, record.date.as_str()) {
            out.push(record);
            assert(record_views(out@) =~= before.push(record@));
        }
    }
    assert(all.take(records@.len() as int) =~= all);
    proof {
        lemma_since_filter(all, cutoff@);
        lemma_kept(all, on_or_after(cutoff@));
        assert forall|i: int| 0 <= i < out@.len() implies text_le(
            cutoff@,
            #[trigger] out@[i]@.date,
        ) by {
            assert(since_filter(all, cutoff@)[i] == out@[i]@);
        }
    }
    out
}

/// Keeps the records of one day, in their order.
pub fn retain_day(records: Vec<Record>, day: &str) -> (r: Vec<Record>)
    ensures
        record_views(r@) == day_filter(record_views(records@), day@),
        forall|i: int| 0 <= i < r@.len() ==> (#[trigger] r@[i]@.date) == day@,
        r@.len() <= records@.len(),
{
    let ghost all = record_views(records@);
    let mut out: Vec<Record> = Vec::new();
    assert(all.take(0) =~= Seq::empty());
    for record in it: records
        invariant
            it.seq() == records@,
            all == record_views(records@),
            record_views(out@) == day_filter(all.take(it.index() as int), day@),
    {
        let ghost before = record_views(out@);
        let ghost upto = all.take(it.index() + 1);
        assert(upto.drop_last() =~= all.take(it.index() as int));
        assert(upto.last() == record@);
        if same_text(record.date.as_str(), day) {
            out.push(record);
            assert(record_views(out@) =~= before.push(record@));
        }
    }
    assert(all.take(records@.len() as int) =~= all);
    proof {
        lemma_kept(all, dated(day@));
        assert forall|i: int| 0 <= i < out@.len() implies (#[trigger] out@[i]@.date) == day@ by {
            assert(day_filter(all, day@)[i] == out@[i]@);
        }
    }
    out
}

/// The identifier of the record is a number above the threshold.
pub open spec fn exceeds(identifier: Seq<char>, threshold: u32) -> bool {
    match parsed_u32(identifier) {
        Some(n) => n > threshold,
        None => false,
    }
}

/// No record before the one at `i` carries its identifier.
pub open spec fn first_of_its_number(records: Seq<RecordView>, i: int) -> bool {
    forall|j: int| 0 <= j < i ==> (#[trigger] records[j]).identifier != records[i].identifier
}

/// The record at `i` is kept by the threshold filter: its number is above
/// the threshold and it is the first record of that number.
pub open spec fn is_first_above(records: Seq<RecordView>, threshold: u32, i: int) -> bool {
    exceeds(records[i].identifier, threshold) && first_of_its_number(records, i)
}

/// For each identifier above the threshold its first record, in the order
/// of the records.
pub open spec fn first_above(records: Seq<RecordView>, threshold: u32) -> Seq<RecordView>
    decreases records.len(),
{
    if records.len() == 0 {
        Seq::empty()
    } else if is_first_above(records, threshold, records.len() - 1) {
        first_above(records.drop_last(), threshold).push(records.last())
    } else {
        first_above(records.drop_last(), threshold)
    }
}

/// Some record among `records` carries the identifier.
pub open spec fn has_identifier(records: Seq<RecordView>, identifier: Seq<char>) -> bool {
    exists|k: int| 0 <= k < records.len() && (#[trigger] records[k]).identifier == identifier
}

/// The record stands in `records` as the first of its identifier, and its
/// number is above the threshold.
pub open spec fn is_first_record_above(
    records: Seq<RecordView>,
    threshold: u32,
    record: RecordView,
) -> bool {
    exists|i: int|
        0 <= i < records.len() && records[i] == record && #[trigger] is_first_above(
            records,
            threshold,
            i,
        )
}

/// No two records carry the same identifier.
pub open spec fn distinct_identifiers(records: Seq<RecordView>) -> bool {
    forall|k: int, m: int|
        0 <= k < m < records.len() ==> (#[trigger] records[k]).identifier != (
        #[trigger] records[m]).identifier
}

/// What the threshold filter gives: each record of the result is the first
/// of its identifier in the input; no identifier comes twice; and the
/// identifiers of the result are just those of the input that are numbers
/// above the threshold.
pub proof fn lemma_first_above(records: Seq<RecordView>, threshold: u32)
    ensures
        forall|k: int|
            0 <= k < first_above(records, threshold).len() ==> is_first_record_above(
                records,
                threshold,
                #[trigger] first_above(records, threshold)[k],
            ),
        distinct_identifiers(first_above(records, threshold)),
        forall|identifier: Seq<char>| #[trigger]
            has_identifier(first_above(records, threshold), identifier) <==> has_identifier(
                records,
                identifier,
            ) && exceeds(identifier, threshold),
        first_above(records, threshold).len() <= records.len(),
    decreases records.len(),
{
    let result = first_above(records, threshold);
    if records.len() > 0 {
        let shorter = records.drop_last();
        let before = first_above(shorter, threshold);
        let last = records.last();
        let n = records.len() - 1;
        lemma_first_above(shorter, threshold);
        assert forall|i: int| 0 <= i < n implies is_first_above(shorter, threshold, i)
            == is_first_above(records, threshold, i) by {
            assert(shorter[i] == records[i]);
            if first_of_its_number(shorter, i) {
                assert forall|j: int| 0 <= j < i implies (#[trigger] records[j]).identifier
                    != records[i].identifier by {
                    assert(shorter[j] == records[j]);
                }
            }
            if first_of_its_number(records, i) {
                assert forall|j: int| 0 <= j < i implies (#[trigger] shorter[j]).identifier
                    != shorter[i].identifier by {
                    assert(shorter[j] == records[j]);
                }
            }
        }
        assert forall|k: int| 0 <= k < result.len() implies is_first_record_above(
            records,
            threshold,
            #[trigger] result[k],
        ) by {
            if k < before.len() {
                assert(result[k] == before[k]);
                assert(is_first_record_above(shorter, threshold, before[k]));
                let i = choose|i: int|
                    0 <= i < shorter.len() && shorter[i] == before[k] && #[trigger] is_first_above(
                        shorter,
                        threshold,
                        i,
                    );
                assert(records[i] == result[k] && is_first_above(records, threshold, i));
            } else {
                assert(records[n] == result[k] && is_first_above(records, threshold, n));
            }
        }
        assert forall|k: int, m: int| 0 <= k < m < result.len() implies (#[trigger] result[k]).identifier
            != (#[trigger] result[m]).identifier by {
            if m < before.len() {
                assert(result[k] == before[k] && result[m] == before[m]);
            } else {
                assert(result[k] == before[k]);
                assert(is_first_record_above(shorter, threshold, before[k]));
                let i = choose|i: int|
                    0 <= i < shorter.len() && shorter[i] == before[k] && #[trigger] is_first_above(
                        shorter,
                        threshold,
                        i,
                    );
                assert(records[i] == before[k]);
            }
        }
        assert forall|identifier: Seq<char>| #[trigger]
            has_identifier(result, identifier) <==> has_identifier(records, identifier)
                && exceeds(identifier, threshold) by {
            if has_identifier(result, identifier) {
                let k = choose|k: int|
                    0 <= k < result.len() && (#[trigger] result[k]).identifier == identifier;
                assert(is_first_record_above(records, threshold, result[k]));
                let i = choose|i: int|
                    0 <= i < records.len() && records[i] == result[k] && #[trigger] is_first_above(
                        records,
                        threshold,
                        i,
                    );
                assert(records[i].identifier == identifier);
            }
            if has_identifier(records, identifier) && exceeds(identifier, threshold) {
                let i = choose|i: int|
                    0 <= i < records.len() && (#[trigger] records[i]).identifier == identifier;
                if i < n {
                    assert(shorter[i].identifier == identifier);
                    assert(has_identifier(shorter, identifier));
                    assert(has_identifier(before, identifier));
                    let k = choose|k: int|
                        0 <= k < before.len() && (#[trigger] before[k]).identifier == identifier;
                    assert(result[k].identifier == identifier);
                } else if is_first_above(records, threshold, n) {
                    assert(result[result.len() - 1].identifier == identifier);
                } else {
                    let j = choose|j: int|
                        0 <= j < n && (#[trigger] records[j]).identifier == records[n].identifier;
                    assert(shorter[j].identifier == identifier);
                    assert(has_identifier(shorter, identifier));
                    assert(has_identifier(before, identifier));
                    let k = choose|k: int|
                        0 <= k < before.len() && (#[trigger] before[k]).identifier == identifier;
                    assert(result[k].identifier == identifier);
                }
            }
        }
    }
}

/// Keeps, of each identifier that is a number above the threshold, the
/// first record, in the order of the records.
pub fn retain_first_above(records: Vec<Record>, threshold: u32) -> (r: Vec<Record>)
    ensures
        record_views(r@) == first_above(record_views(records@), threshold),
        r@.len() <= records@.len(),
{
    let ghost all = record_views(records@);
    let mut out: Vec<Record> = Vec::new();
    let mut seen = TextSet::new();
    assert(all.take(0) =~= Seq::empty());
    for record in it: records
        invariant
            it.seq() == records@,
            all == record_views(records@),
            record_views(out@) == first_above(all.take(it.index() as int), threshold),
            forall|identifier: Seq<char>| #[trigger]
                seen@.contains(identifier) <==> has_identifier(record_views(out@), identifier),
    {
        let ghost before = record_views(out@);
        let ghost seen_before = seen@;
        let ghost earlier = all.take(it.index() as int);
        let ghost upto = all.take(it.index() + 1);
        assert(upto.drop_last() =~= earlier);
        assert(upto.last() == record@);
        let above = match parse_u32(record.identifier.as_str()) {
            Some(n) => n > threshold,
            None => false,
        };
        if above && !seen.contains(record.identifier.as_str()) {
            proof {
                lemma_first_above(earlier, threshold);
                assert forall|j: int| 0 <= j < upto.len() - 1 implies (#[trigger] upto[j]).identifier
                    != upto[upto.len() - 1].identifier by {
                    if upto[j].identifier == record@.identifier {
                        assert(earlier[j].identifier == record@.identifier);
                        assert(has_identifier(earlier, record@.identifier));
                    }
                }
            }
            seen = seen.with(record.identifier.clone());
            out.push(record);
            proof {
                let after = record_views(out@);
                assert(after =~= before.push(record@));
                assert forall|identifier: Seq<char>| #[trigger]
                    seen@.contains(identifier) <==> has_identifier(after, identifier) by {
                    if has_identifier(before, identifier) {
                        let k = choose|k: int|
                            0 <= k < before.len() && (#[trigger] before[k]).identifier
                                == identifier;
                        assert(after[k].identifier == identifier);
                    }
                    if identifier == record@.identifier {
                        assert(after[after.len() - 1].identifier == identifier);
                    }
                    if has_identifier(after, identifier) {
                        let k = choose|k: int|
                            0 <= k < after.len() && (#[trigger] after[k]).identifier == identifier;
                        if k < before.len() {
                            assert(before[k].identifier == identifier);
                        }
                    }
                }
            }
        } else {
            proof {
                if above {
                    lemma_first_above(earlier, threshold);
                    assert(has_identifier(earlier, record@.identifier));
                    let j = choose|j: int|
                        0 <= j < earlier.len() && (#[trigger] earlier[j]).identifier
                            == record@.identifier;
                    assert(upto[j].identifier == upto[upto.len() - 1].identifier);
                }
            }
        }
    }
    assert(all.take(records@.len() as int) =~= all);
    proof {
        lemma_first_above(all, threshold);
    }
    out
}

} // verus!
