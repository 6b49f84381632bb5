//! The report of a run: the filters in their order, then one of two shapes.

use crate::identifiers::{
    count_distinct_identifiers, identifiers_of, is_padded_number_of, lemma_number_list,
    number_list, numbers_of, shows_number,
};
use crate::options::{FilterRequest, FilterRequestView};
use crate::order::{
    is_newest_first, lemma_newest_first, lemma_newest_first_keeps, newest_first,
    sort_newest_first, strictly_increasing,
};
use crate::record::{record_views, text_views, Record, RecordView};
use crate::render::{csv_table, lines_text, render_list, render_table, RenderError};
use crate::select::{
    dated, day_filter, distinct_identifiers, exceeds, first_above, has_identifier,
    is_first_record_above, lemma_first_above, lemma_kept, lemma_kept_holds_all, lemma_since_filter,
    retain_day, retain_first_above, retain_since, since_filter,
};
use crate::text::text_le;
use vstd::prelude::*;
use vstd::string::StrSliceExecFns;
use vstd::string::StringSliceAdditionalSpecFns;
use vstd::utf8::encode_utf8;

verus! {

/// What a run reports.
#[derive(Debug, PartialEq, Eq)]
pub enum Report {
    /// The numbers of the day, padded, sorted, each once.
    Numbers(Vec<String>),
    /// The records, the newest first.
    Table(Vec<Record>),
}

/// What a `Report` holds, as sequences.
pub enum ReportView {
    Numbers(Seq<Seq<char>>),
    Table(Seq<RecordView>),
}

impl View for Report {
    type V = ReportView;

    open spec fn view(&self) -> ReportView {
        match self {
            Report::Numbers(list) => ReportView::Numbers(text_views(list@)),
            Report::Table(records) => ReportView::Table(record_views(records@)),
        }
    }
}

/// A report with the counts that a run tells the user.
#[derive(Debug, PartialEq, Eq)]
pub struct Outcome {
    pub report: Report,
    /// How many records were given.
    pub total: usize,
    /// How many different identifiers they carry.
    pub distinct_identifiers: usize,
    /// How many records the cutoff left; all of them where there is none.
    pub after_since: usize,
    /// How many of those the mode chose: the records of the day, the
    /// identifiers above the threshold, or all of them.
    pub selected: usize,
}

/// The records that the cutoff leaves; all of them where there is none.
pub open spec fn since_base(records: Seq<RecordView>, since: Option<Seq<char>>) -> Seq<
    RecordView,
> {
    match since {
        Some(cutoff) => since_filter(records, cutoff),
        None => records,
    }
}

/// The records that the mode chooses among those that the cutoff left.
pub open spec fn selection(
    records: Seq<RecordView>,
    request: FilterRequestView,
    today: Seq<char>,
) -> Seq<RecordView> {
    let base = since_base(records, request.since);
    if request.today_mode {
        day_filter(base, today)
    } else {
        match request.larger_threshold {
            Some(threshold) => first_above(base, threshold),
            None => base,
        }
    }
}

/// The report of a request: first the cutoff; then either the numbers of
/// the records of `today`, or the table of what the threshold leaves, the
/// newest first.
pub open spec fn report_of(
    records: Seq<RecordView>,
    request: FilterRequestView,
    today: Seq<char>,
) -> ReportView {
    if request.today_mode {
        ReportView::Numbers(number_list(selection(records, request, today)))
    } else {
        ReportView::Table(newest_first(selection(records, request, today)))
    }
}

/// Applies the request to the records. `today` is the current day as
/// `YYYY-MM-DD`; it counts only where the request asks for the day's list.
pub fn build_report(records: Vec<Record>, request: &FilterRequest, today: &str) -> (out: Outcome)
    ensures
        out.report@ == report_of(record_views(records@), request@, today@),
        out.total == records@.len(),
        out.distinct_identifiers == identifiers_of(record_views(records@)).to_set().len(),
        out.after_since == since_base(record_views(records@), request@.since).len(),
        out.selected == selection(record_views(records@), request@, today@).len(),
{
    let total = records.len();
    let distinct_identifiers = count_distinct_identifiers(&records);
    let base = match &request.since {
        Some(cutoff) => retain_since(records, cutoff.as_str()),
        None => records,
    };
    let after_since = base.len();
    assert(record_views(base@).len() == base@.len());
    if request.today_mode {
        let chosen = retain_day(base, today);
        let list = numbers_of(&chosen);
        assert(record_views(chosen@).len() == chosen@.len());
        Outcome {
            report: Report::Numbers(list),
            total,
            distinct_identifiers,
            after_since,
            selected: chosen.len(),
        }
    } else {
        let chosen = match request.larger_threshold {
            Some(threshold) => retain_first_above(base, threshold),
            None => base,
        };
        let selected = chosen.len();
        assert(record_views(chosen@).len() == chosen@.len());
        Outcome {
            report: Report::Table(sort_newest_first(chosen)),
            total,
            distinct_identifiers,
            after_since,
            selected,
        }
    }
}

/// The bytes of a report: the list one number to the line, the table as
/// CSV.
pub open spec fn rendered(report: ReportView) -> Seq<u8> {
    match report {
        ReportView::Numbers(list) => encode_utf8(lines_text(list)),
        ReportView::Table(records) => csv_table(records),
    }
}

/// Writes a report out as the bytes of its file. Writing goes into memory
/// and does not fail.
pub fn render_report(report: &Report) -> (r: Result<Vec<u8>, RenderError>)
    ensures
        r is Ok,
        r matches Ok(bytes) ==> bytes@ == rendered(report@),
{
    match report {
        Report::Numbers(list) => {
            let text = render_list(list);
            Ok(text.as_str().as_bytes_vec())
        },
        Report::Table(records) => render_table(records),
    }
}

/// Some record of the day carries the number that `text` shows padded.
pub open spec fn is_number_of_day(records: Seq<RecordView>, day: Seq<char>, text: Seq<char>) -> bool {
    exists|i: int|
        0 <= i < records.len() && records[i].date == day && #[trigger] shows_number(
            records[i].identifier,
            text,
        )
}

/// The day's list holds the padded numbers of the records that the cutoff
/// left and that are dated `today`, and no others; it is sorted, and no
/// number stands in it twice.
pub proof fn lemma_today_report(
    records: Seq<RecordView>,
    request: FilterRequestView,
    today: Seq<char>,
)
    requires
        request.today_mode,
    ensures
        report_of(records, request, today) is Numbers,
        strictly_increasing(report_of(records, request, today)->Numbers_0),
        forall|text: Seq<char>| #[trigger]
            report_of(records, request, today)->Numbers_0.contains(text) <==> is_number_of_day(
                since_base(records, request.since),
                today,
                text,
            ),
{
    let base = since_base(records, request.since);
    let chosen = day_filter(base, today);
    let list = number_list(chosen);
    lemma_number_list(chosen);
    lemma_kept(base, dated(today));
    assert forall|text: Seq<char>| #[trigger]
        list.contains(text) <==> is_number_of_day(base, today, text) by {
        if list.contains(text) {
            assert(is_padded_number_of(chosen, text));
            let k = choose|k: int|
                0 <= k < chosen.len() && #[trigger] shows_number(chosen[k].identifier, text);
            assert(base.contains(chosen[k]));
            let i = choose|i: int| 0 <= i < base.len() && base[i] == chosen[k];
            assert(shows_number(base[i].identifier, text));
        }
        if is_number_of_day(base, today, text) {
            let i = choose|i: int|
                0 <= i < base.len() && base[i].date == today && #[trigger] shows_number(
                    base[i].identifier,
                    text,
                );
            lemma_kept_holds_all(base, dated(today), i);
            let k = choose|k: int| 0 <= k < chosen.len() && chosen[k] == base[i];
            assert(shows_number(chosen[k].identifier, text));
            assert(is_padded_number_of(chosen, text));
        }
    }
}

/// With a threshold the table holds, of each identifier that is a number
/// above it and stands in what the cutoff left, the first record, and holds
/// nothing else: no identifier comes twice, and none is missing. The rows
/// are the newest first.
pub proof fn lemma_threshold_report(
    records: Seq<RecordView>,
    request: FilterRequestView,
    today: Seq<char>,
)
    requires
        !request.today_mode,
        request.larger_threshold is Some,
    ensures
        report_of(records, request, today) is Table,
        is_newest_first(report_of(records, request, today)->Table_0),
        distinct_identifiers(report_of(records, request, today)->Table_0),
        forall|identifier: Seq<char>| #[trigger]
            has_identifier(report_of(records, request, today)->Table_0, identifier)
                <==> has_identifier(since_base(records, request.since), identifier) && exceeds(
                identifier,
                request.larger_threshold->0,
            ),
        forall|k: int|
            0 <= k < report_of(records, request, today)->Table_0.len() ==> is_first_record_above(
                since_base(records, request.since),
                request.larger_threshold->0,
                #[trigger] report_of(records, request, today)->Table_0[k],
            ),
{
    let base = since_base(records, request.since);
    let threshold = request.larger_threshold->0;
    let chosen = first_above(base, threshold);
    let rows = newest_first(chosen);
    lemma_first_above(base, threshold);
    lemma_newest_first(chosen, Seq::empty());
    lemma_newest_first_keeps(chosen);
    assert forall|identifier: Seq<char>| #[trigger]
        has_identifier(rows, identifier) <==> has_identifier(base, identifier) && exceeds(
            identifier,
            threshold,
        ) by {
        assert(has_identifier(rows, identifier) <==> has_identifier(chosen, identifier));
    }
    assert forall|k: int| 0 <= k < rows.len() implies is_first_record_above(
        base,
        threshold,
        #[trigger] rows[k],
    ) by {
        assert(chosen.contains(rows[k]));
        let m = choose|m: int| 0 <= m < chosen.len() && chosen[m] == rows[k];
        assert(is_first_record_above(base, threshold, chosen[m]));
    }
}

/// With a cutoff every record that a table shows is dated on the cutoff or
/// later.
pub proof fn lemma_cutoff_holds_in_table(
    records: Seq<RecordView>,
    request: FilterRequestView,
    today: Seq<char>,
)
    requires
        !request.today_mode,
        request.since is Some,
    ensures
        forall|k: int|
            0 <= k < report_of(records, request, today)->Table_0.len() ==> text_le(
                request.since->0,
                (#[trigger] report_of(records, request, today)->Table_0[k]).date,
            ),
{
    let cutoff = request.since->0;
    let base = since_filter(records, cutoff);
    let chosen = selection(records, request, today);
    let rows = newest_first(chosen);
    lemma_since_filter(records, cutoff);
    lemma_newest_first_keeps(chosen);
    if request.larger_threshold is Some {
        lemma_first_above(base, request.larger_threshold->0);
    }
    assert forall|k: int| 0 <= k < rows.len() implies text_le(cutoff, (#[trigger] rows[k]).date) by {
        assert(chosen.contains(rows[k]));
        let m = choose|m: int| 0 <= m < chosen.len() && chosen[m] == rows[k];
        if request.larger_threshold is Some {
            assert(is_first_record_above(base, request.larger_threshold->0, chosen[m]));
            let i = choose|i: int|
                0 <= i < base.len() && base[i] == chosen[m] && #[trigger] crate::select::is_first_above(
                    base,
                    request.larger_threshold->0,
                    i,
                );
            assert(text_le(cutoff, base[i].date));
        } else {
            assert(text_le(cutoff, base[m].date));
        }
    }
}

} // verus!
