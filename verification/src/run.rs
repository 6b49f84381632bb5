//! A whole run on a document that is in memory: read the records, apply
//! the request, write the report out.

use crate::calendar::{dotted_text, iso_text, CalendarDate};
use crate::document::{document_records, extract, ParseError};
use crate::identifiers::identifiers_of;
use crate::options::{
    extract_date_from_filename, filename_date, mode_of, output_file_name, output_name,
    FilterRequest,
};
use crate::record::record_views;
use crate::render::RenderError;
use crate::report::{
    build_report, render_report, rendered, report_of, selection, since_base, Outcome,
};
use vstd::prelude::*;

verus! {

/// Why a run gave no report.
#[derive(Debug, PartialEq, Eq)]
pub enum RunError {
    /// The document cannot be read.
    Parse(ParseError),
    /// The report cannot be written out.
    Render(RenderError),
}

/// What a run gives: the report with its counts, the bytes of its file, and
/// the name of that file.
#[derive(Debug, PartialEq, Eq)]
pub struct RunOutput {
    pub outcome: Outcome,
    pub bytes: Vec<u8>,
    pub file_name: String,
}

/// The date for the name of the report: that of the source's name, else
/// the given day.
pub open spec fn report_stamp(source_name: Seq<char>, year: nat, month: nat, day: nat) -> Seq<
    char,
> {
    match filename_date(source_name) {
        Some(date) => date,
        None => dotted_text(year, month, day),
    }
}

/// Reads the records out of `document`, applies the request and writes the
/// report out. `source_name` is the file name of the document, without its
/// directory; `today` is the current day. A document that cannot be read
/// gives `Parse`, and no report. Writing the report out goes into memory
/// and does not fail, so `Render` does not come.
pub fn produce_report(
    document: &[u8],
    source_name: &str,
    request: &FilterRequest,
    today: &CalendarDate,
) -> (r: Result<RunOutput, RunError>)
    ensures
        match r {
            Ok(out) => {
                &&& document_records(document@) is Some
                &&& out.outcome.report@ == report_of(
                    document_records(document@)->0,
                    request@,
                    iso_text(today.year(), today.month(), today.day()),
                )
                &&& out.outcome.total == document_records(document@)->0.len()
                &&& out.outcome.distinct_identifiers == identifiers_of(
                    document_records(document@)->0,
                ).to_set().len()
                &&& out.outcome.after_since == since_base(
                    document_records(document@)->0,
                    request@.since,
                ).len()
                &&& out.outcome.selected == selection(
                    document_records(document@)->0,
                    request@,
                    iso_text(today.year(), today.month(), today.day()),
                ).len()
                &&& out.bytes@ == rendered(out.outcome.report@)
                &&& out.file_name@ == output_name(
                    mode_of(request@),
                    report_stamp(source_name@, today.year(), today.month(), today.day()),
                )
            },
            Err(e) => document_records(document@) is None && e is Parse,
        },
{
    let stamp = extract_date_from_filename(source_name, today);
    let file_name = output_file_name(request.mode(), stamp.as_str());
    let records = match extract(document) {
        Ok(records) => records,
        Err(e) => {
            return Err(RunError::Parse(e));
        },
    };
    let day = today.iso();
    assert(record_views(records@).len() == records@.len());
    let outcome = build_report(records, request, day.as_str());
    match render_report(&outcome.report) {
        Ok(bytes) => Ok(RunOutput { outcome, bytes, file_name }),
        Err(e) => Err(RunError::Render(e)),
    }
}

} // verus!
