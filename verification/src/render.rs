//! The two shapes of output: a list of identifiers, one to the line, and a
//! table in CSV.

use crate::record::{record_views, text_views, Record, RecordView};
use vstd::prelude::*;
use vstd::string::StringExecFns;
use crate::text::{all_digits, is_digit};
use vstd::utf8::{encode_utf8, is_ascii_chars, is_ascii_chars_encode_utf8};

verus! {

/// The texts, each closed by a line feed.
pub open spec fn lines_text(list: Seq<Seq<char>>) -> Seq<char>
    decreases list.len(),
{
    if list.len() == 0 {
        Seq::empty()
    } else {
        lines_text(list.drop_last()) + list.last() + seq!['\n']
    }
}

/// Writes the texts one to the line, with no header.
pub fn render_list(list: &Vec<String>) -> (r: String)
    ensures
        r@ == lines_text(text_views(list@)),
{
    let mut out = String::new();
    let mut i: usize = 0;
    assert(text_views(list@).take(0) =~= Seq::empty());
    while i < list.len()
        invariant
            i <= list.len(),
            out@ == lines_text(text_views(list@).take(i as int)),
        decreases list.len() - i,
    {
        let ghost upto = text_views(list@).take(i as int + 1);
        assert(upto.drop_last() =~= text_views(list@).take(i as int));
        assert(upto.last() == list@[i as int]@);
        out.append(list[i].as_str());
        out.append("\n");
        proof {
            reveal_strlit("\n");
            assert("\n"@ =~= seq!['\n']);
        }
        i += 1;
    }
    assert(text_views(list@).take(i as int) =~= text_views(list@));
    out
}

/// `csv::Error`, carried through as it is.
#[verifier::external_type_specification]
#[verifier::external_body]
pub struct ExCsvError(csv::Error);

/// A byte that makes `csv` put a field in quotes: comma, quote, carriage
/// return, line feed.
pub open spec fn is_special(b: u8) -> bool {
    b == 0x2c || b == 0x22 || b == 0x0d || b == 0x0a
}

/// The field holds a byte that calls for quotes.
pub open spec fn needs_quotes(field: Seq<u8>) -> bool {
    exists|i: int| 0 <= i < field.len() && is_special(#[trigger] field[i])
}

/// The field with every quote in it written twice.
pub open spec fn with_quotes_doubled(field: Seq<u8>) -> Seq<u8>
    decreases field.len(),
{
    if field.len() == 0 {
        Seq::empty()
    } else if field.last() == 0x22 {
        with_quotes_doubled(field.drop_last()) + seq![0x22u8, 0x22u8]
    } else {
        with_quotes_doubled(field.drop_last()).push(field.last())
    }
}

/// A field as it stands in a line: as it is, or in quotes, with the quotes
/// inside doubled, where it holds a byte that calls for them.
pub open spec fn csv_field(field: Seq<u8>) -> Seq<u8> {
    if needs_quotes(field) {
        seq![0x22u8] + with_quotes_doubled(field) + seq![0x22u8]
    } else {
        field
    }
}

/// The line of a record of two fields: the fields with a comma between
/// them and a line feed at the end.
pub open spec fn csv_line(first: Seq<char>, second: Seq<char>) -> Seq<u8> {
    csv_field(encode_utf8(first)) + seq![0x2cu8] + csv_field(encode_utf8(second)) + seq![0x0au8]
}

/// `csv::Writer::from_writer` on an empty buffer, one `write_record` of the
/// two fields, and `into_inner`. Claimed, of the writer as `csv` sets it up
/// by default: the fields are written with a comma between them and a line
/// feed at the end; a field is put in quotes just where it holds a comma, a
/// quote, a carriage return or a line feed, and quotes inside it are then
/// doubled; and writing into a buffer does not fail.
#[verifier::external_body]
fn csv_row(first: &str, second: &str) -> (r: Result<Vec<u8>, csv::Error>)
    ensures
        r is Ok,
        r matches Ok(bytes) ==> bytes@ == csv_line(first@, second@),
{
    let mut writer = csv::Writer::from_writer(Vec::new());
    writer.write_record([first, second])?;
    writer.into_inner().map_err(|e| csv::Error::from(e.into_error()))
}

/// The text that `csv` gives one of its errors.
#[verifier::external_body]
fn csv_error_text(e: &csv::Error) -> String {
    e.to_string()
}

/// A run of digits is written as it is, without quotes.
pub proof fn lemma_digits_are_written_plain(text: Seq<char>)
    requires
        all_digits(text),
    ensures
        csv_field(encode_utf8(text)) == encode_utf8(text),
{
    let bytes = encode_utf8(text);
    assert forall|i: int| 0 <= i < text.len() implies '\0' <= #[trigger] text[i] <= '\u{7f}' by {
        assert(is_digit(text[i]));
    }
    assert(is_ascii_chars(text));
    is_ascii_chars_encode_utf8(text);
    assert forall|i: int| 0 <= i < bytes.len() implies !is_special(#[trigger] bytes[i]) by {
        assert(is_digit(text[i]));
        assert(bytes[i] == text[i] as u8);
    }
}

/// The lines of the records, one after the other.
pub open spec fn csv_rows(records: Seq<RecordView>) -> Seq<u8>
    decreases records.len(),
{
    if records.len() == 0 {
        Seq::empty()
    } else {
        csv_rows(records.drop_last()) + csv_line(records.last().identifier, records.last().date)
    }
}

/// The table: the header `identifier,date`, then the lines of the records.
pub open spec fn csv_table(records: Seq<RecordView>) -> Seq<u8> {
    csv_line("identifier"@, "date"@) + csv_rows(records)
}

/// The table cannot be written; the text says why.
#[derive(Debug, PartialEq, Eq)]
pub struct RenderError {
    pub message: String,
}

/// Writes the records as CSV under the header `identifier,date`, one line
/// for each record, in their order. Writing goes into memory and does not
/// fail.
pub fn render_table(records: &Vec<Record>) -> (r: Result<Vec<u8>, RenderError>)
    ensures
        r is Ok,
        r matches Ok(bytes) ==> bytes@ == csv_table(record_views(records@)),
{
    let ghost all = record_views(records@);
    let mut out = match csv_row("identifier", "date") {
        Ok(header) => header,
        Err(e) => {
            return Err(RenderError { message: csv_error_text(&e) });
        },
    };
    let ghost header = out@;
    let mut i: usize = 0;
    assert(all.take(0) =~= Seq::empty());
    assert(header + Seq::<u8>::empty() =~= header);
    while i < records.len()
        invariant
            i <= records.len(),
            all == record_views(records@),
            header == csv_line("identifier"@, "date"@),
            out@ == header + csv_rows(all.take(i as int)),
        decreases records.len() - i,
    {
        let ghost upto = all.take(i as int + 1);
        assert(upto.drop_last() =~= all.take(i as int));
        assert(upto.last() == records@[i as int]@);
        let mut line = match csv_row(records[i].identifier.as_str(), records[i].date.as_str()) {
            Ok(line) => line,
            Err(e) => {
                return Err(RenderError { message: csv_error_text(&e) });
            },
        };
        let ghost added = line@;
        out.append(&mut line);
        assert(out@ =~= header + (csv_rows(all.take(i as int)) + added));
        i += 1;
    }
    assert(all.take(i as int) =~= all);
    Ok(out)
}

} // verus!
