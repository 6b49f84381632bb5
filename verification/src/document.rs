//! Reading the registry document: the events come from `quick_xml`, one at
//! a time, and go through the extractor as they come.

use crate::extract::{
    extracted_records, is_authorization_number, lemma_identifiers_are_five_digits, run, Extractor,
    XmlEvent, XmlEventView,
};
use crate::record::{record_views, Record, RecordView};
use vstd::prelude::*;

verus! {

/// `quick_xml::Reader`, carried through as it is.
#[verifier::external_type_specification]
#[verifier::external_body]
#[verifier::reject_recursive_types(R)]
pub struct ExReader<R>(quick_xml::Reader<R>);

/// `quick_xml::Error`, carried through as it is.
#[verifier::external_type_specification]
#[verifier::external_body]
pub struct ExXmlError(quick_xml::Error);

/// What one read of the document gives.
pub enum Parsed {
    /// An event.
    Event(XmlEventView),
    /// The end of the document.
    End,
    /// Markup that cannot be read, or text that cannot be unescaped.
    Failure,
}

/// What a `quick_xml` reader that trims text gives on a document, read by
/// read, up to and including the first time that it reports the end: the
/// events, with local names and unescaped text, and the failures between
/// them.
pub uninterp spec fn document_events(document: Seq<u8>) -> Seq<Parsed>;

/// What a reader gives from where it stands, read by read, up to and
/// including the first time that it reports the end.
pub uninterp spec fn pending_events(reader: quick_xml::Reader<&[u8]>) -> Seq<Parsed>;

/// A run of reads is whole where the end closes it and stands nowhere else.
pub open spec fn is_whole(stream: Seq<Parsed>) -> bool {
    &&& stream.len() > 0
    &&& stream.last() is End
    &&& forall|i: int| 0 <= i < stream.len() - 1 ==> !(#[trigger] stream[i] is End)
}

/// The first `n` reads are events.
pub open spec fn all_events(stream: Seq<Parsed>, n: int) -> bool {
    forall|i: int| 0 <= i < n ==> #[trigger] stream[i] is Event
}

/// The events of the first `n` reads.
pub open spec fn events_before(stream: Seq<Parsed>, n: int) -> Seq<XmlEventView> {
    Seq::new(n as nat, |i: int| stream[i]->Event_0)
}

/// The records of a document: those that the extractor gives on its events,
/// where every read before the end gives an event; none where one fails.
pub open spec fn document_records(document: Seq<u8>) -> Option<Seq<RecordView>> {
    let stream = document_events(document);
    if all_events(stream, stream.len() - 1) {
        Some(extracted_records(events_before(stream, stream.len() - 1)))
    } else {
        None
    }
}

/// `quick_xml::Reader::from_reader` on the bytes, with `trim_text(true)` set
/// on its configuration. Claimed: what the reader will give depends on the
/// bytes alone, and it reports the end after finitely many reads, since
/// every read before that uses up input.
#[verifier::external_body]
fn open_reader<'a>(document: &'a [u8]) -> (reader: quick_xml::Reader<&'a [u8]>)
    ensures
        pending_events(reader) == document_events(document@),
        is_whole(pending_events(reader)),
{
    let mut reader = quick_xml::Reader::from_reader(document);
    reader.config_mut().trim_text(true);
    reader
}

/// `quick_xml::Reader::read_event`, the event turned into one of this
/// library: the local name of a start or end tag, the unescaped text of
/// character data, `None` at the end of the document; an error where the
/// read or `BytesText::unescape` fails. Claimed: the outcome is the first of
/// what the reader had yet to give, and unless it is the end, the rest is
/// what the reader has yet to give afterwards.
#[verifier::external_body]
fn next_event(reader: &mut quick_xml::Reader<&[u8]>) -> (r: Result<
    Option<XmlEvent>,
    quick_xml::Error,
>)
    requires
        pending_events(*old(reader)).len() > 0,
    ensures
        match r {
            Ok(Some(event)) => pending_events(*old(reader))[0] == Parsed::Event(event@),
            Ok(None) => pending_events(*old(reader))[0] == Parsed::End,
            Err(_) => pending_events(*old(reader))[0] == Parsed::Failure,
        },
        !(r matches Ok(None)) ==> pending_events(*final(reader)) == pending_events(
            *old(reader),
        ).drop_first(),
{
    Ok(
        match reader.read_event()? {
            quick_xml::events::Event::Start(e) => Some(
                XmlEvent::Start(e.local_name().as_ref().to_vec()),
            ),
            quick_xml::events::Event::End(e) => Some(
                XmlEvent::End(e.local_name().as_ref().to_vec()),
            ),
            quick_xml::events::Event::Text(e) => Some(XmlEvent::Text(e.unescape()?.into_owned())),
            quick_xml::events::Event::Eof => None,
            _ => Some(XmlEvent::Other),
        },
    )
}

/// The text that `quick_xml` gives one of its errors.
#[verifier::external_body]
fn xml_error_text(e: &quick_xml::Error) -> String {
    e.to_string()
}

/// The document cannot be read; the text says why.
#[derive(Debug, PartialEq, Eq)]
pub struct ParseError {
    pub message: String,
}

/// Reads the records out of a document in one pass over its events. Markup
/// that cannot be read ends the pass with an error, and no record is
/// returned then.
pub fn extract(document: &[u8]) -> (r: Result<Vec<Record>, ParseError>)
    ensures
        match r {
            Ok(records) => document_records(document@) == Some(record_views(records@)),
            Err(_) => document_records(document@) is None,
        },
        r matches Ok(records) ==> forall|i: int|
            0 <= i < records@.len() ==> is_authorization_number(#[trigger] records@[i]@.identifier),
{
    let mut reader = open_reader(document);
    let mut state = Extractor::new();
    let mut records: Vec<Record> = Vec::new();
    let ghost stream = document_events(document@);
    let ghost mut read: int = 0;
    assert(stream.skip(0) =~= stream);
    assert(events_before(stream, 0) =~= Seq::empty());
    loop
        invariant
            stream == document_events(document@),
            is_whole(stream),
            0 <= read < stream.len(),
            pending_events(reader) == stream.skip(read),
            all_events(stream, read),
            (state@, record_views(records@)) == run(events_before(stream, read)),
        decreases stream.len() - read,
    {
        let ghost before = record_views(records@);
        let ghost seen = events_before(stream, read);
        assert(stream.skip(read)[0] == stream[read]);
        assert(stream.skip(read).drop_first() =~= stream.skip(read + 1));
        match next_event(&mut reader) {
            Err(e) => {
                assert(read < stream.len() - 1);
                assert(!(stream[read] is Event));
                return Err(ParseError { message: xml_error_text(&e) });
            },
            Ok(None) => {
                assert(read == stream.len() - 1);
                proof {
                    let all = events_before(stream, read);
                    lemma_identifiers_are_five_digits(all);
                    assert forall|i: int| 0 <= i < records@.len() implies is_authorization_number(
                        #[trigger] records@[i]@.identifier,
                    ) by {
                        assert(extracted_records(all)[i] == records@[i]@);
                        assert(is_authorization_number(extracted_records(all)[i].identifier));
                    }
                }
                return Ok(records);
            },
            Ok(Some(event)) => {
                assert(read < stream.len() - 1);
                let ghost upto = events_before(stream, read + 1);
                assert(upto.drop_last() =~= seen);
                assert(upto.last() == event@);
                if let Some(record) = state.feed(&event) {
                    records.push(record);
                    assert(record_views(records@) =~= before.push(record@));
                }
                proof {
                    read = read + 1;
                }
            },
        }
    }
}

/// Reading is a function of the document: the same bytes give the same
/// records, or fail alike.
pub proof fn lemma_extraction_repeats(first: Seq<u8>, second: Seq<u8>)
    requires
        first == second,
    ensures
        document_records(first) == document_records(second),
{
}

} // verus!
