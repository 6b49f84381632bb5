//! The extractor: a machine of four flags and one date that is fed the parse
//! events of the registry document and gives out the records.

use crate::record::{record_views, Record, RecordView};
use crate::text::{
    all_digit_chars, all_digits, chars_of, prefix_before, same_bytes, take_before, trim,
    trimmed,
};
use vstd::prelude::*;
use vstd::string::StringSliceAdditionalSpecFns;
use vstd::utf8::encode_utf8;

verus! {

/// One parse event, as far as the extractor looks at it.
#[derive(Debug, PartialEq, Eq)]
pub enum XmlEvent {
    /// An opening tag, with the local name of its element.
    Start(Vec<u8>),
    /// A closing tag, with the local name of its element.
    End(Vec<u8>),
    /// Character data, unescaped.
    Text(String),
    /// Any other event.
    Other,
}

/// What an `XmlEvent` holds, as sequences.
pub enum XmlEventView {
    Start(Seq<u8>),
    End(Seq<u8>),
    Text(Seq<char>),
    Other,
}

impl View for XmlEvent {
    type V = XmlEventView;

    open spec fn view(&self) -> XmlEventView {
        match self {
            XmlEvent::Start(name) => XmlEventView::Start(name@),
            XmlEvent::End(name) => XmlEventView::End(name@),
            XmlEvent::Text(text) => XmlEventView::Text(text@),
            XmlEvent::Other => XmlEventView::Other,
        }
    }
}

/// The views of a sequence of events, in order.
pub open spec fn event_views(events: Seq<XmlEvent>) -> Seq<XmlEventView> {
    Seq::new(events.len(), |i: int| events[i]@)
}

/// The elements that the extractor knows.
#[derive(Debug, Clone, Copy, PartialEq, Eq, Structural)]
pub enum Tag {
    Bundle,
    Date,
    RegulatedAuthorization,
    Identifier,
    Unrelated,
}

/// The element that a local name stands for.
pub open spec fn tag_of(name: Seq<u8>) -> Tag {
    if name == encode_utf8("MedicinalDocumentsBundle"@) {
        Tag::Bundle
    } else if name == encode_utf8("Date"@) {
        Tag::Date
    } else if name == encode_utf8("RegulatedAuthorization"@) {
        Tag::RegulatedAuthorization
    } else if name == encode_utf8("Identifier"@) {
        Tag::Identifier
    } else {
        Tag::Unrelated
    }
}

/// Tells which element a local name stands for.
pub fn classify_tag(name: &[u8]) -> (tag: Tag)
    ensures
        tag == tag_of(name@),
{
    if same_bytes(name, "MedicinalDocumentsBundle".as_bytes()) {
        Tag::Bundle
    } else if same_bytes(name, "Date".as_bytes()) {
        Tag::Date
    } else if same_bytes(name, "RegulatedAuthorization".as_bytes()) {
        Tag::RegulatedAuthorization
    } else if same_bytes(name, "Identifier".as_bytes()) {
        Tag::Identifier
    } else {
        Tag::Unrelated
    }
}

/// An authorization number as the records carry it: exactly five digits.
pub open spec fn is_authorization_number(text: Seq<char>) -> bool {
    text.len() == 5 && all_digits(text)
}

/// Whether `text` is made of exactly five digits.
pub fn is_five_digits(text: &str) -> (r: bool)
    ensures
        r == is_authorization_number(text@),
{
    let chars = chars_of(text);
    chars.len() == 5 && all_digit_chars(&chars)
}

/// The state of the extractor: which of the four elements it is inside of,
/// and the date of the group it is in.
#[derive(Debug, PartialEq, Eq)]
pub struct Extractor {
    pub in_bundle: bool,
    pub in_date: bool,
    pub in_regulated_auth: bool,
    pub in_identifier: bool,
    pub current_date: String,
}

/// What an `Extractor` holds, as sequences.
pub struct ExtractorState {
    pub in_bundle: bool,
    pub in_date: bool,
    pub in_regulated_auth: bool,
    pub in_identifier: bool,
    pub current_date: Seq<char>,
}

impl View for Extractor {
    type V = ExtractorState;

    open spec fn view(&self) -> ExtractorState {
        ExtractorState {
            in_bundle: self.in_bundle,
            in_date: self.in_date,
            in_regulated_auth: self.in_regulated_auth,
            in_identifier: self.in_identifier,
            current_date: self.current_date@,
        }
    }
}

/// The state before the first event: outside of everything, no date.
pub open spec fn initial_state() -> ExtractorState {
    ExtractorState {
        in_bundle: false,
        in_date: false,
        in_regulated_auth: false,
        in_identifier: false,
        current_date: Seq::empty(),
    }
}

/// The state after an opening tag. A group resets the date when it opens;
/// a date and an authorization count only inside a group, an identifier only
/// inside an authorization.
pub open spec fn after_start(state: ExtractorState, tag: Tag) -> ExtractorState {
    match tag {
        Tag::Bundle => ExtractorState {
            in_bundle: true,
            in_date: state.in_date,
            in_regulated_auth: state.in_regulated_auth,
            in_identifier: state.in_identifier,
            current_date: Seq::empty(),
        },
        Tag::Date => ExtractorState {
            in_bundle: state.in_bundle,
            in_date: state.in_date || state.in_bundle,
            in_regulated_auth: state.in_regulated_auth,
            in_identifier: state.in_identifier,
            current_date: state.current_date,
        },
        Tag::RegulatedAuthorization => ExtractorState {
            in_bundle: state.in_bundle,
            in_date: state.in_date,
            in_regulated_auth: state.in_regulated_auth || state.in_bundle,
            in_identifier: state.in_identifier,
            current_date: state.current_date,
        },
        Tag::Identifier => ExtractorState {
            in_bundle: state.in_bundle,
            in_date: state.in_date,
            in_regulated_auth: state.in_regulated_auth,
            in_identifier: state.in_identifier || state.in_regulated_auth,
            current_date: state.current_date,
        },
        Tag::Unrelated => state,
    }
}

/// The state after a closing tag: the flag of that element is cleared,
/// whatever else is open.
pub open spec fn after_end(state: ExtractorState, tag: Tag) -> ExtractorState {
    ExtractorState {
        in_bundle: state.in_bundle && tag != Tag::Bundle,
        in_date: state.in_date && tag != Tag::Date,
        in_regulated_auth: state.in_regulated_auth && tag != Tag::RegulatedAuthorization,
        in_identifier: state.in_identifier && tag != Tag::Identifier,
        current_date: state.current_date,
    }
}

/// The date of the group after character data: inside a date it is the text
/// up to its first `T`, else it stays.
pub open spec fn date_after_text(state: ExtractorState, text: Seq<char>) -> Seq<char> {
    if state.in_date {
        prefix_before(text, 'T')
    } else {
        state.current_date
    }
}

/// The record that character data gives: inside an identifier, where the
/// trimmed text is five digits, that number with the date of the group as it
/// stands after this text.
pub open spec fn record_of_text(state: ExtractorState, text: Seq<char>) -> Option<RecordView> {
    if state.in_identifier && is_authorization_number(trimmed(text)) {
        Some(RecordView { identifier: trimmed(text), date: date_after_text(state, text) })
    } else {
        None
    }
}

/// One step of the extractor: the state after the event, and the record
/// that the event gives, if any.
pub open spec fn step(state: ExtractorState, event: XmlEventView) -> (
    ExtractorState,
    Option<RecordView>,
) {
    match event {
        XmlEventView::Start(name) => (after_start(state, tag_of(name)), None),
        XmlEventView::End(name) => (after_end(state, tag_of(name)), None),
        XmlEventView::Text(text) => (
            ExtractorState {
                in_bundle: state.in_bundle,
                in_date: state.in_date,
                in_regulated_auth: state.in_regulated_auth,
                in_identifier: state.in_identifier,
                current_date: date_after_text(state, text),
            },
            record_of_text(state, text),
        ),
        XmlEventView::Other => (state, None),
    }
}

/// The state after a run of events, and the records they gave, in order.
pub open spec fn run(events: Seq<XmlEventView>) -> (ExtractorState, Seq<RecordView>)
    decreases events.len(),
{
    if events.len() == 0 {
        (initial_state(), Seq::empty())
    } else {
        let before = run(events.drop_last());
        let here = step(before.0, events.last());
        (
            here.0,
            match here.1 {
                Some(record) => before.1.push(record),
                None => before.1,
            },
        )
    }
}

/// The records that a run of events gives.
pub open spec fn extracted_records(events: Seq<XmlEventView>) -> Seq<RecordView> {
    run(events).1
}

/// The view of an optional record.
pub open spec fn optional_record(record: Option<Record>) -> Option<RecordView> {
    match record {
        Some(r) => Some(r@),
        None => None,
    }
}

impl Extractor {
    /// The extractor before the first event.
    pub fn new() -> (r: Extractor)
        ensures
            r@ == initial_state(),
    {
        Extractor {
            in_bundle: false,
            in_date: false,
            in_regulated_auth: false,
            in_identifier: false,
            current_date: String::new(),
        }
    }

    /// Feeds one event to the extractor and returns the record that it
    /// gives, if any.
    pub fn feed(&mut self, event: &XmlEvent) -> (emitted: Option<Record>)
        ensures
            (final(self)@, optional_record(emitted)) == step(old(self)@, event@),
    {
        match event {
            XmlEvent::Start(name) => {
                match classify_tag(name.as_slice()) {
                    Tag::Bundle => {
                        self.in_bundle = true;
                        self.current_date = String::new();
                    },
                    Tag::Date => {
                        if self.in_bundle {
                            self.in_date = true;
                        }
                    },
                    Tag::RegulatedAuthorization => {
                        if self.in_bundle {
                            self.in_regulated_auth = true;
                        }
                    },
                    Tag::Identifier => {
                        if self.in_regulated_auth {
                            self.in_identifier = true;
                        }
                    },
                    Tag::Unrelated => {},
                }
                None
            },
            XmlEvent::End(name) => {
                match classify_tag(name.as_slice()) {
                    Tag::Bundle => {
                        self.in_bundle = false;
                    },
                    Tag::Date => {
                        self.in_date = false;
                    },
                    Tag::RegulatedAuthorization => {
                        self.in_regulated_auth = false;
                    },
                    Tag::Identifier => {
                        self.in_identifier = false;
                    },
                    Tag::Unrelated => {},
                }
                None
            },
            XmlEvent::Text(text) => {
                if self.in_date {
                    self.current_date = take_before(text.as_str(), 'T').to_owned();
                }
                if self.in_identifier {
                    let identifier = trim(text.as_str());
                    if is_five_digits(identifier) {
                        return Some(
                            Record {
                                identifier: identifier.to_owned(),
                                date: self.current_date.clone(),
                            },
                        );
                    }
                }
                None
            },
            XmlEvent::Other => None,
        }
    }
}

/// Runs the extractor over a sequence of events and returns the records, in
/// the order in which the events gave them. Every record carries a number of
/// exactly five digits.
pub fn extract_events(events: &Vec<XmlEvent>) -> (records: Vec<Record>)
    ensures
        record_views(records@) == extracted_records(event_views(events@)),
        forall|i: int|
            0 <= i < records@.len() ==> is_authorization_number(#[trigger] records@[i]@.identifier),
{
    let mut state = Extractor::new();
    let mut records: Vec<Record> = Vec::new();
    let mut i: usize = 0;
    assert(event_views(events@).take(0) =~= Seq::empty());
    while i < events.len()
        invariant
            i <= events.len(),
            (state@, record_views(records@)) == run(event_views(events@).take(i as int)),
        decreases events.len() - i,
    {
        let ghost before = record_views(records@);
        let ghost upto = event_views(events@).take(i as int + 1);
        assert(upto.drop_last() =~= event_views(events@).take(i as int));
        assert(upto.last() == events@[i as int]@);
        if let Some(record) = state.feed(&events[i]) {
            records.push(record);
            assert(record_views(records@) =~= before.push(record@));
        }
        i += 1;
    }
    assert(event_views(events@).take(i as int) =~= event_views(events@));
    proof {
        lemma_identifiers_are_five_digits(event_views(events@));
        assert forall|i: int| 0 <= i < records@.len() implies is_authorization_number(
            #[trigger] records@[i]@.identifier,
        ) by {
            let given = extracted_records(event_views(events@));
            assert(given[i] == records@[i]@);
            assert(is_authorization_number(given[i].identifier));
        }
    }
    records
}

/// Whatever the events are, every record that the extractor gives carries a
/// number of exactly five digits.
pub proof fn lemma_identifiers_are_five_digits(events: Seq<XmlEventView>)
    ensures
        forall|i: int|
            0 <= i < extracted_records(events).len() ==> is_authorization_number(
                #[trigger] extracted_records(events)[i].identifier,
            ),
    decreases events.len(),
{
    if events.len() > 0 {
        lemma_identifiers_are_five_digits(events.drop_last());
        let before = extracted_records(events.drop_last());
        let after = extracted_records(events);
        assert forall|i: int| 0 <= i < after.len() implies is_authorization_number(
            #[trigger] after[i].identifier,
        ) by {
            if i < before.len() {
                assert(after[i] == before[i]);
            }
        }
    }
}

/// The date of the group that a run of events ends in: the text, up to its
/// first `T`, of the latest character data inside a date since the group
/// opened; empty where there was none.
pub open spec fn group_date(events: Seq<XmlEventView>) -> Seq<char>
    decreases events.len(),
{
    if events.len() == 0 {
        Seq::empty()
    } else {
        let before = events.drop_last();
        match events.last() {
            XmlEventView::Start(name) => if tag_of(name) == Tag::Bundle {
                Seq::empty()
            } else {
                group_date(before)
            },
            XmlEventView::Text(text) => if run(before).0.in_date {
                prefix_before(text, 'T')
            } else {
                group_date(before)
            },
            _ => group_date(before),
        }
    }
}

/// The date that the extractor holds is the date of the group it is in.
pub proof fn lemma_current_date_is_group_date(events: Seq<XmlEventView>)
    ensures
        run(events).0.current_date == group_date(events),
    decreases events.len(),
{
    if events.len() > 0 {
        lemma_current_date_is_group_date(events.drop_last());
    }
}

/// A record carries the date of the group in which its number stands: the
/// latest date text since that group opened, never one of an earlier group.
pub proof fn lemma_record_date_is_group_date(events: Seq<XmlEventView>, k: int)
    requires
        0 <= k < events.len(),
        step(run(events.take(k)).0, events[k]).1 is Some,
    ensures
        step(run(events.take(k)).0, events[k]).1->0.date == group_date(events.take(k + 1)),
{
    let upto = events.take(k + 1);
    assert(upto.drop_last() =~= events.take(k));
    assert(upto.last() == events[k]);
    lemma_current_date_is_group_date(upto);
}

} // verus!
