//! The record that the registry document yields: an authorization number and
//! the date of the group it was found in.

use vstd::prelude::*;

verus! {

/// One authorization number with the date of its group.
#[derive(Debug, PartialEq, Eq)]
pub struct Record {
    pub identifier: String,
    pub date: String,
}

/// What a record holds, as character sequences.
pub struct RecordView {
    pub identifier: Seq<char>,
    pub date: Seq<char>,
}

impl View for Record {
    type V = RecordView;

    open spec fn view(&self) -> RecordView {
        RecordView { identifier: self.identifier@, date: self.date@ }
    }
}

/// The views of a sequence of records, in order.
pub open spec fn record_views(records: Seq<Record>) -> Seq<RecordView> {
    Seq::new(records.len(), |i: int| records[i]@)
}

/// The views of a sequence of strings, in order.
pub open spec fn text_views(texts: Seq<String>) -> Seq<Seq<char>> {
    Seq::new(texts.len(), |i: int| texts[i]@)
}

impl Record {
    /// A record of the given authorization number and date.
    pub fn new(identifier: &str, date: &str) -> (r: Record)
        ensures
            r@.identifier == identifier@,
            r@.date == date@,
    {
        Record { identifier: identifier.to_owned(), date: date.to_owned() }
    }

    /// A second record that holds the same.
    pub fn duplicate(&self) -> (r: Record)
        ensures
            r@ == self@,
    {
        Record { identifier: self.identifier.clone(), date: self.date.clone() }
    }
}

} // verus!
