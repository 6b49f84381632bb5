//! Identifiers as a list: the numbers of a day, padded and sorted, and the
//! count of the identifiers that differ.

use crate::order::{
    lemma_sorted_set, lemma_with_text_grows_by_one, sorted_set, strictly_increasing, TextSet,
};
use crate::extract::is_authorization_number;
use crate::record::{record_views, text_views, Record, RecordView};
use crate::text::{
    all_digits, lemma_five_digits_round_trip, lemma_padded_decimal_shape, lemma_text_le_reflexive,
    padded_decimal, padded_decimal_text, parse_u32, parsed_u32, text_le,
};
use vstd::prelude::*;

verus! {

/// The identifiers of the records, in order.
pub open spec fn identifiers_of(records: Seq<RecordView>) -> Seq<Seq<char>> {
    Seq::new(records.len(), |i: int| records[i].identifier)
}

/// A number as the list of a day shows it: in decimal, with zeros in front
/// up to five digits.
pub open spec fn padded_number(n: u32) -> Seq<char> {
    padded_decimal(n as nat, 5)
}

/// The identifiers that are numbers, each padded, in the order of the records.
pub open spec fn padded_numbers(records: Seq<RecordView>) -> Seq<Seq<char>>
    decreases records.len(),
{
    if records.len() == 0 {
        Seq::empty()
    } else {
        match parsed_u32(records.last().identifier) {
            Some(n) => padded_numbers(records.drop_last()).push(padded_number(n)),
            None => padded_numbers(records.drop_last()),
        }
    }
}

/// The padded numbers of the records, sorted, each once.
pub open spec fn number_list(records: Seq<RecordView>) -> Seq<Seq<char>> {
    sorted_set(padded_numbers(records))
}

/// The identifier is a number, and `text` shows it padded.
pub open spec fn shows_number(identifier: Seq<char>, text: Seq<char>) -> bool {
    match parsed_u32(identifier) {
        Some(n) => padded_number(n) == text,
        None => false,
    }
}

/// Some record carries the number that `text` shows padded.
pub open spec fn is_padded_number_of(records: Seq<RecordView>, text: Seq<char>) -> bool {
    exists|i: int| 0 <= i < records.len() && #[trigger] shows_number(records[i].identifier, text)
}

/// The padded numbers are just those of the records whose identifier is a
/// number.
pub proof fn lemma_padded_numbers(records: Seq<RecordView>)
    ensures
        forall|text: Seq<char>| #[trigger]
            padded_numbers(records).contains(text) <==> is_padded_number_of(records, text),
    decreases records.len(),
{
    let all = padded_numbers(records);
    if records.len() > 0 {
        let shorter = records.drop_last();
        let before = padded_numbers(shorter);
        let n = records.len() - 1;
        lemma_padded_numbers(shorter);
        assert forall|text: Seq<char>| #[trigger]
            all.contains(text) <==> is_padded_number_of(records, text) by {
            if all.contains(text) {
                let k = choose|k: int| 0 <= k < all.len() && all[k] == text;
                if k < before.len() {
                    assert(before[k] == text);
                    assert(before.contains(text));
                    assert(is_padded_number_of(shorter, text));
                    let i = choose|i: int|
                        0 <= i < shorter.len() && #[trigger] shows_number(
                            shorter[i].identifier,
                            text,
                        );
                    assert(shorter[i] == records[i]);
                    assert(shows_number(records[i].identifier, text));
                } else {
                    assert(shows_number(records[n].identifier, text));
                }
            }
            if is_padded_number_of(records, text) {
                let i = choose|i: int|
                    0 <= i < records.len() && #[trigger] shows_number(records[i].identifier, text);
                if i < n {
                    assert(shorter[i] == records[i]);
                    assert(shows_number(shorter[i].identifier, text));
                    assert(is_padded_number_of(shorter, text));
                    assert(before.contains(text));
                    let k = choose|k: int| 0 <= k < before.len() && before[k] == text;
                    assert(all[k] == text);
                } else {
                    assert(all[all.len() - 1] == text);
                }
            }
        }
    }
}

/// The list of a day is sorted with nothing in it twice, and it holds just
/// the padded numbers of the records whose identifier is a number.
pub proof fn lemma_number_list(records: Seq<RecordView>)
    ensures
        strictly_increasing(number_list(records)),
        forall|text: Seq<char>| #[trigger]
            number_list(records).contains(text) <==> is_padded_number_of(records, text),
{
    lemma_sorted_set(padded_numbers(records));
    lemma_padded_numbers(records);
}

/// The list of the given records: the identifiers that are numbers, padded
/// to five digits, sorted as strings, each once.
pub fn numbers_of(records: &Vec<Record>) -> (list: Vec<String>)
    ensures
        text_views(list@) == number_list(record_views(records@)),
        strictly_increasing(text_views(list@)),
{
    let ghost all = record_views(records@);
    let mut set = TextSet::new();
    let mut i: usize = 0;
    assert(all.take(0) =~= Seq::empty());
    while i < records.len()
        invariant
            i <= records.len(),
            all == record_views(records@),
            set@ == number_list(all.take(i as int)),
        decreases records.len() - i,
    {
        let ghost upto = all.take(i as int + 1);
        assert(upto.drop_last() =~= all.take(i as int));
        assert(upto.last() == records@[i as int]@);
        if let Some(n) = parse_u32(records[i].identifier.as_str()) {
            let ghost shorter = padded_numbers(all.take(i as int));
            assert(shorter.push(padded_number(n)).drop_last() =~= shorter);
            set = set.with(padded_decimal_text(n, 5));
        }
        i += 1;
    }
    assert(all.take(i as int) =~= all);
    set.into_sorted()
}

/// A sorted set has as many texts as there are different ones among those
/// that were given.
pub proof fn lemma_sorted_set_counts(texts: Seq<Seq<char>>)
    ensures
        sorted_set(texts).len() == texts.to_set().len(),
{
    let list = sorted_set(texts);
    lemma_sorted_set(texts);
    assert forall|i: int, j: int| 0 <= i < list.len() && 0 <= j < list.len() && i != j implies list[i]
        != list[j] by {
        lemma_text_le_reflexive(list[i]);
        if i < j {
            assert(!text_le(list[j], list[i]));
        } else {
            assert(!text_le(list[i], list[j]));
        }
    }
    list.unique_seq_to_set();
    assert(list.to_set() =~= texts.to_set()) by {
        assert forall|x: Seq<char>| list.to_set().contains(x) <==> texts.to_set().contains(x) by {
            assert(list.contains(x) <==> texts.contains(x));
        }
    }
}

/// How many different identifiers the records carry.
pub fn count_distinct_identifiers(records: &Vec<Record>) -> (n: usize)
    ensures
        n == identifiers_of(record_views(records@)).to_set().len(),
        n <= records@.len(),
{
    let ghost all = identifiers_of(record_views(records@));
    let mut set = TextSet::new();
    let mut i: usize = 0;
    assert(all.take(0) =~= Seq::empty());
    while i < records.len()
        invariant
            i <= records.len(),
            all == identifiers_of(record_views(records@)),
            set@ == sorted_set(all.take(i as int)),
            set@.len() <= i,
        decreases records.len() - i,
    {
        let ghost upto = all.take(i as int + 1);
        assert(upto.drop_last() =~= all.take(i as int));
        assert(upto.last() == records@[i as int]@.identifier);
        let ghost before = set@;
        set = set.with(records[i].identifier.clone());
        proof {
            lemma_with_text_grows_by_one(before, records@[i as int]@.identifier);
        }
        i += 1;
    }
    assert(all.take(i as int) =~= all);
    proof {
        lemma_sorted_set_counts(all);
    }
    set.len()
}

/// Every text of the list of a day is made of digits, at least five.
pub proof fn lemma_number_list_shape(records: Seq<RecordView>)
    ensures
        forall|k: int|
            0 <= k < number_list(records).len() ==> all_digits(#[trigger] number_list(records)[k])
                && number_list(records)[k].len() >= 5,
{
    let list = number_list(records);
    lemma_number_list(records);
    assert forall|k: int| 0 <= k < list.len() implies all_digits(#[trigger] list[k]) && list[k].len()
        >= 5 by {
        assert(list.contains(list[k]));
        assert(is_padded_number_of(records, list[k]));
        let i = choose|i: int|
            0 <= i < records.len() && #[trigger] shows_number(records[i].identifier, list[k]);
        lemma_padded_decimal_shape(parsed_u32(records[i].identifier)->0 as nat, 5);
    }
}

/// Where every identifier is a number of exactly five digits, as in what
/// the extractor gives, padding changes nothing: the list of a day is the
/// identifiers themselves, sorted, each once.
pub proof fn lemma_numbers_of_extracted(records: Seq<RecordView>)
    requires
        forall|i: int|
            0 <= i < records.len() ==> is_authorization_number(#[trigger] records[i].identifier),
    ensures
        padded_numbers(records) == identifiers_of(records),
        number_list(records) == sorted_set(identifiers_of(records)),
    decreases records.len(),
{
    if records.len() > 0 {
        let shorter = records.drop_last();
        assert forall|i: int| 0 <= i < shorter.len() implies is_authorization_number(
            #[trigger] shorter[i].identifier,
        ) by {
            assert(shorter[i] == records[i]);
        }
        lemma_numbers_of_extracted(shorter);
        assert(is_authorization_number(records[records.len() - 1].identifier));
        lemma_five_digits_round_trip(records.last().identifier);
        assert(padded_numbers(records) =~= identifiers_of(records));
    } else {
        assert(padded_numbers(records) =~= identifiers_of(records));
    }
}

} // verus!
