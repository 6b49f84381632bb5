use aips_records::calendar::CalendarDate;
use aips_records::document::extract;
use aips_records::identifiers::{count_distinct_identifiers, numbers_of};
use aips_records::options::{parse_date_filter, FilterRequest};
use aips_records::order::{sort_newest_first, TextSet};
use aips_records::record::Record;
use aips_records::render::{render_list, render_table};
use aips_records::report::{build_report, render_report, Outcome, Report};
use aips_records::run::{produce_report, RunError};
use aips_records::select::{retain_day, retain_first_above, retain_since};

fn record(identifier: &str, date: &str) -> Record {
    Record { identifier: identifier.to_string(), date: date.to_string() }
}

fn records(list: &[(&str, &str)]) -> Vec<Record> {
    list.iter().map(|(i, d)| record(i, d)).collect()
}

fn texts(list: &[&str]) -> Vec<String> {
    list.iter().map(|s| s.to_string()).collect()
}

fn request(since: Option<&str>, larger: Option<u32>, today: bool) -> FilterRequest {
    FilterRequest { since: since.map(|s| s.to_string()), larger_threshold: larger, today_mode: today }
}

#[test]
fn records_are_made_of_two_texts() {
    let r = Record::new("04512", "2024-03-15");
    assert_eq!(r, record("04512", "2024-03-15"));
    assert_eq!(r.duplicate(), r);
}

#[test]
fn the_cutoff_keeps_the_later_group() {
    let document = "<root><MedicinalDocumentsBundle><Date>2024-01-01</Date><RegulatedAuthorization><Identifier>11111</Identifier></RegulatedAuthorization></MedicinalDocumentsBundle><MedicinalDocumentsBundle><Date>2024-06-01</Date><RegulatedAuthorization><Identifier>22222</Identifier></RegulatedAuthorization></MedicinalDocumentsBundle></root>";
    let all = extract(document.as_bytes()).unwrap();
    let cutoff = parse_date_filter("01.03.2024").unwrap();
    assert_eq!(retain_since(all, &cutoff), records(&[("22222", "2024-06-01")]));
}

#[test]
fn the_cutoff_day_itself_is_kept() {
    let all = records(&[
        ("1", "2024-03-01"),
        ("2", "2024-02-29"),
        ("3", "2024-03-01T"),
        ("4", ""),
        ("5", "2025-01-01"),
        ("6", "2024-03-0"),
    ]);
    assert_eq!(
        retain_since(all, "2024-03-01"),
        records(&[("1", "2024-03-01"), ("3", "2024-03-01T"), ("5", "2025-01-01")])
    );
    assert_eq!(retain_since(Vec::new(), "2024-03-01"), Vec::new());
    assert_eq!(retain_since(records(&[("4", "")]), ""), records(&[("4", "")]));
}

#[test]
fn what_the_cutoff_drops_is_what_is_older() {
    let all = records(&[("1", "2024-01-01"), ("2", "2023-01-01"), ("3", "2024-06-01"), ("4", "2020-01-01")]);
    let older = all.iter().filter(|r| r.date.as_str() < "2024-01-01").count();
    let kept = retain_since(all, "2024-01-01");
    assert!(kept.iter().all(|r| r.date.as_str() >= "2024-01-01"));
    assert_eq!(older, 4 - kept.len());
}

#[test]
fn the_records_of_one_day() {
    let all = records(&[("1", "2024-03-01"), ("2", "2024-03-02"), ("3", "2024-03-01"), ("4", "")]);
    assert_eq!(
        retain_day(all, "2024-03-01"),
        records(&[("1", "2024-03-01"), ("3", "2024-03-01")])
    );
    assert_eq!(retain_day(records(&[("4", "")]), ""), records(&[("4", "")]));
}

#[test]
fn the_threshold_keeps_each_number_once() {
    let all = records(&[("00100", "2024-01-01"), ("00100", "2024-05-01"), ("00200", "2024-02-01")]);
    assert_eq!(retain_first_above(all, 150), records(&[("00200", "2024-02-01")]));
    let all = records(&[("00100", "2024-01-01"), ("00100", "2024-05-01"), ("00200", "2024-02-01")]);
    assert_eq!(
        retain_first_above(all, 99),
        records(&[("00100", "2024-01-01"), ("00200", "2024-02-01")])
    );
}

#[test]
fn the_threshold_is_strict_and_numbers_are_compared_as_text_for_repeats() {
    let all = records(&[
        ("150", "a"),
        ("151", "b"),
        ("0151", "c"),
        ("+151", "d"),
        ("151", "e"),
        ("x", "f"),
        ("", "g"),
        ("4294967295", "h"),
        ("4294967296", "i"),
    ]);
    assert_eq!(
        retain_first_above(all, 150),
        records(&[("151", "b"), ("0151", "c"), ("+151", "d"), ("4294967295", "h")])
    );
    assert_eq!(retain_first_above(records(&[("4294967295", "h")]), u32::MAX), Vec::new());
}

#[test]
fn the_newest_come_first_and_equal_dates_keep_their_order() {
    let all = records(&[
        ("1", "2024-01-01"),
        ("2", "2024-06-01"),
        ("3", "2024-01-01"),
        ("4", ""),
        ("5", "2024-06-01"),
        ("6", "2025-01-01"),
        ("7", ""),
    ]);
    assert_eq!(
        sort_newest_first(all),
        records(&[
            ("6", "2025-01-01"),
            ("2", "2024-06-01"),
            ("5", "2024-06-01"),
            ("1", "2024-01-01"),
            ("3", "2024-01-01"),
            ("4", ""),
            ("7", ""),
        ])
    );
    assert_eq!(sort_newest_first(Vec::new()), Vec::new());
}

#[test]
fn sorting_is_what_a_stable_sort_gives() {
    let mut all = Vec::new();
    let mut seed: u32 = 12345;
    for i in 0..200 {
        seed = seed.wrapping_mul(1103515245).wrapping_add(12345);
        all.push(record(&format!("{:05}", i), &format!("2024-{:02}-01", 1 + (seed >> 16) % 12)));
    }
    let mut expected: Vec<Record> = all.iter().map(|r| r.duplicate()).collect();
    expected.sort_by(|a, b| b.date.cmp(&a.date));
    assert_eq!(sort_newest_first(all), expected);
}

#[test]
fn a_text_goes_to_its_place_once() {
    let mut set = TextSet::new();
    assert_eq!(set.len(), 0);
    assert!(!set.contains("00100"));
    for text in ["00300", "00100", "00200", "00100", "00400", "00300", "00050", "", "é"] {
        set = set.with(text.to_string());
        assert!(set.contains(text));
    }
    assert_eq!(set.len(), 7);
    assert!(set.contains("00200"));
    assert!(!set.contains("200"));
    assert!(!set.contains("00250"));
    assert!(!set.contains("99999"));
    assert_eq!(set.into_sorted(), texts(&["", "00050", "00100", "00200", "00300", "00400", "é"]));
}

#[test]
fn a_set_of_many_texts_is_what_std_gives() {
    let mut set = TextSet::new();
    let mut expected = std::collections::BTreeSet::new();
    let mut seed: u32 = 7;
    for _ in 0..500 {
        seed = seed.wrapping_mul(1664525).wrapping_add(1013904223);
        let text = format!("{:03}", (seed >> 16) % 300);
        set = set.with(text.clone());
        expected.insert(text);
    }
    assert_eq!(set.len(), expected.len());
    assert_eq!(set.into_sorted(), expected.into_iter().collect::<Vec<String>>());
}

#[test]
fn a_threshold_over_many_records_keeps_the_first_of_each() {
    let mut all = Vec::new();
    let mut seed: u32 = 99;
    for i in 0..400 {
        seed = seed.wrapping_mul(1664525).wrapping_add(1013904223);
        all.push(record(&format!("{:05}", (seed >> 16) % 120), &format!("d{}", i)));
    }
    let mut seen = std::collections::HashSet::new();
    let mut expected = Vec::new();
    for r in &all {
        if r.identifier.parse::<u32>().unwrap() > 60 && seen.insert(r.identifier.clone()) {
            expected.push(r.duplicate());
        }
    }
    assert_eq!(retain_first_above(all, 60), expected);
}

#[test]
fn the_numbers_of_some_records() {
    let all = records(&[
        ("00300", "d"),
        ("00100", "d"),
        ("300", "d"),
        ("abc", "d"),
        ("123456", "d"),
        ("+7", "d"),
        ("00100", "d"),
        ("", "d"),
    ]);
    assert_eq!(numbers_of(&all), texts(&["00007", "00100", "00300", "123456"]));
    assert_eq!(numbers_of(&Vec::new()), Vec::<String>::new());
}

#[test]
fn counting_the_identifiers_that_differ() {
    let all = records(&[("00100", "a"), ("00100", "b"), ("00200", "c"), ("100", "d"), ("", "e")]);
    assert_eq!(count_distinct_identifiers(&all), 4);
    assert_eq!(count_distinct_identifiers(&Vec::new()), 0);
}

#[test]
fn a_list_is_written_one_to_the_line() {
    assert_eq!(render_list(&texts(&["00100", "00200"])), "00100\n00200\n");
    assert_eq!(render_list(&Vec::new()), "");
}

#[test]
fn a_table_is_written_as_csv() {
    assert_eq!(
        render_table(&records(&[("04512", "2024-03-15"), ("00100", "")])),
        Ok(b"identifier,date\n04512,2024-03-15\n00100,\n".to_vec())
    );
    assert_eq!(render_table(&Vec::new()), Ok(b"identifier,date\n".to_vec()));
}

#[test]
fn fields_are_quoted_where_csv_needs_it() {
    assert_eq!(
        render_table(&records(&[("a,b", "say \"x\""), ("", ""), ("line\nbreak", " é ")])),
        Ok("identifier,date\n\"a,b\",\"say \"\"x\"\"\"\n,\n\"line\nbreak\", é \n".as_bytes().to_vec())
    );
}

#[test]
fn the_table_is_what_one_csv_writer_gives() {
    let all = records(&[("04512", "2024-03-15"), ("a,b", "c\"d"), ("", ""), ("x", "\r")]);
    let mut writer = csv::Writer::from_writer(Vec::new());
    writer.write_record(["identifier", "date"]).unwrap();
    for r in &all {
        writer.write_record([&r.identifier, &r.date]).unwrap();
    }
    assert_eq!(render_table(&all), Ok(writer.into_inner().unwrap()));
}

#[test]
fn the_report_without_options() {
    let all = records(&[("00100", "2024-01-01"), ("00100", "2024-05-01"), ("00200", "2024-02-01")]);
    assert_eq!(
        build_report(all, &request(None, None, false), "2024-05-01"),
        Outcome {
            report: Report::Table(records(&[
                ("00100", "2024-05-01"),
                ("00200", "2024-02-01"),
                ("00100", "2024-01-01"),
            ])),
            total: 3,
            distinct_identifiers: 2,
            after_since: 3,
            selected: 3,
        }
    );
}

#[test]
fn the_report_with_cutoff_and_threshold() {
    let all = records(&[
        ("00100", "2024-01-01"),
        ("00300", "2023-01-01"),
        ("00200", "2024-02-01"),
        ("00300", "2024-03-01"),
        ("00200", "2024-05-01"),
        ("00400", "2024-02-01"),
    ]);
    assert_eq!(
        build_report(all, &request(Some("2024-01-15"), Some(150), false), "2024-05-01"),
        Outcome {
            report: Report::Table(records(&[
                ("00300", "2024-03-01"),
                ("00200", "2024-02-01"),
                ("00400", "2024-02-01"),
            ])),
            total: 6,
            distinct_identifiers: 4,
            after_since: 4,
            selected: 3,
        }
    );
}

#[test]
fn the_report_of_the_day() {
    let all = records(&[
        ("00300", "2024-05-01"),
        ("00100", "2024-05-01"),
        ("00200", "2024-02-01"),
        ("00100", "2024-05-01"),
        ("00050", "2024-05-02"),
    ]);
    assert_eq!(
        build_report(all, &request(None, Some(250), true), "2024-05-01"),
        Outcome {
            report: Report::Numbers(texts(&["00100", "00300"])),
            total: 5,
            distinct_identifiers: 4,
            after_since: 5,
            selected: 3,
        }
    );
    let all = records(&[("00300", "2024-05-01")]);
    assert_eq!(
        build_report(all, &request(Some("2024-06-01"), None, true), "2024-05-01").report,
        Report::Numbers(Vec::new())
    );
}

#[test]
fn reports_are_written_out() {
    assert_eq!(
        render_report(&Report::Numbers(texts(&["00100", "00300"]))),
        Ok(b"00100\n00300\n".to_vec())
    );
    assert_eq!(
        render_report(&Report::Table(records(&[("00100", "2024-05-01")]))),
        Ok(b"identifier,date\n00100,2024-05-01\n".to_vec())
    );
}

#[test]
fn a_whole_run() {
    let document = "<root><MedicinalDocumentsBundle><Date>2024-01-01T08:00:00</Date><RegulatedAuthorization><Identifier>00100</Identifier></RegulatedAuthorization><RegulatedAuthorization><Identifier>00200</Identifier></RegulatedAuthorization></MedicinalDocumentsBundle><MedicinalDocumentsBundle><Date>2024-03-05T09:00:00</Date><RegulatedAuthorization><Identifier>00300</Identifier></RegulatedAuthorization><RegulatedAuthorization><Identifier>00100</Identifier></RegulatedAuthorization></MedicinalDocumentsBundle></root>";
    let today = CalendarDate::new(2024, 3, 5).unwrap();
    let out = produce_report(
        document.as_bytes(),
        "AipsDownload_20240304.xml",
        &request(None, Some(150), false),
        &today,
    )
    .unwrap();
    assert_eq!(out.file_name, "larger_150_04.03.2024.csv");
    assert_eq!(out.bytes, b"identifier,date\n00300,2024-03-05\n00200,2024-01-01\n".to_vec());
    assert_eq!(out.outcome.total, 4);
    assert_eq!(out.outcome.distinct_identifiers, 3);
    assert_eq!(out.outcome.selected, 2);

    let out = produce_report(
        document.as_bytes(),
        "AipsDownload20240304.xml",
        &request(None, Some(0), false),
        &today,
    )
    .unwrap();
    assert_eq!(out.file_name, "larger_0_04.03.2024.csv");

    let out = produce_report(document.as_bytes(), "export.xml", &request(None, None, true), &today)
        .unwrap();
    assert_eq!(out.file_name, "today");
    assert_eq!(out.bytes, b"00100\n00300\n".to_vec());

    let out = produce_report(
        document.as_bytes(),
        "export.xml",
        &request(Some("2024-02-01"), None, false),
        &today,
    )
    .unwrap();
    assert_eq!(out.file_name, "swissmedicinfo_05.03.2024.csv");
    assert_eq!(out.bytes, b"identifier,date\n00300,2024-03-05\n00100,2024-03-05\n".to_vec());
    assert_eq!(out.outcome.after_since, 2);
}

#[test]
fn a_run_on_a_document_that_cannot_be_read() {
    let today = CalendarDate::new(2024, 3, 5).unwrap();
    let outcome = produce_report(b"<a><b></a>", "export.xml", &request(None, None, false), &today);
    assert!(matches!(outcome, Err(RunError::Parse(_))));
}
