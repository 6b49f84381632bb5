use aips_records::document::extract;
use aips_records::extract::{
    classify_tag, extract_events, is_five_digits, Extractor, Tag, XmlEvent,
};
use aips_records::record::Record;

fn start(name: &str) -> XmlEvent {
    XmlEvent::Start(name.as_bytes().to_vec())
}

fn end(name: &str) -> XmlEvent {
    XmlEvent::End(name.as_bytes().to_vec())
}

fn text(content: &str) -> XmlEvent {
    XmlEvent::Text(content.to_string())
}

fn record(identifier: &str, date: &str) -> Record {
    Record { identifier: identifier.to_string(), date: date.to_string() }
}

fn bundle(date: &str, identifiers: &[&str]) -> String {
    let mut out = String::from("<MedicinalDocumentsBundle>");
    out.push_str(&format!("<Date>{}</Date>", date));
    for identifier in identifiers {
        out.push_str(&format!(
            "<RegulatedAuthorization><Identifier>{}</Identifier></RegulatedAuthorization>",
            identifier
        ));
    }
    out.push_str("</MedicinalDocumentsBundle>");
    out
}

#[test]
fn tags_are_told_by_their_local_name() {
    assert_eq!(classify_tag(b"MedicinalDocumentsBundle"), Tag::Bundle);
    assert_eq!(classify_tag(b"Date"), Tag::Date);
    assert_eq!(classify_tag(b"RegulatedAuthorization"), Tag::RegulatedAuthorization);
    assert_eq!(classify_tag(b"Identifier"), Tag::Identifier);
    assert_eq!(classify_tag(b"date"), Tag::Unrelated);
    assert_eq!(classify_tag(b"Dates"), Tag::Unrelated);
    assert_eq!(classify_tag(b""), Tag::Unrelated);
}

#[test]
fn five_digits_and_nothing_else() {
    assert!(is_five_digits("04512"));
    assert!(is_five_digits("00000"));
    assert!(!is_five_digits("123"));
    assert!(!is_five_digits("123456"));
    assert!(!is_five_digits("1234a"));
    assert!(!is_five_digits("+1234"));
    assert!(!is_five_digits("١٢٣٤٥"));
    assert!(!is_five_digits(""));
}

#[test]
fn one_bundle_gives_one_record() {
    let events = vec![
        start("MedicinalDocumentsBundle"),
        start("Date"),
        text("2024-03-15T10:00:00"),
        end("Date"),
        start("RegulatedAuthorization"),
        start("Identifier"),
        text("04512"),
        end("Identifier"),
        end("RegulatedAuthorization"),
        end("MedicinalDocumentsBundle"),
    ];
    assert_eq!(extract_events(&events), vec![record("04512", "2024-03-15")]);
}

#[test]
fn one_bundle_gives_one_record_from_a_document() {
    let document = format!("<?xml version=\"1.0\"?><root>{}</root>", bundle("2024-03-15T10:00:00", &["04512"]));
    assert_eq!(extract(document.as_bytes()), Ok(vec![record("04512", "2024-03-15")]));
}

#[test]
fn three_digits_give_no_record() {
    let events = vec![
        start("MedicinalDocumentsBundle"),
        start("RegulatedAuthorization"),
        start("Identifier"),
        text("123"),
        end("Identifier"),
        end("RegulatedAuthorization"),
        end("MedicinalDocumentsBundle"),
    ];
    assert_eq!(extract_events(&events), Vec::<Record>::new());
    let document = bundle("2024-03-15T10:00:00", &["123"]);
    assert_eq!(extract(document.as_bytes()), Ok(Vec::new()));
}

#[test]
fn each_group_has_its_own_date() {
    let document = format!(
        "<root>{}{}</root>",
        bundle("2024-01-01T00:00:00", &["11111", "33333"]),
        bundle("2024-06-01", &["22222"])
    );
    assert_eq!(
        extract(document.as_bytes()),
        Ok(vec![
            record("11111", "2024-01-01"),
            record("33333", "2024-01-01"),
            record("22222", "2024-06-01"),
        ])
    );
}

#[test]
fn a_group_without_a_date_has_an_empty_one() {
    let document = format!(
        "<root>{}<MedicinalDocumentsBundle><RegulatedAuthorization><Identifier>22222</Identifier></RegulatedAuthorization><Date>2024-06-01T1</Date><RegulatedAuthorization><Identifier>33333</Identifier></RegulatedAuthorization></MedicinalDocumentsBundle></root>",
        bundle("2024-01-01", &["11111"])
    );
    assert_eq!(
        extract(document.as_bytes()),
        Ok(vec![
            record("11111", "2024-01-01"),
            record("22222", ""),
            record("33333", "2024-06-01"),
        ])
    );
}

#[test]
fn the_latest_date_of_the_group_counts() {
    let events = vec![
        start("MedicinalDocumentsBundle"),
        start("Date"),
        text("2024-01-01T00:00:00"),
        end("Date"),
        start("Date"),
        text("2024-02-02"),
        end("Date"),
        start("RegulatedAuthorization"),
        start("Identifier"),
        text("12345"),
    ];
    assert_eq!(extract_events(&events), vec![record("12345", "2024-02-02")]);
}

#[test]
fn elements_count_only_in_their_place() {
    let events = vec![
        start("Date"),
        text("2024-01-01"),
        end("Date"),
        start("RegulatedAuthorization"),
        start("Identifier"),
        text("11111"),
        end("Identifier"),
        end("RegulatedAuthorization"),
        start("MedicinalDocumentsBundle"),
        start("Identifier"),
        text("22222"),
        end("Identifier"),
        start("RegulatedAuthorization"),
        text("33333"),
        start("Identifier"),
        text(" 44444 "),
        end("Identifier"),
        text("55555"),
        end("RegulatedAuthorization"),
        end("MedicinalDocumentsBundle"),
    ];
    assert_eq!(extract_events(&events), vec![record("44444", "")]);
}

#[test]
fn flags_are_cleared_by_the_closing_tag_alone() {
    let mut state = Extractor::new();
    assert_eq!(state.feed(&start("MedicinalDocumentsBundle")), None);
    assert_eq!(state.feed(&start("RegulatedAuthorization")), None);
    assert_eq!(state.feed(&start("Identifier")), None);
    assert_eq!(state.feed(&start("Identifier")), None);
    assert_eq!(state.feed(&end("Identifier")), None);
    assert!(!state.in_identifier);
    assert_eq!(state.feed(&text("12345")), None);
    assert_eq!(state.feed(&end("MedicinalDocumentsBundle")), None);
    assert!(!state.in_bundle);
    assert!(state.in_regulated_auth);
    assert_eq!(state.feed(&start("Identifier")), None);
    assert_eq!(state.feed(&text("12345")), Some(record("12345", "")));
    assert_eq!(state.feed(&XmlEvent::Other), None);
    assert_eq!(
        state,
        Extractor {
            in_bundle: false,
            in_date: false,
            in_regulated_auth: true,
            in_identifier: true,
            current_date: String::new(),
        }
    );
}

#[test]
fn text_in_a_date_and_an_identifier_at_once() {
    let events = vec![
        start("MedicinalDocumentsBundle"),
        start("RegulatedAuthorization"),
        start("Identifier"),
        start("Date"),
        text("12345"),
    ];
    assert_eq!(extract_events(&events), vec![record("12345", "12345")]);
}

#[test]
fn a_new_group_forgets_the_date() {
    let mut state = Extractor::new();
    state.feed(&start("MedicinalDocumentsBundle"));
    state.feed(&start("Date"));
    state.feed(&text("2024-01-01T00"));
    assert_eq!(state.current_date, "2024-01-01");
    state.feed(&end("Date"));
    state.feed(&text("2025-01-01"));
    assert_eq!(state.current_date, "2024-01-01");
    state.feed(&start("MedicinalDocumentsBundle"));
    assert_eq!(state.current_date, "");
}

#[test]
fn documents_are_read_with_prefixes_entities_and_white_space() {
    let document = "<?xml version=\"1.0\" encoding=\"utf-8\"?>\n<!-- registry -->\n<m:root xmlns:m=\"urn:x\">\n  <m:MedicinalDocumentsBundle>\n    <m:Date>\n      2024-03-15T10:00:00\n    </m:Date>\n    <m:Other><m:Identifier>99999</m:Identifier></m:Other>\n    <m:RegulatedAuthorization kind=\"a\">\n      <m:Identifier>\n        0451&#50;\n      </m:Identifier>\n      <m:Identifier/>\n      <m:Identifier><![CDATA[11111]]></m:Identifier>\n    </m:RegulatedAuthorization>\n  </m:MedicinalDocumentsBundle>\n</m:root>\n";
    assert_eq!(extract(document.as_bytes()), Ok(vec![record("04512", "2024-03-15")]));
}

#[test]
fn an_empty_document_has_no_records() {
    assert_eq!(extract(b""), Ok(Vec::new()));
    assert_eq!(extract(b"   \n"), Ok(Vec::new()));
    assert_eq!(extract(b"<root/>"), Ok(Vec::new()));
}

#[test]
fn markup_that_cannot_be_read_gives_no_records() {
    let good = bundle("2024-03-15", &["04512"]);
    let mismatched = format!("<root>{}</wrong>", good);
    assert!(extract(mismatched.as_bytes()).is_err());
    let unclosed = format!("<root>{}<Date", good);
    assert!(extract(unclosed.as_bytes()).is_err());
    let bad_entity = format!("<root>{}<x>&nosuch;</x></root>", good);
    assert!(extract(bad_entity.as_bytes()).is_err());
    let message = extract(mismatched.as_bytes()).unwrap_err().message;
    assert!(!message.is_empty());
}

#[test]
fn reading_twice_gives_the_same() {
    let document = format!(
        "<root>{}{}</root>",
        bundle("2024-01-01", &["11111", "abc", "22222"]),
        bundle("2024-06-01T00:00:00", &["33333"])
    );
    let first = extract(document.as_bytes());
    let second = extract(document.as_bytes());
    assert_eq!(first, second);
    assert_eq!(first.unwrap().len(), 3);
}

#[test]
fn every_record_has_five_digits() {
    let document = format!(
        "<root>{}</root>",
        bundle("2024-01-01", &["11111", "1", "1234", "123456", "12a45", " 54321 ", "٠٠٠٠٠"])
    );
    let records = extract(document.as_bytes()).unwrap();
    assert_eq!(records, vec![record("11111", "2024-01-01"), record("54321", "2024-01-01")]);
    for r in &records {
        assert_eq!(r.identifier.len(), 5);
        assert!(r.identifier.chars().all(|c| c.is_ascii_digit()));
    }
}
