use aips_records::calendar::CalendarDate;
use aips_records::options::{
    date_from_filename, extract_date_from_filename, output_file_name, parse_date_filter,
    parse_request, parse_threshold_filter, split_on, FilterRequest, Mode, ValidationError,
};

fn args(list: &[&str]) -> Vec<String> {
    list.iter().map(|s| s.to_string()).collect()
}

#[test]
fn a_text_is_cut_at_every_separator() {
    assert_eq!(split_on("01.03.2024", '.'), vec!["01", "03", "2024"]);
    assert_eq!(split_on("", '.'), vec![""]);
    assert_eq!(split_on(".", '.'), vec!["", ""]);
    assert_eq!(split_on("a..b.", '.'), vec!["a", "", "b", ""]);
    assert_eq!(split_on("abc", '.'), vec!["abc"]);
}

#[test]
fn date_filter_is_turned_round() {
    assert_eq!(parse_date_filter("01.03.2024"), Ok("2024-03-01".to_string()));
    assert_eq!(parse_date_filter("31.12.1999"), Ok("1999-12-31".to_string()));
}

#[test]
fn date_filter_wants_digits() {
    let wrong = Err("Date must be in format DD.MM.YYYY".to_string());
    assert_eq!(parse_date_filter("ab.cd.efgh"), wrong);
    assert_eq!(parse_date_filter("é.01.2024"), wrong);
    assert_eq!(parse_date_filter("01.0a.2024"), wrong);
    assert_eq!(parse_date_filter("01.03.20x4"), wrong);
    assert_eq!(parse_date_filter("+1.03.2024"), wrong);
    assert_eq!(parse_date_filter("01.03.２０２４"), wrong);
    assert_eq!(parse_date_filter(" 1.03.2024"), wrong);
}

#[test]
fn date_filter_does_not_look_at_the_calendar() {
    assert_eq!(parse_date_filter("31.02.2024"), Ok("2024-02-31".to_string()));
    assert_eq!(parse_date_filter("99.99.2024"), Ok("2024-99-99".to_string()));
    assert_eq!(parse_date_filter("00.00.0000"), Ok("0000-00-00".to_string()));
}

#[test]
fn cutoffs_are_ordered_as_their_days() {
    let days = [
        "01.01.2024", "31.12.2023", "02.01.2024", "01.02.2024", "99.99.2024", "00.00.0000",
        "15.06.1999", "15.06.9999", "31.02.2024",
    ];
    let numbers = |s: &str| -> (u32, u32, u32) {
        (s[6..10].parse().unwrap(), s[3..5].parse().unwrap(), s[0..2].parse().unwrap())
    };
    for a in days {
        for b in days {
            let x = parse_date_filter(a).unwrap();
            let y = parse_date_filter(b).unwrap();
            assert_eq!(x <= y, numbers(a) <= numbers(b), "{} {}", a, b);
        }
    }
}

#[test]
fn date_filter_wants_three_pieces_of_the_right_length() {
    let wrong = Err("Date must be in format DD.MM.YYYY".to_string());
    assert_eq!(parse_date_filter("01.03"), wrong);
    assert_eq!(parse_date_filter("01.03.2024.1"), wrong);
    assert_eq!(parse_date_filter("1.03.2024"), wrong);
    assert_eq!(parse_date_filter("01.3.2024"), wrong);
    assert_eq!(parse_date_filter("01.03.24"), wrong);
    assert_eq!(parse_date_filter("2024-03-01"), wrong);
    assert_eq!(parse_date_filter(""), wrong);
    assert_eq!(parse_date_filter("éé.01.2024"), wrong);
    assert_eq!(parse_date_filter("01..2024"), wrong);
    assert_eq!(parse_date_filter("01.03.2024."), wrong);
}

#[test]
fn threshold_is_a_number() {
    assert_eq!(parse_threshold_filter("150"), Ok(150));
    assert_eq!(parse_threshold_filter("0"), Ok(0));
    assert_eq!(parse_threshold_filter("+7"), Ok(7));
    let wrong = Err("Threshold must be a valid number".to_string());
    assert_eq!(parse_threshold_filter("abc"), wrong);
    assert_eq!(parse_threshold_filter("-1"), wrong);
    assert_eq!(parse_threshold_filter(""), wrong);
    assert_eq!(parse_threshold_filter("4294967296"), wrong);
    assert_eq!(parse_threshold_filter("1.5"), wrong);
}

#[test]
fn the_name_of_the_source_carries_a_date() {
    assert_eq!(date_from_filename("AipsDownload20260130.xml"), Some("30.01.2026".to_string()));
    assert_eq!(
        date_from_filename("AipsDownload_20260130.xml"),
        Some("30.01.2026".to_string())
    );
    assert_eq!(date_from_filename("AipsDownload00000000.xml"), Some("00.00.0000".to_string()));
    assert_eq!(date_from_filename("AipsDownload_99999999.xml"), Some("99.99.9999".to_string()));
}

#[test]
fn the_name_of_the_kept_document_carries_its_day() {
    let day = CalendarDate::new(2024, 3, 5).unwrap();
    let name = aips_records::archive::document_file_name(&day);
    assert_eq!(date_from_filename(&name), Some(day.dotted()));
    let other = CalendarDate::new(2031, 11, 30).unwrap();
    assert_eq!(extract_date_from_filename(&name, &other), "05.03.2024");
}

#[test]
fn other_names_carry_none() {
    assert_eq!(date_from_filename("AipsDownload_abcdefgh.xml"), None);
    assert_eq!(date_from_filename("AipsDownload_ééé12.xml"), None);
    assert_eq!(date_from_filename("AipsDownload2026013a.xml"), None);
    assert_eq!(date_from_filename("AipsDownload__20260130.xml"), None);
    assert_eq!(date_from_filename("AipsDownload2026013.xml"), None);
    assert_eq!(date_from_filename("AipsDownload202601300.xml"), None);
    assert_eq!(date_from_filename("xAipsDownload20260130.xml"), None);
    assert_eq!(date_from_filename("AipsDownload20260130.xml.bak"), None);
    assert_eq!(date_from_filename("AipsDownload٢٠٢٦٠١٣٠.xml"), None);
    assert_eq!(date_from_filename("AipsDownload_2026013.xml"), None);
    assert_eq!(date_from_filename("AipsDownload_202601300.xml"), None);
    assert_eq!(date_from_filename("aipsDownload_20260130.xml"), None);
    assert_eq!(date_from_filename("AipsDownload_20260130.XML"), None);
    assert_eq!(date_from_filename("AipsDownload-20260130.xml"), None);
    assert_eq!(date_from_filename("data.xml"), None);
    assert_eq!(date_from_filename(""), None);
    assert_eq!(date_from_filename("AipsDownload_123é456.xml"), None);
    assert_eq!(date_from_filename("AipsDownload_12345é6.xml"), None);
}

#[test]
fn without_a_date_in_the_name_the_day_is_used() {
    let today = CalendarDate::new(2024, 3, 15).unwrap();
    assert_eq!(extract_date_from_filename("AipsDownload20260130.xml", &today), "30.01.2026");
    assert_eq!(extract_date_from_filename("AipsDownload_20260130.xml", &today), "30.01.2026");
    assert_eq!(extract_date_from_filename("AipsDownload_abcdefgh.xml", &today), "15.03.2024");
    assert_eq!(extract_date_from_filename("export.xml", &today), "15.03.2024");
}

#[test]
fn the_report_is_named_by_its_mode() {
    assert_eq!(output_file_name(Mode::Today, "30.01.2026"), "today");
    assert_eq!(output_file_name(Mode::Larger(5000), "30.01.2026"), "larger_5000_30.01.2026.csv");
    assert_eq!(output_file_name(Mode::Larger(0), "30.01.2026"), "larger_0_30.01.2026.csv");
    assert_eq!(output_file_name(Mode::Default, "30.01.2026"), "swissmedicinfo_30.01.2026.csv");
}

#[test]
fn today_goes_before_the_threshold() {
    let both = FilterRequest { since: None, larger_threshold: Some(5), today_mode: true };
    assert_eq!(both.mode(), Mode::Today);
    let larger = FilterRequest { since: None, larger_threshold: Some(5), today_mode: false };
    assert_eq!(larger.mode(), Mode::Larger(5));
    let plain = FilterRequest {
        since: Some("2024-01-01".to_string()),
        larger_threshold: None,
        today_mode: false,
    };
    assert_eq!(plain.mode(), Mode::Default);
}

#[test]
fn arguments_make_a_request() {
    assert_eq!(
        parse_request(&args(&["prog", "--download", "--since", "01.01.2025", "--larger", "5000"])),
        Ok(FilterRequest {
            since: Some("2025-01-01".to_string()),
            larger_threshold: Some(5000),
            today_mode: false,
        })
    );
    assert_eq!(
        parse_request(&args(&["prog", "file.xml", "--today"])),
        Ok(FilterRequest { since: None, larger_threshold: None, today_mode: true })
    );
    assert_eq!(
        parse_request(&args(&["prog", "file.xml"])),
        Ok(FilterRequest { since: None, larger_threshold: None, today_mode: false })
    );
    assert_eq!(
        parse_request(&args(&["prog", "file.xml", "--larger", "1", "--since", "02.03.2024"])),
        Ok(FilterRequest {
            since: Some("2024-03-02".to_string()),
            larger_threshold: Some(1),
            today_mode: false,
        })
    );
}

#[test]
fn the_first_of_a_repeated_option_counts() {
    assert_eq!(
        parse_request(&args(&["prog", "f", "--larger", "1", "--larger", "2"])),
        Ok(FilterRequest { since: None, larger_threshold: Some(1), today_mode: false })
    );
}

#[test]
fn two_arguments_hold_no_option_with_a_value() {
    assert_eq!(
        parse_request(&args(&["prog", "--since"])),
        Ok(FilterRequest { since: None, larger_threshold: None, today_mode: false })
    );
    assert_eq!(
        parse_request(&args(&["prog", "--today"])),
        Ok(FilterRequest { since: None, larger_threshold: None, today_mode: true })
    );
}

#[test]
fn arguments_that_are_wrong() {
    assert_eq!(
        parse_request(&args(&["prog", "f", "--since"])),
        Err(ValidationError::SinceWithoutDate)
    );
    assert_eq!(
        parse_request(&args(&["prog", "f", "--since", "2024-01-01"])),
        Err(ValidationError::BadDate)
    );
    assert_eq!(
        parse_request(&args(&["prog", "f", "--larger"])),
        Err(ValidationError::LargerWithoutNumber)
    );
    assert_eq!(
        parse_request(&args(&["prog", "f", "--larger", "many"])),
        Err(ValidationError::BadThreshold)
    );
    assert_eq!(
        parse_request(&args(&["prog", "f", "--larger", "x", "--since", "y"])),
        Err(ValidationError::BadDate)
    );
}

#[test]
fn each_error_has_its_message() {
    assert_eq!(ValidationError::SinceWithoutDate.message(), "--since requires a date argument");
    assert_eq!(ValidationError::BadDate.message(), "Date must be in format DD.MM.YYYY");
    assert_eq!(
        ValidationError::LargerWithoutNumber.message(),
        "--larger requires a threshold number"
    );
    assert_eq!(ValidationError::BadThreshold.message(), "Threshold must be a valid number");
}
