use aips_records::archive::{
    archive_file_name, classify_member, destination_of, document_file_name, unpack,
    ArchiveError, ExtractedFile, MemberKind, Unpacked,
};
use aips_records::calendar::CalendarDate;
use std::io::Write;

fn day() -> CalendarDate {
    CalendarDate::new(2024, 3, 5).unwrap()
}

fn archive_of(members: &[(&str, &[u8])]) -> Vec<u8> {
    let mut writer = zip::ZipWriter::new(std::io::Cursor::new(Vec::new()));
    for (name, content) in members {
        writer.start_file(*name, zip::write::SimpleFileOptions::default()).unwrap();
        writer.write_all(content).unwrap();
    }
    writer.finish().unwrap().into_inner()
}

fn file(destination: &str, content: &[u8]) -> ExtractedFile {
    ExtractedFile { destination: destination.to_string(), content: content.to_vec() }
}

#[test]
fn members_are_told_by_their_names() {
    assert_eq!(classify_member("AipsDownload_20240101.xml"), MemberKind::Document);
    assert_eq!(classify_member("dir/xAipsDownloadx.xml"), MemberKind::Document);
    assert_eq!(classify_member("AipsDownload.xsd"), MemberKind::Schema);
    assert_eq!(classify_member("schema.xsd"), MemberKind::Schema);
    assert_eq!(classify_member("other.xml"), MemberKind::Other);
    assert_eq!(classify_member("AipsDownload_20240101.XML"), MemberKind::Other);
    assert_eq!(classify_member("AipsDownload.xml.txt"), MemberKind::Other);
    assert_eq!(classify_member("aipsdownload.xml"), MemberKind::Other);
    assert_eq!(classify_member(""), MemberKind::Other);
}

#[test]
fn kept_members_have_their_names() {
    assert_eq!(document_file_name(&day()), "AipsDownload20240305.xml");
    assert_eq!(document_file_name(&day()).len(), 24);
    assert_eq!(archive_file_name(&day()), "AipsDownload_20240305.zip");
    assert_eq!(
        destination_of("AipsDownload_old.xml", &day()),
        Some("AipsDownload20240305.xml".to_string())
    );
    assert_eq!(destination_of("a/b.xsd", &day()), Some("a/b.xsd".to_string()));
    assert_eq!(destination_of("readme.txt", &day()), None);
}

#[test]
fn the_document_and_the_schemas_are_taken_out() {
    let big = vec![b'x'; 100_000];
    let bytes = archive_of(&[
        ("AipsDownload.xsd", b"<schema/>"),
        ("readme.txt", b"hello"),
        ("AipsDownload_20240101.xml", &big),
        ("empty.xsd", b""),
    ]);
    let taken = unpack(&bytes, &day()).unwrap();
    assert_eq!(
        taken,
        Unpacked {
            files: vec![
                file("AipsDownload.xsd", b"<schema/>"),
                file("AipsDownload20240305.xml", &big),
                file("empty.xsd", b""),
            ],
            document: Some("AipsDownload20240305.xml".to_string()),
        }
    );
    assert_eq!(taken.require_document(), Ok("AipsDownload20240305.xml".to_string()));
}

#[test]
fn one_document_is_kept_under_the_dated_name_with_its_bytes() {
    let content = b"<root><MedicinalDocumentsBundle/></root>";
    let bytes = archive_of(&[("some/dir/xAipsDownload_whatever.xml", content)]);
    let taken = unpack(&bytes, &day()).unwrap();
    assert_eq!(taken.files, vec![file("AipsDownload20240305.xml", content)]);
    assert_eq!(taken.require_document(), Ok("AipsDownload20240305.xml".to_string()));
}

#[test]
fn every_document_is_kept_under_the_dated_name() {
    let bytes = archive_of(&[("AipsDownload_a.xml", b"one"), ("AipsDownload_b.xml", b"two")]);
    assert_eq!(
        unpack(&bytes, &day()).unwrap().files,
        vec![file("AipsDownload20240305.xml", b"one"), file("AipsDownload20240305.xml", b"two")]
    );
}

#[test]
fn an_archive_without_the_document() {
    let bytes = archive_of(&[
        ("AipsDownload.xsd", b"<schema/>"),
        ("data.xml", b"<a/>"),
        ("more.xsd", b"<more/>"),
    ]);
    let taken = unpack(&bytes, &day()).unwrap();
    assert_eq!(
        taken,
        Unpacked {
            files: vec![file("AipsDownload.xsd", b"<schema/>"), file("more.xsd", b"<more/>")],
            document: None,
        }
    );
    assert_eq!(taken.require_document(), Err(ArchiveError::NoDocument));
    let empty = unpack(&archive_of(&[]), &day()).unwrap();
    assert_eq!(empty, Unpacked { files: Vec::new(), document: None });
    assert_eq!(empty.require_document(), Err(ArchiveError::NoDocument));
    assert_eq!(ArchiveError::NoDocument.message(), "No XML file found in ZIP archive");
}

#[test]
fn bytes_that_are_no_archive() {
    let outcome = unpack(b"<html>not a zip</html>", &day());
    assert!(matches!(outcome, Err(ArchiveError::Unreadable(_))));
    assert!(matches!(unpack(b"", &day()), Err(ArchiveError::Unreadable(_))));
    if let Err(e) = outcome {
        assert!(!e.message().is_empty());
        assert_eq!(ArchiveError::Unreadable("why".to_string()).message(), "why");
    }
}

#[test]
fn a_member_that_cannot_be_read() {
    let content = vec![b'y'; 5000];
    let mut bytes = archive_of(&[("AipsDownload_1.xml", &content)]);
    let at = bytes.len() / 4;
    for b in &mut bytes[at..at + 64] {
        *b ^= 0x5a;
    }
    assert!(matches!(unpack(&bytes, &day()), Err(ArchiveError::Unreadable(_))));
}
