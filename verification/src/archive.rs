//! The downloaded archive: which of its members are wanted, under which
//! names they are kept, and the unpacking itself.

use crate::calendar::{compact_text, CalendarDate};
use crate::text::{contains, ends_with, has_part, has_suffix};
use vstd::prelude::*;
use vstd::string::StringExecFns;

verus! {

/// What a member of the archive is to this library.
#[derive(Debug, Clone, Copy, PartialEq, Eq, Structural)]
pub enum MemberKind {
    /// The data document.
    Document,
    /// A schema that accompanies it.
    Schema,
    /// Anything else.
    Other,
}

/// A member is the document where its name ends with `.xml` and holds
/// `AipsDownload`; it is a schema where its name ends with `.xsd`.
pub open spec fn member_kind(name: Seq<char>) -> MemberKind {
    if has_suffix(name, ".xml"@) && has_part(name, "AipsDownload"@) {
        MemberKind::Document
    } else if has_suffix(name, ".xsd"@) {
        MemberKind::Schema
    } else {
        MemberKind::Other
    }
}

/// Tells what a member is by its name.
pub fn classify_member(name: &str) -> (kind: MemberKind)
    ensures
        kind == member_kind(name@),
{
    if ends_with(name, ".xml") && contains(name, "AipsDownload") {
        MemberKind::Document
    } else if ends_with(name, ".xsd") {
        MemberKind::Schema
    } else {
        MemberKind::Other
    }
}

/// The name of the kept document: `AipsDownload`, the day as `YYYYMMDD`,
/// and `.xml`.
pub open spec fn document_name(year: nat, month: nat, day: nat) -> Seq<char> {
    "AipsDownload"@ + compact_text(year, month, day) + ".xml"@
}

/// The name of the kept archive: `AipsDownload_`, the day as `YYYYMMDD`,
/// and `.zip`.
pub open spec fn archive_name(year: nat, month: nat, day: nat) -> Seq<char> {
    "AipsDownload_"@ + compact_text(year, month, day) + ".zip"@
}

/// The name under which the document of the given day is kept.
pub fn document_file_name(day: &CalendarDate) -> (r: String)
    ensures
        r@ == document_name(day.year(), day.month(), day.day()),
{
    let mut out = "AipsDownload".to_owned();
    let stamp = day.compact();
    out.append(stamp.as_str());
    out.append(".xml");
    out
}

/// The name under which the archive of the given day is kept.
pub fn archive_file_name(day: &CalendarDate) -> (r: String)
    ensures
        r@ == archive_name(day.year(), day.month(), day.day()),
{
    let mut out = "AipsDownload_".to_owned();
    let stamp = day.compact();
    out.append(stamp.as_str());
    out.append(".zip");
    out
}

/// The name under which a member is kept: the dated name for the document,
/// its own name for a schema, none for the rest.
pub open spec fn member_destination(name: Seq<char>, year: nat, month: nat, day: nat) -> Option<
    Seq<char>,
> {
    match member_kind(name) {
        MemberKind::Document => Some(document_name(year, month, day)),
        MemberKind::Schema => Some(name),
        MemberKind::Other => None,
    }
}

/// The name under which a member is kept, where it is kept at all.
pub fn destination_of(name: &str, day: &CalendarDate) -> (r: Option<String>)
    ensures
        r is Some <==> member_destination(name@, day.year(), day.month(), day.day()) is Some,
        r matches Some(destination) ==> member_destination(
            name@,
            day.year(),
            day.month(),
            day.day(),
        ) == Some(destination@),
{
    match classify_member(name) {
        MemberKind::Document => Some(document_file_name(day)),
        MemberKind::Schema => Some(name.to_owned()),
        MemberKind::Other => None,
    }
}

/// A member that was taken out of the archive.
#[derive(Debug, PartialEq, Eq)]
pub struct ExtractedFile {
    pub destination: String,
    pub content: Vec<u8>,
}

/// What an `ExtractedFile` holds, as sequences.
pub struct ExtractedFileView {
    pub destination: Seq<char>,
    pub content: Seq<u8>,
}

impl View for ExtractedFile {
    type V = ExtractedFileView;

    open spec fn view(&self) -> ExtractedFileView {
        ExtractedFileView { destination: self.destination@, content: self.content@ }
    }
}

/// The views of a sequence of files, in order.
pub open spec fn file_views(files: Seq<ExtractedFile>) -> Seq<ExtractedFileView> {
    Seq::new(files.len(), |i: int| files[i]@)
}

/// Why an archive gave no document.
#[derive(Debug, PartialEq, Eq)]
pub enum ArchiveError {
    /// The bytes are no archive, or a member cannot be read; the text says
    /// which.
    Unreadable(String),
    /// No member is the document.
    NoDocument,
}

/// The kind of an `ArchiveError`.
#[derive(Debug, Clone, Copy, PartialEq, Eq, Structural)]
pub enum ArchiveFailure {
    Unreadable,
    NoDocument,
}

impl ArchiveError {
    /// Which of the two failures this is.
    pub open spec fn kind(self) -> ArchiveFailure {
        match self {
            ArchiveError::Unreadable(_) => ArchiveFailure::Unreadable,
            ArchiveError::NoDocument => ArchiveFailure::NoDocument,
        }
    }

    /// The message for the user.
    pub fn message(&self) -> (r: String)
        ensures
            self.kind() == ArchiveFailure::NoDocument ==> r@ == "No XML file found in ZIP archive"@,
            self matches ArchiveError::Unreadable(text) ==> r@ == text@,
    {
        match self {
            ArchiveError::Unreadable(text) => text.clone(),
            ArchiveError::NoDocument => "No XML file found in ZIP archive".to_owned(),
        }
    }
}

/// `zip::result::ZipError`, carried through as it is.
#[verifier::external_type_specification]
#[verifier::external_body]
pub struct ExZipError(zip::result::ZipError);

/// How many members `zip` finds in an archive; nothing where it cannot open
/// the bytes as one.
pub uninterp spec fn archive_member_count(archive: Seq<u8>) -> Option<nat>;

/// The name that `zip` gives the member at `index`; nothing where it cannot
/// open the archive or the member.
pub uninterp spec fn archive_member_name(archive: Seq<u8>, index: nat) -> Option<Seq<char>>;

/// The bytes that `zip` reads out of the member at `index`; nothing where
/// it cannot open the archive or the member, or reading fails.
pub uninterp spec fn archive_member_content(archive: Seq<u8>, index: nat) -> Option<Seq<u8>>;

/// `zip::ZipArchive::new` on the bytes, then `len`. Claimed: whether the
/// archive opens, and how many members it then has, depends on the bytes
/// alone.
#[verifier::external_body]
fn member_count(archive: &[u8]) -> (r: Result<usize, zip::result::ZipError>)
    ensures
        r is Ok <==> archive_member_count(archive@) is Some,
        r matches Ok(n) ==> archive_member_count(archive@) == Some(n as nat),
{
    Ok(zip::ZipArchive::new(std::io::Cursor::new(archive))?.len())
}

/// `zip::ZipArchive::new` on the bytes, then `by_index` and `ZipFile::name`.
/// Claimed: whether this succeeds, and the name, depend on the bytes and the
/// index alone.
#[verifier::external_body]
fn member_name(archive: &[u8], index: usize) -> (r: Result<String, zip::result::ZipError>)
    ensures
        r is Ok <==> archive_member_name(archive@, index as nat) is Some,
        r matches Ok(name) ==> archive_member_name(archive@, index as nat) == Some(name@),
{
    let mut opened = zip::ZipArchive::new(std::io::Cursor::new(archive))?;
    let member = opened.by_index(index)?;
    Ok(member.name().to_string())
}

/// `zip::ZipArchive::new` on the bytes, then `by_index`, and the member read
/// to its end. Claimed: whether this succeeds, and the bytes read, depend on
/// the archive and the index alone.
#[verifier::external_body]
fn member_content(archive: &[u8], index: usize) -> (r: Result<Vec<u8>, zip::result::ZipError>)
    ensures
        r is Ok <==> archive_member_content(archive@, index as nat) is Some,
        r matches Ok(content) ==> archive_member_content(archive@, index as nat) == Some(
            content@,
        ),
{
    let mut opened = zip::ZipArchive::new(std::io::Cursor::new(archive))?;
    let mut member = opened.by_index(index)?;
    let mut content = Vec::new();
    std::io::copy(&mut member, &mut content)?;
    Ok(content)
}

/// The text that `zip` gives one of its errors.
#[verifier::external_body]
fn zip_error_text(e: &zip::result::ZipError) -> String {
    e.to_string()
}

/// The files that the first `n` members give, in member order; nothing where
/// one of those members cannot be opened, or one that is kept cannot be read.
pub open spec fn kept_files(archive: Seq<u8>, year: nat, month: nat, day: nat, n: nat) -> Option<
    Seq<ExtractedFileView>,
>
    decreases n,
{
    if n == 0 {
        Some(Seq::empty())
    } else {
        let index = (n - 1) as nat;
        match kept_files(archive, year, month, day, index) {
            None => None,
            Some(files) => match archive_member_name(archive, index) {
                None => None,
                Some(name) => match member_destination(name, year, month, day) {
                    None => Some(files),
                    Some(destination) => match archive_member_content(archive, index) {
                        None => None,
                        Some(content) => Some(
                            files.push(ExtractedFileView { destination, content }),
                        ),
                    },
                },
            },
        }
    }
}

/// The member at `index` can be opened and is the document.
pub open spec fn document_at(archive: Seq<u8>, index: nat) -> bool {
    match archive_member_name(archive, index) {
        Some(name) => member_kind(name) == MemberKind::Document,
        None => false,
    }
}

/// One of the first `n` members is the document.
pub open spec fn document_among(archive: Seq<u8>, n: nat) -> bool {
    exists|i: nat| i < n && #[trigger] document_at(archive, i)
}

/// What was taken out of an archive.
#[derive(Debug, PartialEq, Eq)]
pub struct Unpacked {
    /// The kept files, in the order of the members.
    pub files: Vec<ExtractedFile>,
    /// The name under which the document is kept, where a member is the
    /// document.
    pub document: Option<String>,
}

/// What `Unpacked` holds, as sequences.
pub struct UnpackedView {
    pub files: Seq<ExtractedFileView>,
    pub document: Option<Seq<char>>,
}

impl View for Unpacked {
    type V = UnpackedView;

    open spec fn view(&self) -> UnpackedView {
        UnpackedView {
            files: file_views(self.files@),
            document: match self.document {
                Some(name) => Some(name@),
                None => None,
            },
        }
    }
}

impl Unpacked {
    /// The name of the kept document; `NoDocument` where no member was the
    /// document. The kept files stay at hand either way.
    pub fn require_document(&self) -> (r: Result<String, ArchiveError>)
        ensures
            match r {
                Ok(name) => self@.document == Some(name@),
                Err(e) => self@.document is None && e.kind() == ArchiveFailure::NoDocument,
            },
    {
        match &self.document {
            Some(name) => Ok(name.clone()),
            None => Err(ArchiveError::NoDocument),
        }
    }
}

/// What unpacking an archive gives, where the archive and the members that
/// are kept can be read: the kept files of all its members, and the name of
/// the kept document where one of the members is the document.
pub open spec fn unpacked(archive: Seq<u8>, year: nat, month: nat, day: nat) -> Option<
    UnpackedView,
> {
    match archive_member_count(archive) {
        None => None,
        Some(n) => match kept_files(archive, year, month, day, n) {
            None => None,
            Some(files) => Some(
                UnpackedView {
                    files,
                    document: if document_among(archive, n) {
                        Some(document_name(year, month, day))
                    } else {
                        None
                    },
                },
            ),
        },
    }
}

/// Takes the document and the schemas out of a downloaded archive. Every
/// member is visited. The document is kept under the dated name of `day`,
/// each schema under its own name, in the order of the members; a later
/// file of the same name is meant to replace an earlier one. Whether a
/// member was the document is told beside the files, so that the schemas
/// are at hand where none was. An archive or a kept member that cannot be
/// read gives `Unreadable`.
pub fn unpack(archive: &[u8], day: &CalendarDate) -> (r: Result<Unpacked, ArchiveError>)
    ensures
        match r {
            Ok(taken) => unpacked(archive@, day.year(), day.month(), day.day()) == Some(taken@),
            Err(e) => unpacked(archive@, day.year(), day.month(), day.day()) is None && e.kind()
                == ArchiveFailure::Unreadable,
        },
{
    let count = match member_count(archive) {
        Ok(n) => n,
        Err(e) => {
            return Err(ArchiveError::Unreadable(zip_error_text(&e)));
        },
    };
    let mut files: Vec<ExtractedFile> = Vec::new();
    let mut found = false;
    let mut i: usize = 0;
    while i < count
        invariant
            i <= count,
            archive_member_count(archive@) == Some(count as nat),
            kept_files(archive@, day.year(), day.month(), day.day(), i as nat) == Some(
                file_views(files@),
            ),
            found == document_among(archive@, i as nat),
        decreases count - i,
    {
        let ghost before = file_views(files@);
        let name = match member_name(archive, i) {
            Ok(name) => name,
            Err(e) => {
                proof {
                    lemma_kept_files_stay_lost(
                        archive@,
                        day.year(),
                        day.month(),
                        day.day(),
                        i as nat + 1,
                        count as nat,
                    );
                }
                return Err(ArchiveError::Unreadable(zip_error_text(&e)));
            },
        };
        if let Some(destination) = destination_of(name.as_str(), day) {
            let content = match member_content(archive, i) {
                Ok(content) => content,
                Err(e) => {
                    proof {
                        lemma_kept_files_stay_lost(
                            archive@,
                            day.year(),
                            day.month(),
                            day.day(),
                            i as nat + 1,
                            count as nat,
                        );
                    }
                    return Err(ArchiveError::Unreadable(zip_error_text(&e)));
                },
            };
            files.push(ExtractedFile { destination, content });
            assert(file_views(files@) =~= before.push(
                ExtractedFileView { destination: destination@, content: content@ },
            ));
        }
        let is_document = match classify_member(name.as_str()) {
            MemberKind::Document => true,
            _ => false,
        };
        proof {
            if found {
                let w = choose|w: nat| w < i && #[trigger] document_at(archive@, w);
                assert(w < i + 1 && document_at(archive@, w));
            } else if is_document {
                assert(document_at(archive@, i as nat));
            } else {
                assert forall|w: nat| w < i + 1 implies !#[trigger] document_at(archive@, w) by {
                    if w < i {
                        assert(!document_among(archive@, i as nat));
                    }
                }
            }
        }
        found = found || is_document;
        i += 1;
    }
    let document = if found {
        Some(document_file_name(day))
    } else {
        None
    };
    Ok(Unpacked { files, document })
}

/// Once a member is lost, the files of every longer run of members are lost.
proof fn lemma_kept_files_stay_lost(
    archive: Seq<u8>,
    year: nat,
    month: nat,
    day: nat,
    lost: nat,
    n: nat,
)
    requires
        lost <= n,
        kept_files(archive, year, month, day, lost) is None,
    ensures
        kept_files(archive, year, month, day, n) is None,
    decreases n,
{
    if lost < n {
        lemma_kept_files_stay_lost(archive, year, month, day, lost, (n - 1) as nat);
    }
}

} // verus!
