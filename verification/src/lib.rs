//! Records of a medicinal-product registry export: fetching the export
//! through its consent form, reading the records out of the XML document,
//! filtering them and writing the reports.
//!
//! The library does no input or output. A program around it sends the
//! requests that `session` asks for, hands the archive to `archive`, the
//! document to `document` or, event by event, to `extract`, and writes out
//! what `report` and `run` return.
//!
//! - `session`, `form`: the download session and the form it accepts.
//! - `archive`: the members of the downloaded archive that are kept.
//! - `extract`, `document`: from parse events, or from a document, to records.
//! - `select`, `order`, `identifiers`: the filters, the sorting, the lists.
//! - `render`, `report`, `run`: the report, its bytes, a whole run.
//! - `options`: what the user asks for, and the name of the report's file.
//! - `calendar`, `record`, `text`: dates, records, and helpers on strings.

pub mod archive;
pub mod calendar;
pub mod document;
pub mod extract;
pub mod form;
pub mod identifiers;
pub mod options;
pub mod order;
pub mod record;
pub mod render;
pub mod report;
pub mod run;
pub mod select;
pub mod session;
pub mod text;
