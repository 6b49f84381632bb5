//! The consent form that stands before the download: reading its hidden
//! fields, the body that accepts it, and the two requests of a session.

use vstd::prelude::*;
use vstd::string::StringExecFns;
use vstd::utf8::encode_utf8;

verus! {

/// The address that serves the consent page and, once accepted, the archive.
pub const DOWNLOAD_URL: &'static str = "https://download.swissmedicinfo.ch/";

/// The hidden fields that the form wants echoed.
#[derive(Debug, Clone, Copy, PartialEq, Eq, Structural)]
pub enum HiddenField {
    ViewState,
    ViewStateGenerator,
    EventValidation,
}

/// The name of a hidden field in the page.
pub open spec fn field_name(field: HiddenField) -> Seq<char> {
    match field {
        HiddenField::ViewState => "__VIEWSTATE"@,
        HiddenField::ViewStateGenerator => "__VIEWSTATEGENERATOR"@,
        HiddenField::EventValidation => "__EVENTVALIDATION"@,
    }
}

/// The CSS selector of the input element that carries a hidden field.
pub open spec fn field_selector(field: HiddenField) -> Seq<char> {
    match field {
        HiddenField::ViewState => "input[name=\"__VIEWSTATE\"]"@,
        HiddenField::ViewStateGenerator => "input[name=\"__VIEWSTATEGENERATOR\"]"@,
        HiddenField::EventValidation => "input[name=\"__EVENTVALIDATION\"]"@,
    }
}

/// What `scraper` finds in an HTML document: the value of `attribute` on the
/// first element that `Html::select` yields for `selector`, which walks the
/// nodes of the tree in the order in which the parser made them; nothing
/// where the selector is no CSS selector, no element matches, or the first
/// match lacks the attribute.
pub uninterp spec fn first_match_attribute(
    html: Seq<char>,
    selector: Seq<char>,
    attribute: Seq<char>,
) -> Option<Seq<char>>;

/// Parses `html` with `scraper::Html::parse_document`, the selector with
/// `scraper::Selector::parse`, and reads the attribute of the first element
/// that `Html::select` yields with `Element::attr`. Claimed: the outcome is a
/// function of the three texts alone, named `first_match_attribute`.
#[verifier::external_body]
fn select_attribute(html: &str, selector: &str, attribute: &str) -> (r: Option<String>)
    ensures
        r is Some <==> first_match_attribute(html@, selector@, attribute@) is Some,
        r matches Some(value) ==> first_match_attribute(html@, selector@, attribute@) == Some(
            value@,
        ),
{
    let document = scraper::Html::parse_document(html);
    let parsed = scraper::Selector::parse(selector).ok()?;
    let element = document.select(&parsed).next()?;
    Some(element.value().attr(attribute)?.to_string())
}

/// The value that a page gives a hidden field.
pub open spec fn hidden_field_value(html: Seq<char>, field: HiddenField) -> Option<Seq<char>> {
    first_match_attribute(html, field_selector(field), "value"@)
}

/// The value of a hidden field in the page, where the page has it.
pub fn hidden_field(html: &str, field: HiddenField) -> (r: Option<String>)
    ensures
        r is Some <==> hidden_field_value(html@, field) is Some,
        r matches Some(value) ==> hidden_field_value(html@, field) == Some(value@),
{
    let selector = match field {
        HiddenField::ViewState => "input[name=\"__VIEWSTATE\"]",
        HiddenField::ViewStateGenerator => "input[name=\"__VIEWSTATEGENERATOR\"]",
        HiddenField::EventValidation => "input[name=\"__EVENTVALIDATION\"]",
    };
    select_attribute(html, selector, "value")
}

/// The three values that the form wants back.
#[derive(Debug, PartialEq, Eq)]
pub struct FormTokens {
    pub view_state: String,
    pub view_state_generator: String,
    pub event_validation: String,
}

/// What `FormTokens` hold, as sequences.
pub struct FormTokensView {
    pub view_state: Seq<char>,
    pub view_state_generator: Seq<char>,
    pub event_validation: Seq<char>,
}

impl View for FormTokens {
    type V = FormTokensView;

    open spec fn view(&self) -> FormTokensView {
        FormTokensView {
            view_state: self.view_state@,
            view_state_generator: self.view_state_generator@,
            event_validation: self.event_validation@,
        }
    }
}

/// The page lacks a field that the form needs.
#[derive(Debug, Clone, Copy, PartialEq, Eq, Structural)]
pub struct ProtocolError {
    pub missing: HiddenField,
}

impl ProtocolError {
    /// The message for the user.
    pub fn message(&self) -> (r: String)
        ensures
            r@ == "Could not find "@ + field_name(self.missing),
    {
        let mut out = "Could not find ".to_owned();
        match self.missing {
            HiddenField::ViewState => out.append("__VIEWSTATE"),
            HiddenField::ViewStateGenerator => out.append("__VIEWSTATEGENERATOR"),
            HiddenField::EventValidation => out.append("__EVENTVALIDATION"),
        }
        out
    }
}

/// The tokens made of the three values, or the first field that is missing.
pub open spec fn tokens_of(
    view_state: Option<Seq<char>>,
    generator: Option<Seq<char>>,
    validation: Option<Seq<char>>,
) -> Result<FormTokensView, ProtocolError> {
    if view_state is None {
        Err(ProtocolError { missing: HiddenField::ViewState })
    } else if generator is None {
        Err(ProtocolError { missing: HiddenField::ViewStateGenerator })
    } else if validation is None {
        Err(ProtocolError { missing: HiddenField::EventValidation })
    } else {
        Ok(
            FormTokensView {
                view_state: view_state->0,
                view_state_generator: generator->0,
                event_validation: validation->0,
            },
        )
    }
}

/// The view of an optional string.
pub open spec fn optional_text(value: Option<String>) -> Option<Seq<char>> {
    match value {
        Some(text) => Some(text@),
        None => None,
    }
}

/// The view of an outcome that holds tokens.
pub open spec fn tokens_outcome(r: Result<FormTokens, ProtocolError>) -> Result<
    FormTokensView,
    ProtocolError,
> {
    match r {
        Ok(tokens) => Ok(tokens@),
        Err(e) => Err(e),
    }
}

/// Puts the three values together; the first that is missing, in the order
/// view state, generator, validation, is the error.
pub fn tokens_from_fields(
    view_state: Option<String>,
    generator: Option<String>,
    validation: Option<String>,
) -> (r: Result<FormTokens, ProtocolError>)
    ensures
        tokens_outcome(r) == tokens_of(
            optional_text(view_state),
            optional_text(generator),
            optional_text(validation),
        ),
{
    match view_state {
        None => Err(ProtocolError { missing: HiddenField::ViewState }),
        Some(view_state) => match generator {
            None => Err(ProtocolError { missing: HiddenField::ViewStateGenerator }),
            Some(view_state_generator) => match validation {
                None => Err(ProtocolError { missing: HiddenField::EventValidation }),
                Some(event_validation) => Ok(
                    FormTokens { view_state, view_state_generator, event_validation },
                ),
            },
        },
    }
}

/// The tokens that a page holds.
pub open spec fn page_tokens(html: Seq<char>) -> Result<FormTokensView, ProtocolError> {
    tokens_of(
        hidden_field_value(html, HiddenField::ViewState),
        hidden_field_value(html, HiddenField::ViewStateGenerator),
        hidden_field_value(html, HiddenField::EventValidation),
    )
}

/// Reads the three hidden fields out of the consent page.
pub fn read_form_tokens(html: &str) -> (r: Result<FormTokens, ProtocolError>)
    ensures
        tokens_outcome(r) == page_tokens(html@),
{
    let view_state = hidden_field(html, HiddenField::ViewState);
    let generator = hidden_field(html, HiddenField::ViewStateGenerator);
    let validation = hidden_field(html, HiddenField::EventValidation);
    tokens_from_fields(view_state, generator, validation)
}

/// A byte that a form body carries as it is: letters, digits, `-`, `.`, `_`, `~`.
pub open spec fn is_unreserved(b: u8) -> bool {
    ||| 0x30 <= b <= 0x39
    ||| 0x41 <= b <= 0x5a
    ||| 0x61 <= b <= 0x7a
    ||| b == 0x2d
    ||| b == 0x2e
    ||| b == 0x5f
    ||| b == 0x7e
}

/// The upper-case hexadecimal digit of a number below sixteen.
pub open spec fn hex_digit(n: u8) -> char {
    if n < 10 {
        (0x30 + n) as u8 as char
    } else {
        (0x41 + n - 10) as u8 as char
    }
}

/// One byte, percent-encoded.
pub open spec fn encoded_byte(b: u8) -> Seq<char> {
    if is_unreserved(b) {
        seq![b as char]
    } else {
        seq!['%', hex_digit(b / 16), hex_digit(b % 16)]
    }
}

/// A byte string, percent-encoded byte by byte.
pub open spec fn percent_encoded_bytes(bytes: Seq<u8>) -> Seq<char>
    decreases bytes.len(),
{
    if bytes.len() == 0 {
        Seq::empty()
    } else {
        percent_encoded_bytes(bytes.drop_last()) + encoded_byte(bytes.last())
    }
}

/// A text, percent-encoded: each byte of its UTF-8 form that is not
/// unreserved becomes `%` and two upper-case hexadecimal digits.
pub open spec fn percent_encoded(text: Seq<char>) -> Seq<char> {
    percent_encoded_bytes(encode_utf8(text))
}

/// `urlencoding::encode`. Claimed, as its documentation says: every byte of
/// the UTF-8 text is percent-encoded except ASCII letters and digits and
/// `-`, `_`, `.`, `~`; the hexadecimal digits are upper case.
#[verifier::external_body]
fn percent_encode(text: &str) -> (r: String)
    ensures
        r@ == percent_encoded(text@),
{
    urlencoding::encode(text).into_owned()
}

/// The body that accepts the form.
pub open spec fn submission_text(tokens: FormTokensView) -> Seq<char> {
    "__VIEWSTATE="@ + percent_encoded(tokens.view_state) + "&__VIEWSTATEGENERATOR="@
        + percent_encoded(tokens.view_state_generator) + "&__EVENTVALIDATION="@ + percent_encoded(
        tokens.event_validation,
    ) + "&ctl00%24MainContent%24BtnYes=Ja"@
}

/// The form-encoded body that echoes the tokens and presses the button that
/// consents.
pub fn submission_body(tokens: &FormTokens) -> (r: String)
    ensures
        r@ == submission_text(tokens@),
{
    let mut out = "__VIEWSTATE=".to_owned();
    let view_state = percent_encode(tokens.view_state.as_str());
    out.append(view_state.as_str());
    out.append("&__VIEWSTATEGENERATOR=");
    let generator = percent_encode(tokens.view_state_generator.as_str());
    out.append(generator.as_str());
    out.append("&__EVENTVALIDATION=");
    let validation = percent_encode(tokens.event_validation.as_str());
    out.append(validation.as_str());
    out.append("&ctl00%24MainContent%24BtnYes=Ja");
    out
}

} // verus!
