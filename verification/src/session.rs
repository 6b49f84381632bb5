//! One download session against the consent form, as a machine that is told
//! what arrived and says what to do next. The caller does the sending.

use crate::form::{
    page_tokens, read_form_tokens, submission_body, submission_text, FormTokens, FormTokensView,
    ProtocolError, DOWNLOAD_URL,
};
use vstd::prelude::*;

verus! {

#[derive(Debug, Clone, Copy, PartialEq, Eq, Structural)]
pub enum Method {
    Get,
    Post,
}

/// One header line of a request.
#[derive(Debug, PartialEq, Eq)]
pub struct Header {
    pub name: String,
    pub value: String,
}

/// A request for the caller to send.
#[derive(Debug, PartialEq, Eq)]
pub struct Request {
    pub method: Method,
    pub url: String,
    pub headers: Vec<Header>,
    pub body: Option<String>,
}

/// What a `Request` holds, as sequences.
pub struct RequestView {
    pub method: Method,
    pub url: Seq<char>,
    pub headers: Seq<(Seq<char>, Seq<char>)>,
    pub body: Option<Seq<char>>,
}

impl View for Request {
    type V = RequestView;

    open spec fn view(&self) -> RequestView {
        RequestView {
            method: self.method,
            url: self.url@,
            headers: Seq::new(
                self.headers@.len(),
                |i: int| (self.headers@[i].name@, self.headers@[i].value@),
            ),
            body: match self.body {
                Some(text) => Some(text@),
                None => None,
            },
        }
    }
}

/// The headers that every request of a session carries.
pub open spec fn browser_headers() -> Seq<(Seq<char>, Seq<char>)> {
    seq![
        (
            "User-Agent"@,
            "Mozilla/5.0 (X11; Linux x86_64; rv:65.0) Gecko/20100101 Firefox/65.0"@,
        ),
        ("Accept"@, "text/html,application/xhtml+xml,application/xml;q=0.9,image/webp,*/*;q=0.8"@),
        ("Accept-Language"@, "de,en-US;q=0.7,en;q=0.3"@),
    ]
}

/// The headers that only the submission carries.
pub open spec fn submission_headers() -> Seq<(Seq<char>, Seq<char>)> {
    seq![
        ("Referer"@, DOWNLOAD_URL@),
        ("Content-Type"@, "application/x-www-form-urlencoded"@),
        ("Upgrade-Insecure-Requests"@, "1"@),
    ]
}

/// The request that fetches the consent page.
pub open spec fn page_request_view() -> RequestView {
    RequestView { method: Method::Get, url: DOWNLOAD_URL@, headers: browser_headers(), body: None }
}

/// The request that accepts the form with the given tokens.
pub open spec fn submission_request_view(tokens: FormTokensView) -> RequestView {
    RequestView {
        method: Method::Post,
        url: DOWNLOAD_URL@,
        headers: browser_headers() + submission_headers(),
        body: Some(submission_text(tokens)),
    }
}

/// One header line.
fn header(name: &str, value: &str) -> (r: Header)
    ensures
        r.name@ == name@,
        r.value@ == value@,
{
    Header { name: name.to_owned(), value: value.to_owned() }
}

/// The headers that every request carries.
fn browser_header_list() -> (r: Vec<Header>)
    ensures
        Seq::new(r@.len(), |i: int| (r@[i].name@, r@[i].value@)) == browser_headers(),
{
    let mut headers: Vec<Header> = Vec::new();
    headers.push(
        header(
            "User-Agent",
            "Mozilla/5.0 (X11; Linux x86_64; rv:65.0) Gecko/20100101 Firefox/65.0",
        ),
    );
    headers.push(
        header(
            "Accept",
            "text/html,application/xhtml+xml,application/xml;q=0.9,image/webp,*/*;q=0.8",
        ),
    );
    headers.push(header("Accept-Language", "de,en-US;q=0.7,en;q=0.3"));
    assert(Seq::new(headers@.len(), |i: int| (headers@[i].name@, headers@[i].value@))
        =~= browser_headers());
    headers
}

/// The request that fetches the consent page.
pub fn page_request() -> (r: Request)
    ensures
        r@ == page_request_view(),
{
    Request {
        method: Method::Get,
        url: DOWNLOAD_URL.to_owned(),
        headers: browser_header_list(),
        body: None,
    }
}

/// The request that accepts the form: the tokens echoed in the body, sent
/// back to the address the page came from.
pub fn submission_request(tokens: &FormTokens) -> (r: Request)
    ensures
        r@ == submission_request_view(tokens@),
{
    let mut headers = browser_header_list();
    let ghost first = headers@;
    headers.push(header("Referer", DOWNLOAD_URL));
    headers.push(header("Content-Type", "application/x-www-form-urlencoded"));
    headers.push(header("Upgrade-Insecure-Requests", "1"));
    proof {
        let got = Seq::new(headers@.len(), |i: int| (headers@[i].name@, headers@[i].value@));
        let want = browser_headers() + submission_headers();
        let start = Seq::new(first.len(), |i: int| (first[i].name@, first[i].value@));
        assert(got.len() == want.len());
        assert forall|i: int| 0 <= i < got.len() implies got[i] == want[i] by {
            if i < 3 {
                assert(got[i] == start[i]);
            }
        }
        assert(got =~= want);
    }
    Request {
        method: Method::Post,
        url: DOWNLOAD_URL.to_owned(),
        headers,
        body: Some(submission_body(tokens)),
    }
}

/// Why a session ended without the archive.
#[derive(Debug, PartialEq, Eq)]
pub enum FetchError {
    /// Sending or receiving failed; the text is the transport's.
    Network(String),
    /// The consent page lacks a field.
    Protocol(ProtocolError),
    /// Something was reported that the session was not waiting for.
    OutOfTurn,
}

/// What a `FetchError` holds, as sequences.
pub enum FetchErrorView {
    Network(Seq<char>),
    Protocol(ProtocolError),
    OutOfTurn,
}

impl View for FetchError {
    type V = FetchErrorView;

    open spec fn view(&self) -> FetchErrorView {
        match self {
            FetchError::Network(text) => FetchErrorView::Network(text@),
            FetchError::Protocol(e) => FetchErrorView::Protocol(*e),
            FetchError::OutOfTurn => FetchErrorView::OutOfTurn,
        }
    }
}

/// Where a session stands.
#[derive(Debug, Clone, Copy, PartialEq, Eq, Structural)]
pub enum SessionState {
    Idle,
    AwaitingPage,
    AwaitingArchive,
    Finished,
}

/// What the caller reports to the session.
#[derive(Debug, PartialEq, Eq)]
pub enum SessionEvent {
    Started,
    PageReceived(String),
    ArchiveReceived(Vec<u8>),
    TransportFailed(String),
}

/// What a `SessionEvent` holds, as sequences.
pub enum SessionEventView {
    Started,
    PageReceived(Seq<char>),
    ArchiveReceived(Seq<u8>),
    TransportFailed(Seq<char>),
}

impl View for SessionEvent {
    type V = SessionEventView;

    open spec fn view(&self) -> SessionEventView {
        match self {
            SessionEvent::Started => SessionEventView::Started,
            SessionEvent::PageReceived(html) => SessionEventView::PageReceived(html@),
            SessionEvent::ArchiveReceived(bytes) => SessionEventView::ArchiveReceived(bytes@),
            SessionEvent::TransportFailed(text) => SessionEventView::TransportFailed(text@),
        }
    }
}

/// What the session asks of the caller.
#[derive(Debug, PartialEq, Eq)]
pub enum SessionAction {
    Send(Request),
    Deliver(Vec<u8>),
    Abort(FetchError),
}

/// What a `SessionAction` holds, as sequences.
pub enum SessionActionView {
    Send(RequestView),
    Deliver(Seq<u8>),
    Abort(FetchErrorView),
}

impl View for SessionAction {
    type V = SessionActionView;

    open spec fn view(&self) -> SessionActionView {
        match self {
            SessionAction::Send(request) => SessionActionView::Send(request@),
            SessionAction::Deliver(bytes) => SessionActionView::Deliver(bytes@),
            SessionAction::Abort(e) => SessionActionView::Abort(e@),
        }
    }
}

/// The step of a session: the page is asked for first; its tokens are
/// echoed in the submission, or the session ends where one is missing; what
/// answers the submission is the archive. A transport failure ends the
/// session, and so does anything out of turn.
pub open spec fn session_step(state: SessionState, event: SessionEventView) -> (
    SessionState,
    SessionActionView,
) {
    match (state, event) {
        (SessionState::Idle, SessionEventView::Started) => (
            SessionState::AwaitingPage,
            SessionActionView::Send(page_request_view()),
        ),
        (SessionState::AwaitingPage, SessionEventView::PageReceived(html)) => match page_tokens(
            html,
        ) {
            Ok(tokens) => (
                SessionState::AwaitingArchive,
                SessionActionView::Send(submission_request_view(tokens)),
            ),
            Err(e) => (
                SessionState::Finished,
                SessionActionView::Abort(FetchErrorView::Protocol(e)),
            ),
        },
        (SessionState::AwaitingArchive, SessionEventView::ArchiveReceived(bytes)) => (
            SessionState::Finished,
            SessionActionView::Deliver(bytes),
        ),
        (SessionState::AwaitingPage, SessionEventView::TransportFailed(text)) => (
            SessionState::Finished,
            SessionActionView::Abort(FetchErrorView::Network(text)),
        ),
        (SessionState::AwaitingArchive, SessionEventView::TransportFailed(text)) => (
            SessionState::Finished,
            SessionActionView::Abort(FetchErrorView::Network(text)),
        ),
        _ => (SessionState::Finished, SessionActionView::Abort(FetchErrorView::OutOfTurn)),
    }
}

/// Takes the session one step on: the new state, and what to do.
pub fn advance(state: SessionState, event: SessionEvent) -> (r: (SessionState, SessionAction))
    ensures
        (r.0, r.1@) == session_step(state, event@),
{
    match (state, event) {
        (SessionState::Idle, SessionEvent::Started) => (
            SessionState::AwaitingPage,
            SessionAction::Send(page_request()),
        ),
        (SessionState::AwaitingPage, SessionEvent::PageReceived(html)) => {
            match read_form_tokens(html.as_str()) {
                Ok(tokens) => (
                    SessionState::AwaitingArchive,
                    SessionAction::Send(submission_request(&tokens)),
                ),
                Err(e) => (SessionState::Finished, SessionAction::Abort(FetchError::Protocol(e))),
            }
        },
        (SessionState::AwaitingArchive, SessionEvent::ArchiveReceived(bytes)) => (
            SessionState::Finished,
            SessionAction::Deliver(bytes),
        ),
        (SessionState::AwaitingPage, SessionEvent::TransportFailed(text)) => (
            SessionState::Finished,
            SessionAction::Abort(FetchError::Network(text)),
        ),
        (SessionState::AwaitingArchive, SessionEvent::TransportFailed(text)) => (
            SessionState::Finished,
            SessionAction::Abort(FetchError::Network(text)),
        ),
        _ => (SessionState::Finished, SessionAction::Abort(FetchError::OutOfTurn)),
    }
}

/// A page that lacks a field ends the session at once, and a session that
/// has ended sends nothing more: the submission is never made.
pub proof fn lemma_incomplete_page_sends_nothing(html: Seq<char>, later: SessionEventView)
    requires
        page_tokens(html) is Err,
    ensures
        session_step(SessionState::AwaitingPage, SessionEventView::PageReceived(html))
            == (
            SessionState::Finished,
            SessionActionView::Abort(FetchErrorView::Protocol(page_tokens(html)->Err_0)),
        ),
        !(session_step(SessionState::Finished, later).1 is Send),
        session_step(SessionState::Finished, later).0 == SessionState::Finished,
{
}

} // verus!
