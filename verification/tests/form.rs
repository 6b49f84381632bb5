use aips_records::form::{
    hidden_field, read_form_tokens, submission_body, tokens_from_fields, FormTokens, HiddenField,
    ProtocolError,
};
use aips_records::session::{
    advance, page_request, submission_request, FetchError, Header, Method, Request, SessionAction,
    SessionEvent, SessionState,
};

fn page(fields: &[(&str, &str)]) -> String {
    let mut out = String::from("<html><body><form method=\"post\" action=\"./\">");
    for (name, value) in fields {
        out.push_str(&format!(
            "<input type=\"hidden\" name=\"{}\" id=\"{}\" value=\"{}\" />",
            name, name, value
        ));
    }
    out.push_str("<input type=\"submit\" name=\"ctl00$MainContent$BtnYes\" value=\"Ja\" /></form></body></html>");
    out
}

fn tokens(a: &str, b: &str, c: &str) -> FormTokens {
    FormTokens {
        view_state: a.to_string(),
        view_state_generator: b.to_string(),
        event_validation: c.to_string(),
    }
}

fn header(name: &str, value: &str) -> Header {
    Header { name: name.to_string(), value: value.to_string() }
}

fn browser_headers() -> Vec<Header> {
    vec![
        header(
            "User-Agent",
            "Mozilla/5.0 (X11; Linux x86_64; rv:65.0) Gecko/20100101 Firefox/65.0",
        ),
        header(
            "Accept",
            "text/html,application/xhtml+xml,application/xml;q=0.9,image/webp,*/*;q=0.8",
        ),
        header("Accept-Language", "de,en-US;q=0.7,en;q=0.3"),
    ]
}

#[test]
fn hidden_fields_are_read_from_the_page() {
    let html = page(&[
        ("__VIEWSTATE", "/wEPDwUK+abc=="),
        ("__VIEWSTATEGENERATOR", "CA0B0334"),
        ("__EVENTVALIDATION", "/wEdAAI&amp;x"),
    ]);
    assert_eq!(hidden_field(&html, HiddenField::ViewState), Some("/wEPDwUK+abc==".to_string()));
    assert_eq!(hidden_field(&html, HiddenField::ViewStateGenerator), Some("CA0B0334".to_string()));
    assert_eq!(hidden_field(&html, HiddenField::EventValidation), Some("/wEdAAI&x".to_string()));
    assert_eq!(
        read_form_tokens(&html),
        Ok(tokens("/wEPDwUK+abc==", "CA0B0334", "/wEdAAI&x"))
    );
}

#[test]
fn the_first_input_of_a_name_counts() {
    let html = page(&[("__VIEWSTATE", "one"), ("__VIEWSTATE", "two")]);
    assert_eq!(hidden_field(&html, HiddenField::ViewState), Some("one".to_string()));
}

#[test]
fn an_input_without_a_value_is_no_field() {
    let html = "<html><body><input name=\"__VIEWSTATE\"><input name=\"__VIEWSTATE\" value=\"late\"></body></html>";
    assert_eq!(hidden_field(html, HiddenField::ViewState), None);
    assert_eq!(hidden_field("", HiddenField::ViewState), None);
    assert_eq!(
        hidden_field("<textarea name=\"__VIEWSTATE\" value=\"x\"></textarea>", HiddenField::ViewState),
        None
    );
}

#[test]
fn the_first_missing_field_is_the_error() {
    let some = |s: &str| Some(s.to_string());
    assert_eq!(tokens_from_fields(some("a"), some("b"), some("c")), Ok(tokens("a", "b", "c")));
    assert_eq!(
        tokens_from_fields(None, some("b"), some("c")),
        Err(ProtocolError { missing: HiddenField::ViewState })
    );
    assert_eq!(
        tokens_from_fields(None, None, None),
        Err(ProtocolError { missing: HiddenField::ViewState })
    );
    assert_eq!(
        tokens_from_fields(some("a"), None, None),
        Err(ProtocolError { missing: HiddenField::ViewStateGenerator })
    );
    assert_eq!(
        tokens_from_fields(some("a"), some("b"), None),
        Err(ProtocolError { missing: HiddenField::EventValidation })
    );
    assert_eq!(tokens_from_fields(some(""), some(""), some("")), Ok(tokens("", "", "")));
}

#[test]
fn each_missing_field_has_its_message() {
    assert_eq!(
        ProtocolError { missing: HiddenField::ViewState }.message(),
        "Could not find __VIEWSTATE"
    );
    assert_eq!(
        ProtocolError { missing: HiddenField::ViewStateGenerator }.message(),
        "Could not find __VIEWSTATEGENERATOR"
    );
    assert_eq!(
        ProtocolError { missing: HiddenField::EventValidation }.message(),
        "Could not find __EVENTVALIDATION"
    );
}

#[test]
fn pages_that_lack_a_field() {
    let html = page(&[("__VIEWSTATEGENERATOR", "g"), ("__EVENTVALIDATION", "e")]);
    assert_eq!(read_form_tokens(&html), Err(ProtocolError { missing: HiddenField::ViewState }));
    let html = page(&[("__VIEWSTATE", "v"), ("__EVENTVALIDATION", "e")]);
    assert_eq!(
        read_form_tokens(&html),
        Err(ProtocolError { missing: HiddenField::ViewStateGenerator })
    );
    let html = page(&[("__VIEWSTATE", "v"), ("__VIEWSTATEGENERATOR", "g")]);
    assert_eq!(
        read_form_tokens(&html),
        Err(ProtocolError { missing: HiddenField::EventValidation })
    );
}

#[test]
fn the_body_echoes_the_tokens_percent_encoded() {
    assert_eq!(
        submission_body(&tokens("/wEPDwUK+abc==", "CA0B0334", "a b&c~d_e.f-g")),
        "__VIEWSTATE=%2FwEPDwUK%2Babc%3D%3D&__VIEWSTATEGENERATOR=CA0B0334&__EVENTVALIDATION=a%20b%26c~d_e.f-g&ctl00%24MainContent%24BtnYes=Ja"
    );
    assert_eq!(
        submission_body(&tokens("", "é", "\u{1F600}%")),
        "__VIEWSTATE=&__VIEWSTATEGENERATOR=%C3%A9&__EVENTVALIDATION=%F0%9F%98%80%25&ctl00%24MainContent%24BtnYes=Ja"
    );
}

#[test]
fn the_two_requests() {
    let get = page_request();
    assert_eq!(
        get,
        Request {
            method: Method::Get,
            url: "https://download.swissmedicinfo.ch/".to_string(),
            headers: browser_headers(),
            body: None,
        }
    );
    let mut headers = browser_headers();
    headers.push(header("Referer", "https://download.swissmedicinfo.ch/"));
    headers.push(header("Content-Type", "application/x-www-form-urlencoded"));
    headers.push(header("Upgrade-Insecure-Requests", "1"));
    assert_eq!(
        submission_request(&tokens("a=", "b", "c")),
        Request {
            method: Method::Post,
            url: "https://download.swissmedicinfo.ch/".to_string(),
            headers,
            body: Some(
                "__VIEWSTATE=a%3D&__VIEWSTATEGENERATOR=b&__EVENTVALIDATION=c&ctl00%24MainContent%24BtnYes=Ja"
                    .to_string()
            ),
        }
    );
}

#[test]
fn a_session_that_goes_well() {
    let (state, action) = advance(SessionState::Idle, SessionEvent::Started);
    assert_eq!(state, SessionState::AwaitingPage);
    assert_eq!(action, SessionAction::Send(page_request()));
    let html = page(&[
        ("__VIEWSTATE", "v/1"),
        ("__VIEWSTATEGENERATOR", "g"),
        ("__EVENTVALIDATION", "e+2"),
    ]);
    let (state, action) = advance(state, SessionEvent::PageReceived(html));
    assert_eq!(state, SessionState::AwaitingArchive);
    assert_eq!(action, SessionAction::Send(submission_request(&tokens("v/1", "g", "e+2"))));
    let (state, action) = advance(state, SessionEvent::ArchiveReceived(vec![80, 75, 3, 4]));
    assert_eq!(state, SessionState::Finished);
    assert_eq!(action, SessionAction::Deliver(vec![80, 75, 3, 4]));
}

#[test]
fn a_page_without_view_state_ends_the_session() {
    let html = page(&[("__VIEWSTATEGENERATOR", "g"), ("__EVENTVALIDATION", "e")]);
    let (state, action) = advance(SessionState::AwaitingPage, SessionEvent::PageReceived(html));
    assert_eq!(state, SessionState::Finished);
    assert_eq!(
        action,
        SessionAction::Abort(FetchError::Protocol(ProtocolError { missing: HiddenField::ViewState }))
    );
    let (state, action) = advance(state, SessionEvent::ArchiveReceived(vec![1]));
    assert_eq!(state, SessionState::Finished);
    assert_eq!(action, SessionAction::Abort(FetchError::OutOfTurn));
    let (state, action) = advance(state, SessionEvent::Started);
    assert_eq!(state, SessionState::Finished);
    assert_eq!(action, SessionAction::Abort(FetchError::OutOfTurn));
}

#[test]
fn a_transport_failure_ends_the_session() {
    let (state, action) =
        advance(SessionState::AwaitingPage, SessionEvent::TransportFailed("timed out".to_string()));
    assert_eq!(state, SessionState::Finished);
    assert_eq!(action, SessionAction::Abort(FetchError::Network("timed out".to_string())));
    let (state, action) =
        advance(SessionState::AwaitingArchive, SessionEvent::TransportFailed("reset".to_string()));
    assert_eq!(state, SessionState::Finished);
    assert_eq!(action, SessionAction::Abort(FetchError::Network("reset".to_string())));
}

#[test]
fn what_comes_out_of_turn_ends_the_session() {
    for (state, event) in [
        (SessionState::Idle, SessionEvent::PageReceived(String::new())),
        (SessionState::Idle, SessionEvent::ArchiveReceived(Vec::new())),
        (SessionState::Idle, SessionEvent::TransportFailed(String::new())),
        (SessionState::AwaitingPage, SessionEvent::Started),
        (SessionState::AwaitingPage, SessionEvent::ArchiveReceived(Vec::new())),
        (SessionState::AwaitingArchive, SessionEvent::Started),
        (SessionState::AwaitingArchive, SessionEvent::PageReceived(String::new())),
        (SessionState::Finished, SessionEvent::TransportFailed(String::new())),
    ] {
        let (next, action) = advance(state, event);
        assert_eq!(next, SessionState::Finished);
        assert_eq!(action, SessionAction::Abort(FetchError::OutOfTurn));
    }
}
