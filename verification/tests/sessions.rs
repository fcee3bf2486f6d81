use fox_sharing::auth::{hash_password, hex_string};
use fox_sharing::client::{auth_request, auth_result, ClientError};
use fox_sharing::protocol::{Request, Response};
use fox_sharing::server::{process_request, RequestError, ServerState, Step};
use fox_sharing::session::{handle_client, session_step, Listening, Sending, SessionEvent, SessionStep};

fn state() -> ServerState {
    ServerState::new(b"/srv/share".to_vec(), "s3cret")
}

fn first(message: Option<Request>) -> SessionEvent {
    SessionEvent::Arrived { at: Listening::Auth, message }
}

fn later(message: Option<Request>) -> SessionEvent {
    SessionEvent::Arrived { at: Listening::Request, message }
}

#[test]
fn passwords_are_hashed_with_sha256() {
    assert_eq!(
        hash_password(""),
        "e3b0c44298fc1c149afbf4c8996fb92427ae41e4649b934ca495991b7852b855"
    );
    assert_eq!(
        hash_password("abc"),
        "ba7816bf8f01cfea414140de5dae2223b00361a396177a9cb410ff61f20015ad"
    );
    assert_eq!(
        hash_password("f\u{fc}chse"),
        "441a954c22176297d73e96565a92a6c6a1aff9dc5b52393f78f575b4dbb9c64e"
    );
    assert_eq!(
        state().password_hash,
        "1ec1c26b50d5d3c58d9583181af8076655fe00756bf7285940ba3670f99fcba0"
    );
    assert_eq!(state().root, b"/srv/share".to_vec());
}

#[test]
fn hexadecimal_digits_are_lower_case() {
    assert_eq!(hex_string(&[]), "");
    assert_eq!(hex_string(&[0x00, 0x09, 0x0a, 0xf0, 0xff]), "00090af0ff");
    assert_ne!(hex_string(&[0x12]), hex_string(&[0x21]));
}

#[test]
fn a_session_begins_by_waiting_for_the_password() {
    let step = handle_client(&state(), SessionEvent::Opened);
    assert_eq!(step, SessionStep::Receive(Listening::Auth));
}

#[test]
fn the_right_password_opens_a_session() {
    let step = session_step(&state(), first(Some(auth_request("s3cret"))), &[0xab, 0x01]);
    let session_id = "ab01".to_string();
    let response = Response::AuthOk { session_id: session_id.clone() };
    assert_eq!(step, SessionStep::Send { response: response.clone(), then: Sending::Welcome });
    assert_eq!(auth_result(response), Ok(session_id));
}

#[test]
fn session_identifiers_are_random() {
    let mut seen = Vec::new();
    for _ in 0..4 {
        match handle_client(&state(), first(Some(auth_request("s3cret")))) {
            SessionStep::Send { response: Response::AuthOk { session_id }, then } => {
                assert_eq!(then, Sending::Welcome);
                assert_eq!(session_id.len(), 32);
                assert!(session_id.chars().all(|c| "0123456789abcdef".contains(c)));
                assert!(!seen.contains(&session_id));
                seen.push(session_id);
            }
            other => panic!("{other:?}"),
        }
    }
}

#[test]
fn another_password_is_turned_away() {
    let step = handle_client(&state(), first(Some(auth_request("secret"))));
    assert_eq!(step, SessionStep::Send { response: Response::AuthFail, then: Sending::Refusal });
    assert_eq!(auth_result(Response::AuthFail), Err(ClientError::AuthenticationFailed));
    let event = SessionEvent::Delivered { what: Sending::Refusal, ok: true };
    assert_eq!(handle_client(&state(), event), SessionStep::Finish);
}

#[test]
fn the_password_itself_does_not_open() {
    let message = Request::Auth { password_hash: "s3cret".to_string() };
    let step = handle_client(&state(), first(Some(message)));
    assert_eq!(step, SessionStep::Send { response: Response::AuthFail, then: Sending::Refusal });
}

#[test]
fn a_first_message_without_a_password_is_turned_away() {
    let response = Response::Error { message: "first message must be Auth".to_string() };
    let step = handle_client(&state(), first(Some(Request::Ping)));
    assert_eq!(step, SessionStep::Send { response: response.clone(), then: Sending::Refusal });
    let error = auth_result(response).unwrap_err();
    assert_eq!(error.message(), "auth error: first message must be Auth");
}

#[test]
fn requests_are_served_one_after_the_other() {
    let event = SessionEvent::Delivered { what: Sending::Welcome, ok: true };
    assert_eq!(handle_client(&state(), event), SessionStep::Receive(Listening::Request));
    let step = handle_client(&state(), later(Some(Request::Ping)));
    assert_eq!(step, SessionStep::Serve(Request::Ping));
    let step = handle_client(&state(), SessionEvent::Served(Ok(Response::Pong)));
    assert_eq!(step, SessionStep::Send { response: Response::Pong, then: Sending::Reply });
    let event = SessionEvent::Delivered { what: Sending::Reply, ok: true };
    assert_eq!(handle_client(&state(), event), SessionStep::Receive(Listening::Request));
}

#[test]
fn an_error_is_told_and_the_session_goes_on() {
    let step = handle_client(&state(), SessionEvent::Served(Err(RequestError::NotAFile)));
    let response = Response::Error { message: "not a file".to_string() };
    assert_eq!(step, SessionStep::Send { response, then: Sending::Reply });
}

#[test]
fn a_connection_that_breaks_ends_the_session() {
    assert_eq!(handle_client(&state(), first(None)), SessionStep::Fail);
    assert_eq!(handle_client(&state(), later(None)), SessionStep::Finish);
    let ends = [
        (Sending::Welcome, SessionStep::Fail),
        (Sending::Refusal, SessionStep::Fail),
        (Sending::Reply, SessionStep::Finish),
    ];
    for (what, step) in ends {
        assert_eq!(handle_client(&state(), SessionEvent::Delivered { what, ok: false }), step);
    }
}

#[test]
fn each_request_is_answered_once_and_in_order() {
    let state = state();
    let mut messages = vec![
        Request::Ping,
        Request::List { path: "/".to_string() },
        auth_request("s3cret"),
        Request::Stat { path: "..".to_string() },
        Request::Ping,
    ]
    .into_iter();
    let mut opening = Some(auth_request("s3cret"));
    let mut sent = Vec::new();
    let mut event = SessionEvent::Opened;
    loop {
        event = match handle_client(&state, event) {
            SessionStep::Receive(at) => {
                SessionEvent::Arrived { at, message: opening.take().or_else(|| messages.next()) }
            }
            SessionStep::Send { response, then } => {
                sent.push(response);
                SessionEvent::Delivered { what: then, ok: true }
            }
            SessionStep::Serve(request) => {
                SessionEvent::Served(match process_request(&state, &request, &[]) {
                    Step::Reply(response) => Ok(response),
                    Step::Refuse(error) => Err(error),
                    Step::Ask(call) => panic!("{call:?}"),
                })
            }
            step => {
                assert_eq!(step, SessionStep::Finish);
                break;
            }
        };
    }
    let error = |text: &str| Response::Error { message: text.to_string() };
    assert!(matches!(&sent[0], Response::AuthOk { session_id } if session_id.len() == 32));
    assert_eq!(
        sent[1..],
        [
            Response::Pong,
            error("absolute paths are not allowed"),
            error("already authenticated"),
            error("illegal path component: ParentDir"),
            Response::Pong,
        ]
    );
}
