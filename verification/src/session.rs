//! One connection, from its opening to its end: who is let in, and what follows what.
use crate::auth::{hex_string, law_hex_tells_bytes_apart, password_hash_spec};
use crate::client::auth_request_spec;
use crate::disk::ReplyView;
use crate::outside::{hex_digit, hex_spec, random_bytes, sha256_digest};
use crate::protocol::{Request, RequestView, Response, ResponseView};
use crate::server::{
    process_spec, request_error_text, RequestError, RequestErrorView, ServerState, StepView,
};
use vstd::prelude::*;
use vstd::utf8::encode_utf8;

verus! {

/// Which message a session waits for.
#[derive(Clone, Copy, Debug, PartialEq, Eq, Structural)]
pub enum Listening {
    /// The first one, which has to be the password.
    Auth,
    /// One of the requests that follow.
    Request,
}

/// Which message a session sends.
#[derive(Clone, Copy, Debug, PartialEq, Eq, Structural)]
pub enum Sending {
    /// That the password was right.
    Welcome,
    /// That the first message did not open the session.
    Refusal,
    /// The answer to a request.
    Reply,
}

/// What has happened on a connection.
#[derive(Debug, PartialEq, Eq)]
pub enum SessionEvent {
    /// The connection was made.
    Opened,
    /// The message waited for arrived; nothing stands for one that could not be read.
    Arrived { at: Listening, message: Option<Request> },
    /// A request was carried out, or could not be.
    Served(Result<Response, RequestError>),
    /// A message was sent, or could not be.
    Delivered { what: Sending, ok: bool },
}

/// The mathematical value of a [`SessionEvent`].
pub enum SessionEventView {
    Opened,
    Arrived { at: Listening, message: Option<RequestView> },
    Served(Result<ResponseView, RequestErrorView>),
    Delivered { what: Sending, ok: bool },
}

impl View for SessionEvent {
    type V = SessionEventView;

    open spec fn view(&self) -> SessionEventView {
        match self {
            SessionEvent::Opened => SessionEventView::Opened,
            SessionEvent::Arrived { at, message } => SessionEventView::Arrived {
                at: *at,
                message: match message {
                    Some(request) => Some(request@),
                    None => None,
                },
            },
            SessionEvent::Served(Ok(response)) => SessionEventView::Served(Ok(response@)),
            SessionEvent::Served(Err(error)) => SessionEventView::Served(Err(error@)),
            SessionEvent::Delivered { what, ok } => SessionEventView::Delivered {
                what: *what,
                ok: *ok,
            },
        }
    }
}

/// What is to be done on a connection next.
#[derive(Debug, PartialEq, Eq)]
pub enum SessionStep {
    /// Wait for a message.
    Receive(Listening),
    /// Send a message.
    Send { response: Response, then: Sending },
    /// Carry out a request.
    Serve(Request),
    /// Close the connection: the session is over.
    Finish,
    /// Close the connection: it broke before the session was decided.
    Fail,
}

/// The mathematical value of a [`SessionStep`].
#[verifier::ext_equal]
pub enum SessionStepView {
    Receive(Listening),
    Send { response: ResponseView, then: Sending },
    Serve(RequestView),
    Finish,
    Fail,
}

impl View for SessionStep {
    type V = SessionStepView;

    open spec fn view(&self) -> SessionStepView {
        match self {
            SessionStep::Receive(at) => SessionStepView::Receive(*at),
            SessionStep::Send { response, then } => SessionStepView::Send {
                response: response@,
                then: *then,
            },
            SessionStep::Serve(request) => SessionStepView::Serve(request@),
            SessionStep::Finish => SessionStepView::Finish,
            SessionStep::Fail => SessionStepView::Fail,
        }
    }
}

/// The answer to the first message of a connection.
pub open spec fn greeting_spec(
    password_hash: Seq<char>,
    message: RequestView,
    session: Seq<u8>,
) -> SessionStepView {
    match message {
        RequestView::Auth { password_hash: offered } => if offered == password_hash {
            SessionStepView::Send {
                response: ResponseView::AuthOk { session_id: hex_spec(session) },
                then: Sending::Welcome,
            }
        } else {
            SessionStepView::Send { response: ResponseView::AuthFail, then: Sending::Refusal }
        },
        _ => SessionStepView::Send {
            response: ResponseView::Error { message: "first message must be Auth"@ },
            then: Sending::Refusal,
        },
    }
}

/// The response that tells how a request went.
pub open spec fn outcome_response(outcome: Result<ResponseView, RequestErrorView>) -> ResponseView {
    match outcome {
        Ok(response) => response,
        Err(error) => ResponseView::Error { message: request_error_text(error) },
    }
}

/// What follows an event. A session that opens gets its identifier from the bytes
/// `session`.
pub open spec fn session_spec(
    password_hash: Seq<char>,
    event: SessionEventView,
    session: Seq<u8>,
) -> SessionStepView {
    match event {
        SessionEventView::Opened => SessionStepView::Receive(Listening::Auth),
        SessionEventView::Arrived { at: Listening::Auth, message } => match message {
            Some(request) => greeting_spec(password_hash, request, session),
            None => SessionStepView::Fail,
        },
        SessionEventView::Arrived { at: Listening::Request, message } => match message {
            Some(request) => SessionStepView::Serve(request),
            None => SessionStepView::Finish,
        },
        SessionEventView::Served(outcome) => SessionStepView::Send {
            response: outcome_response(outcome),
            then: Sending::Reply,
        },
        SessionEventView::Delivered { what, ok } => match what {
            Sending::Welcome => if ok {
                SessionStepView::Receive(Listening::Request)
            } else {
                SessionStepView::Fail
            },
            Sending::Refusal => if ok {
                SessionStepView::Finish
            } else {
                SessionStepView::Fail
            },
            Sending::Reply => if ok {
                SessionStepView::Receive(Listening::Request)
            } else {
                SessionStepView::Finish
            },
        },
    }
}

fn greet(state: &ServerState, message: Request, session: &[u8]) -> (step: SessionStep)
    ensures
        step@ == greeting_spec(state.password_hash@, message@, session@),
{
    match message {
        Request::Auth { password_hash } => if password_hash == state.password_hash {
            SessionStep::Send {
                response: Response::AuthOk { session_id: hex_string(session) },
                then: Sending::Welcome,
            }
        } else {
            SessionStep::Send { response: Response::AuthFail, then: Sending::Refusal }
        },
        _ => SessionStep::Send {
            response: Response::Error { message: "first message must be Auth".to_owned() },
            then: Sending::Refusal,
        },
    }
}

/// Decides what follows an event. A session that opens gets its identifier from the
/// bytes `session`.
pub fn session_step(state: &ServerState, event: SessionEvent, session: &[u8]) -> (step: SessionStep)
    ensures
        step@ == session_spec(state.password_hash@, event@, session@),
{
    match event {
        SessionEvent::Opened => SessionStep::Receive(Listening::Auth),
        SessionEvent::Arrived { at: Listening::Auth, message } => match message {
            Some(request) => greet(state, request, session),
            None => SessionStep::Fail,
        },
        SessionEvent::Arrived { at: Listening::Request, message } => match message {
            Some(request) => SessionStep::Serve(request),
            None => SessionStep::Finish,
        },
        SessionEvent::Served(Ok(response)) => SessionStep::Send { response, then: Sending::Reply },
        SessionEvent::Served(Err(error)) => SessionStep::Send {
            response: Response::Error { message: error.message() },
            then: Sending::Reply,
        },
        SessionEvent::Delivered { what, ok } => match what {
            Sending::Welcome => if ok {
                SessionStep::Receive(Listening::Request)
            } else {
                SessionStep::Fail
            },
            Sending::Refusal => if ok {
                SessionStep::Finish
            } else {
                SessionStep::Fail
            },
            Sending::Reply => if ok {
                SessionStep::Receive(Listening::Request)
            } else {
                SessionStep::Finish
            },
        },
    }
}

/// Whether the event is that the right password arrived.
pub open spec fn opens(password_hash: Seq<char>, event: SessionEventView) -> bool {
    event == (SessionEventView::Arrived {
        at: Listening::Auth,
        message: Some(RequestView::Auth { password_hash }),
    })
}

fn opens_session(state: &ServerState, event: &SessionEvent) -> (res: bool)
    ensures
        res == opens(state.password_hash@, event@),
{
    match event {
        SessionEvent::Arrived {
            at: Listening::Auth,
            message: Some(Request::Auth { password_hash }),
        } => *password_hash == state.password_hash,
        _ => false,
    }
}

proof fn lemma_identifier_is_for_the_opening(
    password_hash: Seq<char>,
    event: SessionEventView,
    session: Seq<u8>,
    other: Seq<u8>,
)
    requires
        !opens(password_hash, event),
    ensures
        session_spec(password_hash, event, session) == session_spec(password_hash, event, other),
{
}

/// Decides what follows an event. A session that opens gets a random identifier of
/// sixteen bytes; nothing is drawn for any other event.
pub fn handle_client(state: &ServerState, event: SessionEvent) -> (step: SessionStep)
    ensures
        exists|session: Seq<u8>|
            session.len() == 16 && step@ == #[trigger] session_spec(
                state.password_hash@,
                event@,
                session,
            ),
{
    if opens_session(state, &event) {
        let session: [u8; 16] = random_bytes();
        let step = session_step(state, event, session.as_slice());
        assert(session@.len() == 16);
        assert(step@ == session_spec(state.password_hash@, event@, session@));
        step
    } else {
        let step = session_step(state, event, &[]);
        proof {
            let session = Seq::new(16, |i: int| 0u8);
            lemma_identifier_is_for_the_opening(
                state.password_hash@,
                event@,
                Seq::empty(),
                session,
            );
            assert(session.len() == 16);
            assert(step@ == session_spec(state.password_hash@, event@, session));
        }
        step
    }
}

// ---------------------------------------------------------------------------
// Laws
// ---------------------------------------------------------------------------

/// Whether the event is one that can follow the step.
pub open spec fn follows(step: SessionStepView, event: SessionEventView) -> bool {
    match (step, event) {
        (SessionStepView::Receive(at), SessionEventView::Arrived { at: found, .. }) => at == found,
        (SessionStepView::Send { then, .. }, SessionEventView::Delivered { what, .. }) => then
            == what,
        (SessionStepView::Serve(_), SessionEventView::Served(_)) => true,
        _ => false,
    }
}

/// A connection's history: each event, with the bytes that were at hand for a session's
/// identifier.
pub open spec fn is_history(
    password_hash: Seq<char>,
    history: Seq<(SessionEventView, Seq<u8>)>,
) -> bool {
    &&& history.len() > 0 ==> history[0].0 is Opened
    &&& forall|i: int|
        0 < i < history.len() ==> follows(
            session_spec(password_hash, history[i - 1].0, history[i - 1].1),
            (#[trigger] history[i]).0,
        )
}

/// Nothing is served to a peer that has not begun with the right password.
pub proof fn law_only_the_password_opens(
    password_hash: Seq<char>,
    history: Seq<(SessionEventView, Seq<u8>)>,
    k: int,
)
    requires
        is_history(password_hash, history),
        0 <= k < history.len(),
        session_spec(password_hash, history[k].0, history[k].1) is Serve,
    ensures
        k > 1,
        opens(password_hash, history[1].0),
{
    assert(k > 0);
    let _ = history[1];
    if k > 1 && !opens(password_hash, history[1].0) {
        let _ = history[2];
        if k > 2 {
            let _ = history[3];
        }
    }
}

/// A peer that begins with anything else gets one answer, which says so, and the
/// connection ends.
pub proof fn law_others_are_turned_away(
    password_hash: Seq<char>,
    message: RequestView,
    session: Seq<u8>,
)
    requires
        message != (RequestView::Auth { password_hash }),
    ensures
        ({
            let event = SessionEventView::Arrived {
                at: Listening::Auth,
                message: Some(message),
            };
            session_spec(password_hash, event, session) == SessionStepView::Send {
                response: if message is Auth {
                    ResponseView::AuthFail
                } else {
                    ResponseView::Error { message: "first message must be Auth"@ }
                },
                then: Sending::Refusal,
            }
        }),
        forall|ok: bool, more: Seq<u8>|
            {
                let next = #[trigger] session_spec(
                    password_hash,
                    SessionEventView::Delivered { what: Sending::Refusal, ok },
                    more,
                );
                next is Finish || next is Fail
            },
{
}

/// Whoever knows the password is let in: what a client sends of it is what the server
/// keeps of it.
pub proof fn law_the_password_opens(password: Seq<char>, session: Seq<u8>)
    ensures
        session_spec(
            password_hash_spec(password),
            SessionEventView::Arrived {
                at: Listening::Auth,
                message: Some(auth_request_spec(password)),
            },
            session,
        ) == (SessionStepView::Send {
            response: ResponseView::AuthOk { session_id: hex_spec(session) },
            then: Sending::Welcome,
        }),
{
}

/// A password with another digest than the server's is refused.
pub proof fn law_a_wrong_password_is_refused(
    password: Seq<char>,
    offered: Seq<char>,
    session: Seq<u8>,
)
    requires
        sha256_digest(encode_utf8(offered)) != sha256_digest(encode_utf8(password)),
    ensures
        session_spec(
            password_hash_spec(password),
            SessionEventView::Arrived {
                at: Listening::Auth,
                message: Some(auth_request_spec(offered)),
            },
            session,
        ) == (SessionStepView::Send { response: ResponseView::AuthFail, then: Sending::Refusal }),
{
    if password_hash_spec(offered) == password_hash_spec(password) {
        law_hex_tells_bytes_apart(
            sha256_digest(encode_utf8(offered)),
            sha256_digest(encode_utf8(password)),
        );
    }
}

/// A request that could not be carried out is answered with the words of its error, and
/// the session goes on.
pub proof fn law_errors_are_told(password_hash: Seq<char>, error: RequestErrorView, session: Seq<u8>)
    ensures
        session_spec(password_hash, SessionEventView::Served(Err(error)), session) == (
        SessionStepView::Send {
            response: ResponseView::Error { message: request_error_text(error) },
            then: Sending::Reply,
        }),
        session_spec(
            password_hash,
            SessionEventView::Delivered { what: Sending::Reply, ok: true },
            session,
        ) == SessionStepView::Receive(Listening::Request),
{
}

/// A connection waits for a password first, and behind it for requests, each of which is
/// served as it came and answered. A peer that sends nothing more ends the session; what
/// breaks before the session was decided fails it, and what breaks later ends it.
pub proof fn law_sessions_step_by_step(
    password_hash: Seq<char>,
    request: RequestView,
    response: ResponseView,
    session: Seq<u8>,
)
    ensures
        session_spec(password_hash, SessionEventView::Opened, session) == SessionStepView::Receive(
            Listening::Auth,
        ),
        session_spec(
            password_hash,
            SessionEventView::Arrived { at: Listening::Request, message: Some(request) },
            session,
        ) == SessionStepView::Serve(request),
        session_spec(password_hash, SessionEventView::Served(Ok(response)), session) == (
        SessionStepView::Send { response, then: Sending::Reply }),
        session_spec(
            password_hash,
            SessionEventView::Delivered { what: Sending::Welcome, ok: true },
            session,
        ) == SessionStepView::Receive(Listening::Request),
        session_spec(
            password_hash,
            SessionEventView::Delivered { what: Sending::Reply, ok: true },
            session,
        ) == SessionStepView::Receive(Listening::Request),
        session_spec(
            password_hash,
            SessionEventView::Delivered { what: Sending::Refusal, ok: true },
            session,
        ) == SessionStepView::Finish,
        session_spec(
            password_hash,
            SessionEventView::Arrived { at: Listening::Request, message: None },
            session,
        ) == SessionStepView::Finish,
        session_spec(
            password_hash,
            SessionEventView::Delivered { what: Sending::Reply, ok: false },
            session,
        ) == SessionStepView::Finish,
        session_spec(
            password_hash,
            SessionEventView::Arrived { at: Listening::Auth, message: None },
            session,
        ) == SessionStepView::Fail,
        session_spec(
            password_hash,
            SessionEventView::Delivered { what: Sending::Welcome, ok: false },
            session,
        ) == SessionStepView::Fail,
        session_spec(
            password_hash,
            SessionEventView::Delivered { what: Sending::Refusal, ok: false },
            session,
        ) == SessionStepView::Fail,
{
}

/// What was said on a connection: the responses that were sent, the requests that were
/// served, and the step with which it ended.
#[verifier::ext_equal]
pub struct Talk {
    pub sent: Seq<ResponseView>,
    pub served: Seq<RequestView>,
    pub end: SessionStepView,
}

/// How far an event is from the next message to be received.
pub open spec fn distance(event: SessionEventView) -> int {
    match event {
        SessionEventView::Arrived { message: Some(_), .. } => 3,
        SessionEventView::Arrived { message: None, .. } => 0,
        SessionEventView::Served(_) => 2,
        _ => 1,
    }
}

/// What is said from this event on, on a connection where everything that is sent arrives.
/// The peer sends these messages and then nothing more; the requests that are served have
/// these outcomes.
pub open spec fn talk(
    password_hash: Seq<char>,
    session: Seq<u8>,
    event: SessionEventView,
    messages: Seq<RequestView>,
    outcomes: Seq<Result<ResponseView, RequestErrorView>>,
) -> Talk
    decreases 4 * messages.len() + distance(event),
{
    match session_spec(password_hash, event, session) {
        SessionStepView::Receive(at) => if messages.len() > 0 {
            talk(
                password_hash,
                session,
                SessionEventView::Arrived { at, message: Some(messages[0]) },
                messages.skip(1),
                outcomes,
            )
        } else {
            talk(
                password_hash,
                session,
                SessionEventView::Arrived { at, message: None },
                messages,
                outcomes,
            )
        },
        SessionStepView::Send { response, then } => {
            let rest = talk(
                password_hash,
                session,
                SessionEventView::Delivered { what: then, ok: true },
                messages,
                outcomes,
            );
            Talk { sent: seq![response] + rest.sent, ..rest }
        },
        SessionStepView::Serve(request) => {
            let rest = talk(
                password_hash,
                session,
                SessionEventView::Served(outcomes[0]),
                messages,
                outcomes.skip(1),
            );
            Talk { served: seq![request] + rest.served, ..rest }
        },
        end => Talk { sent: Seq::empty(), served: Seq::empty(), end },
    }
}

/// The responses that tell of these outcomes.
pub open spec fn outcome_responses(
    outcomes: Seq<Result<ResponseView, RequestErrorView>>,
) -> Seq<ResponseView> {
    outcomes.map_values(
        |outcome: Result<ResponseView, RequestErrorView>| outcome_response(outcome),
    )
}

proof fn lemma_requests_are_answered(
    password_hash: Seq<char>,
    session: Seq<u8>,
    requests: Seq<RequestView>,
    outcomes: Seq<Result<ResponseView, RequestErrorView>>,
    what: Sending,
)
    requires
        outcomes.len() == requests.len(),
        what is Welcome || what is Reply,
    ensures
        talk(
            password_hash,
            session,
            SessionEventView::Delivered { what, ok: true },
            requests,
            outcomes,
        ) == (Talk {
            sent: outcome_responses(outcomes),
            served: requests,
            end: SessionStepView::Finish,
        }),
    decreases requests.len(),
{
    reveal_with_fuel(talk, 5);
    if requests.len() > 0 {
        let more = requests.skip(1);
        let rest = outcomes.skip(1);
        lemma_requests_are_answered(password_hash, session, more, rest, Sending::Reply);
        assert(seq![requests[0]] + more =~= requests);
        assert(seq![outcome_response(outcomes[0])] + outcome_responses(rest) =~= outcome_responses(
            outcomes,
        ));
    } else {
        assert(outcome_responses(outcomes) =~= Seq::<ResponseView>::empty());
        assert(requests =~= Seq::<RequestView>::empty());
    }
}

/// How a request went, once it was carried out or refused.
pub open spec fn outcome_of(step: StepView) -> Option<Result<ResponseView, RequestErrorView>> {
    match step {
        StepView::Ask(_) => None,
        StepView::Reply(response) => Some(Ok(response)),
        StepView::Refuse(error) => Some(Err(error)),
    }
}

/// The answer to a request, once it was carried out or refused: the response, or the words
/// of the error.
pub open spec fn answer_of(step: StepView) -> Option<ResponseView> {
    match step {
        StepView::Ask(_) => None,
        StepView::Reply(response) => Some(response),
        StepView::Refuse(error) => Some(
            ResponseView::Error { message: request_error_text(error) },
        ),
    }
}

proof fn lemma_answer_of_outcome(
    step: StepView,
    outcome: Result<ResponseView, RequestErrorView>,
)
    requires
        outcome_of(step) == Some(outcome),
    ensures
        answer_of(step) == Some(outcome_response(outcome)),
{
}

proof fn lemma_session_is_answered(
    password_hash: Seq<char>,
    session: Seq<u8>,
    requests: Seq<RequestView>,
    outcomes: Seq<Result<ResponseView, RequestErrorView>>,
)
    requires
        outcomes.len() == requests.len(),
    ensures
        ({
            let said = talk(
                password_hash,
                session,
                SessionEventView::Opened,
                seq![RequestView::Auth { password_hash }] + requests,
                outcomes,
            );
            &&& said.sent.len() == requests.len() + 1
            &&& said.sent[0] == (ResponseView::AuthOk { session_id: hex_spec(session) })
            &&& forall|i: int|
                0 <= i < requests.len() ==> #[trigger] said.sent[i + 1] == outcome_response(
                    outcomes[i],
                )
            &&& said.served == requests
            &&& said.end == SessionStepView::Finish
        }),
{
    reveal_with_fuel(talk, 4);
    let messages = seq![RequestView::Auth { password_hash }] + requests;
    assert(messages.skip(1) =~= requests);
    lemma_requests_are_answered(password_hash, session, requests, outcomes, Sending::Welcome);
    let said = talk(password_hash, session, SessionEventView::Opened, messages, outcomes);
    assert(said.sent =~= seq![ResponseView::AuthOk { session_id: hex_spec(session) }]
        + outcome_responses(outcomes));
}

/// Whether the character is a lower-case hexadecimal digit.
pub open spec fn is_hex_digit(c: char) -> bool {
    '0' <= c <= '9' || 'a' <= c <= 'f'
}

proof fn lemma_identifier_in_digits(session: Seq<u8>)
    ensures
        hex_spec(session).len() == 2 * session.len(),
        forall|k: int|
            0 <= k < 2 * session.len() ==> is_hex_digit(#[trigger] hex_spec(session)[k]),
{
    assert forall|k: int| 0 <= k < 2 * session.len() implies is_hex_digit(
        #[trigger] hex_spec(session)[k],
    ) by {
        let byte = session[k / 2] as int;
        let d = if k % 2 == 0 {
            byte / 16
        } else {
            byte % 16
        };
        assert(hex_spec(session)[k] == hex_digit(d));
    }
}

/// A peer that begins with the right password is greeted with the session's identifier,
/// and then gets exactly one answer to each request, in the order of the requests; when it
/// sends nothing more, the session is over. Each answer is the response with which the request
/// was carried out, or the words of its error.
pub proof fn law_each_request_is_answered_in_order(
    root: Seq<u8>,
    password_hash: Seq<char>,
    session: Seq<u8>,
    requests: Seq<RequestView>,
    replies: Seq<Seq<ReplyView>>,
    outcomes: Seq<Result<ResponseView, RequestErrorView>>,
)
    requires
        session.len() == 16,
        replies.len() == requests.len(),
        outcomes.len() == requests.len(),
        forall|i: int|
            0 <= i < requests.len() ==> outcome_of(
                process_spec(root, #[trigger] requests[i], replies[i]),
            ) == Some(outcomes[i]),
    ensures
        ({
            let said = talk(
                password_hash,
                session,
                SessionEventView::Opened,
                seq![RequestView::Auth { password_hash }] + requests,
                outcomes,
            );
            &&& said.sent.len() == requests.len() + 1
            &&& said.sent[0] == (ResponseView::AuthOk { session_id: hex_spec(session) })
            &&& forall|i: int|
                0 <= i < requests.len() ==> answer_of(
                    process_spec(root, requests[i], replies[i]),
                ) == Some(#[trigger] said.sent[i + 1])
            &&& said.served == requests
            &&& said.end == SessionStepView::Finish
        }),
        hex_spec(session).len() == 32,
        forall|k: int| 0 <= k < 32 ==> is_hex_digit(#[trigger] hex_spec(session)[k]),
{
    lemma_session_is_answered(password_hash, session, requests, outcomes);
    lemma_identifier_in_digits(session);
    let said = talk(
        password_hash,
        session,
        SessionEventView::Opened,
        seq![RequestView::Auth { password_hash }] + requests,
        outcomes,
    );
    assert forall|i: int| 0 <= i < requests.len() implies answer_of(
        process_spec(root, requests[i], replies[i]),
    ) == Some(#[trigger] said.sent[i + 1]) by {
        lemma_answer_of_outcome(process_spec(root, requests[i], replies[i]), outcomes[i]);
    }
}

/// A value of [`SessionEvent`] is seen whole: as what it is, with all that it holds.
pub proof fn law_session_events_are_seen_whole(value: &SessionEvent)
    ensures
        value@ == (match value {
            SessionEvent::Opened => SessionEventView::Opened,
            SessionEvent::Arrived { at, message } => SessionEventView::Arrived {
                at: *at,
                message: match message {
                    Some(request) => Some(request@),
                    None => None,
                },
            },
            SessionEvent::Served(Ok(response)) => SessionEventView::Served(Ok(response@)),
            SessionEvent::Served(Err(error)) => SessionEventView::Served(Err(error@)),
            SessionEvent::Delivered { what, ok } => SessionEventView::Delivered {
                what: *what,
                ok: *ok,
            },
        }),
{
}

/// A value of [`SessionStep`] is seen whole: as what it is, with all that it holds.
pub proof fn law_session_steps_are_seen_whole(value: &SessionStep)
    ensures
        value@ == (match value {
            SessionStep::Receive(at) => SessionStepView::Receive(*at),
            SessionStep::Send { response, then } => SessionStepView::Send {
                response: response@,
                then: *then,
            },
            SessionStep::Serve(request) => SessionStepView::Serve(request@),
            SessionStep::Finish => SessionStepView::Finish,
            SessionStep::Fail => SessionStepView::Fail,
        }),
{
}

} // verus!
