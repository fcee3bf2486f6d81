//! The client's side: what is asked of a server, and how its answers are taken.
use crate::auth::{hash_password, password_hash_spec};
use crate::path::is_absolute_spec;
use crate::protocol::{entry_views, DirEntry, Request, RequestView, Response, ResponseView};
use crate::text::joined;
use vstd::prelude::*;
use vstd::string::*;
use vstd::utf8::{char_is_scalar, char_u32_cast, encode_scalar, encode_utf8};

verus! {

/// Why a client could not get what it asked for.
#[derive(Clone, Debug, PartialEq, Eq)]
pub enum ClientError {
    /// The password was not accepted.
    AuthenticationFailed,
    /// The server answered the password with an error.
    AuthError(String),
    /// The server answered the password with something else.
    UnexpectedAuthResponse,
    /// The server answered with an error.
    Refused(String),
    /// The server answered with something else than was asked for.
    UnexpectedResponse,
}

/// The mathematical value of a [`ClientError`].
#[verifier::ext_equal]
pub enum ClientErrorView {
    AuthenticationFailed,
    AuthError(Seq<char>),
    UnexpectedAuthResponse,
    Refused(Seq<char>),
    UnexpectedResponse,
}

impl View for ClientError {
    type V = ClientErrorView;

    open spec fn view(&self) -> ClientErrorView {
        match self {
            ClientError::AuthenticationFailed => ClientErrorView::AuthenticationFailed,
            ClientError::AuthError(text) => ClientErrorView::AuthError(text@),
            ClientError::UnexpectedAuthResponse => ClientErrorView::UnexpectedAuthResponse,
            ClientError::Refused(text) => ClientErrorView::Refused(text@),
            ClientError::UnexpectedResponse => ClientErrorView::UnexpectedResponse,
        }
    }
}

/// What is said of a client's error.
pub open spec fn client_error_text(error: ClientErrorView) -> Seq<char> {
    match error {
        ClientErrorView::AuthenticationFailed => "authentication failed"@,
        ClientErrorView::AuthError(text) => "auth error: "@ + text,
        ClientErrorView::UnexpectedAuthResponse => "unexpected auth response"@,
        ClientErrorView::Refused(text) => text,
        ClientErrorView::UnexpectedResponse => "unexpected response"@,
    }
}

impl ClientError {
    /// The error in words.
    pub fn message(&self) -> (text: String)
        ensures
            text@ == client_error_text(self@),
    {
        match self {
            ClientError::AuthenticationFailed => "authentication failed".to_owned(),
            ClientError::AuthError(text) => joined("auth error: ", text.as_str()),
            ClientError::UnexpectedAuthResponse => "unexpected auth response".to_owned(),
            ClientError::Refused(text) => text.clone(),
            ClientError::UnexpectedResponse => "unexpected response".to_owned(),
        }
    }
}

// ---------------------------------------------------------------------------
// Opening a session
// ---------------------------------------------------------------------------

/// The message that opens a session.
pub open spec fn auth_request_spec(password: Seq<char>) -> RequestView {
    RequestView::Auth { password_hash: password_hash_spec(password) }
}

/// The session's identifier, or why there is no session.
pub open spec fn auth_result_spec(response: ResponseView) -> Result<Seq<char>, ClientErrorView> {
    match response {
        ResponseView::AuthOk { session_id } => Ok(session_id),
        ResponseView::AuthFail => Err(ClientErrorView::AuthenticationFailed),
        ResponseView::Error { message } => Err(ClientErrorView::AuthError(message)),
        _ => Err(ClientErrorView::UnexpectedAuthResponse),
    }
}

/// The message that opens a session.
pub fn auth_request(password: &str) -> (request: Request)
    ensures
        request@ == auth_request_spec(password@),
        request@ == (RequestView::Auth { password_hash: password_hash_spec(password@) }),
{
    Request::Auth { password_hash: hash_password(password) }
}

/// Takes the answer to the password: the session's identifier, or why there is no
/// session.
pub fn auth_result(response: Response) -> (res: Result<String, ClientError>)
    ensures
        match res {
            Ok(session_id) => auth_result_spec(response@) == Ok::<Seq<char>, ClientErrorView>(
                session_id@,
            ),
            Err(error) => auth_result_spec(response@) == Err::<Seq<char>, ClientErrorView>(error@),
        },
{
    match response {
        Response::AuthOk { session_id } => Ok(session_id),
        Response::AuthFail => Err(ClientError::AuthenticationFailed),
        Response::Error { message } => Err(ClientError::AuthError(message)),
        _ => Err(ClientError::UnexpectedAuthResponse),
    }
}

// ---------------------------------------------------------------------------
// Requests and their answers
// ---------------------------------------------------------------------------

/// The error that an answer stands for when it is not the one asked for.
pub open spec fn refusal_spec(response: ResponseView) -> ClientErrorView {
    match response {
        ResponseView::Error { message } => ClientErrorView::Refused(message),
        _ => ClientErrorView::UnexpectedResponse,
    }
}

/// The error that an answer stands for when it is not the one asked for.
pub(crate) fn refusal(response: Response) -> (error: ClientError)
    ensures
        error@ == refusal_spec(response@),
{
    match response {
        Response::Error { message } => ClientError::Refused(message),
        _ => ClientError::UnexpectedResponse,
    }
}

/// The request to list a directory.
pub fn list_request(path: &str) -> (request: Request)
    ensures
        request@ == (RequestView::List { path: path@ }),
{
    Request::List { path: path.to_owned() }
}

/// Takes the answer to a list request.
pub fn list_result(response: Response) -> (res: Result<Vec<DirEntry>, ClientError>)
    ensures
        match res {
            Ok(entries) => response@ == (ResponseView::List { entries: entry_views(entries@) }),
            Err(error) => !(response is List) && error@ == refusal_spec(response@),
        },
{
    match response {
        Response::List { entries } => Ok(entries),
        other => Err(refusal(other)),
    }
}

/// The request to tell of one file or directory.
pub fn stat_request(path: &str) -> (request: Request)
    ensures
        request@ == (RequestView::Stat { path: path@ }),
{
    Request::Stat { path: path.to_owned() }
}

/// Takes the answer to a stat request.
pub fn stat_result(response: Response) -> (res: Result<DirEntry, ClientError>)
    ensures
        match res {
            Ok(entry) => response@ == (ResponseView::Stat { entry: entry@ }),
            Err(error) => !(response is Stat) && error@ == refusal_spec(response@),
        },
{
    match response {
        Response::Stat { entry } => Ok(entry),
        other => Err(refusal(other)),
    }
}

/// The request to create a directory.
pub fn mkdir_request(path: &str) -> (request: Request)
    ensures
        request@ == (RequestView::Mkdir { path: path@ }),
{
    Request::Mkdir { path: path.to_owned() }
}

/// The request to remove a file or an empty directory.
pub fn delete_request(path: &str) -> (request: Request)
    ensures
        request@ == (RequestView::Delete { path: path@ }),
{
    Request::Delete { path: path.to_owned() }
}

/// The request to give a file or directory another name.
pub fn rename_request(from: &str, to: &str) -> (request: Request)
    ensures
        request@ == (RequestView::Rename { from: from@, to: to@ }),
{
    Request::Rename { from: from.to_owned(), to: to.to_owned() }
}

/// Takes the answer to a request that asks for nothing to be told.
pub fn done_result(response: Response) -> (res: Result<(), ClientError>)
    ensures
        match res {
            Ok(_) => response is Done,
            Err(error) => !(response is Done) && error@ == refusal_spec(response@),
        },
{
    match response {
        Response::Done => Ok(()),
        other => Err(refusal(other)),
    }
}

// ---------------------------------------------------------------------------
// Paths as a user writes them
// ---------------------------------------------------------------------------

/// How many separators the text begins with.
pub open spec fn leading_slashes(path: Seq<char>) -> int
    decreases path.len(),
{
    if path.len() > 0 && path[0] == '/' {
        1 + leading_slashes(path.skip(1))
    } else {
        0
    }
}

/// The path below the shared directory that a user names. The shared directory itself
/// may be written as `/`, and every path may be written from there.
pub open spec fn share_path_spec(path: Seq<char>) -> Seq<char> {
    path.skip(leading_slashes(path))
}

proof fn lemma_leading_slashes(path: Seq<char>)
    ensures
        0 <= leading_slashes(path) <= path.len(),
        leading_slashes(path) < path.len() ==> path[leading_slashes(path)] != '/',
    decreases path.len(),
{
    if path.len() > 0 && path[0] == '/' {
        lemma_leading_slashes(path.skip(1));
    }
}

/// The path below the shared directory that a user names.
pub fn share_path(path: &str) -> (res: String)
    ensures
        res@ == share_path_spec(path@),
{
    let len: usize = path.unicode_len();
    let mut i: usize = 0;
    assert(path@.skip(0) =~= path@);
    while i < len && path.get_char(i) == '/'
        invariant
            len == path@.len(),
            i <= len,
            leading_slashes(path@) == i + leading_slashes(path@.skip(i as int)),
        decreases len - i,
    {
        assert(path@.skip(i as int).skip(1) =~= path@.skip(i + 1));
        i = i + 1;
    }
    assert(path@.skip(i as int) =~= path@.subrange(i as int, len as int));
    path.substring_char(i, len).to_owned()
}

proof fn lemma_first_byte(chars: Seq<char>)
    ensures
        is_absolute_spec(encode_utf8(chars)) ==> chars.len() > 0 && chars[0] == '/',
{
    if chars.len() > 0 {
        let c = chars[0] as u32;
        char_is_scalar(chars[0]);
        let bytes = encode_utf8(chars);
        assert(bytes[0] == encode_scalar(c)[0]);
        if c <= 0x7f {
            assert((c & 0x7F) as u8 == c) by (bit_vector)
                requires
                    c <= 0x7f,
            ;
            assert(bytes[0] == c);
            char_u32_cast(chars[0], c);
            char_u32_cast('/', 0x2f);
        } else {
            assert(0xC0u8 | ((c >> 6) & 0x1F) as u8 >= 0xC0u8) by (bit_vector);
            assert(0xE0u8 | ((c >> 12) & 0x0F) as u8 >= 0xE0u8) by (bit_vector);
            assert(0xF0u8 | ((c >> 18) & 0x7) as u8 >= 0xF0u8) by (bit_vector);
            assert(bytes[0] >= 0xC0);
        }
    }
}

/// A session's answer is taken as it is: its identifier, a refusal, the words of an error, or
/// something that was not expected.
pub proof fn law_greetings_are_taken(response: ResponseView, text: Seq<char>)
    ensures
        auth_result_spec(ResponseView::AuthOk { session_id: text }) == Ok::<
            Seq<char>,
            ClientErrorView,
        >(text),
        auth_result_spec(ResponseView::AuthFail) == Err::<Seq<char>, ClientErrorView>(
            ClientErrorView::AuthenticationFailed,
        ),
        auth_result_spec(ResponseView::Error { message: text }) == Err::<
            Seq<char>,
            ClientErrorView,
        >(ClientErrorView::AuthError(text)),
        !(response is AuthOk || response is AuthFail || response is Error) ==> auth_result_spec(
            response,
        ) == Err::<Seq<char>, ClientErrorView>(ClientErrorView::UnexpectedAuthResponse),
{
}

/// An answer other than the one asked for is an error: the words that the server sent, whole,
/// or that it was not expected. Errors are told in those words.
pub proof fn law_refusals_are_told(response: ResponseView, text: Seq<char>)
    ensures
        refusal_spec(ResponseView::Error { message: text }) == ClientErrorView::Refused(text),
        !(response is Error) ==> refusal_spec(response) == ClientErrorView::UnexpectedResponse,
        client_error_text(ClientErrorView::Refused(text)) == text,
        client_error_text(ClientErrorView::AuthError(text)) == "auth error: "@ + text,
        client_error_text(ClientErrorView::AuthenticationFailed) == "authentication failed"@,
        client_error_text(ClientErrorView::UnexpectedAuthResponse) == "unexpected auth response"@,
        client_error_text(ClientErrorView::UnexpectedResponse) == "unexpected response"@,
{
}

/// However a user writes a path, what is asked of the server begins at the shared
/// directory; a path that was written so already is asked for as it is, and a `/` in front
/// of it changes nothing.
pub proof fn law_share_paths_are_relative(path: Seq<char>)
    ensures
        !is_absolute_spec(encode_utf8(share_path_spec(path))),
        path.len() == 0 || path[0] != '/' ==> share_path_spec(path) == path,
        share_path_spec(seq!['/'] + path) == share_path_spec(path),
        path.len() == 0 || path[0] != '/' ==> share_path_spec(seq!['/'] + path) == path,
{
    let bare = share_path_spec(path);
    lemma_leading_slashes(path);
    if bare.len() > 0 {
        assert(bare[0] == path[leading_slashes(path)]);
    }
    lemma_first_byte(bare);
    assert(path.skip(0) =~= path);
    let longer = seq!['/'] + path;
    assert(longer.skip(1) =~= path);
    assert(longer.skip(1 + leading_slashes(path)) =~= bare);
}

/// A value of [`ClientError`] is seen whole: as what it is, with all that it holds.
pub proof fn law_client_errors_are_seen_whole(value: &ClientError)
    ensures
        value@ == (match value {
            ClientError::AuthenticationFailed => ClientErrorView::AuthenticationFailed,
            ClientError::AuthError(text) => ClientErrorView::AuthError(text@),
            ClientError::UnexpectedAuthResponse => ClientErrorView::UnexpectedAuthResponse,
            ClientError::Refused(text) => ClientErrorView::Refused(text@),
            ClientError::UnexpectedResponse => ClientErrorView::UnexpectedResponse,
        }),
{
}

} // verus!
