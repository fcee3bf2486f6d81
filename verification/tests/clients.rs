use fox_sharing::client::{
    auth_request, auth_result, delete_request, done_result, list_request, list_result, mkdir_request,
    rename_request, share_path, stat_request, stat_result, ClientError,
};
use fox_sharing::protocol::{DirEntry, Request, Response};
use fox_sharing::transfer::{Download, DownloadStep, Upload, UploadStep, CHUNK_SIZE};

fn entry() -> DirEntry {
    DirEntry {
        name: "a".to_string(),
        path: "d/a".to_string(),
        is_dir: false,
        size: 1,
        modified: None,
        created: None,
    }
}

fn error() -> Response {
    Response::Error { message: "not a directory".to_string() }
}

fn refused() -> ClientError {
    ClientError::Refused("not a directory".to_string())
}

#[test]
fn requests_carry_what_was_asked() {
    assert_eq!(list_request("d"), Request::List { path: "d".to_string() });
    assert_eq!(stat_request("d"), Request::Stat { path: "d".to_string() });
    assert_eq!(mkdir_request("d"), Request::Mkdir { path: "d".to_string() });
    assert_eq!(delete_request("d"), Request::Delete { path: "d".to_string() });
    assert_eq!(
        rename_request("a", "b"),
        Request::Rename { from: "a".to_string(), to: "b".to_string() }
    );
    let password_hash = "ba7816bf8f01cfea414140de5dae2223b00361a396177a9cb410ff61f20015ad".to_string();
    assert_eq!(auth_request("abc"), Request::Auth { password_hash });
}

#[test]
fn the_answer_to_the_password_is_taken() {
    assert_eq!(auth_result(Response::AuthOk { session_id: "7".to_string() }), Ok("7".to_string()));
    assert_eq!(auth_result(Response::AuthFail), Err(ClientError::AuthenticationFailed));
    assert_eq!(auth_result(error()), Err(ClientError::AuthError("not a directory".to_string())));
    assert_eq!(auth_result(Response::Pong), Err(ClientError::UnexpectedAuthResponse));
}

#[test]
fn answers_are_taken_only_as_what_was_asked_for() {
    assert_eq!(list_result(Response::List { entries: vec![entry()] }), Ok(vec![entry()]));
    assert_eq!(list_result(error()), Err(refused()));
    assert_eq!(list_result(Response::Pong), Err(ClientError::UnexpectedResponse));
    assert_eq!(stat_result(Response::Stat { entry: entry() }), Ok(entry()));
    assert_eq!(stat_result(error()), Err(refused()));
    assert_eq!(stat_result(Response::Done), Err(ClientError::UnexpectedResponse));
    assert_eq!(done_result(Response::Done), Ok(()));
    assert_eq!(done_result(error()), Err(refused()));
    assert_eq!(done_result(Response::AuthFail), Err(ClientError::UnexpectedResponse));
}

#[test]
fn errors_are_told_in_words() {
    assert_eq!(ClientError::AuthenticationFailed.message(), "authentication failed");
    assert_eq!(ClientError::AuthError("x".to_string()).message(), "auth error: x");
    assert_eq!(ClientError::UnexpectedAuthResponse.message(), "unexpected auth response");
    assert_eq!(refused().message(), "not a directory");
    assert_eq!(ClientError::UnexpectedResponse.message(), "unexpected response");
}

#[test]
fn paths_may_be_written_from_the_shared_directory() {
    assert_eq!(share_path("/"), "");
    assert_eq!(share_path("/file.txt"), "file.txt");
    assert_eq!(share_path("/remote.txt"), "remote.txt");
    assert_eq!(share_path("//a//b/"), "a//b/");
    assert_eq!(share_path("docs/a"), "docs/a");
    assert_eq!(share_path(""), "");
    assert_eq!(share_path("/../x"), "../x");
    assert_eq!(share_path("/\u{fc}/x"), "\u{fc}/x");
}

#[test]
fn a_download_asks_where_it_stands() {
    let mut download = Download::new("f");
    let asked = |offset| Request::Read { path: "f".to_string(), offset, length: 4_194_304 };
    assert_eq!(CHUNK_SIZE, 4_194_304);
    assert_eq!(download.request(), asked(0));
    let step = download.accept(Response::Read { data: vec![1, 2, 3], eof: false });
    assert_eq!(step, Ok(DownloadStep::Store { data: vec![1, 2, 3], last: false }));
    assert_eq!(download.request(), asked(3));
    let step = download.accept(Response::Read { data: Vec::new(), eof: false });
    assert_eq!(step, Ok(DownloadStep::Store { data: Vec::new(), last: false }));
    let step = download.accept(Response::Read { data: vec![4], eof: true });
    assert_eq!(step, Ok(DownloadStep::Store { data: vec![4], last: true }));
    assert_eq!(download.offset, 4);
}

#[test]
fn a_download_of_an_empty_file_stores_nothing() {
    let mut download = Download::new("f");
    let step = download.accept(Response::Read { data: Vec::new(), eof: true });
    assert_eq!(step, Ok(DownloadStep::Finish));
}

#[test]
fn a_download_ends_with_an_error() {
    let mut download = Download::new("f");
    assert_eq!(download.accept(error()), Err(refused()));
    assert_eq!(download.accept(Response::Pong), Err(ClientError::UnexpectedResponse));
    assert_eq!(download.offset, 0);
}

#[test]
fn an_upload_creates_the_file_with_its_first_piece() {
    let mut upload = Upload::new("f", 5);
    let piece = |offset, data: &[u8], first| Request::Write {
        path: "f".to_string(),
        offset,
        data: data.to_vec(),
        create: first,
        truncate: first,
    };
    assert_eq!(upload.chunk(vec![1, 2, 3]), UploadStep::Send(piece(0, &[1, 2, 3], true)));
    assert_eq!(upload.acknowledge(3, Response::Done), Ok(()));
    assert_eq!(upload.chunk(vec![4, 5]), UploadStep::Send(piece(3, &[4, 5], false)));
    assert_eq!(upload.acknowledge(2, Response::Done), Ok(()));
    assert_eq!(upload.chunk(Vec::new()), UploadStep::Finish);
    assert_eq!((upload.offset, upload.first), (5, false));
}

#[test]
fn an_upload_of_an_empty_file_creates_it() {
    let upload = Upload::new("f", 0);
    let request = Request::Write {
        path: "f".to_string(),
        offset: 0,
        data: Vec::new(),
        create: true,
        truncate: true,
    };
    assert_eq!(upload.chunk(Vec::new()), UploadStep::SendLast(request));
}

#[test]
fn a_file_that_grew_meanwhile_is_not_emptied() {
    let mut upload = Upload::new("f", 0);
    assert!(matches!(upload.chunk(vec![1]), UploadStep::Send(_)));
    assert_eq!(upload.acknowledge(1, Response::Done), Ok(()));
    assert_eq!(upload.chunk(Vec::new()), UploadStep::Finish);
}

#[test]
fn an_upload_stops_at_an_error() {
    let mut upload = Upload::new("f", 5);
    assert_eq!(upload.acknowledge(3, error()), Err(refused()));
    assert_eq!(upload.acknowledge(3, Response::Pong), Err(ClientError::UnexpectedResponse));
    assert_eq!(upload, Upload::new("f", 5));
}
