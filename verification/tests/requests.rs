use fox_sharing::client::{list_request, share_path};
use fox_sharing::disk::{Call, FileMeta, Listed, Reply};
use fox_sharing::protocol::{Request, Response};
use fox_sharing::sanitize::PathError;
use fox_sharing::server::{process_request, RequestError, ServerState, Step, MAX_READ_SIZE};
use fox_sharing::transfer::{Download, DownloadStep, Upload, UploadStep, CHUNK_SIZE};
use std::collections::BTreeMap;

/// A disk in memory: a directory has no bytes, a file has some.
struct Memory {
    nodes: BTreeMap<Vec<u8>, Option<Vec<u8>>>,
    open: Option<(Vec<u8>, usize)>,
    calls: Vec<Call>,
    piece: usize,
}

fn memory() -> Memory {
    let mut nodes = BTreeMap::new();
    for dir in ["/srv", "/srv/share", "/srv/share/docs", "/srv/share/empty"] {
        nodes.insert(dir.as_bytes().to_vec(), None);
    }
    for (name, text) in [("/srv/share/b.txt", "beta"), ("/srv/share/a.txt", "alpha")] {
        nodes.insert(name.as_bytes().to_vec(), Some(text.as_bytes().to_vec()));
    }
    Memory { nodes, open: None, calls: Vec::new(), piece: usize::MAX }
}

fn clean(path: &[u8]) -> Vec<u8> {
    let mut path = path.to_vec();
    while path.len() > 1 && (path.ends_with(b"/") || path.ends_with(b"/.")) {
        path.pop();
    }
    path
}

fn failed(text: &str) -> Reply {
    Reply::Failed(text.to_string())
}

impl Memory {
    fn meta(&self, path: &[u8]) -> Option<FileMeta> {
        self.nodes.get(&clean(path)).map(|node| FileMeta {
            is_dir: node.is_none(),
            size: node.as_ref().map_or(0, |bytes| bytes.len() as u64),
            modified: None,
            created: None,
        })
    }

    fn perform(&mut self, call: Call) -> Reply {
        self.calls.push(call.clone());
        match call {
            Call::Canonicalize(path) => match self.meta(&path) {
                Some(_) => Reply::Path(clean(&path)),
                None => failed("not found"),
            },
            Call::Exists(path) => Reply::Flag(self.meta(&path).is_some()),
            Call::ReadLink(_) => failed("no link"),
            Call::IsDir(path) => Reply::Flag(self.meta(&path).map_or(false, |m| m.is_dir)),
            Call::IsFile(path) => Reply::Flag(self.meta(&path).map_or(false, |m| !m.is_dir)),
            Call::ReadDir(path) => {
                let mut front = clean(&path);
                front.push(b'/');
                let inside = |p: &Vec<u8>| {
                    p.starts_with(&front) && !p[front.len()..].contains(&b'/')
                };
                let found: Vec<Vec<u8>> = self.nodes.keys().filter(|p| inside(p)).rev().cloned().collect();
                let listing = found
                    .into_iter()
                    .map(|path| Listed { meta: self.meta(&path), path })
                    .collect();
                Reply::Listing(listing)
            }
            Call::Metadata(path) => match self.meta(&path) {
                Some(meta) => Reply::Meta(meta),
                None => failed("not found"),
            },
            Call::OpenRead(path) => {
                self.open = Some((path, 0));
                Reply::Done
            }
            Call::OpenWrite { path, create, truncate } => {
                if self.meta(&path).is_none() {
                    if !create {
                        return failed("not found");
                    }
                    self.nodes.insert(path.clone(), Some(Vec::new()));
                }
                if truncate {
                    self.nodes.insert(path.clone(), Some(Vec::new()));
                }
                self.open = Some((path, 0));
                Reply::Done
            }
            Call::Seek(offset) => {
                self.open.as_mut().unwrap().1 = offset as usize;
                Reply::Done
            }
            Call::Read(count) => {
                let (path, at) = self.open.clone().unwrap();
                let bytes = self.nodes[&path].clone().unwrap();
                let from = at.min(bytes.len());
                let to = bytes.len().min(from + (count as usize).min(self.piece));
                Reply::Data(bytes[from..to].to_vec())
            }
            Call::WriteAll(data) => {
                let (path, at) = self.open.clone().unwrap();
                let bytes = self.nodes.get_mut(&path).unwrap().as_mut().unwrap();
                if bytes.len() < at + data.len() {
                    bytes.resize(at + data.len(), 0);
                }
                bytes[at..at + data.len()].copy_from_slice(&data);
                Reply::Done
            }
            Call::Flush => Reply::Done,
            Call::CreateDirAll(path) => {
                let mut path = clean(&path);
                while path.len() > 1 {
                    self.nodes.entry(path.clone()).or_insert(None);
                    while path.pop() != Some(b'/') {}
                }
                Reply::Done
            }
            Call::RemoveDir(path) | Call::RemoveFile(path) => {
                match self.nodes.remove(&clean(&path)) {
                    Some(_) => Reply::Done,
                    None => failed("not found"),
                }
            }
            Call::Rename { from, to } => match self.nodes.remove(&from) {
                Some(node) => {
                    self.nodes.insert(to, node);
                    Reply::Done
                }
                None => failed("not found"),
            },
        }
    }

    fn serve(&mut self, request: &Request) -> Result<Response, RequestError> {
        let state = ServerState::new(b"/srv/share".to_vec(), "s3cret");
        let mut replies = Vec::new();
        self.calls.clear();
        loop {
            match process_request(&state, request, &replies) {
                Step::Ask(call) => replies.push(self.perform(call)),
                Step::Reply(response) => return Ok(response),
                Step::Refuse(error) => return Err(error),
            }
        }
    }

    fn content(&self, path: &str) -> Option<Vec<u8>> {
        self.nodes.get(path.as_bytes()).cloned().unwrap_or(None)
    }
}

fn write(path: &str, offset: u64, data: &[u8], create: bool, truncate: bool) -> Request {
    Request::Write { path: path.to_string(), offset, data: data.to_vec(), create, truncate }
}

fn read(path: &str, offset: u64, length: u64) -> Request {
    Request::Read { path: path.to_string(), offset, length }
}

/// The replies by which a path of so many names, none of which exists, is allowed.
fn missing(names: usize) -> Vec<Reply> {
    let mut replies = vec![Reply::Path(b"/srv/share".to_vec())];
    for _ in 0..names {
        replies.push(Reply::Flag(false));
        replies.push(failed("no link"));
    }
    replies.push(Reply::Flag(true));
    replies.push(Reply::Path(b"/srv/share".to_vec()));
    replies
}

fn data(bytes: &[u8], eof: bool) -> Result<Response, RequestError> {
    Ok(Response::Read { data: bytes.to_vec(), eof })
}

#[test]
fn a_ping_is_answered() {
    let mut disk = memory();
    assert_eq!(disk.serve(&Request::Ping), Ok(Response::Pong));
    assert!(disk.calls.is_empty());
}

#[test]
fn a_second_password_is_answered_with_an_error() {
    let request = Request::Auth { password_hash: "x".to_string() };
    let message = "already authenticated".to_string();
    assert_eq!(memory().serve(&request), Ok(Response::Error { message }));
}

#[test]
fn a_directory_is_listed_by_name() {
    let mut disk = memory();
    for path in ["", ".", "./"] {
        match disk.serve(&Request::List { path: path.to_string() }) {
            Ok(Response::List { entries }) => {
                let found: Vec<(&str, &str, bool, u64)> = entries
                    .iter()
                    .map(|e| (e.name.as_str(), e.path.as_str(), e.is_dir, e.size))
                    .collect();
                let expected = [
                    ("a.txt", "a.txt", false, 5),
                    ("b.txt", "b.txt", false, 4),
                    ("docs", "docs", true, 0),
                    ("empty", "empty", true, 0),
                ];
                assert_eq!(found, expected);
            }
            other => panic!("{other:?}"),
        }
    }
}

#[test]
fn only_directories_are_listed() {
    let request = Request::List { path: "a.txt".to_string() };
    assert_eq!(memory().serve(&request), Err(RequestError::NotADirectory));
    assert_eq!(RequestError::NotADirectory.message(), "not a directory");
}

#[test]
fn a_file_is_told_of() {
    match memory().serve(&Request::Stat { path: "b.txt".to_string() }) {
        Ok(Response::Stat { entry }) => {
            assert_eq!((entry.name.as_str(), entry.path.as_str()), ("b.txt", "b.txt"));
            assert_eq!((entry.is_dir, entry.size), (false, 4));
        }
        other => panic!("{other:?}"),
    }
}

#[test]
fn a_missing_file_has_no_metadata() {
    let request = Request::Stat { path: "none".to_string() };
    assert_eq!(memory().serve(&request), Err(RequestError::Metadata));
    assert_eq!(RequestError::Metadata.message(), "metadata");
}

#[test]
fn a_file_is_read_from_any_position() {
    let mut disk = memory();
    assert_eq!(disk.serve(&read("a.txt", 0, 100)), data(b"alpha", true));
    assert_eq!(disk.serve(&read("a.txt", 1, 2)), data(b"lp", false));
    assert_eq!(disk.serve(&read("a.txt", 1, 4)), data(b"lpha", true));
    assert_eq!(disk.serve(&read("a.txt", 0, 0)), data(b"", false));
    assert_eq!(disk.serve(&read("a.txt", 5, 1)), data(b"", true));
    assert_eq!(disk.serve(&read("a.txt", u64::MAX, u64::MAX)), data(b"", true));
}

#[test]
fn one_read_is_limited() {
    let mut disk = memory();
    disk.serve(&read("a.txt", 0, u64::MAX)).unwrap();
    assert!(disk.calls.contains(&Call::Read(8_388_608)));
    assert_eq!(MAX_READ_SIZE, 8_388_608);
    disk.serve(&read("a.txt", 0, MAX_READ_SIZE - 1)).unwrap();
    assert!(disk.calls.contains(&Call::Read(8_388_607)));
}

#[test]
fn only_files_are_read() {
    assert_eq!(memory().serve(&read("docs", 0, 1)), Err(RequestError::NotAFile));
    assert_eq!(RequestError::NotAFile.message(), "not a file");
}

#[test]
fn looking_changes_nothing() {
    let mut disk = memory();
    let before = disk.nodes.clone();
    let path = "docs".to_string();
    disk.serve(&Request::List { path: path.clone() }).unwrap();
    disk.serve(&Request::Stat { path }).unwrap();
    disk.serve(&read("a.txt", 0, 10)).unwrap();
    assert_eq!(disk.nodes, before);
}

#[test]
fn a_file_is_created_and_written() {
    let mut disk = memory();
    assert_eq!(disk.serve(&write("new/deep/c.txt", 0, b"gamma", true, true)), Ok(Response::Done));
    assert_eq!(disk.content("/srv/share/new/deep/c.txt"), Some(b"gamma".to_vec()));
    let expected = [
        Call::CreateDirAll(b"/srv/share/new/deep".to_vec()),
        Call::OpenWrite { path: b"/srv/share/new/deep/c.txt".to_vec(), create: true, truncate: true },
        Call::Seek(0),
        Call::WriteAll(b"gamma".to_vec()),
        Call::Flush,
    ];
    assert_eq!(disk.calls[disk.calls.len() - 5..], expected);
}

#[test]
fn a_write_lands_at_its_offset() {
    let mut disk = memory();
    disk.serve(&write("a.txt", 3, b"XYZ", false, false)).unwrap();
    assert_eq!(disk.content("/srv/share/a.txt"), Some(b"alpXYZ".to_vec()));
    disk.serve(&write("a.txt", 8, b"!", false, false)).unwrap();
    assert_eq!(disk.content("/srv/share/a.txt"), Some(b"alpXYZ\0\0!".to_vec()));
    disk.serve(&write("a.txt", 0, b"", false, true)).unwrap();
    assert_eq!(disk.content("/srv/share/a.txt"), Some(Vec::new()));
}

#[test]
fn a_missing_file_is_not_created_unasked() {
    let mut disk = memory();
    assert_eq!(disk.serve(&write("c.txt", 0, b"x", false, false)), Err(RequestError::OpenForWrite));
    assert_eq!(disk.content("/srv/share/c.txt"), None);
    assert_eq!(RequestError::OpenForWrite.message(), "open for write");
}

#[test]
fn a_write_goes_on_when_the_directories_above_cannot_be_created() {
    let state = ServerState::new(b"/srv/share".to_vec(), "");
    let mut replies = missing(2);
    replies.push(failed("read-only"));
    assert_eq!(
        process_request(&state, &write("x/y", 0, b"d", true, false), &replies),
        Step::Ask(Call::OpenWrite { path: b"/srv/share/x/y".to_vec(), create: true, truncate: false })
    );
}

#[test]
fn a_disk_failure_is_told_in_its_own_words() {
    let state = ServerState::new(b"/srv/share".to_vec(), "");
    let mut replies = missing(1);
    replies.push(failed("disk full"));
    let request = Request::Mkdir { path: "x".to_string() };
    let error = RequestError::Disk("disk full".to_string());
    assert_eq!(error.message(), "disk full");
    assert_eq!(process_request(&state, &request, &replies), Step::Refuse(error));
}

#[test]
fn an_interrupted_write_is_not_acknowledged() {
    let state = ServerState::new(b"/srv/share".to_vec(), "");
    let mut replies = missing(1);
    for _ in 0..4 {
        replies.push(Reply::Done);
    }
    let request = write("x", 0, b"d", true, true);
    assert_eq!(process_request(&state, &request, &replies), Step::Ask(Call::Flush));
    replies.push(failed("lost"));
    assert_eq!(
        process_request(&state, &request, &replies),
        Step::Refuse(RequestError::Disk("lost".to_string()))
    );
    replies.pop();
    replies.push(Reply::Done);
    assert_eq!(process_request(&state, &request, &replies), Step::Reply(Response::Done));
}

#[test]
fn a_directory_is_created() {
    let mut disk = memory();
    assert_eq!(disk.serve(&Request::Mkdir { path: "x/y".to_string() }), Ok(Response::Done));
    assert!(disk.nodes.contains_key(b"/srv/share/x/y".as_slice()));
}

#[test]
fn a_directory_created_twice_is_no_error() {
    let mut disk = memory();
    let request = Request::Mkdir { path: "x/y".to_string() };
    assert_eq!(disk.serve(&request), Ok(Response::Done));
    disk.serve(&write("x/y/f", 0, b"kept", true, true)).unwrap();
    let before = disk.nodes.clone();
    assert_eq!(disk.serve(&request), Ok(Response::Done));
    assert_eq!(disk.nodes, before);
}

#[test]
fn slash_is_the_shared_directory() {
    let mut disk = memory();
    let slash = disk.serve(&list_request(&share_path("/")));
    assert!(matches!(&slash, Ok(Response::List { entries }) if entries.len() == 4));
    assert_eq!(slash, disk.serve(&list_request(".")));
    assert_eq!(get(&mut disk, &share_path("/a.txt")), b"alpha".to_vec());
    put(&mut disk, &share_path("/remote.txt"), b"sent", 3);
    assert_eq!(disk.content("/srv/share/remote.txt"), Some(b"sent".to_vec()));
}

#[test]
fn the_path_of_an_entry_leads_back_to_it() {
    let mut disk = memory();
    disk.serve(&write("docs/deep/z.txt", 0, b"zeta", true, true)).unwrap();
    for path in ["", "docs", "docs/deep"] {
        match disk.serve(&list_request(path)) {
            Ok(Response::List { entries }) => {
                for entry in entries {
                    match disk.serve(&Request::Stat { path: entry.path.clone() }) {
                        Ok(Response::Stat { entry: again }) => assert_eq!(again, entry),
                        other => panic!("{other:?}"),
                    }
                }
            }
            other => panic!("{other:?}"),
        }
    }
}

#[test]
fn files_and_directories_are_removed_each_in_its_way() {
    let mut disk = memory();
    assert_eq!(disk.serve(&Request::Delete { path: "empty".to_string() }), Ok(Response::Done));
    assert_eq!(disk.calls.last(), Some(&Call::RemoveDir(b"/srv/share/empty".to_vec())));
    assert_eq!(disk.serve(&Request::Delete { path: "a.txt".to_string() }), Ok(Response::Done));
    assert_eq!(disk.calls.last(), Some(&Call::RemoveFile(b"/srv/share/a.txt".to_vec())));
    assert_eq!(
        disk.serve(&Request::Delete { path: "a.txt".to_string() }),
        Err(RequestError::Disk("not found".to_string()))
    );
}

#[test]
fn a_file_gets_another_name() {
    let mut disk = memory();
    let request = Request::Rename { from: "a.txt".to_string(), to: "docs/z.txt".to_string() };
    assert_eq!(disk.serve(&request), Ok(Response::Done));
    assert_eq!(disk.content("/srv/share/a.txt"), None);
    assert_eq!(disk.content("/srv/share/docs/z.txt"), Some(b"alpha".to_vec()));
    assert_eq!(disk.calls.len(), 9);
}

#[test]
fn both_names_of_a_rename_are_judged_before_anything_is_done() {
    let mut disk = memory();
    let before = disk.nodes.clone();
    let request = Request::Rename { from: "a.txt".to_string(), to: "../out".to_string() };
    assert_eq!(disk.serve(&request), Err(RequestError::Path(PathError::ParentComponent)));
    let request = Request::Rename { from: "/a.txt".to_string(), to: "b".to_string() };
    assert_eq!(disk.serve(&request), Err(RequestError::Path(PathError::Absolute)));
    assert_eq!(disk.nodes, before);
}

#[test]
fn every_request_judges_its_path() {
    let mut disk = memory();
    let path = "../x".to_string();
    let requests = [
        Request::List { path: path.clone() },
        Request::Stat { path: path.clone() },
        Request::Mkdir { path: path.clone() },
        Request::Delete { path: path.clone() },
        read("../x", 0, 1),
        write("../x", 0, b"", true, true),
        Request::Rename { from: path, to: "y".to_string() },
    ];
    for request in requests {
        let error = disk.serve(&request).unwrap_err();
        assert_eq!(error.message(), "illegal path component: ParentDir");
        assert!(disk.calls.is_empty());
    }
}

fn put(disk: &mut Memory, remote: &str, content: &[u8], piece: usize) {
    let mut upload = Upload::new(remote, content.len() as u64);
    let mut pieces = content.chunks(piece);
    loop {
        let part = pieces.next().unwrap_or(&[]).to_vec();
        let count = part.len();
        match upload.chunk(part) {
            UploadStep::Send(request) => {
                let response = disk.serve(&request).unwrap();
                upload.acknowledge(count, response).unwrap();
            }
            UploadStep::SendLast(request) => {
                disk.serve(&request).unwrap();
                break;
            }
            UploadStep::Finish => break,
        }
    }
}

fn get(disk: &mut Memory, remote: &str) -> Vec<u8> {
    let mut download = Download::new(remote);
    let mut stored = Vec::new();
    loop {
        let response = disk.serve(&download.request()).unwrap();
        match download.accept(response).unwrap() {
            DownloadStep::Store { data, last } => {
                stored.extend(data);
                if last {
                    return stored;
                }
            }
            DownloadStep::Finish => return stored,
        }
    }
}

#[test]
fn what_was_put_is_got_back() {
    let content: Vec<u8> = (0..1000u32).map(|i| (i * 7 % 251) as u8).collect();
    for (size, put_piece, get_piece) in [(0, 1, 1), (1, 1, 1), (1000, 1000, 1000), (999, 64, 100), (1000, 300, 7)] {
        let mut disk = memory();
        disk.piece = get_piece;
        put(&mut disk, "b.txt", &content[..size], put_piece);
        assert_eq!(disk.content("/srv/share/b.txt"), Some(content[..size].to_vec()));
        assert_eq!(get(&mut disk, "b.txt"), content[..size].to_vec());
    }
}

#[test]
fn a_file_of_more_than_one_chunk_is_got_whole() {
    let mut disk = memory();
    let content: Vec<u8> = (0..2 * CHUNK_SIZE + 5).map(|i| (i % 253) as u8).collect();
    put(&mut disk, "big", &content, CHUNK_SIZE as usize);
    assert!(get(&mut disk, "big") == content);
}
