//! The messages that clients and servers exchange.
use vstd::prelude::*;

verus! {

/// A moment in UTC, counted from the start of 1970.
#[derive(Clone, Copy, Debug, PartialEq, Eq, Structural)]
pub struct Timestamp {
    pub secs: i64,
    pub nanos: u32,
}

/// What a server tells of one file or directory.
#[derive(Clone, Debug, PartialEq, Eq)]
pub struct DirEntry {
    pub name: String,
    pub path: String,
    pub is_dir: bool,
    pub size: u64,
    pub modified: Option<Timestamp>,
    pub created: Option<Timestamp>,
}

/// The mathematical value of a [`DirEntry`].
#[verifier::ext_equal]
pub struct EntryView {
    pub name: Seq<char>,
    pub path: Seq<char>,
    pub is_dir: bool,
    pub size: u64,
    pub modified: Option<Timestamp>,
    pub created: Option<Timestamp>,
}

impl View for DirEntry {
    type V = EntryView;

    open spec fn view(&self) -> EntryView {
        EntryView {
            name: self.name@,
            path: self.path@,
            is_dir: self.is_dir,
            size: self.size,
            modified: self.modified,
            created: self.created,
        }
    }
}

/// The values of a sequence of entries.
pub open spec fn entry_views(entries: Seq<DirEntry>) -> Seq<EntryView> {
    entries.map_values(|e: DirEntry| e@)
}

/// What a client asks for.
#[derive(Clone, Debug, PartialEq, Eq)]
pub enum Request {
    Auth { password_hash: String },
    List { path: String },
    Stat { path: String },
    Read { path: String, offset: u64, length: u64 },
    Write { path: String, offset: u64, data: Vec<u8>, create: bool, truncate: bool },
    Mkdir { path: String },
    Delete { path: String },
    Rename { from: String, to: String },
    Ping,
}

/// The mathematical value of a [`Request`].
#[verifier::ext_equal]
pub enum RequestView {
    Auth { password_hash: Seq<char> },
    List { path: Seq<char> },
    Stat { path: Seq<char> },
    Read { path: Seq<char>, offset: u64, length: u64 },
    Write { path: Seq<char>, offset: u64, data: Seq<u8>, create: bool, truncate: bool },
    Mkdir { path: Seq<char> },
    Delete { path: Seq<char> },
    Rename { from: Seq<char>, to: Seq<char> },
    Ping,
}

impl View for Request {
    type V = RequestView;

    open spec fn view(&self) -> RequestView {
        match self {
            Request::Auth { password_hash } => RequestView::Auth { password_hash: password_hash@ },
            Request::List { path } => RequestView::List { path: path@ },
            Request::Stat { path } => RequestView::Stat { path: path@ },
            Request::Read { path, offset, length } => RequestView::Read {
                path: path@,
                offset: *offset,
                length: *length,
            },
            Request::Write { path, offset, data, create, truncate } => RequestView::Write {
                path: path@,
                offset: *offset,
                data: data@,
                create: *create,
                truncate: *truncate,
            },
            Request::Mkdir { path } => RequestView::Mkdir { path: path@ },
            Request::Delete { path } => RequestView::Delete { path: path@ },
            Request::Rename { from, to } => RequestView::Rename { from: from@, to: to@ },
            Request::Ping => RequestView::Ping,
        }
    }
}

/// What a server answers.
#[derive(Clone, Debug, PartialEq, Eq)]
pub enum Response {
    /// The request was carried out and there is nothing more to tell.
    Done,
    AuthOk { session_id: String },
    AuthFail,
    Error { message: String },
    List { entries: Vec<DirEntry> },
    Stat { entry: DirEntry },
    Read { data: Vec<u8>, eof: bool },
    Pong,
}

/// The mathematical value of a [`Response`].
#[verifier::ext_equal]
pub enum ResponseView {
    Done,
    AuthOk { session_id: Seq<char> },
    AuthFail,
    Error { message: Seq<char> },
    List { entries: Seq<EntryView> },
    Stat { entry: EntryView },
    Read { data: Seq<u8>, eof: bool },
    Pong,
}

impl View for Response {
    type V = ResponseView;

    open spec fn view(&self) -> ResponseView {
        match self {
            Response::Done => ResponseView::Done,
            Response::AuthOk { session_id } => ResponseView::AuthOk { session_id: session_id@ },
            Response::AuthFail => ResponseView::AuthFail,
            Response::Error { message } => ResponseView::Error { message: message@ },
            Response::List { entries } => ResponseView::List { entries: entry_views(entries@) },
            Response::Stat { entry } => ResponseView::Stat { entry: entry@ },
            Response::Read { data, eof } => ResponseView::Read { data: data@, eof: *eof },
            Response::Pong => ResponseView::Pong,
        }
    }
}

/// A value of [`DirEntry`] is seen whole: as what it is, with all that it holds.
pub proof fn law_entries_are_seen_whole(value: &DirEntry)
    ensures
        value@ == (EntryView {
            name: value.name@,
            path: value.path@,
            is_dir: value.is_dir,
            size: value.size,
            modified: value.modified,
            created: value.created,
        }),
{
}

/// A value of [`Request`] is seen whole: as what it is, with all that it holds.
pub proof fn law_requests_are_seen_whole(value: &Request)
    ensures
        value@ == (match value {
            Request::Auth { password_hash } => RequestView::Auth { password_hash: password_hash@ },
            Request::List { path } => RequestView::List { path: path@ },
            Request::Stat { path } => RequestView::Stat { path: path@ },
            Request::Read { path, offset, length } => RequestView::Read {
                path: path@,
                offset: *offset,
                length: *length,
            },
            Request::Write { path, offset, data, create, truncate } => RequestView::Write {
                path: path@,
                offset: *offset,
                data: data@,
                create: *create,
                truncate: *truncate,
            },
            Request::Mkdir { path } => RequestView::Mkdir { path: path@ },
            Request::Delete { path } => RequestView::Delete { path: path@ },
            Request::Rename { from, to } => RequestView::Rename { from: from@, to: to@ },
            Request::Ping => RequestView::Ping,
        }),
{
}

/// A value of [`Response`] is seen whole: as what it is, with all that it holds.
pub proof fn law_responses_are_seen_whole(value: &Response)
    ensures
        value@ == (match value {
            Response::Done => ResponseView::Done,
            Response::AuthOk { session_id } => ResponseView::AuthOk { session_id: session_id@ },
            Response::AuthFail => ResponseView::AuthFail,
            Response::Error { message } => ResponseView::Error { message: message@ },
            Response::List { entries } => ResponseView::List { entries: entry_views(entries@) },
            Response::Stat { entry } => ResponseView::Stat { entry: entry@ },
            Response::Read { data, eof } => ResponseView::Read { data: data@, eof: *eof },
            Response::Pong => ResponseView::Pong,
        }),
{
}

/// Entries are seen one by one, none left out.
pub proof fn law_all_entries_are_seen(entries: Seq<DirEntry>)
    ensures
        entry_views(entries).len() == entries.len(),
        forall|i: int| 0 <= i < entries.len() ==> #[trigger] entry_views(entries)[i] == entries[i]@,
{
}

} // verus!
