//! The server's side: how a request is carried out.
use crate::auth::{hash_password, password_hash_spec};
use crate::client::{law_share_paths_are_relative, share_path_spec};
use crate::disk::{
    answers, data_at, done_at, flag_at, get_data, get_done, get_flag, get_listing, get_meta,
    listing_at, meta_at, path_at, reply_views, Call, CallView, Heard, Reply, ReplyView,
};
use crate::entry::{entry_spec, list_entries, make_entry, readable_entries, sorted_entries};
use crate::path::{
    components_spec, is_absolute_spec, join_spec, law_join_components, law_parent_drops_last,
    law_relative_components, no_parent_dir, parent, parent_spec, parts_from, ComponentView, DOT,
};
use crate::protocol::{Request, RequestView, Response, ResponseView};
use crate::sanitize::{
    judge_missing, law_paths_are_judged, lemma_most_calls, lemma_same_way_on, most_calls,
    path_error_text, same_way, sanitize_path, sanitize_spec, through, up, way_up, within_reach,
    PathError, PathStep, PathStepView, Walk,
};
use vstd::prelude::*;
use vstd::slice::{slice_subrange, slice_to_vec};
use vstd::utf8::{char_u32_cast, encode_utf8};

verus! {

/// The most that is read in answer to one request: 8 MiB.
pub const MAX_READ_SIZE: u64 = 8 * 1024 * 1024;

/// What a server serves, and to whom.
#[derive(Clone, Debug)]
pub struct ServerState {
    /// The shared directory.
    pub root: Vec<u8>,
    /// The hash of the password that opens it.
    pub password_hash: String,
}

impl ServerState {
    /// A server of the directory `root`, which must already be resolved.
    pub fn new(root: Vec<u8>, password: &str) -> (state: ServerState)
        ensures
            state.root@ == root@,
            state.password_hash@ == password_hash_spec(password@),
    {
        ServerState { root, password_hash: hash_password(password) }
    }
}

/// Why a request could not be carried out.
#[derive(Clone, Debug, PartialEq, Eq)]
pub enum RequestError {
    /// A path was refused.
    Path(PathError),
    /// What is to be listed is no directory.
    NotADirectory,
    /// What is to be read is no file.
    NotAFile,
    /// Metadata could not be read.
    Metadata,
    /// The file could not be opened for writing.
    OpenForWrite,
    /// The disk failed otherwise, in its own words.
    Disk(String),
}

/// The mathematical value of a [`RequestError`].
#[verifier::ext_equal]
pub enum RequestErrorView {
    Path(PathError),
    NotADirectory,
    NotAFile,
    Metadata,
    OpenForWrite,
    Disk(Seq<char>),
}

impl View for RequestError {
    type V = RequestErrorView;

    open spec fn view(&self) -> RequestErrorView {
        match self {
            RequestError::Path(error) => RequestErrorView::Path(*error),
            RequestError::NotADirectory => RequestErrorView::NotADirectory,
            RequestError::NotAFile => RequestErrorView::NotAFile,
            RequestError::Metadata => RequestErrorView::Metadata,
            RequestError::OpenForWrite => RequestErrorView::OpenForWrite,
            RequestError::Disk(text) => RequestErrorView::Disk(text@),
        }
    }
}

/// What is said of a request that could not be carried out.
pub open spec fn request_error_text(error: RequestErrorView) -> Seq<char> {
    match error {
        RequestErrorView::Path(error) => path_error_text(error),
        RequestErrorView::NotADirectory => "not a directory"@,
        RequestErrorView::NotAFile => "not a file"@,
        RequestErrorView::Metadata => "metadata"@,
        RequestErrorView::OpenForWrite => "open for write"@,
        RequestErrorView::Disk(text) => text,
    }
}

impl RequestError {
    /// The error in words.
    pub fn message(&self) -> (text: String)
        ensures
            text@ == request_error_text(self@),
    {
        match self {
            RequestError::Path(error) => error.message(),
            RequestError::NotADirectory => "not a directory".to_owned(),
            RequestError::NotAFile => "not a file".to_owned(),
            RequestError::Metadata => "metadata".to_owned(),
            RequestError::OpenForWrite => "open for write".to_owned(),
            RequestError::Disk(text) => text.clone(),
        }
    }
}

/// How far a request has been carried out.
#[derive(Debug, PartialEq, Eq)]
pub enum Step {
    /// This has to be done on the disk next.
    Ask(Call),
    /// The request was carried out, and this is the answer.
    Reply(Response),
    /// The request could not be carried out.
    Refuse(RequestError),
}

/// The mathematical value of a [`Step`].
#[verifier::ext_equal]
pub enum StepView {
    Ask(CallView),
    Reply(ResponseView),
    Refuse(RequestErrorView),
}

impl View for Step {
    type V = StepView;

    open spec fn view(&self) -> StepView {
        match self {
            Step::Ask(call) => StepView::Ask(call@),
            Step::Reply(response) => StepView::Reply(response@),
            Step::Refuse(error) => StepView::Refuse(error@),
        }
    }
}

// ---------------------------------------------------------------------------
// What is done with a path that was allowed
// ---------------------------------------------------------------------------

/// The step `then` once the call has succeeded; its failure ends the request.
pub open spec fn after_call(call: CallView, heard: Heard<()>, then: StepView) -> StepView {
    match heard {
        Heard::Nothing => StepView::Ask(call),
        Heard::Failure(text) => StepView::Refuse(RequestErrorView::Disk(text)),
        Heard::Value(_) => then,
    }
}

/// Listing a directory.
pub open spec fn list_step(root: Seq<u8>, full: Seq<u8>, replies: Seq<ReplyView>) -> StepView {
    match flag_at(replies, 0) {
        None => StepView::Ask(CallView::IsDir(full)),
        Some(false) => StepView::Refuse(RequestErrorView::NotADirectory),
        Some(true) => match listing_at(replies, 1) {
            Heard::Nothing => StepView::Ask(CallView::ReadDir(full)),
            Heard::Failure(text) => StepView::Refuse(RequestErrorView::Disk(text)),
            Heard::Value(listing) => StepView::Reply(
                ResponseView::List { entries: sorted_entries(readable_entries(root, listing)) },
            ),
        },
    }
}

/// Telling of one file or directory.
pub open spec fn stat_step(root: Seq<u8>, full: Seq<u8>, replies: Seq<ReplyView>) -> StepView {
    match meta_at(replies, 0) {
        Heard::Nothing => StepView::Ask(CallView::Metadata(full)),
        Heard::Failure(_) => StepView::Refuse(RequestErrorView::Metadata),
        Heard::Value(meta) => StepView::Reply(
            ResponseView::Stat { entry: entry_spec(root, full, meta) },
        ),
    }
}

/// How much is read when `length` bytes are wanted.
pub open spec fn read_limit(length: u64) -> u64 {
    if length < MAX_READ_SIZE {
        length
    } else {
        MAX_READ_SIZE
    }
}

/// The answer to a read: the bytes, and whether the file ends with them.
pub open spec fn read_answer(offset: u64, data: Seq<u8>, size: u64) -> ResponseView {
    ResponseView::Read { data, eof: offset + data.len() >= size }
}

/// Reading from a file.
pub open spec fn read_step(
    full: Seq<u8>,
    offset: u64,
    length: u64,
    replies: Seq<ReplyView>,
) -> StepView {
    match flag_at(replies, 0) {
        None => StepView::Ask(CallView::IsFile(full)),
        Some(false) => StepView::Refuse(RequestErrorView::NotAFile),
        Some(true) => after_call(
            CallView::OpenRead(full),
            done_at(replies, 1),
            after_call(
                CallView::Seek(offset),
                done_at(replies, 2),
                match data_at(replies, 3) {
                    Heard::Nothing => StepView::Ask(CallView::Read(read_limit(length))),
                    Heard::Failure(text) => StepView::Refuse(RequestErrorView::Disk(text)),
                    Heard::Value(data) => match meta_at(replies, 4) {
                        Heard::Nothing => StepView::Ask(CallView::Metadata(full)),
                        Heard::Failure(text) => StepView::Refuse(RequestErrorView::Disk(text)),
                        Heard::Value(meta) => StepView::Reply(
                            read_answer(offset, data, meta.size),
                        ),
                    },
                },
            ),
        ),
    }
}

/// Writing to the opened file.
pub open spec fn store_step(
    full: Seq<u8>,
    offset: u64,
    data: Seq<u8>,
    create: bool,
    truncate: bool,
    replies: Seq<ReplyView>,
    i: int,
) -> StepView {
    match done_at(replies, i) {
        Heard::Nothing => StepView::Ask(CallView::OpenWrite { path: full, create, truncate }),
        Heard::Failure(_) => StepView::Refuse(RequestErrorView::OpenForWrite),
        Heard::Value(_) => after_call(
            CallView::Seek(offset),
            done_at(replies, i + 1),
            after_call(
                CallView::WriteAll(data),
                done_at(replies, i + 2),
                after_call(
                    CallView::Flush,
                    done_at(replies, i + 3),
                    StepView::Reply(ResponseView::Done),
                ),
            ),
        ),
    }
}

/// Writing to a file. The directories above it are created first, as far as that
/// goes.
pub open spec fn write_step(
    full: Seq<u8>,
    offset: u64,
    data: Seq<u8>,
    create: bool,
    truncate: bool,
    replies: Seq<ReplyView>,
) -> StepView {
    match parent_spec(full) {
        None => store_step(full, offset, data, create, truncate, replies, 0),
        Some(above) => match done_at(replies, 0) {
            Heard::Nothing => StepView::Ask(CallView::CreateDirAll(above)),
            _ => store_step(full, offset, data, create, truncate, replies, 1),
        },
    }
}

/// Creating a directory.
pub open spec fn mkdir_step(full: Seq<u8>, replies: Seq<ReplyView>) -> StepView {
    after_call(
        CallView::CreateDirAll(full),
        done_at(replies, 0),
        StepView::Reply(ResponseView::Done),
    )
}

/// Removing a file or an empty directory.
pub open spec fn delete_step(full: Seq<u8>, replies: Seq<ReplyView>) -> StepView {
    match flag_at(replies, 0) {
        None => StepView::Ask(CallView::IsDir(full)),
        Some(is_dir) => after_call(
            if is_dir {
                CallView::RemoveDir(full)
            } else {
                CallView::RemoveFile(full)
            },
            done_at(replies, 1),
            StepView::Reply(ResponseView::Done),
        ),
    }
}

/// Giving another name.
pub open spec fn rename_step(from: Seq<u8>, to: Seq<u8>, replies: Seq<ReplyView>) -> StepView {
    after_call(
        CallView::Rename { from, to },
        done_at(replies, 0),
        StepView::Reply(ResponseView::Done),
    )
}

/// What is done with the one path of a request, once it was allowed.
pub open spec fn operation_step(
    root: Seq<u8>,
    request: RequestView,
    full: Seq<u8>,
    replies: Seq<ReplyView>,
) -> StepView {
    match request {
        RequestView::List { .. } => list_step(root, full, replies),
        RequestView::Stat { .. } => stat_step(root, full, replies),
        RequestView::Read { offset, length, .. } => read_step(full, offset, length, replies),
        RequestView::Write { offset, data, create, truncate, .. } => write_step(
            full,
            offset,
            data,
            create,
            truncate,
            replies,
        ),
        RequestView::Mkdir { .. } => mkdir_step(full, replies),
        _ => delete_step(full, replies),
    }
}

/// The request, carried out as far as the disk's replies allow it. Every path is
/// judged first.
pub open spec fn process_spec(
    root: Seq<u8>,
    request: RequestView,
    replies: Seq<ReplyView>,
) -> StepView {
    match request {
        RequestView::Auth { .. } => StepView::Reply(
            ResponseView::Error { message: "already authenticated"@ },
        ),
        RequestView::Ping => StepView::Reply(ResponseView::Pong),
        RequestView::Rename { from, to } => match sanitize_spec(root, from, replies) {
            PathStepView::Ask(call) => StepView::Ask(call),
            PathStepView::Refused(error) => StepView::Refuse(RequestErrorView::Path(error)),
            PathStepView::Allowed { path: source, used } => {
                let rest = replies.skip(used);
                match sanitize_spec(root, to, rest) {
                    PathStepView::Ask(call) => StepView::Ask(call),
                    PathStepView::Refused(error) => StepView::Refuse(
                        RequestErrorView::Path(error),
                    ),
                    PathStepView::Allowed { path: target, used } => rename_step(
                        source,
                        target,
                        rest.skip(used),
                    ),
                }
            },
        },
        RequestView::List { path } | RequestView::Stat { path } | RequestView::Read {
            path,
            ..
        } | RequestView::Write { path, .. } | RequestView::Mkdir { path } | RequestView::Delete {
            path,
        } => match sanitize_spec(root, path, replies) {
            PathStepView::Ask(call) => StepView::Ask(call),
            PathStepView::Refused(error) => StepView::Refuse(RequestErrorView::Path(error)),
            PathStepView::Allowed { path: full, used } => operation_step(
                root,
                request,
                full,
                replies.skip(used),
            ),
        },
    }
}

fn ask_or_fail(call: Call, heard: Option<Result<(), &String>>) -> (res: Option<Step>)
    ensures
        match heard {
            None => res matches Some(step) && step@ == StepView::Ask(call@),
            Some(Err(text)) => res matches Some(step) && step@ == StepView::Refuse(
                RequestErrorView::Disk(text@),
            ),
            Some(Ok(_)) => res is None,
        },
{
    match heard {
        None => Some(Step::Ask(call)),
        Some(Err(text)) => Some(Step::Refuse(RequestError::Disk(text.clone()))),
        Some(Ok(_)) => None,
    }
}

/// Lists a directory.
fn list(root: &[u8], full: Vec<u8>, replies: &[Reply]) -> (step: Step)
    ensures
        step@ == list_step(root@, full@, reply_views(replies@)),
{
    match get_flag(replies, 0) {
        None => Step::Ask(Call::IsDir(full)),
        Some(false) => Step::Refuse(RequestError::NotADirectory),
        Some(true) => match get_listing(replies, 1) {
            None => Step::Ask(Call::ReadDir(full)),
            Some(Err(text)) => Step::Refuse(RequestError::Disk(text.clone())),
            Some(Ok(listing)) => Step::Reply(
                Response::List { entries: list_entries(root, listing.as_slice()) },
            ),
        },
    }
}

/// Tells of one file or directory.
fn stat(root: &[u8], full: Vec<u8>, replies: &[Reply]) -> (step: Step)
    ensures
        step@ == stat_step(root@, full@, reply_views(replies@)),
{
    match get_meta(replies, 0) {
        None => Step::Ask(Call::Metadata(full)),
        Some(Err(_)) => Step::Refuse(RequestError::Metadata),
        Some(Ok(meta)) => match make_entry(root, full.as_slice(), Some(meta)) {
            Some(entry) => Step::Reply(Response::Stat { entry }),
            None => Step::Refuse(RequestError::Metadata),
        },
    }
}

/// Whether a file of `size` bytes ends with the `count` bytes at `offset`.
fn at_end(offset: u64, count: usize, size: u64) -> (eof: bool)
    ensures
        eof == (offset + count >= size),
{
    offset >= size || count as u64 >= size - offset
}

/// Reads from a file.
fn read(full: Vec<u8>, offset: u64, length: u64, replies: &[Reply]) -> (step: Step)
    ensures
        step@ == read_step(full@, offset, length, reply_views(replies@)),
{
    match get_flag(replies, 0) {
        None => {
            return Step::Ask(Call::IsFile(full));
        },
        Some(false) => {
            return Step::Refuse(RequestError::NotAFile);
        },
        Some(true) => {},
    }
    if let Some(step) = ask_or_fail(Call::OpenRead(slice_to_vec(full.as_slice())), get_done(replies, 1)) {
        return step;
    }
    if let Some(step) = ask_or_fail(Call::Seek(offset), get_done(replies, 2)) {
        return step;
    }
    match get_data(replies, 3) {
        None => {
            let count: u64 = if length < MAX_READ_SIZE {
                length
            } else {
                MAX_READ_SIZE
            };
            Step::Ask(Call::Read(count))
        },
        Some(Err(text)) => Step::Refuse(RequestError::Disk(text.clone())),
        Some(Ok(data)) => match get_meta(replies, 4) {
            None => Step::Ask(Call::Metadata(full)),
            Some(Err(text)) => Step::Refuse(RequestError::Disk(text.clone())),
            Some(Ok(meta)) => {
                let eof: bool = at_end(offset, data.len(), meta.size);
                Step::Reply(Response::Read { data: slice_to_vec(data.as_slice()), eof })
            },
        },
    }
}

/// Writes to a file.
fn write(
    full: Vec<u8>,
    offset: u64,
    data: &[u8],
    create: bool,
    truncate: bool,
    replies: &[Reply],
) -> (step: Step)
    ensures
        step@ == write_step(full@, offset, data@, create, truncate, reply_views(replies@)),
{
    let mut i: usize = 0;
    if let Some(above) = parent(full.as_slice()) {
        if get_done(replies, 0).is_none() {
            return Step::Ask(Call::CreateDirAll(above));
        }
        i = 1;
    }
    match get_done(replies, i) {
        None => {
            return Step::Ask(Call::OpenWrite { path: full, create, truncate });
        },
        Some(Err(_)) => {
            return Step::Refuse(RequestError::OpenForWrite);
        },
        Some(Ok(_)) => {},
    }
    if let Some(step) = ask_or_fail(Call::Seek(offset), get_done(replies, i + 1)) {
        return step;
    }
    if let Some(step) = ask_or_fail(Call::WriteAll(slice_to_vec(data)), get_done(replies, i + 2)) {
        return step;
    }
    if let Some(step) = ask_or_fail(Call::Flush, get_done(replies, i + 3)) {
        return step;
    }
    Step::Reply(Response::Done)
}

/// Creates a directory.
fn mkdir(full: Vec<u8>, replies: &[Reply]) -> (step: Step)
    ensures
        step@ == mkdir_step(full@, reply_views(replies@)),
{
    match ask_or_fail(Call::CreateDirAll(full), get_done(replies, 0)) {
        Some(step) => step,
        None => Step::Reply(Response::Done),
    }
}

/// Removes a file or an empty directory.
fn delete(full: Vec<u8>, replies: &[Reply]) -> (step: Step)
    ensures
        step@ == delete_step(full@, reply_views(replies@)),
{
    let call: Call = match get_flag(replies, 0) {
        None => {
            return Step::Ask(Call::IsDir(full));
        },
        Some(true) => Call::RemoveDir(full),
        Some(false) => Call::RemoveFile(full),
    };
    match ask_or_fail(call, get_done(replies, 1)) {
        Some(step) => step,
        None => Step::Reply(Response::Done),
    }
}

/// Gives another name.
fn rename(from: Vec<u8>, to: Vec<u8>, replies: &[Reply]) -> (step: Step)
    ensures
        step@ == rename_step(from@, to@, reply_views(replies@)),
{
    match ask_or_fail(Call::Rename { from, to }, get_done(replies, 0)) {
        Some(step) => step,
        None => Step::Reply(Response::Done),
    }
}

/// A path that was allowed, with the replies that are left, or the step that stands
/// in its place.
fn allowed_path<'a>(root: &[u8], requested: &str, replies: &'a [Reply]) -> (res: Result<
    (Vec<u8>, &'a [Reply]),
    Step,
>)
    ensures
        match sanitize_spec(root@, requested@, reply_views(replies@)) {
            PathStepView::Ask(call) => res matches Err(step) && step@ == StepView::Ask(call),
            PathStepView::Refused(error) => res matches Err(step) && step@ == StepView::Refuse(
                RequestErrorView::Path(error),
            ),
            PathStepView::Allowed { path, used } => res matches Ok(allowed) && allowed.0@ == path
                && reply_views(allowed.1@) == reply_views(replies@).skip(used),
        },
{
    match sanitize_path(root, requested, replies) {
        PathStep::Ask(call) => Err(Step::Ask(call)),
        PathStep::Refused(error) => Err(Step::Refuse(RequestError::Path(error))),
        PathStep::Allowed { path, used } => {
            let rest = slice_subrange(replies, used, replies.len());
            assert(reply_views(rest@) =~= reply_views(replies@).skip(used as int));
            Ok((path, rest))
        },
    }
}

/// Carries a request out, as far as the disk's replies allow it. The replies are those
/// that the disk gave to the calls asked for so far, in their order; a reply that is
/// not of the kind that answers its call counts as not given.
pub fn process_request(state: &ServerState, request: &Request, replies: &[Reply]) -> (step: Step)
    ensures
        step@ == process_spec(state.root@, request@, reply_views(replies@)),
{
    let root = state.root.as_slice();
    match request {
        Request::Auth { .. } => Step::Reply(
            Response::Error { message: "already authenticated".to_owned() },
        ),
        Request::Ping => Step::Reply(Response::Pong),
        Request::List { path } => match allowed_path(root, path.as_str(), replies) {
            Err(step) => step,
            Ok((full, rest)) => list(root, full, rest),
        },
        Request::Stat { path } => match allowed_path(root, path.as_str(), replies) {
            Err(step) => step,
            Ok((full, rest)) => stat(root, full, rest),
        },
        Request::Read { path, offset, length } => match allowed_path(root, path.as_str(), replies) {
            Err(step) => step,
            Ok((full, rest)) => read(full, *offset, *length, rest),
        },
        Request::Write { path, offset, data, create, truncate } => match allowed_path(
            root,
            path.as_str(),
            replies,
        ) {
            Err(step) => step,
            Ok((full, rest)) => write(full, *offset, data.as_slice(), *create, *truncate, rest),
        },
        Request::Mkdir { path } => match allowed_path(root, path.as_str(), replies) {
            Err(step) => step,
            Ok((full, rest)) => mkdir(full, rest),
        },
        Request::Delete { path } => match allowed_path(root, path.as_str(), replies) {
            Err(step) => step,
            Ok((full, rest)) => delete(full, rest),
        },
        Request::Rename { from, to } => match allowed_path(root, from.as_str(), replies) {
            Err(step) => step,
            Ok((source, rest)) => match allowed_path(root, to.as_str(), rest) {
                Err(step) => step,
                Ok((target, rest)) => rename(source, target, rest),
            },
        },
    }
}

// ---------------------------------------------------------------------------
// Laws
// ---------------------------------------------------------------------------

/// The paths that a request names.
pub open spec fn requested_paths(request: RequestView) -> Seq<Seq<char>> {
    match request {
        RequestView::Auth { .. } => Seq::empty(),
        RequestView::Ping => Seq::empty(),
        RequestView::Rename { from, to } => seq![from, to],
        RequestView::List { path } | RequestView::Stat { path } | RequestView::Read {
            path,
            ..
        } | RequestView::Write { path, .. } | RequestView::Mkdir { path } | RequestView::Delete {
            path,
        } => seq![path],
    }
}

/// The paths that a call acts on.
pub open spec fn call_paths(call: CallView) -> Seq<Seq<u8>> {
    match call {
        CallView::Canonicalize(path) => seq![path],
        CallView::Exists(path) => seq![path],
        CallView::ReadLink(path) => seq![path],
        CallView::IsDir(path) => seq![path],
        CallView::IsFile(path) => seq![path],
        CallView::ReadDir(path) => seq![path],
        CallView::Metadata(path) => seq![path],
        CallView::OpenRead(path) => seq![path],
        CallView::OpenWrite { path, .. } => seq![path],
        CallView::CreateDirAll(path) => seq![path],
        CallView::RemoveDir(path) => seq![path],
        CallView::RemoveFile(path) => seq![path],
        CallView::Rename { from, to } => seq![from, to],
        _ => Seq::empty(),
    }
}

/// Whether the call only looks where a path leads, as the judgement of paths does.
pub open spec fn only_judges(call: CallView) -> bool {
    call is Canonicalize || call is Exists || call is ReadLink
}

/// Whether the call changes what is on the disk.
pub open spec fn changes_disk(call: CallView) -> bool {
    ||| call is OpenWrite
    ||| call is WriteAll
    ||| call is Flush
    ||| call is CreateDirAll
    ||| call is RemoveDir
    ||| call is RemoveFile
    ||| call is Rename
}

/// Whether `path` was found to be what one of the request's paths stands for.
pub open spec fn was_allowed(
    root: Seq<u8>,
    request: RequestView,
    replies: Seq<ReplyView>,
    path: Seq<u8>,
) -> bool {
    match request {
        RequestView::Rename { from, to } => {
            let first = sanitize_spec(root, from, replies);
            let second = sanitize_spec(root, to, replies.skip(first->Allowed_used));
            first is Allowed && (path == first->Allowed_path || (second is Allowed && path
                == second->Allowed_path))
        },
        _ => {
            let only = sanitize_spec(root, requested_paths(request)[0], replies);
            requested_paths(request).len() == 1 && only is Allowed && path == only->Allowed_path
        },
    }
}

proof fn lemma_missing_calls_only_judge(
    full: Seq<u8>,
    inside: Seq<u8>,
    walk: Walk,
    replies: Seq<ReplyView>,
    i: int,
)
    ensures
        judge_missing(full, inside, walk, replies, i) matches PathStepView::Ask(call)
            ==> only_judges(call),
    decreases walk.links, components_spec(walk.p).len(),
{
    law_parent_drops_last(walk.p);
    if let Heard::Value(target) = path_at(replies, i) {
        if walk.links > 0 {
            let next = through(walk, target);
            lemma_missing_calls_only_judge(full, inside, next, replies, i + 1);
        }
    } else if let Some(above) = parent_spec(walk.p) {
        lemma_missing_calls_only_judge(full, inside, up(walk, above), replies, i + 2);
    }
}

pub(crate) proof fn lemma_path_calls_only_judge(
    root: Seq<u8>,
    requested: Seq<char>,
    replies: Seq<ReplyView>,
)
    ensures
        sanitize_spec(root, requested, replies) matches PathStepView::Ask(call) ==> only_judges(
            call,
        ) && !changes_disk(call),
{
    let full = join_spec(root, encode_utf8(requested));
    let inside = match path_at(replies, 0) {
        Heard::Value(path) => path,
        _ => root,
    };
    lemma_missing_calls_only_judge(full, inside, way_up(full, root), replies, 2);
}

proof fn lemma_operation_calls(
    root: Seq<u8>,
    request: RequestView,
    full: Seq<u8>,
    replies: Seq<ReplyView>,
    call: CallView,
)
    requires
        operation_step(root, request, full, replies) == StepView::Ask(call),
    ensures
        forall|k: int|
            0 <= k < call_paths(call).len() ==> {
                ||| #[trigger] call_paths(call)[k] == full
                ||| {
                    &&& request is Write
                    &&& call is CreateDirAll
                    &&& parent_spec(full) == Some(call_paths(call)[k])
                }
            },
        request is List || request is Stat || request is Read ==> !changes_disk(call),
{
}

proof fn lemma_rename_touches_allowed(
    root: Seq<u8>,
    from: Seq<char>,
    to: Seq<char>,
    replies: Seq<ReplyView>,
    call: CallView,
    k: int,
)
    requires
        process_spec(root, RequestView::Rename { from, to }, replies) == StepView::Ask(call),
        !only_judges(call),
        0 <= k < call_paths(call).len(),
    ensures
        was_allowed(root, RequestView::Rename { from, to }, replies, call_paths(call)[k]),
{
    lemma_path_calls_only_judge(root, from, replies);
    let used = sanitize_spec(root, from, replies)->Allowed_used;
    lemma_path_calls_only_judge(root, to, replies.skip(used));
}

proof fn lemma_named_request(root: Seq<u8>, request: RequestView, replies: Seq<ReplyView>)
    requires
        requested_paths(request).len() == 1,
    ensures
        match sanitize_spec(root, requested_paths(request)[0], replies) {
            PathStepView::Ask(call) => process_spec(root, request, replies) == StepView::Ask(call),
            PathStepView::Refused(error) => process_spec(root, request, replies)
                == StepView::Refuse(RequestErrorView::Path(error)),
            PathStepView::Allowed { path, used } => {
                &&& process_spec(root, request, replies) == operation_step(
                    root,
                    request,
                    path,
                    replies.skip(used),
                )
                &&& was_allowed(root, request, replies, path)
            },
        },
{
}

/// Whatever is done on the disk is done with paths that were allowed: every call but
/// those that judge a path acts on what a path of the request was found to stand for, or, when
/// something is to be written, on the directory above it.
pub proof fn law_only_allowed_paths_are_touched(
    root: Seq<u8>,
    request: RequestView,
    replies: Seq<ReplyView>,
    call: CallView,
    path: Seq<u8>,
)
    requires
        process_spec(root, request, replies) == StepView::Ask(call),
        !only_judges(call),
        call_paths(call).contains(path),
    ensures
        was_allowed(root, request, replies, path) || {
            &&& request is Write
            &&& call is CreateDirAll
            &&& exists|full: Seq<u8>|
                #[trigger] was_allowed(root, request, replies, full) && parent_spec(full) == Some(
                    path,
                )
        },
{
    let k = choose|k: int| 0 <= k < call_paths(call).len() && call_paths(call)[k] == path;
    if let RequestView::Rename { from, to } = request {
        lemma_rename_touches_allowed(root, from, to, replies, call, k);
    } else if requested_paths(request).len() == 1 {
        let named = requested_paths(request)[0];
        lemma_named_request(root, request, replies);
        lemma_path_calls_only_judge(root, named, replies);
        if let PathStepView::Allowed { path: full, used } = sanitize_spec(root, named, replies) {
            lemma_operation_calls(root, request, full, replies.skip(used), call);
        }
    }
}

/// A request that asks to look changes nothing on the disk.
pub proof fn law_looking_changes_nothing(
    root: Seq<u8>,
    request: RequestView,
    replies: Seq<ReplyView>,
    call: CallView,
)
    requires
        request is List || request is Stat || request is Read || request is Auth || request is Ping,
        process_spec(root, request, replies) == StepView::Ask(call),
    ensures
        !changes_disk(call),
{
    if !(request is Auth || request is Ping) {
        let named = requested_paths(request)[0];
        lemma_path_calls_only_judge(root, named, replies);
        if let PathStepView::Allowed { path: full, used } = sanitize_spec(root, named, replies) {
            lemma_operation_calls(root, request, full, replies.skip(used), call);
        }
    }
}

/// Judging a path changes nothing on the disk, so nothing is changed before every path of
/// the request was allowed.
pub proof fn law_nothing_changes_before_paths_are_allowed(
    root: Seq<u8>,
    request: RequestView,
    replies: Seq<ReplyView>,
    call: CallView,
)
    requires
        process_spec(root, request, replies) == StepView::Ask(call),
        changes_disk(call),
    ensures
        match request {
            RequestView::Rename { from, to } => {
                &&& sanitize_spec(root, from, replies) is Allowed
                &&& sanitize_spec(
                    root,
                    to,
                    replies.skip(sanitize_spec(root, from, replies)->Allowed_used),
                ) is Allowed
            },
            _ => {
                &&& requested_paths(request).len() == 1
                &&& sanitize_spec(root, requested_paths(request)[0], replies) is Allowed
            },
        },
{
    match request {
        RequestView::Auth { .. } => {},
        RequestView::Ping => {},
        RequestView::Rename { from, to } => {
            lemma_path_calls_only_judge(root, from, replies);
            let used = sanitize_spec(root, from, replies)->Allowed_used;
            lemma_path_calls_only_judge(root, to, replies.skip(used));
        },
        _ => {
            lemma_path_calls_only_judge(root, requested_paths(request)[0], replies);
        },
    }
}

/// A write is acknowledged only when the file was opened and all of it was written and
/// flushed.
pub proof fn law_acknowledged_write_was_done(
    root: Seq<u8>,
    path: Seq<char>,
    offset: u64,
    data: Seq<u8>,
    create: bool,
    truncate: bool,
    replies: Seq<ReplyView>,
)
    requires
        process_spec(
            root,
            RequestView::Write { path, offset, data, create, truncate },
            replies,
        ) is Reply,
    ensures
        sanitize_spec(root, path, replies) is Allowed,
        ({
            let step = sanitize_spec(root, path, replies);
            let rest = replies.skip(step->Allowed_used);
            let i: int = if parent_spec(step->Allowed_path) is Some {
                1
            } else {
                0
            };
            &&& done_at(rest, i) is Value
            &&& done_at(rest, i + 1) is Value
            &&& done_at(rest, i + 2) is Value
            &&& done_at(rest, i + 3) is Value
        }),
        process_spec(root, RequestView::Write { path, offset, data, create, truncate }, replies)
            == StepView::Reply(ResponseView::Done),
{
}

/// Whether the replies were given one by one, each to the call that was asked for at
/// that point.
pub open spec fn request_dialogue(
    root: Seq<u8>,
    request: RequestView,
    replies: Seq<ReplyView>,
) -> bool {
    forall|i: int|
        0 <= i < replies.len() ==> {
            &&& process_spec(root, request, #[trigger] replies.take(i)) is Ask
            &&& answers(process_spec(root, request, replies.take(i))->Ask_0, replies[i])
        }
}

/// Place `k` is where the answer to `call` is missing.
spec fn unanswered(call: CallView, replies: Seq<ReplyView>, k: int) -> bool {
    0 <= k <= replies.len() && (k < replies.len() ==> !answers(call, replies[k]))
}

proof fn lemma_missing_allowed(
    full: Seq<u8>,
    inside: Seq<u8>,
    walk: Walk,
    replies: Seq<ReplyView>,
    i: int,
)
    requires
        0 <= i,
        judge_missing(full, inside, walk, replies, i) is Allowed,
    ensures
        i < judge_missing(full, inside, walk, replies, i)->Allowed_used <= replies.len(),
        forall|n: int|
            judge_missing(full, inside, walk, replies, i)->Allowed_used <= n <= replies.len()
                ==> judge_missing(full, inside, walk, #[trigger] replies.take(n), i)
                == judge_missing(full, inside, walk, replies, i),
    decreases walk.links, components_spec(walk.p).len(),
{
    law_parent_drops_last(walk.p);
    if let Heard::Value(target) = path_at(replies, i) {
        if walk.links > 0 {
            lemma_missing_allowed(full, inside, through(walk, target), replies, i + 1);
        }
    } else if flag_at(replies, i + 1) == Some(false) && parent_spec(walk.p) is Some {
        let above = parent_spec(walk.p)->0;
        if components_spec(above).len() > walk.low {
            lemma_missing_allowed(full, inside, up(walk, above), replies, i + 2);
        }
    }
}

proof fn lemma_allowed_uses(root: Seq<u8>, requested: Seq<char>, replies: Seq<ReplyView>)
    requires
        sanitize_spec(root, requested, replies) is Allowed,
    ensures
        2 < sanitize_spec(root, requested, replies)->Allowed_used <= replies.len(),
        forall|n: int|
            sanitize_spec(root, requested, replies)->Allowed_used <= n <= replies.len()
                ==> sanitize_spec(root, requested, #[trigger] replies.take(n)) == sanitize_spec(
                root,
                requested,
                replies,
            ),
{
    if flag_at(replies, 1) == Some(false) {
        let full = join_spec(root, encode_utf8(requested));
        let inside = match path_at(replies, 0) {
            Heard::Value(path) => path,
            _ => root,
        };
        lemma_missing_allowed(full, inside, way_up(full, root), replies, 2);
        assert forall|n: int|
            sanitize_spec(root, requested, replies)->Allowed_used <= n
                <= replies.len() implies sanitize_spec(root, requested, #[trigger] replies.take(n))
            == sanitize_spec(root, requested, replies) by {
            assert(path_at(replies.take(n), 0) == path_at(replies, 0));
            assert(flag_at(replies.take(n), 1) == flag_at(replies, 1));
        }
    }
}

proof fn lemma_operation_call_unanswered(
    root: Seq<u8>,
    request: RequestView,
    full: Seq<u8>,
    replies: Seq<ReplyView>,
) -> (k: int)
    requires
        operation_step(root, request, full, replies) is Ask,
    ensures
        k <= 4,
        unanswered(operation_step(root, request, full, replies)->Ask_0, replies, k),
        operation_step(root, request, full, replies.take(k)) == operation_step(
            root,
            request,
            full,
            replies,
        ),
{
    let call = operation_step(root, request, full, replies)->Ask_0;
    match call {
        CallView::ReadDir(_) => 1,
        CallView::OpenRead(_) => 1,
        CallView::RemoveDir(_) => 1,
        CallView::RemoveFile(_) => 1,
        CallView::Read(_) => 3,
        CallView::Metadata(_) => if request is Read {
            4
        } else {
            0
        },
        CallView::OpenWrite { .. } => if parent_spec(full) is Some {
            1
        } else {
            0
        },
        CallView::Seek(_) => if request is Read || parent_spec(full) is Some {
            2
        } else {
            1
        },
        CallView::WriteAll(_) => if parent_spec(full) is Some {
            3
        } else {
            2
        },
        CallView::Flush => if parent_spec(full) is Some {
            4
        } else {
            3
        },
        _ => 0,
    }
}

/// The most calls that it takes to carry a request out: those that judge its paths, and
/// five more. No path that the disk tells has more than `reach` components.
pub open spec fn most_request_calls(root: Seq<u8>, request: RequestView, reach: int) -> int {
    match request {
        RequestView::Auth { .. } => 0,
        RequestView::Ping => 0,
        RequestView::Rename { from, to } => most_calls(root, from, reach) + most_calls(
            root,
            to,
            reach,
        ) + 1,
        _ => most_calls(root, requested_paths(request)[0], reach) + 5,
    }
}

proof fn lemma_missing_settled(
    full: Seq<u8>,
    inside: Seq<u8>,
    walk: Walk,
    replies: Seq<ReplyView>,
    i: int,
    n: int,
)
    requires
        0 <= i,
        0 <= n <= replies.len(),
        !(judge_missing(full, inside, walk, replies.take(n), i) is Ask),
    ensures
        judge_missing(full, inside, walk, replies, i) == judge_missing(
            full,
            inside,
            walk,
            replies.take(n),
            i,
        ),
    decreases walk.links, components_spec(walk.p).len(),
{
    law_parent_drops_last(walk.p);
    if let Heard::Value(target) = path_at(replies.take(n), i) {
        if walk.links > 0 {
            lemma_missing_settled(full, inside, through(walk, target), replies, i + 1, n);
        }
    } else if flag_at(replies.take(n), i + 1) == Some(false) && parent_spec(walk.p) is Some {
        let above = parent_spec(walk.p)->0;
        if components_spec(above).len() > walk.low {
            lemma_missing_settled(full, inside, up(walk, above), replies, i + 2, n);
        }
    }
}

/// What the replies have settled stays settled when more of them come.
pub(crate) proof fn lemma_path_settled(root: Seq<u8>, requested: Seq<char>, replies: Seq<ReplyView>, n: int)
    requires
        0 <= n <= replies.len(),
        !(sanitize_spec(root, requested, replies.take(n)) is Ask),
    ensures
        sanitize_spec(root, requested, replies) == sanitize_spec(root, requested, replies.take(n)),
{
    if flag_at(replies.take(n), 1) == Some(false) && !(path_at(replies.take(n), 0) is Nothing) {
        let rel = encode_utf8(requested);
        if !is_absolute_spec(rel) && no_parent_dir(components_spec(rel)) {
            let full = join_spec(root, rel);
            let inside = match path_at(replies, 0) {
                Heard::Value(path) => path,
                _ => root,
            };
            lemma_missing_settled(full, inside, way_up(full, root), replies, 2, n);
        }
    }
}

/// Where the replies settle a path, or their end when they do not; `i` is a place up to
/// which they do not.
pub(crate) proof fn lemma_settling_place(
    root: Seq<u8>,
    requested: Seq<char>,
    replies: Seq<ReplyView>,
    i: int,
) -> (j: int)
    requires
        0 <= i <= replies.len(),
        forall|k: int|
            0 <= k < i ==> sanitize_spec(root, requested, #[trigger] replies.take(k)) is Ask,
    ensures
        0 <= j <= replies.len(),
        forall|k: int|
            0 <= k < j ==> sanitize_spec(root, requested, #[trigger] replies.take(k)) is Ask,
        j < replies.len() ==> !(sanitize_spec(root, requested, replies.take(j)) is Ask),
    decreases replies.len() - i,
{
    if i < replies.len() && sanitize_spec(root, requested, replies.take(i)) is Ask {
        lemma_settling_place(root, requested, replies, i + 1)
    } else {
        i
    }
}

/// The judgement of a path, as a name of which only what follows is used.
#[verifier::opaque]
spec fn judged(root: Seq<u8>, requested: Seq<char>, replies: Seq<ReplyView>) -> PathStepView {
    sanitize_spec(root, requested, replies)
}

/// The step of a request, as a name of which only what follows is used.
#[verifier::opaque]
spec fn carried(root: Seq<u8>, request: RequestView, replies: Seq<ReplyView>) -> StepView {
    process_spec(root, request, replies)
}

/// Whether the replies were given one by one, as in [`request_dialogue`].
spec fn carried_dialogue(root: Seq<u8>, request: RequestView, replies: Seq<ReplyView>) -> bool {
    forall|i: int|
        0 <= i < replies.len() ==> {
            &&& carried(root, request, #[trigger] replies.take(i)) is Ask
            &&& answers(carried(root, request, replies.take(i))->Ask_0, replies[i])
        }
}

/// Whether each reply to a call that the judgement asks for answers that call.
spec fn judged_dialogue(root: Seq<u8>, requested: Seq<char>, replies: Seq<ReplyView>) -> bool {
    forall|k: int|
        0 <= k < replies.len() && judged(root, requested, #[trigger] replies.take(k)) is Ask
            ==> answers(judged(root, requested, replies.take(k))->Ask_0, replies[k])
}

proof fn lemma_named_carried(root: Seq<u8>, request: RequestView, replies: Seq<ReplyView>)
    requires
        requested_paths(request).len() == 1,
    ensures
        match judged(root, requested_paths(request)[0], replies) {
            PathStepView::Ask(call) => carried(root, request, replies) == StepView::Ask(call),
            PathStepView::Refused(error) => carried(root, request, replies) is Refuse,
            PathStepView::Allowed { path, used } => carried(root, request, replies)
                == operation_step(root, request, path, replies.skip(used)),
        },
{
    reveal(judged);
    reveal(carried);
    lemma_named_request(root, request, replies);
}

proof fn lemma_rename_carried(
    root: Seq<u8>,
    from: Seq<char>,
    to: Seq<char>,
    replies: Seq<ReplyView>,
)
    ensures
        ({
            let step = carried(root, RequestView::Rename { from, to }, replies);
            match judged(root, from, replies) {
                PathStepView::Ask(call) => step == StepView::Ask(call),
                PathStepView::Refused(_) => step is Refuse,
                PathStepView::Allowed { path: source, used } => match judged(
                    root,
                    to,
                    replies.skip(used),
                ) {
                    PathStepView::Ask(call) => step == StepView::Ask(call),
                    PathStepView::Refused(_) => step is Refuse,
                    PathStepView::Allowed { path: target, used: more } => step == rename_step(
                        source,
                        target,
                        replies.skip(used).skip(more),
                    ),
                },
            }
        }),
{
    reveal(judged);
    reveal(carried);
}

/// When a path was judged in a dialogue, all replies up to that place were used, and those
/// behind it change nothing in the judgement.
proof fn lemma_path_part(
    root: Seq<u8>,
    requested: Seq<char>,
    replies: Seq<ReplyView>,
    reach: int,
) -> (j: int)
    requires
        judged_dialogue(root, requested, replies),
        within_reach(replies, reach),
    ensures
        0 <= j <= replies.len(),
        j <= most_calls(root, requested, reach),
        j < replies.len() ==> !(judged(root, requested, replies.take(j)) is Ask),
        j < replies.len() ==> forall|k: int|
            j <= k <= replies.len() ==> judged(root, requested, #[trigger] replies.take(k))
                == judged(root, requested, replies),
        judged(root, requested, replies) is Allowed && j < replies.len() ==> judged(
            root,
            requested,
            replies,
        )->Allowed_used == j,
{
    reveal(judged);
    let j = lemma_settling_place(root, requested, replies, 0);
    let part = replies.take(j);
    assert forall|i: int| 0 <= i < part.len() implies {
        &&& sanitize_spec(root, requested, #[trigger] part.take(i)) is Ask
        &&& answers(sanitize_spec(root, requested, part.take(i))->Ask_0, part[i])
    } by {
        assert(part.take(i) =~= replies.take(i));
        assert(judged(root, requested, replies.take(i)) is Ask);
    }
    assert(forall|k: int| 0 <= k < part.len() ==> part[k] == replies[k]);
    law_paths_are_judged(root, requested, part, reach);
    if j < replies.len() {
        lemma_settled_behind(root, requested, replies, j);
        if sanitize_spec(root, requested, replies) is Allowed {
            let used = sanitize_spec(root, requested, replies)->Allowed_used;
            assert(sanitize_spec(root, requested, part) == sanitize_spec(root, requested, replies));
            lemma_allowed_uses(root, requested, part);
            if used < j {
                assert(part.take(used) =~= replies.take(used));
            }
        }
    }
    j
}

proof fn lemma_settled_behind(
    root: Seq<u8>,
    requested: Seq<char>,
    replies: Seq<ReplyView>,
    j: int,
)
    requires
        0 <= j <= replies.len(),
        !(sanitize_spec(root, requested, replies.take(j)) is Ask),
    ensures
        forall|k: int|
            j <= k <= replies.len() ==> sanitize_spec(root, requested, #[trigger] replies.take(k))
                == sanitize_spec(root, requested, replies),
{
    assert forall|k: int| j <= k <= replies.len() implies sanitize_spec(
        root,
        requested,
        #[trigger] replies.take(k),
    ) == sanitize_spec(root, requested, replies) by {
        assert(replies.take(k).take(j) =~= replies.take(j));
        lemma_path_settled(root, requested, replies.take(k), j);
        lemma_path_settled(root, requested, replies, j);
    }
}

proof fn lemma_named_request_ends(
    root: Seq<u8>,
    request: RequestView,
    replies: Seq<ReplyView>,
    reach: int,
)
    requires
        within_reach(replies, reach),
        carried_dialogue(root, request, replies),
        requested_paths(request).len() == 1,
        !(request is Rename),
    ensures
        replies.len() <= most_request_calls(root, request, reach),
        replies.len() == most_request_calls(root, request, reach) ==> !(carried(root, request, replies) is Ask),
{
    let path = requested_paths(request)[0];
    assert forall|k: int|
        0 <= k < replies.len() && judged(root, path, #[trigger] replies.take(k)) is Ask implies answers(
        judged(root, path, replies.take(k))->Ask_0,
        replies[k],
    ) by {
        lemma_named_carried(root, request, replies.take(k));
    }
    let j = lemma_path_part(root, path, replies, reach);
    if replies.len() >= j + 5 {
        lemma_named_carried(root, request, replies.take(j));
        let full = judged(root, path, replies)->Allowed_path;
        assert(judged(root, path, replies.take(j)) is Allowed);
        let first = replies.take(j + 5);
        lemma_named_carried(root, request, first);
        if carried(root, request, first) is Ask {
            let rest = first.skip(j);
            let k = lemma_operation_call_unanswered(root, request, full, rest);
            lemma_named_carried(root, request, replies.take(j + k));
            assert(replies.take(j + k).skip(j) =~= rest.take(k));
            assert(rest[k] == replies[j + k]);
            assert(false);
        }
        assert(replies.take(replies.len() as int) =~= replies);
    }
}

proof fn lemma_rename_ends(
    root: Seq<u8>,
    from: Seq<char>,
    to: Seq<char>,
    replies: Seq<ReplyView>,
    reach: int,
)
    requires
        carried_dialogue(root, RequestView::Rename { from, to }, replies),
        within_reach(replies, reach),
    ensures
        replies.len() <= most_calls(root, from, reach) + most_calls(root, to, reach) + 1,
        replies.len() == most_calls(root, from, reach) + most_calls(root, to, reach) + 1
            ==> !(carried(root, RequestView::Rename { from, to }, replies) is Ask),
{
    let request = RequestView::Rename { from, to };
    assert forall|k: int|
        0 <= k < replies.len() && judged(root, from, #[trigger] replies.take(k)) is Ask implies answers(
        judged(root, from, replies.take(k))->Ask_0,
        replies[k],
    ) by {
        lemma_rename_carried(root, from, to, replies.take(k));
    }
    lemma_most_calls(root, to, reach);
    let j = lemma_path_part(root, from, replies, reach);
    if j < replies.len() {
        lemma_rename_carried(root, from, to, replies.take(j));
        assert(judged(root, from, replies.take(j)) is Allowed);
        let rest = replies.skip(j);
        assert forall|k: int|
            0 <= k < rest.len() && judged(root, to, #[trigger] rest.take(k)) is Ask implies answers(
            judged(root, to, rest.take(k))->Ask_0,
            rest[k],
        ) by {
            assert(replies.take(j + k).skip(j) =~= rest.take(k));
            lemma_rename_carried(root, from, to, replies.take(j + k));
        }
        assert(forall|k: int| 0 <= k < rest.len() ==> rest[k] == replies[j + k]);
        let m = lemma_path_part(root, to, rest, reach);
        if m < rest.len() {
            assert(replies.take(j + m).skip(j) =~= rest.take(m));
            lemma_rename_carried(root, from, to, replies.take(j + m));
            assert(judged(root, to, rest.take(m)) is Allowed);
            assert(replies.take(j + m + 1).skip(j) =~= rest.take(m + 1));
            assert(rest.take(m).skip(m) =~= Seq::<ReplyView>::empty());
            assert(rest.take(m + 1).skip(m) =~= seq![rest[m]]);
            lemma_rename_carried(root, from, to, replies.take(j + m + 1));
            assert(!(carried(root, request, replies.take(j + m + 1)) is Ask));
            assert(replies.take(replies.len() as int) =~= replies);
        }
    }
}

/// Every request comes to an end: after so many calls as [`most_request_calls`] tells, each
/// answered, it is either carried out or refused.
pub proof fn law_requests_end(
    root: Seq<u8>,
    request: RequestView,
    replies: Seq<ReplyView>,
    reach: int,
)
    requires
        request_dialogue(root, request, replies),
        within_reach(replies, reach),
    ensures
        replies.len() <= most_request_calls(root, request, reach),
        replies.len() == most_request_calls(root, request, reach) ==> !(process_spec(
            root,
            request,
            replies,
        ) is Ask),
{
    reveal(carried);
    assert(carried_dialogue(root, request, replies)) by {
        assert forall|i: int| 0 <= i < replies.len() implies {
            &&& carried(root, request, #[trigger] replies.take(i)) is Ask
            &&& answers(carried(root, request, replies.take(i))->Ask_0, replies[i])
        } by {}
    }
    match request {
        RequestView::Auth { .. } | RequestView::Ping => {
            if replies.len() > 0 {
                assert(process_spec(root, request, replies.take(0)) is Ask);
            }
        },
        RequestView::Rename { from, to } => lemma_rename_ends(root, from, to, replies, reach),
        _ => lemma_named_request_ends(root, request, replies, reach),
    }
}

/// However a user writes a path, no request for it is refused as absolute; and a request for
/// a path behind a `/` is carried out like one for the path itself.
pub proof fn law_user_paths_are_served(
    root: Seq<u8>,
    path: Seq<char>,
    offset: u64,
    length: u64,
    replies: Seq<ReplyView>,
)
    ensures
        sanitize_spec(root, share_path_spec(path), replies) != PathStepView::Refused(
            PathError::Absolute,
        ),
        path.len() == 0 || path[0] != '/' ==> process_spec(
            root,
            RequestView::Read { path: share_path_spec(seq!['/'] + path), offset, length },
            replies,
        ) == process_spec(root, RequestView::Read { path, offset, length }, replies),
{
    law_share_paths_are_relative(path);
    let bare = share_path_spec(path);
    let full = join_spec(root, encode_utf8(bare));
    let inside = match path_at(replies, 0) {
        Heard::Value(path) => path,
        _ => root,
    };
    lemma_missing_refusals(full, inside, way_up(full, root), replies, 2);
}

proof fn lemma_missing_refusals(
    full: Seq<u8>,
    inside: Seq<u8>,
    walk: Walk,
    replies: Seq<ReplyView>,
    i: int,
)
    ensures
        judge_missing(full, inside, walk, replies, i) matches PathStepView::Refused(error) ==> error
            == PathError::Traversal || error == PathError::CanonicalizeParent,
    decreases walk.links, components_spec(walk.p).len(),
{
    law_parent_drops_last(walk.p);
    if let Heard::Value(target) = path_at(replies, i) {
        if walk.links > 0 {
            lemma_missing_refusals(full, inside, through(walk, target), replies, i + 1);
        }
    } else if let Some(above) = parent_spec(walk.p) {
        lemma_missing_refusals(full, inside, up(walk, above), replies, i + 2);
    }
}

proof fn lemma_missing_judged_alike(
    full: Seq<u8>,
    walk: Walk,
    other: Seq<u8>,
    beside: Walk,
    inside: Seq<u8>,
    replies: Seq<ReplyView>,
    i: int,
)
    requires
        same_way(walk, beside),
    ensures
        match (
            judge_missing(full, inside, walk, replies, i),
            judge_missing(other, inside, beside, replies, i),
        ) {
            (PathStepView::Ask(_), PathStepView::Ask(_)) => true,
            (PathStepView::Refused(error), PathStepView::Refused(reason)) => error == reason,
            (
                PathStepView::Allowed { used, .. },
                PathStepView::Allowed { used: count, .. },
            ) => used == count,
            _ => false,
        },
    decreases walk.links, components_spec(walk.p).len(),
{
    law_parent_drops_last(walk.p);
    lemma_same_way_on(walk, beside, Seq::empty());
    if let Heard::Value(target) = path_at(replies, i) {
        if walk.links > 0 {
            lemma_same_way_on(walk, beside, target);
            lemma_missing_judged_alike(
                full,
                through(walk, target),
                other,
                through(beside, target),
                inside,
                replies,
                i + 1,
            );
        }
    } else if let Some(above) = parent_spec(walk.p) {
        lemma_missing_judged_alike(
            full,
            up(walk, above),
            other,
            up(beside, parent_spec(beside.p)->0),
            inside,
            replies,
            i + 2,
        );
    }
}

proof fn lemma_empty_and_dot(root: Seq<u8>)
    requires
        root.len() > 0,
    ensures
        share_path_spec("/"@) == Seq::<char>::empty(),
        encode_utf8(Seq::<char>::empty()) == Seq::<u8>::empty(),
        encode_utf8("."@) == seq![DOT],
        no_parent_dir(components_spec(Seq::<u8>::empty())),
        no_parent_dir(components_spec(seq![DOT])),
        components_spec(join_spec(root, Seq::<u8>::empty())) == components_spec(
            join_spec(root, seq![DOT]),
        ),
{
    reveal_strlit("/");
    reveal_strlit(".");
    let none = Seq::<u8>::empty();
    let dot = seq![DOT];
    law_share_paths_are_relative(Seq::empty());
    assert(seq!['/'] + Seq::<char>::empty() =~= "/"@);
    char_u32_cast('.', 0x2e);
    assert((0x2eu32 & 0x7F) as u8 == 0x2e) by (bit_vector);
    assert("."@.drop_first() =~= Seq::<char>::empty());
    assert(encode_utf8("."@) =~= dot);
    assert(parts_from(dot, 1) =~= Seq::<ComponentView>::empty());
    assert(components_spec(dot) =~= seq![ComponentView::CurDir]);
    law_relative_components(dot);
    law_relative_components(none);
    assert(parts_from(dot, 0) =~= Seq::<ComponentView>::empty()) by {
        assert(components_spec(dot).len() == 1 + parts_from(dot, 0).len());
    }
    assert(parts_from(none, 0) =~= Seq::<ComponentView>::empty());
    law_join_components(root, none);
    law_join_components(root, dot);
}

/// The path `/` of a user stands for the shared directory: to list it is to list `.`, and a
/// disk that gives the same replies leads to the same answer.
pub proof fn law_slash_is_the_shared_directory(root: Seq<u8>, replies: Seq<ReplyView>)
    requires
        root.len() > 0,
    ensures
        ({
            let slash = process_spec(
                root,
                RequestView::List { path: share_path_spec("/"@) },
                replies,
            );
            let dot = process_spec(root, RequestView::List { path: "."@ }, replies);
            (slash is Ask && dot is Ask) || slash == dot
        }),
{
    lemma_empty_and_dot(root);
    let full = join_spec(root, Seq::<u8>::empty());
    let other = join_spec(root, seq![DOT]);
    let inside = match path_at(replies, 0) {
        Heard::Value(path) => path,
        _ => root,
    };
    lemma_missing_judged_alike(
        full,
        way_up(full, root),
        other,
        way_up(other, root),
        inside,
        replies,
        2,
    );
}

/// A value of [`RequestError`] is seen whole: as what it is, with all that it holds.
pub proof fn law_request_errors_are_seen_whole(value: &RequestError)
    ensures
        value@ == (match value {
            RequestError::Path(error) => RequestErrorView::Path(*error),
            RequestError::NotADirectory => RequestErrorView::NotADirectory,
            RequestError::NotAFile => RequestErrorView::NotAFile,
            RequestError::Metadata => RequestErrorView::Metadata,
            RequestError::OpenForWrite => RequestErrorView::OpenForWrite,
            RequestError::Disk(text) => RequestErrorView::Disk(text@),
        }),
{
}

/// A value of [`Step`] is seen whole: as what it is, with all that it holds.
pub proof fn law_steps_are_seen_whole(value: &Step)
    ensures
        value@ == (match value {
            Step::Ask(call) => StepView::Ask(call@),
            Step::Reply(response) => StepView::Reply(response@),
            Step::Refuse(error) => StepView::Refuse(error@),
        }),
{
}

} // verus!
