//! The boundary to the disk: what is asked of it, and what it answers.
use crate::protocol::Timestamp;
use vstd::prelude::*;

verus! {

/// What the disk knows of a file.
#[derive(Clone, Copy, Debug, PartialEq, Eq, Structural)]
pub struct FileMeta {
    pub is_dir: bool,
    pub size: u64,
    pub modified: Option<Timestamp>,
    pub created: Option<Timestamp>,
}

/// One name found in a directory. Its metadata is missing when it could not be
/// read.
#[derive(Clone, Debug, PartialEq, Eq)]
pub struct Listed {
    pub path: Vec<u8>,
    pub meta: Option<FileMeta>,
}

/// The mathematical value of a [`Listed`].
#[verifier::ext_equal]
pub struct ListedView {
    pub path: Seq<u8>,
    pub meta: Option<FileMeta>,
}

impl View for Listed {
    type V = ListedView;

    open spec fn view(&self) -> ListedView {
        ListedView { path: self.path@, meta: self.meta }
    }
}

/// The values of a listing.
pub open spec fn listed_views(listing: Seq<Listed>) -> Seq<ListedView> {
    listing.map_values(|l: Listed| l@)
}

/// One thing to be done on the disk. Seeking, reading, writing and flushing are
/// meant for the file that was opened last.
#[derive(Clone, Debug, PartialEq, Eq)]
pub enum Call {
    /// Resolve every symbolic link of the path.
    Canonicalize(Vec<u8>),
    /// Whether anything is found at the path.
    Exists(Vec<u8>),
    /// Read where the symbolic link at the path itself points; that no link stands there is
    /// a failure.
    ReadLink(Vec<u8>),
    /// Whether a directory is found at the path.
    IsDir(Vec<u8>),
    /// Whether a regular file is found at the path.
    IsFile(Vec<u8>),
    /// List a directory, with the metadata of each name.
    ReadDir(Vec<u8>),
    /// Read the metadata at the path.
    Metadata(Vec<u8>),
    /// Open a file for reading.
    OpenRead(Vec<u8>),
    /// Open a file for writing.
    OpenWrite { path: Vec<u8>, create: bool, truncate: bool },
    /// Move to a position, counted from the file's start.
    Seek(u64),
    /// Read once, at most so many bytes.
    Read(u64),
    /// Write all of these bytes.
    WriteAll(Vec<u8>),
    /// Flush what was written.
    Flush,
    /// Create a directory and the directories above it.
    CreateDirAll(Vec<u8>),
    /// Remove an empty directory.
    RemoveDir(Vec<u8>),
    /// Remove a file.
    RemoveFile(Vec<u8>),
    /// Give a file or directory another name.
    Rename { from: Vec<u8>, to: Vec<u8> },
}

/// The mathematical value of a [`Call`].
#[verifier::ext_equal]
pub enum CallView {
    Canonicalize(Seq<u8>),
    Exists(Seq<u8>),
    ReadLink(Seq<u8>),
    IsDir(Seq<u8>),
    IsFile(Seq<u8>),
    ReadDir(Seq<u8>),
    Metadata(Seq<u8>),
    OpenRead(Seq<u8>),
    OpenWrite { path: Seq<u8>, create: bool, truncate: bool },
    Seek(u64),
    Read(u64),
    WriteAll(Seq<u8>),
    Flush,
    CreateDirAll(Seq<u8>),
    RemoveDir(Seq<u8>),
    RemoveFile(Seq<u8>),
    Rename { from: Seq<u8>, to: Seq<u8> },
}

impl View for Call {
    type V = CallView;

    open spec fn view(&self) -> CallView {
        match self {
            Call::Canonicalize(path) => CallView::Canonicalize(path@),
            Call::Exists(path) => CallView::Exists(path@),
            Call::ReadLink(path) => CallView::ReadLink(path@),
            Call::IsDir(path) => CallView::IsDir(path@),
            Call::IsFile(path) => CallView::IsFile(path@),
            Call::ReadDir(path) => CallView::ReadDir(path@),
            Call::Metadata(path) => CallView::Metadata(path@),
            Call::OpenRead(path) => CallView::OpenRead(path@),
            Call::OpenWrite { path, create, truncate } => CallView::OpenWrite {
                path: path@,
                create: *create,
                truncate: *truncate,
            },
            Call::Seek(offset) => CallView::Seek(*offset),
            Call::Read(count) => CallView::Read(*count),
            Call::WriteAll(data) => CallView::WriteAll(data@),
            Call::Flush => CallView::Flush,
            Call::CreateDirAll(path) => CallView::CreateDirAll(path@),
            Call::RemoveDir(path) => CallView::RemoveDir(path@),
            Call::RemoveFile(path) => CallView::RemoveFile(path@),
            Call::Rename { from, to } => CallView::Rename { from: from@, to: to@ },
        }
    }
}

/// The disk's answer to one call.
#[derive(Clone, Debug, PartialEq, Eq)]
pub enum Reply {
    /// The answer to a question.
    Flag(bool),
    /// A resolved path, or where a link points.
    Path(Vec<u8>),
    /// A directory's names.
    Listing(Vec<Listed>),
    /// A file's metadata.
    Meta(FileMeta),
    /// What was read.
    Data(Vec<u8>),
    /// The call was carried out.
    Done,
    /// The call failed, and this is the system's word for why.
    Failed(String),
}

/// The mathematical value of a [`Reply`].
#[verifier::ext_equal]
pub enum ReplyView {
    Flag(bool),
    Path(Seq<u8>),
    Listing(Seq<ListedView>),
    Meta(FileMeta),
    Data(Seq<u8>),
    Done,
    Failed(Seq<char>),
}

impl View for Reply {
    type V = ReplyView;

    open spec fn view(&self) -> ReplyView {
        match self {
            Reply::Flag(yes) => ReplyView::Flag(*yes),
            Reply::Path(path) => ReplyView::Path(path@),
            Reply::Listing(listing) => ReplyView::Listing(listed_views(listing@)),
            Reply::Meta(meta) => ReplyView::Meta(*meta),
            Reply::Data(data) => ReplyView::Data(data@),
            Reply::Done => ReplyView::Done,
            Reply::Failed(text) => ReplyView::Failed(text@),
        }
    }
}

/// The values of a sequence of replies.
pub open spec fn reply_views(replies: Seq<Reply>) -> Seq<ReplyView> {
    replies.map_values(|r: Reply| r@)
}

/// Whether a reply is of the kind that answers the call.
pub open spec fn answers(call: CallView, reply: ReplyView) -> bool {
    match call {
        CallView::Canonicalize(_) => reply is Path || reply is Failed,
        CallView::Exists(_) => reply is Flag,
        CallView::ReadLink(_) => reply is Path || reply is Failed,
        CallView::IsDir(_) => reply is Flag,
        CallView::IsFile(_) => reply is Flag,
        CallView::ReadDir(_) => reply is Listing || reply is Failed,
        CallView::Metadata(_) => reply is Meta || reply is Failed,
        CallView::Read(_) => reply is Data || reply is Failed,
        _ => reply is Done || reply is Failed,
    }
}

/// What a sequence of replies says in one place: nothing yet, a failure, or a
/// value.
pub enum Heard<T> {
    Nothing,
    Failure(Seq<char>),
    Value(T),
}

/// The yes or no in place `i`.
pub open spec fn flag_at(replies: Seq<ReplyView>, i: int) -> Option<bool> {
    if 0 <= i < replies.len() {
        match replies[i] {
            ReplyView::Flag(yes) => Some(yes),
            _ => None,
        }
    } else {
        None
    }
}

/// The path in place `i`.
pub open spec fn path_at(replies: Seq<ReplyView>, i: int) -> Heard<Seq<u8>> {
    if 0 <= i < replies.len() {
        match replies[i] {
            ReplyView::Path(path) => Heard::Value(path),
            ReplyView::Failed(text) => Heard::Failure(text),
            _ => Heard::Nothing,
        }
    } else {
        Heard::Nothing
    }
}

/// The listing in place `i`.
pub open spec fn listing_at(replies: Seq<ReplyView>, i: int) -> Heard<Seq<ListedView>> {
    if 0 <= i < replies.len() {
        match replies[i] {
            ReplyView::Listing(listing) => Heard::Value(listing),
            ReplyView::Failed(text) => Heard::Failure(text),
            _ => Heard::Nothing,
        }
    } else {
        Heard::Nothing
    }
}

/// The metadata in place `i`.
pub open spec fn meta_at(replies: Seq<ReplyView>, i: int) -> Heard<FileMeta> {
    if 0 <= i < replies.len() {
        match replies[i] {
            ReplyView::Meta(meta) => Heard::Value(meta),
            ReplyView::Failed(text) => Heard::Failure(text),
            _ => Heard::Nothing,
        }
    } else {
        Heard::Nothing
    }
}

/// The bytes read in place `i`.
pub open spec fn data_at(replies: Seq<ReplyView>, i: int) -> Heard<Seq<u8>> {
    if 0 <= i < replies.len() {
        match replies[i] {
            ReplyView::Data(data) => Heard::Value(data),
            ReplyView::Failed(text) => Heard::Failure(text),
            _ => Heard::Nothing,
        }
    } else {
        Heard::Nothing
    }
}

/// Whether the call in place `i` was carried out.
pub open spec fn done_at(replies: Seq<ReplyView>, i: int) -> Heard<()> {
    if 0 <= i < replies.len() {
        match replies[i] {
            ReplyView::Done => Heard::Value(()),
            ReplyView::Failed(text) => Heard::Failure(text),
            _ => Heard::Nothing,
        }
    } else {
        Heard::Nothing
    }
}

pub(crate) fn get_flag(replies: &[Reply], i: usize) -> (res: Option<bool>)
    ensures
        res == flag_at(reply_views(replies@), i as int),
{
    if i < replies.len() {
        match &replies[i] {
            Reply::Flag(yes) => Some(*yes),
            _ => None,
        }
    } else {
        None
    }
}

pub(crate) fn get_path(replies: &[Reply], i: usize) -> (res: Option<Result<&Vec<u8>, &String>>)
    ensures
        match res {
            None => path_at(reply_views(replies@), i as int) is Nothing,
            Some(Err(text)) => path_at(reply_views(replies@), i as int) == Heard::<Seq<u8>>::Failure(
                text@,
            ),
            Some(Ok(path)) => path_at(reply_views(replies@), i as int) == Heard::Value(path@),
        },
{
    if i < replies.len() {
        match &replies[i] {
            Reply::Path(path) => Some(Ok(path)),
            Reply::Failed(text) => Some(Err(text)),
            _ => None,
        }
    } else {
        None
    }
}

pub(crate) fn get_listing(replies: &[Reply], i: usize) -> (res: Option<
    Result<&Vec<Listed>, &String>,
>)
    ensures
        match res {
            None => listing_at(reply_views(replies@), i as int) is Nothing,
            Some(Err(text)) => listing_at(reply_views(replies@), i as int) == Heard::<
                Seq<ListedView>,
            >::Failure(text@),
            Some(Ok(listing)) => listing_at(reply_views(replies@), i as int) == Heard::Value(
                listed_views(listing@),
            ),
        },
{
    if i < replies.len() {
        match &replies[i] {
            Reply::Listing(listing) => Some(Ok(listing)),
            Reply::Failed(text) => Some(Err(text)),
            _ => None,
        }
    } else {
        None
    }
}

pub(crate) fn get_meta(replies: &[Reply], i: usize) -> (res: Option<Result<FileMeta, &String>>)
    ensures
        match res {
            None => meta_at(reply_views(replies@), i as int) is Nothing,
            Some(Err(text)) => meta_at(reply_views(replies@), i as int) == Heard::<
                FileMeta,
            >::Failure(text@),
            Some(Ok(meta)) => meta_at(reply_views(replies@), i as int) == Heard::Value(meta),
        },
{
    if i < replies.len() {
        match &replies[i] {
            Reply::Meta(meta) => Some(Ok(*meta)),
            Reply::Failed(text) => Some(Err(text)),
            _ => None,
        }
    } else {
        None
    }
}

pub(crate) fn get_data(replies: &[Reply], i: usize) -> (res: Option<Result<&Vec<u8>, &String>>)
    ensures
        match res {
            None => data_at(reply_views(replies@), i as int) is Nothing,
            Some(Err(text)) => data_at(reply_views(replies@), i as int) == Heard::<Seq<u8>>::Failure(
                text@,
            ),
            Some(Ok(data)) => data_at(reply_views(replies@), i as int) == Heard::Value(data@),
        },
{
    if i < replies.len() {
        match &replies[i] {
            Reply::Data(data) => Some(Ok(data)),
            Reply::Failed(text) => Some(Err(text)),
            _ => None,
        }
    } else {
        None
    }
}

pub(crate) fn get_done(replies: &[Reply], i: usize) -> (res: Option<Result<(), &String>>)
    ensures
        match res {
            None => done_at(reply_views(replies@), i as int) is Nothing,
            Some(Err(text)) => done_at(reply_views(replies@), i as int) == Heard::<()>::Failure(
                text@,
            ),
            Some(Ok(_)) => done_at(reply_views(replies@), i as int) == Heard::Value(()),
        },
{
    if i < replies.len() {
        match &replies[i] {
            Reply::Done => Some(Ok(())),
            Reply::Failed(text) => Some(Err(text)),
            _ => None,
        }
    } else {
        None
    }
}

/// A value of [`Listed`] is seen whole: as what it is, with all that it holds.
pub proof fn law_listed_names_are_seen_whole(value: &Listed)
    ensures
        value@ == (ListedView { path: value.path@, meta: value.meta }),
{
}

/// A value of [`Call`] is seen whole: as what it is, with all that it holds.
pub proof fn law_calls_are_seen_whole(value: &Call)
    ensures
        value@ == (match value {
            Call::Canonicalize(path) => CallView::Canonicalize(path@),
            Call::Exists(path) => CallView::Exists(path@),
            Call::ReadLink(path) => CallView::ReadLink(path@),
            Call::IsDir(path) => CallView::IsDir(path@),
            Call::IsFile(path) => CallView::IsFile(path@),
            Call::ReadDir(path) => CallView::ReadDir(path@),
            Call::Metadata(path) => CallView::Metadata(path@),
            Call::OpenRead(path) => CallView::OpenRead(path@),
            Call::OpenWrite { path, create, truncate } => CallView::OpenWrite {
                path: path@,
                create: *create,
                truncate: *truncate,
            },
            Call::Seek(offset) => CallView::Seek(*offset),
            Call::Read(count) => CallView::Read(*count),
            Call::WriteAll(data) => CallView::WriteAll(data@),
            Call::Flush => CallView::Flush,
            Call::CreateDirAll(path) => CallView::CreateDirAll(path@),
            Call::RemoveDir(path) => CallView::RemoveDir(path@),
            Call::RemoveFile(path) => CallView::RemoveFile(path@),
            Call::Rename { from, to } => CallView::Rename { from: from@, to: to@ },
        }),
{
}

/// A value of [`Reply`] is seen whole: as what it is, with all that it holds.
pub proof fn law_replies_are_seen_whole(value: &Reply)
    ensures
        value@ == (match value {
            Reply::Flag(yes) => ReplyView::Flag(*yes),
            Reply::Path(path) => ReplyView::Path(path@),
            Reply::Listing(listing) => ReplyView::Listing(listed_views(listing@)),
            Reply::Meta(meta) => ReplyView::Meta(*meta),
            Reply::Data(data) => ReplyView::Data(data@),
            Reply::Done => ReplyView::Done,
            Reply::Failed(text) => ReplyView::Failed(text@),
        }),
{
}

/// Listed names and replies are seen one by one, none left out.
pub proof fn law_all_replies_are_seen(listing: Seq<Listed>, replies: Seq<Reply>)
    ensures
        listed_views(listing).len() == listing.len(),
        forall|i: int| 0 <= i < listing.len() ==> #[trigger] listed_views(listing)[i] == listing[i]@,
        reply_views(replies).len() == replies.len(),
        forall|i: int| 0 <= i < replies.len() ==> #[trigger] reply_views(replies)[i] == replies[i]@,
{
}

} // verus!
