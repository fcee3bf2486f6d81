//! Copying whole files, piece by piece.
use crate::client::{refusal, refusal_spec, ClientError, ClientErrorView};
use crate::disk::{CallView, FileMeta, ReplyView};
use crate::path::parent_spec;
use crate::protocol::{Request, RequestView, Response, ResponseView};
use crate::server::{read_answer, read_limit, read_step, write_step, StepView};
use vstd::prelude::*;

verus! {

/// How much of a file travels in one message: 4 MiB.
pub const CHUNK_SIZE: u64 = 4 * 1024 * 1024;

// ---------------------------------------------------------------------------
// From the server
// ---------------------------------------------------------------------------

/// A file on its way from the server.
#[derive(Clone, Debug, PartialEq, Eq)]
pub struct Download {
    /// The file's path on the server.
    pub remote: String,
    /// How much of it has arrived.
    pub offset: u64,
}

/// What to do with an answer.
#[derive(Debug, PartialEq, Eq)]
pub enum DownloadStep {
    /// Store these bytes behind those that were stored before. Behind the last ones
    /// nothing follows.
    Store { data: Vec<u8>, last: bool },
    /// The file is complete.
    Finish,
}

/// The mathematical value of a [`DownloadStep`].
#[verifier::ext_equal]
pub enum DownloadStepView {
    Store { data: Seq<u8>, last: bool },
    Finish,
}

impl View for DownloadStep {
    type V = DownloadStepView;

    open spec fn view(&self) -> DownloadStepView {
        match self {
            DownloadStep::Store { data, last } => DownloadStepView::Store {
                data: data@,
                last: *last,
            },
            DownloadStep::Finish => DownloadStepView::Finish,
        }
    }
}

/// What to do with an answer to a read, or the error that it stands for.
pub open spec fn download_step(response: ResponseView) -> Result<DownloadStepView, ClientErrorView> {
    match response {
        ResponseView::Read { data, eof } => if data.len() == 0 && eof {
            Ok(DownloadStepView::Finish)
        } else {
            Ok(DownloadStepView::Store { data, last: eof })
        },
        _ => Err(refusal_spec(response)),
    }
}

/// How many bytes an answer to a read brings.
pub open spec fn received_len(response: ResponseView) -> nat {
    match response {
        ResponseView::Read { data, .. } => data.len(),
        _ => 0,
    }
}

impl Download {
    /// A download that is about to begin.
    pub fn new(remote: &str) -> (download: Download)
        ensures
            download.remote@ == remote@,
            download.offset == 0,
    {
        Download { remote: remote.to_owned(), offset: 0 }
    }

    /// The request for the next piece.
    pub fn request(&self) -> (request: Request)
        ensures
            request@ == (RequestView::Read {
                path: self.remote@,
                offset: self.offset,
                length: CHUNK_SIZE,
            }),
    {
        Request::Read { path: self.remote.clone(), offset: self.offset, length: CHUNK_SIZE }
    }

    /// Takes the answer to the request. The file must not grow beyond what 64 bits can
    /// count.
    pub fn accept(&mut self, response: Response) -> (res: Result<DownloadStep, ClientError>)
        requires
            old(self).offset + received_len(response@) <= u64::MAX,
        ensures
            match res {
                Ok(step) => download_step(response@) == Ok::<DownloadStepView, ClientErrorView>(
                    step@,
                ),
                Err(error) => download_step(response@) == Err::<DownloadStepView, ClientErrorView>(
                    error@,
                ),
            },
            response@ matches ResponseView::Read { data, eof } ==> (res matches Ok(step) && match step@ {
                DownloadStepView::Store { data: stored, last } => stored == data && last == eof
                    && !(data.len() == 0 && eof),
                DownloadStepView::Finish => data.len() == 0 && eof,
            }),
            response@ matches ResponseView::Error { message } ==> (res matches Err(error) && error@
                == ClientErrorView::Refused(message)),
            final(self).remote@ == old(self).remote@,
            final(self).offset == old(self).offset + received_len(response@),
            response@ matches ResponseView::Read { data, .. } ==> final(self).offset == old(
                self,
            ).offset + data.len(),
    {
        match response {
            Response::Read { data, eof } => {
                if data.is_empty() && eof {
                    return Ok(DownloadStep::Finish);
                }
                self.offset = self.offset + data.len() as u64;
                Ok(DownloadStep::Store { data, last: eof })
            },
            other => Err(refusal(other)),
        }
    }
}

// ---------------------------------------------------------------------------
// To the server
// ---------------------------------------------------------------------------

/// A file on its way to the server.
#[derive(Clone, Debug, PartialEq, Eq)]
pub struct Upload {
    /// The file's path on the server.
    pub remote: String,
    /// The size that the local file had when the upload began.
    pub local_size: u64,
    /// How much of it was sent and acknowledged.
    pub offset: u64,
    /// Whether nothing was sent yet.
    pub first: bool,
}

/// The mathematical value of an [`Upload`].
#[verifier::ext_equal]
pub struct UploadView {
    pub remote: Seq<char>,
    pub local_size: u64,
    pub offset: int,
    pub first: bool,
}

impl View for Upload {
    type V = UploadView;

    open spec fn view(&self) -> UploadView {
        UploadView {
            remote: self.remote@,
            local_size: self.local_size,
            offset: self.offset as int,
            first: self.first,
        }
    }
}

/// What to do with what was read of the local file.
#[derive(Debug, PartialEq, Eq)]
pub enum UploadStep {
    /// Send this, and go on when it was acknowledged.
    Send(Request),
    /// Send this; whatever the server answers, the upload ends.
    SendLast(Request),
    /// Everything was sent.
    Finish,
}

/// The mathematical value of an [`UploadStep`].
#[verifier::ext_equal]
pub enum UploadStepView {
    Send(RequestView),
    SendLast(RequestView),
    Finish,
}

impl View for UploadStep {
    type V = UploadStepView;

    open spec fn view(&self) -> UploadStepView {
        match self {
            UploadStep::Send(request) => UploadStepView::Send(request@),
            UploadStep::SendLast(request) => UploadStepView::SendLast(request@),
            UploadStep::Finish => UploadStepView::Finish,
        }
    }
}

/// An upload that is about to begin.
pub open spec fn upload_start(remote: Seq<char>, local_size: u64) -> UploadView {
    UploadView { remote, local_size, offset: 0, first: true }
}

/// What follows when `data` was read of the local file. The first piece creates the
/// remote file and empties it; the end of a file that was empty from the start does so
/// without any bytes.
pub open spec fn upload_step(upload: UploadView, data: Seq<u8>) -> UploadStepView {
    if data.len() > 0 {
        UploadStepView::Send(
            RequestView::Write {
                path: upload.remote,
                offset: upload.offset as u64,
                data,
                create: upload.first,
                truncate: upload.first,
            },
        )
    } else if upload.local_size == 0 && upload.first {
        UploadStepView::SendLast(
            RequestView::Write {
                path: upload.remote,
                offset: 0,
                data: Seq::empty(),
                create: true,
                truncate: true,
            },
        )
    } else {
        UploadStepView::Finish
    }
}

/// The upload once a piece of `count` bytes was acknowledged.
pub open spec fn upload_advanced(upload: UploadView, count: int) -> UploadView {
    UploadView { offset: upload.offset + count, first: false, ..upload }
}

impl Upload {
    /// An upload that is about to begin.
    pub fn new(remote: &str, local_size: u64) -> (upload: Upload)
        ensures
            upload@ == upload_start(remote@, local_size),
            upload.remote@ == remote@,
            upload.local_size == local_size,
            upload.offset == 0,
            upload.first,
    {
        Upload { remote: remote.to_owned(), local_size, offset: 0, first: true }
    }

    /// Decides what follows when `data` was read of the local file; no bytes mean its
    /// end.
    pub fn chunk(&self, data: Vec<u8>) -> (step: UploadStep)
        ensures
            step@ == upload_step(self@, data@),
            data@.len() > 0 ==> step@ == UploadStepView::Send(
                RequestView::Write {
                    path: self.remote@,
                    offset: self.offset,
                    data: data@,
                    create: self.first,
                    truncate: self.first,
                },
            ),
    {
        if data.len() > 0 {
            UploadStep::Send(
                Request::Write {
                    path: self.remote.clone(),
                    offset: self.offset,
                    data,
                    create: self.first,
                    truncate: self.first,
                },
            )
        } else if self.local_size == 0 && self.first {
            let none: Vec<u8> = Vec::new();
            UploadStep::SendLast(
                Request::Write {
                    path: self.remote.clone(),
                    offset: 0,
                    data: none,
                    create: true,
                    truncate: true,
                },
            )
        } else {
            UploadStep::Finish
        }
    }

    /// Takes the answer to a piece of `count` bytes. The file must not grow beyond what
    /// 64 bits can count.
    pub fn acknowledge(&mut self, count: usize, response: Response) -> (res: Result<(), ClientError>)
        requires
            response is Done ==> old(self).offset + count <= u64::MAX,
        ensures
            match res {
                Ok(_) => {
                    &&& response is Done
                    &&& final(self)@ == upload_advanced(old(self)@, count as int)
                    &&& final(self).remote@ == old(self).remote@
                    &&& final(self).local_size == old(self).local_size
                    &&& final(self).offset == old(self).offset + count
                    &&& !final(self).first
                },
                Err(error) => {
                    &&& !(response is Done)
                    &&& error@ == refusal_spec(response@)
                    &&& final(self)@ == old(self)@
                },
            },
    {
        match response {
            Response::Done => {
                self.offset = self.offset + count as u64;
                self.first = false;
                Ok(())
            },
            other => Err(refusal(other)),
        }
    }
}

// ---------------------------------------------------------------------------
// Laws
// ---------------------------------------------------------------------------

/// The pieces of a file, put together.
pub open spec fn assembled(pieces: Seq<Seq<u8>>) -> Seq<u8>
    decreases pieces.len(),
{
    if pieces.len() == 0 {
        Seq::empty()
    } else {
        assembled(pieces.drop_last()) + pieces.last()
    }
}

/// The upload once these pieces were read, sent and acknowledged.
pub open spec fn uploaded(remote: Seq<char>, local_size: u64, pieces: Seq<Seq<u8>>) -> UploadView
    decreases pieces.len(),
{
    if pieces.len() == 0 {
        upload_start(remote, local_size)
    } else {
        upload_advanced(
            uploaded(remote, local_size, pieces.drop_last()),
            pieces.last().len() as int,
        )
    }
}

/// A file of these bytes once `data` was written at `offset`; a gap is filled with zeros.
pub open spec fn overwritten(old_bytes: Seq<u8>, offset: int, data: Seq<u8>) -> Seq<u8> {
    let end = if data.len() > 0 && offset + data.len() > old_bytes.len() {
        offset + data.len()
    } else {
        old_bytes.len() as int
    };
    Seq::new(
        end as nat,
        |i: int|
            if offset <= i < offset + data.len() {
                data[i - offset]
            } else if i < old_bytes.len() {
                old_bytes[i]
            } else {
                0
            },
    )
}

/// What becomes of a file, which may be missing, when a write request is carried out
/// on it. A missing file that is not to be created stays missing.
pub open spec fn after_write(file: Option<Seq<u8>>, request: RequestView) -> Option<Seq<u8>> {
    match request {
        RequestView::Write { offset, data, create, truncate, .. } => match file {
            None => if create {
                Some(overwritten(Seq::empty(), offset as int, data))
            } else {
                None
            },
            Some(bytes) => Some(
                overwritten(
                    if truncate {
                        Seq::empty()
                    } else {
                        bytes
                    },
                    offset as int,
                    data,
                ),
            ),
        },
        _ => file,
    }
}

/// What becomes of a file when these pieces of an upload are carried out on it.
pub open spec fn after_pieces(
    file: Option<Seq<u8>>,
    remote: Seq<char>,
    local_size: u64,
    pieces: Seq<Seq<u8>>,
) -> Option<Seq<u8>>
    decreases pieces.len(),
{
    if pieces.len() == 0 {
        file
    } else {
        let before = pieces.drop_last();
        after_write(
            after_pieces(file, remote, local_size, before),
            upload_step(uploaded(remote, local_size, before), pieces.last())->Send_0,
        )
    }
}

/// What becomes of a file when a whole upload is carried out on it: its pieces, and what
/// is sent at the local file's end.
pub open spec fn after_upload(
    file: Option<Seq<u8>>,
    remote: Seq<char>,
    local_size: u64,
    pieces: Seq<Seq<u8>>,
) -> Option<Seq<u8>> {
    let stored = after_pieces(file, remote, local_size, pieces);
    match upload_step(uploaded(remote, local_size, pieces), Seq::empty()) {
        UploadStepView::SendLast(request) => after_write(stored, request),
        _ => stored,
    }
}

/// An upload counts what it sent.
pub proof fn law_upload_counts(remote: Seq<char>, local_size: u64, pieces: Seq<Seq<u8>>)
    ensures
        uploaded(remote, local_size, pieces) == (UploadView {
            remote,
            local_size,
            offset: assembled(pieces).len() as int,
            first: pieces.len() == 0,
        }),
    decreases pieces.len(),
{
    if pieces.len() > 0 {
        law_upload_counts(remote, local_size, pieces.drop_last());
    }
}

proof fn lemma_pieces_replace_the_file(
    file: Option<Seq<u8>>,
    remote: Seq<char>,
    local_size: u64,
    pieces: Seq<Seq<u8>>,
)
    requires
        pieces.len() > 0,
        forall|i: int| 0 <= i < pieces.len() ==> (#[trigger] pieces[i]).len() > 0,
        assembled(pieces).len() <= u64::MAX,
    ensures
        after_pieces(file, remote, local_size, pieces) == Some(assembled(pieces)),
    decreases pieces.len(),
{
    let before = pieces.drop_last();
    let data = pieces.last();
    law_upload_counts(remote, local_size, before);
    assert(pieces[pieces.len() - 1].len() > 0);
    assert(forall|i: int| 0 <= i < before.len() ==> before[i] == pieces[i]);
    if before.len() > 0 {
        lemma_pieces_replace_the_file(file, remote, local_size, before);
        let have = assembled(before);
        assert(overwritten(have, have.len() as int, data) =~= have + data);
    } else {
        assert(assembled(before) =~= Seq::<u8>::empty());
        assert(overwritten(Seq::empty(), 0, data) =~= assembled(before) + data);
    }
}

/// Whatever stood on the server before, after an upload the remote file holds exactly the
/// pieces that were read, in their order; of an empty local file it holds nothing. The
/// local file must not have been emptied after its size was taken.
pub proof fn law_upload_replaces_the_file(
    file: Option<Seq<u8>>,
    remote: Seq<char>,
    local_size: u64,
    pieces: Seq<Seq<u8>>,
)
    requires
        forall|i: int| 0 <= i < pieces.len() ==> (#[trigger] pieces[i]).len() > 0,
        assembled(pieces).len() <= u64::MAX,
        pieces.len() == 0 ==> local_size == 0,
    ensures
        after_upload(file, remote, local_size, pieces) == Some(assembled(pieces)),
{
    law_upload_counts(remote, local_size, pieces);
    if pieces.len() > 0 {
        lemma_pieces_replace_the_file(file, remote, local_size, pieces);
    } else {
        assert(overwritten(Seq::<u8>::empty(), 0, Seq::empty()) =~= assembled(pieces));
    }
}

/// Whether the pieces are what a file holds from its start on, one behind the other.
pub open spec fn read_in_turn(content: Seq<u8>, pieces: Seq<Seq<u8>>) -> bool {
    forall|i: int|
        0 <= i < pieces.len() ==> {
            let at = assembled(#[trigger] pieces.take(i)).len();
            &&& at + pieces[i].len() <= content.len()
            &&& pieces[i] == content.subrange(at as int, (at + pieces[i].len()) as int)
        }
}

proof fn lemma_assembled_so_far(content: Seq<u8>, pieces: Seq<Seq<u8>>)
    requires
        read_in_turn(content, pieces),
    ensures
        assembled(pieces).len() <= content.len(),
        assembled(pieces) == content.take(assembled(pieces).len() as int),
    decreases pieces.len(),
{
    if pieces.len() > 0 {
        let before = pieces.drop_last();
        assert forall|i: int| 0 <= i < before.len() implies {
            let at = assembled(#[trigger] before.take(i)).len();
            &&& at + before[i].len() <= content.len()
            &&& before[i] == content.subrange(at as int, (at + before[i].len()) as int)
        } by {
            assert(before.take(i) =~= pieces.take(i));
        }
        lemma_assembled_so_far(content, before);
        assert(pieces.take(pieces.len() - 1) =~= before);
        assert(assembled(pieces) =~= content.take(assembled(pieces).len() as int));
    } else {
        assert(assembled(pieces) =~= content.take(0));
    }
}

/// Whether a download ends with this answer.
pub open spec fn download_ends(response: ResponseView) -> bool {
    match download_step(response) {
        Ok(DownloadStepView::Finish) => true,
        Ok(DownloadStepView::Store { last, .. }) => last,
        Err(_) => true,
    }
}

/// A download ends exactly when the whole file has arrived, and what was stored is then
/// the file.
pub proof fn law_download_rebuilds_the_file(content: Seq<u8>, pieces: Seq<Seq<u8>>)
    requires
        content.len() <= u64::MAX,
        pieces.len() > 0,
        read_in_turn(content, pieces),
    ensures
        download_ends(
            read_answer(
                assembled(pieces.drop_last()).len() as u64,
                pieces.last(),
                content.len() as u64,
            ),
        ) <==> assembled(pieces) == content,
{
    let before = pieces.drop_last();
    assert(pieces.take(pieces.len() - 1) =~= before);
    lemma_assembled_so_far(content, pieces);
    let have = assembled(pieces).len() as int;
    assert(have == assembled(before).len() + pieces.last().len());
    if have >= content.len() {
        assert(content.take(have) =~= content);
    }
}

/// The bytes that a download stores, answer by answer.
pub open spec fn stored(answers: Seq<ResponseView>) -> Seq<u8>
    decreases answers.len(),
{
    if answers.len() == 0 {
        Seq::empty()
    } else {
        stored(answers.drop_last()) + match download_step(answers.last()) {
            Ok(DownloadStepView::Store { data, .. }) => data,
            _ => Seq::empty(),
        }
    }
}

/// The answers by which a file of `size` bytes is told in these pieces.
pub open spec fn told_in_pieces(pieces: Seq<Seq<u8>>, size: nat) -> Seq<ResponseView> {
    Seq::new(
        pieces.len(),
        |i: int|
            ResponseView::Read {
                data: pieces[i],
                eof: assembled(pieces.take(i + 1)).len() >= size,
            },
    )
}

/// A download stores exactly the bytes of its answers, none left out and none added.
pub proof fn law_answers_are_stored_whole(pieces: Seq<Seq<u8>>, answers: Seq<ResponseView>)
    requires
        pieces.len() == answers.len(),
        forall|i: int|
            0 <= i < answers.len() ==> (#[trigger] answers[i] matches ResponseView::Read {
                data,
                ..
            } && data == pieces[i]),
    ensures
        stored(answers) == assembled(pieces),
    decreases pieces.len(),
{
    if pieces.len() > 0 {
        let front = answers.drop_last();
        assert forall|i: int| 0 <= i < front.len() implies (
        #[trigger] front[i] matches ResponseView::Read { data, .. } && data
            == pieces.drop_last()[i]) by {
            assert(front[i] == answers[i]);
        }
        law_answers_are_stored_whole(pieces.drop_last(), front);
        assert(answers[answers.len() - 1] is Read);
        assert(stored(answers) =~= assembled(pieces));
    }
}

/// Whatever the sizes of the pieces in which a file is told, what a download has stored when
/// the whole file was told is the file.
pub proof fn law_download_stores_the_file(content: Seq<u8>, pieces: Seq<Seq<u8>>)
    requires
        read_in_turn(content, pieces),
        assembled(pieces).len() >= content.len(),
    ensures
        stored(told_in_pieces(pieces, content.len())) == content,
{
    law_answers_are_stored_whole(pieces, told_in_pieces(pieces, content.len()));
    lemma_assembled_so_far(content, pieces);
    assert(content.take(assembled(pieces).len() as int) =~= content);
}

/// What was put on the server is what is got from there, whatever the sizes of the pieces
/// on either way.
pub proof fn law_put_then_get(
    file: Option<Seq<u8>>,
    remote: Seq<char>,
    local_size: u64,
    put: Seq<Seq<u8>>,
    got: Seq<Seq<u8>>,
)
    requires
        forall|i: int| 0 <= i < put.len() ==> (#[trigger] put[i]).len() > 0,
        assembled(put).len() <= u64::MAX,
        put.len() == 0 ==> local_size == 0,
        got.len() > 0,
        after_upload(file, remote, local_size, put) matches Some(content) && read_in_turn(
            content,
            got,
        ) && download_ends(
            read_answer(
                assembled(got.drop_last()).len() as u64,
                got.last(),
                content.len() as u64,
            ),
        ),
    ensures
        assembled(got) == assembled(put),
        stored(told_in_pieces(got, assembled(put).len())) == assembled(put),
{
    law_upload_replaces_the_file(file, remote, local_size, put);
    law_download_rebuilds_the_file(assembled(put), got);
    law_download_stores_the_file(assembled(put), got);
}

/// Each piece of an upload goes to the upload's own file, behind what was acknowledged, with
/// all of its bytes; the first one, and no other, creates the file and empties it.
pub proof fn law_pieces_are_sent_whole(
    remote: Seq<char>,
    local_size: u64,
    pieces: Seq<Seq<u8>>,
    k: int,
)
    requires
        0 <= k < pieces.len(),
        pieces[k].len() > 0,
        assembled(pieces).len() <= u64::MAX,
    ensures
        upload_step(uploaded(remote, local_size, pieces.take(k)), pieces[k])
            == UploadStepView::Send(
            RequestView::Write {
                path: remote,
                offset: assembled(pieces.take(k)).len() as u64,
                data: pieces[k],
                create: k == 0,
                truncate: k == 0,
            },
        ),
        assembled(pieces.take(k)).len() <= assembled(pieces).len(),
{
    law_upload_counts(remote, local_size, pieces.take(k));
    lemma_assembled_grows(pieces, k);
}

proof fn lemma_assembled_grows(pieces: Seq<Seq<u8>>, k: int)
    requires
        0 <= k <= pieces.len(),
    ensures
        assembled(pieces.take(k)).len() <= assembled(pieces).len(),
    decreases pieces.len(),
{
    if k < pieces.len() {
        lemma_assembled_grows(pieces.drop_last(), k);
        assert(pieces.drop_last().take(k) =~= pieces.take(k));
    } else {
        assert(pieces.take(k) =~= pieces);
    }
}

/// At the end of the local file nothing more is sent, unless it was empty from the start and
/// nothing was sent: then the remote file is created and emptied.
pub proof fn law_uploads_end(upload: UploadView)
    ensures
        upload_step(upload, Seq::empty()) == if upload.local_size == 0 && upload.first {
            UploadStepView::SendLast(
                RequestView::Write {
                    path: upload.remote,
                    offset: 0,
                    data: Seq::empty(),
                    create: true,
                    truncate: true,
                },
            )
        } else {
            UploadStepView::Finish
        },
{
}

/// Answers that do not bring bytes end a download with an error: the words that the server
/// sent, or that the answer was not expected.
pub proof fn law_downloads_fail(response: ResponseView)
    requires
        !(response is Read),
    ensures
        download_step(response) == Err::<DownloadStepView, ClientErrorView>(
            match response {
                ResponseView::Error { message } => ClientErrorView::Refused(message),
                _ => ClientErrorView::UnexpectedResponse,
            },
        ),
{
}

// ---------------------------------------------------------------------------
// What the server's calls do to a file
// ---------------------------------------------------------------------------

/// A file, which may be missing, and the position at which it is open.
#[verifier::ext_equal]
pub struct OpenFile {
    pub bytes: Option<Seq<u8>>,
    pub position: int,
}

/// The file once a call on it has succeeded.
pub open spec fn performed(file: OpenFile, call: CallView) -> OpenFile {
    match call {
        CallView::OpenWrite { create, truncate, .. } => OpenFile {
            bytes: match file.bytes {
                None => if create {
                    Some(Seq::empty())
                } else {
                    None
                },
                Some(bytes) => if truncate {
                    Some(Seq::empty())
                } else {
                    Some(bytes)
                },
            },
            position: 0,
        },
        CallView::Seek(offset) => OpenFile { position: offset as int, ..file },
        CallView::WriteAll(data) => OpenFile {
            bytes: match file.bytes {
                Some(bytes) => Some(overwritten(bytes, file.position, data)),
                None => None,
            },
            position: file.position + data.len(),
        },
        _ => file,
    }
}

/// The file once all of these calls have succeeded, one after the other.
pub open spec fn performed_all(file: OpenFile, calls: Seq<CallView>) -> OpenFile
    decreases calls.len(),
{
    if calls.len() == 0 {
        file
    } else {
        performed(performed_all(file, calls.drop_last()), calls.last())
    }
}

/// The calls by which a write to `full` is carried out.
pub open spec fn write_calls(
    full: Seq<u8>,
    offset: u64,
    data: Seq<u8>,
    create: bool,
    truncate: bool,
) -> Seq<CallView> {
    let on_file = seq![
        CallView::OpenWrite { path: full, create, truncate },
        CallView::Seek(offset),
        CallView::WriteAll(data),
        CallView::Flush,
    ];
    match parent_spec(full) {
        Some(above) => seq![CallView::CreateDirAll(above)] + on_file,
        None => on_file,
    }
}

/// As long as each call succeeds, a write is carried out by exactly these calls, in this
/// order, and it is acknowledged when all have succeeded.
pub proof fn law_write_is_carried_out_in_order(
    full: Seq<u8>,
    offset: u64,
    data: Seq<u8>,
    create: bool,
    truncate: bool,
    replies: Seq<ReplyView>,
)
    requires
        replies.len() <= write_calls(full, offset, data, create, truncate).len(),
        forall|i: int| 0 <= i < replies.len() ==> #[trigger] replies[i] is Done,
    ensures
        write_step(full, offset, data, create, truncate, replies) == if replies.len()
            < write_calls(full, offset, data, create, truncate).len() {
            StepView::Ask(
                write_calls(full, offset, data, create, truncate)[replies.len() as int],
            )
        } else {
            StepView::Reply(ResponseView::Done)
        },
{
    assert(forall|i: int| 0 <= i < replies.len() ==> replies[i] == ReplyView::Done);
}

/// Those calls do to the file what the request says.
pub proof fn law_write_calls_store_the_data(
    file: OpenFile,
    path: Seq<char>,
    full: Seq<u8>,
    offset: u64,
    data: Seq<u8>,
    create: bool,
    truncate: bool,
)
    ensures
        performed_all(file, write_calls(full, offset, data, create, truncate)).bytes
            == after_write(
            file.bytes,
            RequestView::Write { path, offset, data, create, truncate },
        ),
{
    reveal_with_fuel(performed_all, 6);
    let calls = write_calls(full, offset, data, create, truncate);
    let a = calls.drop_last();
    let b = a.drop_last();
    let c = b.drop_last();
    let d = c.drop_last();
    assert(calls.last() == CallView::Flush);
    assert(a.last() == CallView::WriteAll(data));
    assert(b.last() == CallView::Seek(offset));
    assert(c.last() == CallView::OpenWrite { path: full, create, truncate });
    if parent_spec(full) is Some {
        assert(d.len() == 1);
        assert(d.last() is CreateDirAll);
        assert(d.drop_last().len() == 0);
    }
    assert(performed_all(file, d) == file);
}

/// Whether `data` is what reading at most `limit` bytes at `offset` can give of a file: what
/// stands there, and nothing only at the file's end.
pub open spec fn can_be_read(content: Seq<u8>, offset: int, limit: int, data: Seq<u8>) -> bool {
    &&& data.len() <= limit
    &&& data.len() > 0 ==> {
        &&& offset + data.len() <= content.len()
        &&& data == content.subrange(offset, offset + data.len())
    }
    &&& data.len() == 0 ==> limit == 0 || offset >= content.len()
}

/// A read of a file is answered with bytes that stand at the position asked for, no more than
/// asked for or than one answer may hold, and at least one as long as there are any; it is
/// called the end exactly when no byte follows them.
pub proof fn law_read_tells_what_is_there(
    full: Seq<u8>,
    content: Seq<u8>,
    offset: u64,
    length: u64,
    found: Seq<u8>,
    meta: FileMeta,
)
    requires
        content.len() == meta.size,
        can_be_read(content, offset as int, read_limit(length) as int, found),
    ensures
        read_step(
            full,
            offset,
            length,
            seq![
                ReplyView::Flag(true),
                ReplyView::Done,
                ReplyView::Done,
                ReplyView::Data(found),
                ReplyView::Meta(meta),
            ],
        ) matches StepView::Reply(ResponseView::Read { data, eof }) && data.len() <= read_limit(
            length,
        ) && (length > 0 && offset < content.len() ==> data.len() > 0) && data == content.skip(offset as int).take(data.len() as int) && (eof <==> offset
            + data.len() >= content.len()),
{
    if found.len() > 0 {
        assert(found =~= content.skip(offset as int).take(found.len() as int));
    } else {
        assert(found =~= content.skip(offset as int).take(0));
    }
}

/// A download gets on: every answer brings new bytes or is the last one, so a file of any
/// size is complete after finitely many of them.
pub proof fn law_download_gets_on(content: Seq<u8>, offset: u64, data: Seq<u8>)
    requires
        content.len() <= u64::MAX,
        can_be_read(content, offset as int, read_limit(CHUNK_SIZE) as int, data),
    ensures
        data.len() > 0 || download_ends(read_answer(offset, data, content.len() as u64)),
{
}

/// A value of [`DownloadStep`] is seen whole: as what it is, with all that it holds.
pub proof fn law_download_steps_are_seen_whole(value: &DownloadStep)
    ensures
        value@ == (match value {
            DownloadStep::Store { data, last } => DownloadStepView::Store {
                data: data@,
                last: *last,
            },
            DownloadStep::Finish => DownloadStepView::Finish,
        }),
{
}

/// A value of [`Upload`] is seen whole: as what it is, with all that it holds.
pub proof fn law_uploads_are_seen_whole(value: &Upload)
    ensures
        value@ == (UploadView {
            remote: value.remote@,
            local_size: value.local_size,
            offset: value.offset as int,
            first: value.first,
        }),
{
}

/// A value of [`UploadStep`] is seen whole: as what it is, with all that it holds.
pub proof fn law_upload_steps_are_seen_whole(value: &UploadStep)
    ensures
        value@ == (match value {
            UploadStep::Send(request) => UploadStepView::Send(request@),
            UploadStep::SendLast(request) => UploadStepView::SendLast(request@),
            UploadStep::Finish => UploadStepView::Finish,
        }),
{
}

} // verus!
