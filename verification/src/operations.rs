//! What each request is for: the calls that carry it out once its paths are judged, and the
//! answer that they lead to.
use crate::disk::{CallView, FileMeta, ListedView, ReplyView};
use crate::entry::{
    entry_spec, in_order, is_of_listing, law_entry_tells_the_disk,
    law_every_readable_name_is_listed, law_listing_in_order, readable_count,
    readable_entries, sorted_entries,
};
use crate::protocol::{EntryView, RequestView, ResponseView};
use crate::sanitize::{sanitize_spec, PathError, PathStepView};
use crate::server::{
    lemma_path_settled, process_spec, request_error_text, RequestErrorView, StepView,
};
use crate::transfer::{
    after_write, law_write_calls_store_the_data, performed_all, write_calls, OpenFile,
};
use vstd::prelude::*;

verus! {

/// Whether these replies, and no fewer, lead to the judgement that `requested` stands for
/// `full`.
pub open spec fn stands_for(
    root: Seq<u8>,
    requested: Seq<char>,
    judgement: Seq<ReplyView>,
    full: Seq<u8>,
) -> bool {
    sanitize_spec(root, requested, judgement) == (PathStepView::Allowed {
        path: full,
        used: judgement.len() as int,
    })
}

proof fn lemma_behind_judgement(
    root: Seq<u8>,
    requested: Seq<char>,
    judgement: Seq<ReplyView>,
    full: Seq<u8>,
    more: Seq<ReplyView>,
)
    requires
        stands_for(root, requested, judgement, full),
    ensures
        sanitize_spec(root, requested, judgement + more) == (PathStepView::Allowed {
            path: full,
            used: judgement.len() as int,
        }),
        (judgement + more).skip(judgement.len() as int) == more,
{
    let all = judgement + more;
    assert(all.take(judgement.len() as int) =~= judgement);
    lemma_path_settled(root, requested, all, judgement.len() as int);
    assert(all.skip(judgement.len() as int) =~= more);
}

/// While the path of a request is judged, the judgement's own calls are asked for, and a
/// refusal of the path is the refusal of the request.
pub proof fn law_paths_are_judged_first(
    root: Seq<u8>,
    request: RequestView,
    path: Seq<char>,
    replies: Seq<ReplyView>,
)
    requires
        match request {
            RequestView::List { path: named } => named == path,
            RequestView::Stat { path: named } => named == path,
            RequestView::Read { path: named, .. } => named == path,
            RequestView::Write { path: named, .. } => named == path,
            RequestView::Mkdir { path: named } => named == path,
            RequestView::Delete { path: named } => named == path,
            RequestView::Rename { from, .. } => from == path,
            _ => false,
        },
    ensures
        sanitize_spec(root, path, replies) matches PathStepView::Ask(call) ==> process_spec(
            root,
            request,
            replies,
        ) == StepView::Ask(call),
        sanitize_spec(root, path, replies) matches PathStepView::Refused(error) ==> process_spec(
            root,
            request,
            replies,
        ) == StepView::Refuse(RequestErrorView::Path(error)),
{
}

// ---------------------------------------------------------------------------
// Writing
// ---------------------------------------------------------------------------

/// A write is carried out on the path that it names, with its own offset, bytes and flags:
/// as long as each call succeeds, the directory above is created, the file is opened, the
/// position is sought, all bytes are written and flushed, and then it is acknowledged. What
/// becomes of the file by that is what the request says.
pub proof fn law_write_requests_are_carried_out(
    root: Seq<u8>,
    path: Seq<char>,
    offset: u64,
    data: Seq<u8>,
    create: bool,
    truncate: bool,
    judgement: Seq<ReplyView>,
    full: Seq<u8>,
    done: Seq<ReplyView>,
    file: OpenFile,
)
    requires
        stands_for(root, path, judgement, full),
        done.len() <= write_calls(full, offset, data, create, truncate).len(),
        forall|i: int| 0 <= i < done.len() ==> #[trigger] done[i] is Done,
    ensures
        process_spec(
            root,
            RequestView::Write { path, offset, data, create, truncate },
            judgement + done,
        ) == if done.len() < write_calls(full, offset, data, create, truncate).len() {
            StepView::Ask(write_calls(full, offset, data, create, truncate)[done.len() as int])
        } else {
            StepView::Reply(ResponseView::Done)
        },
        performed_all(file, write_calls(full, offset, data, create, truncate)).bytes
            == after_write(
            file.bytes,
            RequestView::Write { path, offset, data, create, truncate },
        ),
{
    lemma_behind_judgement(root, path, judgement, full, done);
    law_write_calls_store_the_data(file, path, full, offset, data, create, truncate);
    assert(forall|i: int| 0 <= i < done.len() ==> done[i] == ReplyView::Done);
}

/// A write fails with the first call that fails: that the file could not be opened is told so,
/// any other failure in the disk's own words. That the directory above could not be created
/// is no failure.
pub proof fn law_write_requests_fail(
    root: Seq<u8>,
    path: Seq<char>,
    offset: u64,
    data: Seq<u8>,
    create: bool,
    truncate: bool,
    judgement: Seq<ReplyView>,
    full: Seq<u8>,
    done: Seq<ReplyView>,
    text: Seq<char>,
)
    requires
        stands_for(root, path, judgement, full),
        done.len() < write_calls(full, offset, data, create, truncate).len(),
        forall|i: int| 0 <= i < done.len() ==> #[trigger] done[i] is Done,
    ensures
        ({
            let calls = write_calls(full, offset, data, create, truncate);
            let call = calls[done.len() as int];
            process_spec(
                root,
                RequestView::Write { path, offset, data, create, truncate },
                judgement + done.push(ReplyView::Failed(text)),
            ) == match call {
                CallView::CreateDirAll(_) => StepView::Ask(calls[1]),
                CallView::OpenWrite { .. } => StepView::Refuse(RequestErrorView::OpenForWrite),
                _ => StepView::Refuse(RequestErrorView::Disk(text)),
            }
        }),
{
    let more = done.push(ReplyView::Failed(text));
    lemma_behind_judgement(root, path, judgement, full, more);
    assert(forall|i: int| 0 <= i < done.len() ==> more[i] == ReplyView::Done);
    assert(more[done.len() as int] == ReplyView::Failed(text));
}

// ---------------------------------------------------------------------------
// Reading
// ---------------------------------------------------------------------------

/// A read opens the file that it names, seeks its own offset, and reads at most what it asks
/// for and at most 8 MiB. It is answered with the bytes that the disk gave, all of them, and
/// with whether the file ends there.
pub proof fn law_read_requests_are_carried_out(
    root: Seq<u8>,
    path: Seq<char>,
    offset: u64,
    length: u64,
    judgement: Seq<ReplyView>,
    full: Seq<u8>,
    found: Seq<u8>,
    meta: FileMeta,
)
    requires
        stands_for(root, path, judgement, full),
    ensures
        ({
            let request = RequestView::Read { path, offset, length };
            let yes = ReplyView::Flag(true);
            let done = ReplyView::Done;
            let bytes = ReplyView::Data(found);
            let most: u64 = if length < 8388608 {
                length
            } else {
                8388608
            };
            &&& process_spec(root, request, judgement) == StepView::Ask(CallView::IsFile(full))
            &&& process_spec(root, request, judgement + seq![yes]) == StepView::Ask(
                CallView::OpenRead(full),
            )
            &&& process_spec(root, request, judgement + seq![yes, done]) == StepView::Ask(
                CallView::Seek(offset),
            )
            &&& process_spec(root, request, judgement + seq![yes, done, done]) == StepView::Ask(
                CallView::Read(most),
            )
            &&& process_spec(root, request, judgement + seq![yes, done, done, bytes])
                == StepView::Ask(CallView::Metadata(full))
            &&& process_spec(
                root,
                request,
                judgement + seq![yes, done, done, bytes, ReplyView::Meta(meta)],
            ) == StepView::Reply(
                ResponseView::Read { data: found, eof: offset + found.len() >= meta.size },
            )
        }),
{
    let yes = ReplyView::Flag(true);
    let done = ReplyView::Done;
    let bytes = ReplyView::Data(found);
    assert(judgement + Seq::<ReplyView>::empty() =~= judgement);
    lemma_behind_judgement(root, path, judgement, full, Seq::empty());
    lemma_behind_judgement(root, path, judgement, full, seq![yes]);
    lemma_behind_judgement(root, path, judgement, full, seq![yes, done]);
    lemma_behind_judgement(root, path, judgement, full, seq![yes, done, done]);
    lemma_behind_judgement(root, path, judgement, full, seq![yes, done, done, bytes]);
    lemma_behind_judgement(
        root,
        path,
        judgement,
        full,
        seq![yes, done, done, bytes, ReplyView::Meta(meta)],
    );
}

/// What is no file is not read, and a read that the disk fails is refused in its own words.
pub proof fn law_read_requests_fail(
    root: Seq<u8>,
    path: Seq<char>,
    offset: u64,
    length: u64,
    judgement: Seq<ReplyView>,
    full: Seq<u8>,
    found: Seq<u8>,
    text: Seq<char>,
)
    requires
        stands_for(root, path, judgement, full),
    ensures
        ({
            let request = RequestView::Read { path, offset, length };
            let yes = ReplyView::Flag(true);
            let done = ReplyView::Done;
            let bytes = ReplyView::Data(found);
            let failed = ReplyView::Failed(text);
            let refused = StepView::Refuse(RequestErrorView::Disk(text));
            &&& process_spec(root, request, judgement + seq![ReplyView::Flag(false)])
                == StepView::Refuse(RequestErrorView::NotAFile)
            &&& process_spec(root, request, judgement + seq![yes, failed]) == refused
            &&& process_spec(root, request, judgement + seq![yes, done, failed]) == refused
            &&& process_spec(root, request, judgement + seq![yes, done, done, failed]) == refused
            &&& process_spec(root, request, judgement + seq![yes, done, done, bytes, failed])
                == refused
        }),
{
    let yes = ReplyView::Flag(true);
    let done = ReplyView::Done;
    let bytes = ReplyView::Data(found);
    let failed = ReplyView::Failed(text);
    lemma_behind_judgement(root, path, judgement, full, seq![ReplyView::Flag(false)]);
    lemma_behind_judgement(root, path, judgement, full, seq![yes, failed]);
    lemma_behind_judgement(root, path, judgement, full, seq![yes, done, failed]);
    lemma_behind_judgement(root, path, judgement, full, seq![yes, done, done, failed]);
    lemma_behind_judgement(root, path, judgement, full, seq![yes, done, done, bytes, failed]);
}

// ---------------------------------------------------------------------------
// Looking
// ---------------------------------------------------------------------------

/// A directory that a request names is listed: the answer has exactly one entry for each name
/// that the disk lists with metadata, which tells that metadata, and stands in the order of
/// the names.
pub proof fn law_list_requests_are_carried_out(
    root: Seq<u8>,
    path: Seq<char>,
    judgement: Seq<ReplyView>,
    full: Seq<u8>,
    listing: Seq<ListedView>,
)
    requires
        stands_for(root, path, judgement, full),
    ensures
        ({
            let request = RequestView::List { path };
            let yes = ReplyView::Flag(true);
            &&& process_spec(root, request, judgement) == StepView::Ask(CallView::IsDir(full))
            &&& process_spec(root, request, judgement + seq![yes]) == StepView::Ask(
                CallView::ReadDir(full),
            )
            &&& process_spec(root, request, judgement + seq![yes, ReplyView::Listing(listing)])
                matches StepView::Reply(ResponseView::List { entries }) && tells_listing(
                root,
                listing,
                entries,
            )
        }),
{
    let yes = ReplyView::Flag(true);
    assert(judgement + Seq::<ReplyView>::empty() =~= judgement);
    lemma_behind_judgement(root, path, judgement, full, Seq::empty());
    lemma_behind_judgement(root, path, judgement, full, seq![yes]);
    lemma_behind_judgement(root, path, judgement, full, seq![yes, ReplyView::Listing(listing)]);
    lemma_entries_tell_listing(root, listing);
}

proof fn lemma_entries_tell_listing(root: Seq<u8>, listing: Seq<ListedView>)
    ensures
        tells_listing(root, listing, sorted_entries(readable_entries(root, listing))),
{
    let entries = sorted_entries(readable_entries(root, listing));
    law_every_readable_name_is_listed(root, listing);
    law_listing_in_order(readable_entries(root, listing));
    assert forall|i: int| 0 <= i < listing.len() implies ((#[trigger] listing[i]).meta matches Some(
        meta,
    ) ==> has_entry(root, listing[i].path, meta, entries)) by {
        if let Some(meta) = listing[i].meta {
            let e = entry_spec(root, listing[i].path, meta);
            assert(entries.contains(e));
            let j = choose|j: int| 0 <= j < entries.len() && entries[j] == e;
            law_entry_tells_the_disk(root, listing[i].path, meta);
            assert(is_entry_of(root, listing[i].path, meta, entries[j]));
        }
    }
    assert forall|j: int| 0 <= j < entries.len() implies was_listed(
        root,
        listing,
        #[trigger] entries[j],
    ) by {
        assert(is_of_listing(root, listing, entries[j]));
        let i = choose|i: int|
            0 <= i < listing.len() && (#[trigger] listing[i]).meta is Some && entries[j]
                == entry_spec(root, listing[i].path, listing[i].meta->0);
        law_entry_tells_the_disk(root, listing[i].path, listing[i].meta->0);
        assert(is_entry_of(root, listing[i].path, listing[i].meta->0, entries[j]));
    }
}

/// Whether the entry tells of the file at `full` what the disk told.
pub open spec fn is_entry_of(
    root: Seq<u8>,
    full: Seq<u8>,
    meta: FileMeta,
    entry: EntryView,
) -> bool {
    &&& entry == entry_spec(root, full, meta)
    &&& entry.is_dir == meta.is_dir
    &&& entry.size == meta.size
    &&& entry.modified == meta.modified
    &&& entry.created == meta.created
}

/// Whether one of the entries tells of the file at `full` what the disk told.
pub open spec fn has_entry(
    root: Seq<u8>,
    full: Seq<u8>,
    meta: FileMeta,
    entries: Seq<EntryView>,
) -> bool {
    exists|j: int|
        0 <= j < entries.len() && is_entry_of(root, full, meta, #[trigger] entries[j])
}

/// Whether the entry tells of a listed name what the disk told.
pub open spec fn was_listed(root: Seq<u8>, listing: Seq<ListedView>, entry: EntryView) -> bool {
    exists|i: int|
        0 <= i < listing.len() && (#[trigger] listing[i]).meta is Some && is_entry_of(
            root,
            listing[i].path,
            listing[i].meta->0,
            entry,
        )
}

/// Whether the entries are those of the names that the disk lists with metadata, each once
/// and in the order of their names.
pub open spec fn tells_listing(
    root: Seq<u8>,
    listing: Seq<ListedView>,
    entries: Seq<EntryView>,
) -> bool {
    &&& entries.len() == readable_count(listing)
    &&& in_order(entries)
    &&& forall|i: int|
        0 <= i < listing.len() ==> ((#[trigger] listing[i]).meta matches Some(meta) ==> has_entry(
            root,
            listing[i].path,
            meta,
            entries,
        ))
    &&& forall|j: int|
        0 <= j < entries.len() ==> was_listed(root, listing, #[trigger] entries[j])
}

/// What is no directory is not listed, and a listing that the disk fails is refused in its own
/// words.
pub proof fn law_list_requests_fail(
    root: Seq<u8>,
    path: Seq<char>,
    judgement: Seq<ReplyView>,
    full: Seq<u8>,
    text: Seq<char>,
)
    requires
        stands_for(root, path, judgement, full),
    ensures
        process_spec(
            root,
            RequestView::List { path },
            judgement + seq![ReplyView::Flag(false)],
        ) == StepView::Refuse(RequestErrorView::NotADirectory),
        process_spec(
            root,
            RequestView::List { path },
            judgement + seq![ReplyView::Flag(true), ReplyView::Failed(text)],
        ) == StepView::Refuse(RequestErrorView::Disk(text)),
{
    lemma_behind_judgement(root, path, judgement, full, seq![ReplyView::Flag(false)]);
    lemma_behind_judgement(
        root,
        path,
        judgement,
        full,
        seq![ReplyView::Flag(true), ReplyView::Failed(text)],
    );
}

/// A file or directory that a request names is told of by its metadata, unchanged.
pub proof fn law_stat_requests_are_carried_out(
    root: Seq<u8>,
    path: Seq<char>,
    judgement: Seq<ReplyView>,
    full: Seq<u8>,
    meta: FileMeta,
    text: Seq<char>,
)
    requires
        stands_for(root, path, judgement, full),
    ensures
        process_spec(root, RequestView::Stat { path }, judgement) == StepView::Ask(
            CallView::Metadata(full),
        ),
        process_spec(
            root,
            RequestView::Stat { path },
            judgement + seq![ReplyView::Meta(meta)],
        ) matches StepView::Reply(ResponseView::Stat { entry }) && is_entry_of(
            root,
            full,
            meta,
            entry,
        ),
        process_spec(
            root,
            RequestView::Stat { path },
            judgement + seq![ReplyView::Failed(text)],
        ) == StepView::Refuse(RequestErrorView::Metadata),
{
    assert(judgement + Seq::<ReplyView>::empty() =~= judgement);
    lemma_behind_judgement(root, path, judgement, full, Seq::empty());
    lemma_behind_judgement(root, path, judgement, full, seq![ReplyView::Meta(meta)]);
    lemma_behind_judgement(root, path, judgement, full, seq![ReplyView::Failed(text)]);
    law_entry_tells_the_disk(root, full, meta);
}

// ---------------------------------------------------------------------------
// Changing directories
// ---------------------------------------------------------------------------

/// The directory that a request names is created, and that is all.
pub proof fn law_mkdir_requests_are_carried_out(
    root: Seq<u8>,
    path: Seq<char>,
    judgement: Seq<ReplyView>,
    full: Seq<u8>,
    text: Seq<char>,
)
    requires
        stands_for(root, path, judgement, full),
    ensures
        process_spec(root, RequestView::Mkdir { path }, judgement) == StepView::Ask(
            CallView::CreateDirAll(full),
        ),
        process_spec(root, RequestView::Mkdir { path }, judgement + seq![ReplyView::Done])
            == StepView::Reply(ResponseView::Done),
        process_spec(root, RequestView::Mkdir { path }, judgement + seq![ReplyView::Failed(text)])
            == StepView::Refuse(RequestErrorView::Disk(text)),
{
    assert(judgement + Seq::<ReplyView>::empty() =~= judgement);
    lemma_behind_judgement(root, path, judgement, full, Seq::empty());
    lemma_behind_judgement(root, path, judgement, full, seq![ReplyView::Done]);
    lemma_behind_judgement(root, path, judgement, full, seq![ReplyView::Failed(text)]);
}

/// What a request names is removed, and that is all: a directory as a directory, anything else
/// as a file.
pub proof fn law_delete_requests_are_carried_out(
    root: Seq<u8>,
    path: Seq<char>,
    judgement: Seq<ReplyView>,
    full: Seq<u8>,
    is_dir: bool,
    text: Seq<char>,
)
    requires
        stands_for(root, path, judgement, full),
    ensures
        ({
            let request = RequestView::Delete { path };
            let flag = ReplyView::Flag(is_dir);
            &&& process_spec(root, request, judgement) == StepView::Ask(CallView::IsDir(full))
            &&& process_spec(root, request, judgement + seq![flag]) == StepView::Ask(
                if is_dir {
                    CallView::RemoveDir(full)
                } else {
                    CallView::RemoveFile(full)
                },
            )
            &&& process_spec(root, request, judgement + seq![flag, ReplyView::Done])
                == StepView::Reply(ResponseView::Done)
            &&& process_spec(root, request, judgement + seq![flag, ReplyView::Failed(text)])
                == StepView::Refuse(RequestErrorView::Disk(text))
        }),
{
    let flag = ReplyView::Flag(is_dir);
    assert(judgement + Seq::<ReplyView>::empty() =~= judgement);
    lemma_behind_judgement(root, path, judgement, full, Seq::empty());
    lemma_behind_judgement(root, path, judgement, full, seq![flag]);
    lemma_behind_judgement(root, path, judgement, full, seq![flag, ReplyView::Done]);
    lemma_behind_judgement(root, path, judgement, full, seq![flag, ReplyView::Failed(text)]);
}

/// What the paths of a disk hold once a rename has succeeded.
pub open spec fn renamed(held: Map<Seq<u8>, Seq<u8>>, call: CallView) -> Map<
    Seq<u8>,
    Seq<u8>,
> {
    match call {
        CallView::Rename { from, to } => if from == to {
            held
        } else {
            held.insert(to, held[from]).remove(from)
        },
        _ => held,
    }
}

/// A rename is judged path by path, the old one first. Then the disk is asked to give what the
/// old path stands for the name that the new path stands for, once and in this direction;
/// when it did, the new path holds what the old one held, the old one is gone, and every
/// other path holds what it held.
pub proof fn law_rename_requests_are_carried_out(
    root: Seq<u8>,
    from: Seq<char>,
    to: Seq<char>,
    first: Seq<ReplyView>,
    source: Seq<u8>,
    second: Seq<ReplyView>,
    target: Seq<u8>,
    held: Map<Seq<u8>, Seq<u8>>,
    text: Seq<char>,
)
    requires
        stands_for(root, from, first, source),
        stands_for(root, to, second, target),
        held.dom().contains(source),
        source != target,
    ensures
        ({
            let request = RequestView::Rename { from, to };
            let call = CallView::Rename { from: source, to: target };
            let now = renamed(held, call);
            &&& process_spec(root, request, first + second) == StepView::Ask(call)
            &&& process_spec(root, request, first + (second + seq![ReplyView::Done]))
                == StepView::Reply(ResponseView::Done)
            &&& process_spec(root, request, first + (second + seq![ReplyView::Failed(text)]))
                == StepView::Refuse(RequestErrorView::Disk(text))
            &&& now.dom().contains(target) && now[target] == held[source]
            &&& !now.dom().contains(source)
            &&& forall|other: Seq<u8>|
                other != source && other != target ==> {
                    &&& #[trigger] now.dom().contains(other) == held.dom().contains(other)
                    &&& now.dom().contains(other) ==> now[other] == held[other]
                }
        }),
{
    lemma_rename_steps(root, from, to, first, source, second, target, Seq::empty());
    lemma_rename_steps(root, from, to, first, source, second, target, seq![ReplyView::Done]);
    lemma_rename_steps(
        root,
        from,
        to,
        first,
        source,
        second,
        target,
        seq![ReplyView::Failed(text)],
    );
    assert(second + Seq::<ReplyView>::empty() =~= second);
}

proof fn lemma_rename_steps(
    root: Seq<u8>,
    from: Seq<char>,
    to: Seq<char>,
    first: Seq<ReplyView>,
    source: Seq<u8>,
    second: Seq<ReplyView>,
    target: Seq<u8>,
    more: Seq<ReplyView>,
)
    requires
        stands_for(root, from, first, source),
        stands_for(root, to, second, target),
    ensures
        more.len() == 0 ==> process_spec(
            root,
            RequestView::Rename { from, to },
            first + (second + more),
        ) == StepView::Ask(CallView::Rename { from: source, to: target }),
        more == seq![ReplyView::Done] ==> process_spec(
            root,
            RequestView::Rename { from, to },
            first + (second + more),
        ) == StepView::Reply(ResponseView::Done),
        more.len() == 1 && more[0] is Failed ==> process_spec(
            root,
            RequestView::Rename { from, to },
            first + (second + more),
        ) == StepView::Refuse(RequestErrorView::Disk(more[0]->Failed_0)),
{
    lemma_behind_judgement(root, from, first, source, second + more);
    lemma_behind_judgement(root, to, second, target, more);
}

/// The same path as old and new name is handed on as it is.
pub proof fn law_rename_to_itself(
    root: Seq<u8>,
    from: Seq<char>,
    to: Seq<char>,
    first: Seq<ReplyView>,
    second: Seq<ReplyView>,
    path: Seq<u8>,
)
    requires
        stands_for(root, from, first, path),
        stands_for(root, to, second, path),
    ensures
        process_spec(root, RequestView::Rename { from, to }, first + second) == StepView::Ask(
            CallView::Rename { from: path, to: path },
        ),
{
    lemma_rename_steps(root, from, to, first, path, second, path, Seq::empty());
    assert(second + Seq::<ReplyView>::empty() =~= second);
}

/// The new path of a rename is judged when the old one was allowed, and its refusal is the
/// refusal of the request.
pub proof fn law_new_names_are_judged(
    root: Seq<u8>,
    from: Seq<char>,
    to: Seq<char>,
    first: Seq<ReplyView>,
    source: Seq<u8>,
    second: Seq<ReplyView>,
)
    requires
        stands_for(root, from, first, source),
    ensures
        sanitize_spec(root, to, second) matches PathStepView::Ask(call) ==> process_spec(
            root,
            RequestView::Rename { from, to },
            first + second,
        ) == StepView::Ask(call),
        sanitize_spec(root, to, second) matches PathStepView::Refused(error) ==> process_spec(
            root,
            RequestView::Rename { from, to },
            first + second,
        ) == StepView::Refuse(RequestErrorView::Path(error)),
{
    lemma_behind_judgement(root, from, first, source, second);
}

// ---------------------------------------------------------------------------
// The rest
// ---------------------------------------------------------------------------

/// A ping is answered with a pong, and a second password with an error; neither touches the
/// disk.
pub proof fn law_simple_requests_are_answered(
    root: Seq<u8>,
    password_hash: Seq<char>,
    replies: Seq<ReplyView>,
)
    ensures
        process_spec(root, RequestView::Ping, replies) == StepView::Reply(ResponseView::Pong),
        process_spec(root, RequestView::Auth { password_hash }, replies) == StepView::Reply(
            ResponseView::Error { message: "already authenticated"@ },
        ),
{
}

/// What is said of a request that could not be carried out: of a refused path the reason, and
/// what the disk said word for word.
pub proof fn law_request_errors_in_words(error: PathError, text: Seq<char>)
    ensures
        request_error_text(RequestErrorView::Disk(text)) == text,
        request_error_text(RequestErrorView::Path(error)) == match error {
            PathError::Absolute => "absolute paths are not allowed"@,
            PathError::ParentComponent => "illegal path component: ParentDir"@,
            PathError::Canonicalize => "canonicalize"@,
            PathError::CanonicalizeParent => "canonicalize parent"@,
            PathError::Traversal => "path traversal detected"@,
        },
        request_error_text(RequestErrorView::NotADirectory) == "not a directory"@,
        request_error_text(RequestErrorView::NotAFile) == "not a file"@,
        request_error_text(RequestErrorView::Metadata) == "metadata"@,
        request_error_text(RequestErrorView::OpenForWrite) == "open for write"@,
{
}

} // verus!
