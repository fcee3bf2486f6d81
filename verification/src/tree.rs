//! The directories of a disk, and what creating one does.
use crate::disk::{CallView, ReplyView};
use crate::path::{
    alike, all_names, bare_spec, components_spec, is_absolute_spec, join_spec,
    law_bare_keeps_components, law_join_components, law_parent_drops_last, law_relative_components,
    parent_spec, parts_from, starts_with_spec,
};
use crate::protocol::{RequestView, ResponseView};
use crate::sanitize::{
    below, law_judgement_follows_the_disk, law_way_without_links, lemma_nearest_alike, meets_link,
    nearest_present, resolved_root, sanitize_spec, takes_alike, told_by, verdict, way_up, DiskPaths,
    PathError, PathStepView,
};
use crate::server::{
    lemma_path_calls_only_judge, lemma_path_settled, lemma_settling_place, process_spec, StepView,
};
use vstd::prelude::*;
use vstd::utf8::encode_utf8;

verus! {

/// A disk: what its paths lead to, and which of them lead to directories.
pub struct Tree {
    pub paths: DiskPaths,
    pub is_dir: spec_fn(Seq<u8>) -> bool,
}

/// What holds of the paths of every disk. Paths that are written alike are the same, and a
/// directory may be written with blank pieces behind its name. What resolves is what
/// exists, and what it resolves to is absolute and exists. Above whatever exists there is a directory.
/// What is named and no link lies, once resolved, below its directory. (A system's limit on
/// the length of a path is left aside.)
pub open spec fn is_tree(tree: Tree) -> bool {
    &&& takes_alike(tree.paths)
    &&& forall|p: Seq<u8>, q: Seq<u8>| #[trigger]
        alike(p, q) ==> (tree.is_dir)(p) == (tree.is_dir)(q)
    &&& forall|p: Seq<u8>| #[trigger]
        (tree.paths.resolve)(p) is Some <==> (tree.paths.present)(p)
    &&& forall|p: Seq<u8>| #[trigger]
        (tree.paths.resolve)(p) matches Some(target) ==> {
            &&& is_absolute_spec(target)
            &&& (tree.paths.present)(target)
            &&& (tree.is_dir)(p) ==> (tree.is_dir)(target)
        }
    &&& forall|p: Seq<u8>| #[trigger] (tree.is_dir)(p) ==> (tree.paths.present)(p)
    &&& forall|p: Seq<u8>|
        is_absolute_spec(p) && (tree.is_dir)(#[trigger] bare_spec(p)) ==> {
            &&& (tree.is_dir)(p)
            &&& (tree.paths.resolve)(p) == (tree.paths.resolve)(bare_spec(p))
        }
    &&& forall|p: Seq<u8>|
        is_absolute_spec(p) && #[trigger] (tree.paths.present)(p) ==> (parent_spec(p) matches Some(
            above,
        ) ==> (tree.is_dir)(above))
    &&& forall|p: Seq<u8>|
        is_absolute_spec(p) && bare_spec(p) == p && components_spec(p).last() is Normal && (
        tree.paths.present)(p) && #[trigger] (tree.paths.link)(p) is None ==> (parent_spec(
            p,
        ) matches Some(above) ==> starts_with_spec(
            (tree.paths.resolve)(p)->0,
            (tree.paths.resolve)(above)->0,
        ))
}

/// Whether the path and everything above it are directories.
pub open spec fn all_dirs(tree: Tree, p: Seq<u8>) -> bool
    decreases components_spec(p).len(),
{
    proof {
        law_parent_drops_last(p);
    }
    (tree.is_dir)(p) && match parent_spec(p) {
        Some(above) => all_dirs(tree, above),
        None => true,
    }
}

/// Whether no link stands at `p`, nor at a missing name above it.
pub open spec fn is_clear(paths: DiskPaths, p: Seq<u8>) -> bool
    decreases components_spec(p).len(),
{
    proof {
        law_parent_drops_last(p);
    }
    (paths.link)(bare_spec(p)) is None && match parent_spec(p) {
        Some(above) => (paths.present)(above) || is_clear(paths, above),
        None => true,
    }
}

/// What becomes of a disk when a directory and those above it are created. Where the
/// directory is already, nothing changes. Otherwise nothing may be there, nor a link on the
/// way; then it and all above it are directories, no link was made, and what was there before
/// is where it was.
pub open spec fn created(before: Tree, path: Seq<u8>, after: Tree) -> bool {
    if (before.is_dir)(path) {
        after == before
    } else {
        &&& !(before.paths.present)(path)
        &&& !(before.paths.present)(bare_spec(path))
        &&& is_clear(before.paths, bare_spec(path))
        &&& all_dirs(after, bare_spec(path))
        &&& forall|q: Seq<u8>|
            (before.paths.present)(q) ==> #[trigger] (after.paths.resolve)(q)
                == (before.paths.resolve)(q)
        &&& forall|q: Seq<u8>| #[trigger]
            (after.paths.link)(q) == (before.paths.link)(q)
    }
}

proof fn lemma_clear_meets_no_link(p: Seq<u8>, root: Seq<u8>, paths: DiskPaths)
    requires
        is_clear(paths, p),
    ensures
        !meets_link(p, root, paths),
    decreases components_spec(p).len(),
{
    law_parent_drops_last(p);
    if let Some(above) = parent_spec(p) {
        if !(paths.present)(above) {
            lemma_clear_meets_no_link(above, root, paths);
        }
    }
}

/// Whether a reply is the one that this disk gives to the call. To create a directory that
/// is there already is no error.
pub open spec fn tree_tells(tree: Tree, call: CallView, reply: ReplyView) -> bool {
    match call {
        CallView::CreateDirAll(path) => (tree.is_dir)(path) ==> reply is Done,
        _ => told_by(tree.paths, call, reply),
    }
}

/// Whether `p` is named behind the components of `root`.
spec fn named_below(p: Seq<u8>, root: Seq<u8>) -> bool {
    let count = components_spec(root).len() as int;
    &&& count <= components_spec(p).len()
    &&& components_spec(p).take(count) == components_spec(root)
    &&& all_names(components_spec(p).skip(count))
}

proof fn lemma_parent_named_below(p: Seq<u8>, root: Seq<u8>)
    requires
        named_below(p, root),
        below(p, root),
    ensures
        parent_spec(p) matches Some(above) && named_below(above, root),
        components_spec(p).last() is Normal,
{
    let count = components_spec(root).len() as int;
    let parts = components_spec(p);
    law_parent_drops_last(p);
    assert(parts.skip(count)[parts.len() - count - 1] is Normal);
    let above = parent_spec(p)->0;
    assert(components_spec(above).take(count) =~= parts.take(count));
    assert forall|k: int| 0 <= k < components_spec(above).skip(count).len() implies (
    #[trigger] components_spec(above).skip(count)[k]) is Normal by {
        assert(components_spec(above).skip(count)[k] == parts.skip(count)[k]);
    }
}

proof fn lemma_root_level(p: Seq<u8>, root: Seq<u8>)
    requires
        named_below(p, root),
        !below(p, root),
        bare_spec(p) == p,
        bare_spec(root) == root,
    ensures
        alike(p, root),
{
    assert(components_spec(p).take(components_spec(root).len() as int) =~= components_spec(p));
}

proof fn lemma_starts_with_transitive(a: Seq<u8>, b: Seq<u8>, c: Seq<u8>)
    requires
        starts_with_spec(a, b),
        starts_with_spec(b, c),
    ensures
        starts_with_spec(a, c),
{
    let x = components_spec(a);
    let y = components_spec(b);
    let z = components_spec(c);
    assert(x.subrange(0, z.len() as int) =~= y.subrange(0, z.len() as int));
}

proof fn lemma_root_is_present(tree: Tree, q: Seq<u8>, root: Seq<u8>)
    requires
        is_tree(tree),
        is_absolute_spec(q),
        bare_spec(q) == q,
        bare_spec(root) == root,
        named_below(q, root),
        (tree.paths.present)(q),
    ensures
        (tree.paths.present)(root),
    decreases components_spec(q).len(),
{
    law_parent_drops_last(q);
    if below(q, root) {
        lemma_parent_named_below(q, root);
        let above = parent_spec(q)->0;
        assert((tree.is_dir)(above));
        lemma_root_is_present(tree, above, root);
    } else {
        lemma_root_level(q, root);
    }
}

/// Where a directory that was created below the root lies, once resolved: below the nearest
/// directory that was there, and below the root when none was.
proof fn lemma_created_lies_below(before: Tree, after: Tree, p: Seq<u8>, root: Seq<u8>)
    requires
        is_tree(before),
        is_tree(after),
        is_absolute_spec(p),
        bare_spec(p) == p,
        bare_spec(root) == root,
        named_below(p, root),
        below(p, root),
        !meets_link(p, root, before.paths),
        all_dirs(after, p),
        forall|q: Seq<u8>| #[trigger] (after.paths.link)(q) == (before.paths.link)(q),
    ensures
        match nearest_present(p, root, before.paths) {
            Some(above) => {
                &&& (before.paths.present)(above)
                &&& (before.paths.present)(root)
                &&& starts_with_spec(
                    (after.paths.resolve)(p)->0,
                    (after.paths.resolve)(above)->0,
                )
            },
            None => {
                &&& (after.paths.present)(root)
                &&& starts_with_spec(
                    (after.paths.resolve)(p)->0,
                    (after.paths.resolve)(root)->0,
                )
            },
        },
    decreases components_spec(p).len(),
{
    law_parent_drops_last(p);
    lemma_parent_named_below(p, root);
    let above = parent_spec(p)->0;
    assert((after.paths.link)(p) is None);
    assert(components_spec(p).last() is Normal);
    assert((after.is_dir)(p));
    assert((after.is_dir)(above));
    assert(starts_with_spec((after.paths.resolve)(p)->0, (after.paths.resolve)(above)->0));
    if (before.paths.present)(above) {
        lemma_root_is_present(before, above, root);
    } else if below(above, root) {
        lemma_created_lies_below(before, after, above, root);
        let further = match nearest_present(above, root, before.paths) {
            Some(place) => place,
            None => root,
        };
        lemma_starts_with_transitive(
            (after.paths.resolve)(p)->0,
            (after.paths.resolve)(above)->0,
            (after.paths.resolve)(further)->0,
        );
    } else {
        lemma_root_level(above, root);
        assert((after.paths.present)(above));
    }
}

proof fn lemma_directories_above(tree: Tree, p: Seq<u8>)
    requires
        is_tree(tree),
        is_absolute_spec(p),
        (tree.is_dir)(p),
    ensures
        all_dirs(tree, p),
    decreases components_spec(p).len(),
{
    law_parent_drops_last(p);
    assert((tree.paths.present)(p));
    if let Some(above) = parent_spec(p) {
        lemma_directories_above(tree, above);
    }
}

proof fn lemma_missing_path_again(
    root: Seq<u8>,
    requested: Seq<char>,
    before: Tree,
    after: Tree,
)
    requires
        is_absolute_spec(root),
        bare_spec(root) == root,
        is_tree(before),
        is_tree(after),
        ({
            let full = join_spec(root, encode_utf8(requested));
            &&& verdict(root, requested, before.paths) == Ok::<Seq<u8>, PathError>(full)
            &&& !(before.paths.present)(full)
            &&& !(before.is_dir)(full)
            &&& created(before, full, after)
        }),
    ensures
        (after.paths.present)(join_spec(root, encode_utf8(requested))),
        verdict(root, requested, after.paths) matches Ok(again) && (after.is_dir)(again),
{
    let rel = encode_utf8(requested);
    let full = join_spec(root, rel);
    let p = bare_spec(full);
    law_join_components(root, rel);
    law_relative_components(rel);
    law_bare_keeps_components(full);
    assert(is_absolute_spec(full));
    assert((after.is_dir)(p));
    assert((after.is_dir)(full));
    let count = components_spec(root).len() as int;
    assert(components_spec(p).take(count) =~= components_spec(root));
    assert(components_spec(p).skip(count) =~= parts_from(rel, 0));
    let target = (after.paths.resolve)(full)->0;
    assert((after.paths.present)(full));
    assert((after.paths.resolve)(full) is Some);
    lemma_nearest_alike(full, p, root, before.paths);
    lemma_clear_meets_no_link(p, root, before.paths);
    law_way_without_links(full, root, way_up(full, root), before.paths);
    if below(p, root) {
        lemma_created_lies_below(before, after, p, root);
        if let Some(above) = nearest_present(p, root, before.paths) {
            let place = nearest_present(full, root, before.paths)->0;
            assert(alike(place, above));
            assert((before.paths.resolve)(root) is Some);
            assert((after.paths.resolve)(above) == (before.paths.resolve)(above));
            assert((after.paths.resolve)(root) == (before.paths.resolve)(root));
            lemma_starts_with_transitive(
                target,
                (after.paths.resolve)(above)->0,
                resolved_root(root, after.paths),
            );
        } else {
            assert((after.paths.resolve)(root) is Some);
        }
    } else {
        lemma_root_level(p, root);
        assert((after.paths.resolve)(p) == (after.paths.resolve)(root));
        assert(components_spec(target) =~= components_spec(target).subrange(
            0,
            components_spec(target).len() as int,
        ));
    }
}

/// When a directory was created as a request asks, it and everything above it are
/// directories, and what the request's path resolves to lies in the shared directory; the
/// same request then stands for that directory, and creating it changes nothing.
pub proof fn law_created_directories_stay(
    root: Seq<u8>,
    requested: Seq<char>,
    before: Tree,
    after: Tree,
    path: Seq<u8>,
)
    requires
        is_absolute_spec(root),
        bare_spec(root) == root,
        is_tree(before),
        is_tree(after),
        verdict(root, requested, before.paths) == Ok::<Seq<u8>, PathError>(path),
        created(before, path, after),
    ensures
        all_dirs(after, path),
        verdict(root, requested, after.paths) matches Ok(again) && {
            &&& (after.paths.resolve)(join_spec(root, encode_utf8(requested))) == Some(again)
            &&& starts_with_spec(again, resolved_root(root, after.paths))
            &&& (after.is_dir)(again)
            &&& forall|later: Tree| #[trigger] created(after, again, later) ==> later == after
        },
{
    let full = join_spec(root, encode_utf8(requested));
    law_bare_keeps_components(path);
    law_join_components(root, encode_utf8(requested));
    if (before.paths.present)(full) {
        assert((before.paths.resolve)(full) == Some(path));
        assert((before.paths.present)(path));
        assert((before.is_dir)(path));
    } else {
        assert(path == full);
        assert(!(before.is_dir)(full));
        lemma_missing_path_again(root, requested, before, after);
        assert((after.is_dir)(bare_spec(path)));
    }
    lemma_directories_above(after, path);
}

/// When something that does not exist is to be written as a request asks, and the directory
/// above it was created for that, this directory lies in the shared directory once it is
/// resolved: where no link stands, the file is created inside. (Of a link, see
/// [`law_allowed_is_inside`](crate::sanitize::law_allowed_is_inside).)
pub proof fn law_new_files_lie_inside(
    root: Seq<u8>,
    requested: Seq<char>,
    before: Tree,
    after: Tree,
    path: Seq<u8>,
    above: Seq<u8>,
)
    requires
        is_absolute_spec(root),
        bare_spec(root) == root,
        is_tree(before),
        is_tree(after),
        verdict(root, requested, before.paths) == Ok::<Seq<u8>, PathError>(path),
        !(before.paths.present)(join_spec(root, encode_utf8(requested))),
        (before.paths.link)(bare_spec(path)) is None,
        below(path, root),
        parent_spec(path) == Some(above),
        created(before, above, after),
    ensures
        (after.is_dir)(above),
        (after.paths.resolve)(above) matches Some(target) && starts_with_spec(
            target,
            resolved_root(root, after.paths),
        ),
        (after.paths.link)(bare_spec(path)) is None,
{
    let rel = encode_utf8(requested);
    law_join_components(root, rel);
    law_relative_components(rel);
    law_parent_drops_last(path);
    assert(path == join_spec(root, rel));
    let count = components_spec(root).len() as int;
    assert(components_spec(path).take(count) =~= components_spec(root));
    assert(components_spec(path).skip(count) =~= parts_from(rel, 0));
    lemma_parent_named_below(path, root);
    if (before.is_dir)(above) {
        assert((before.paths.present)(above));
        law_way_without_links(path, root, way_up(path, root), before.paths);
    } else {
        lemma_clear_meets_no_link(above, root, before.paths);
        law_way_without_links(path, root, way_up(path, root), before.paths);
        assert(bare_spec(above) == above);
        assert((after.is_dir)(above));
        if below(above, root) {
            lemma_created_lies_below(before, after, above, root);
            if let Some(place) = nearest_present(above, root, before.paths) {
                assert((before.paths.resolve)(root) is Some);
                assert((after.paths.resolve)(place) == (before.paths.resolve)(place));
                assert((after.paths.resolve)(root) == (before.paths.resolve)(root));
                lemma_starts_with_transitive(
                    (after.paths.resolve)(above)->0,
                    (after.paths.resolve)(place)->0,
                    resolved_root(root, after.paths),
                );
            } else {
                assert((after.paths.resolve)(root) is Some);
            }
        } else {
            lemma_root_level(above, root);
            let target = (after.paths.resolve)(above)->0;
            assert(components_spec(target) =~= components_spec(target).subrange(
                0,
                components_spec(target).len() as int,
            ));
        }
    }
    assert((after.paths.present)(above));
    assert((after.paths.resolve)(above) is Some);
}

/// A request to create a directory that was carried out, sent again, is answered as done;
/// all that is asked of the disk is to create a directory that is there, which changes
/// nothing.
pub proof fn law_mkdir_again_changes_nothing(
    root: Seq<u8>,
    requested: Seq<char>,
    before: Tree,
    after: Tree,
    path: Seq<u8>,
    replies: Seq<ReplyView>,
)
    requires
        is_absolute_spec(root),
        bare_spec(root) == root,
        is_tree(before),
        is_tree(after),
        verdict(root, requested, before.paths) == Ok::<Seq<u8>, PathError>(path),
        created(before, path, after),
        forall|i: int|
            0 <= i < replies.len() ==> {
                let step = process_spec(
                    root,
                    RequestView::Mkdir { path: requested },
                    #[trigger] replies.take(i),
                );
                step is Ask && tree_tells(after, step->Ask_0, replies[i])
            },
    ensures
        match process_spec(root, RequestView::Mkdir { path: requested }, replies) {
            StepView::Ask(call) => {
                &&& call is Canonicalize || call is Exists || call is ReadLink || call is CreateDirAll
                &&& call matches CallView::CreateDirAll(there) ==> (after.is_dir)(there)
            },
            StepView::Reply(response) => response == ResponseView::Done,
            StepView::Refuse(_) => false,
        },
{
    let request = RequestView::Mkdir { path: requested };
    law_created_directories_stay(root, requested, before, after, path);
    let again = verdict(root, requested, after.paths)->Ok_0;
    lemma_path_calls_only_judge(root, requested, replies);
    let j = lemma_settling_place(root, requested, replies, 0);
    let part = replies.take(j);
    assert forall|i: int| 0 <= i < part.len() implies {
        &&& sanitize_spec(root, requested, #[trigger] part.take(i)) is Ask
        &&& told_by(
            after.paths,
            sanitize_spec(root, requested, part.take(i))->Ask_0,
            part[i],
        )
    } by {
        assert(part.take(i) =~= replies.take(i));
        lemma_path_calls_only_judge(root, requested, replies.take(i));
        assert(process_spec(root, request, replies.take(i)) is Ask);
    }
    law_judgement_follows_the_disk(root, requested, after.paths, part);
    assert(replies.take(replies.len() as int) =~= replies);
    if !(sanitize_spec(root, requested, part) is Ask) {
        lemma_path_settled(root, requested, replies, j);
        assert(sanitize_spec(root, requested, replies) == (PathStepView::Allowed {
            path: again,
            used: j,
        }));
        if j < replies.len() {
            assert(part.skip(j) =~= Seq::<ReplyView>::empty());
            assert(process_spec(root, request, part) == StepView::Ask(
                CallView::CreateDirAll(again),
            ));
            assert(replies.skip(j)[0] == replies[j]);
        }
    }
}

} // verus!
