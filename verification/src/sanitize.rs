//! Path safety: which path on the disk a requested path may stand for.
use crate::disk::{
    answers, flag_at, get_flag, get_path, path_at, reply_views, Call, CallView, Heard, Reply,
    ReplyView,
};
use crate::path::{
    alike, all_names, bare, bare_spec, component_views, components, components_spec, dotted,
    is_absolute, is_absolute_spec, join, join_spec, law_bare_keeps_components, law_dotted_is_alike,
    law_join_alike, law_join_components, law_parent_drops_last, law_paths_have_components,
    law_relative_components, leads, no_parent_dir, parent, parent_spec, parts_from, settle, settled,
    starts_with, starts_with_spec, Component, ComponentView, DOT, SEPARATOR,
};
use vstd::prelude::*;
use vstd::slice::slice_to_vec;
use vstd::utf8::{char_u32_cast, encode_scalar, encode_utf8};

verus! {

/// Why a requested path is refused.
#[derive(Clone, Copy, Debug, PartialEq, Eq, Structural)]
pub enum PathError {
    /// The path begins at a root of its own.
    Absolute,
    /// The path climbs to a parent directory.
    ParentComponent,
    /// What the path names exists and could not be resolved.
    Canonicalize,
    /// What the path names does not exist, and the nearest directory above where it leads
    /// could not be resolved.
    CanonicalizeParent,
    /// The path leads out of the shared directory.
    Traversal,
}

/// What is said of a refused path.
pub open spec fn path_error_text(error: PathError) -> Seq<char> {
    match error {
        PathError::Absolute => "absolute paths are not allowed"@,
        PathError::ParentComponent => "illegal path component: ParentDir"@,
        PathError::Canonicalize => "canonicalize"@,
        PathError::CanonicalizeParent => "canonicalize parent"@,
        PathError::Traversal => "path traversal detected"@,
    }
}

impl PathError {
    /// The error in words.
    pub fn message(&self) -> (text: String)
        ensures
            text@ == path_error_text(*self),
    {
        match self {
            PathError::Absolute => "absolute paths are not allowed".to_owned(),
            PathError::ParentComponent => "illegal path component: ParentDir".to_owned(),
            PathError::Canonicalize => "canonicalize".to_owned(),
            PathError::CanonicalizeParent => "canonicalize parent".to_owned(),
            PathError::Traversal => "path traversal detected".to_owned(),
        }
    }
}

/// How far the judgement of a requested path has come.
#[derive(Debug, PartialEq, Eq)]
pub enum PathStep {
    /// The disk has to answer this next.
    Ask(Call),
    /// The request stands for this path; so many replies were needed to tell.
    Allowed { path: Vec<u8>, used: usize },
    /// The request is refused.
    Refused(PathError),
}

/// The mathematical value of a [`PathStep`].
#[verifier::ext_equal]
pub enum PathStepView {
    Ask(CallView),
    Allowed { path: Seq<u8>, used: int },
    Refused(PathError),
}

impl View for PathStep {
    type V = PathStepView;

    open spec fn view(&self) -> PathStepView {
        match self {
            PathStep::Ask(call) => PathStepView::Ask(call@),
            PathStep::Allowed { path, used } => PathStepView::Allowed {
                path: path@,
                used: *used as int,
            },
            PathStep::Refused(error) => PathStepView::Refused(*error),
        }
    }
}

/// The judgement of something that exists: it must resolve to a path inside the
/// resolved root, and stands for what it resolves to.
pub open spec fn judge_existing(
    full: Seq<u8>,
    inside: Seq<u8>,
    replies: Seq<ReplyView>,
) -> PathStepView {
    match path_at(replies, 2) {
        Heard::Nothing => PathStepView::Ask(CallView::Canonicalize(full)),
        Heard::Failure(_) => PathStepView::Refused(PathError::Canonicalize),
        Heard::Value(target) => if starts_with_spec(target, inside) {
            PathStepView::Allowed { path: target, used: 3 }
        } else {
            PathStepView::Refused(PathError::Traversal)
        },
    }
}

/// How many symbolic links are followed when nothing is found behind them. Systems follow
/// no more than that themselves, so that nothing can be reached behind a longer chain.
pub const MAX_LINKS: usize = 40;

/// Whether `p` has more components than `root`.
pub open spec fn below(p: Seq<u8>, root: Seq<u8>) -> bool {
    components_spec(p).len() > components_spec(root).len()
}

/// The way up from something that does not exist.
#[verifier::ext_equal]
pub struct Walk {
    /// How far up it has come: a path at which nothing is found.
    pub p: Seq<u8>,
    /// The components behind `p`.
    pub rest: Seq<ComponentView>,
    /// How many components a directory has to have more than, if the way is to go on above it.
    pub low: int,
    /// How many links may still be followed.
    pub links: nat,
}

/// The way up from `full`. It does not go on above `root`.
pub open spec fn way_up(full: Seq<u8>, root: Seq<u8>) -> Walk {
    Walk {
        p: full,
        rest: Seq::empty(),
        low: components_spec(root).len() as int,
        links: MAX_LINKS as nat,
    }
}

/// The components behind the directory above.
pub open spec fn behind(walk: Walk) -> Seq<ComponentView> {
    seq![components_spec(walk.p).last()] + walk.rest
}

/// The way, gone on to the directory above.
pub open spec fn up(walk: Walk, above: Seq<u8>) -> Walk {
    Walk { p: above, rest: behind(walk), ..walk }
}

/// What a link at `p` points to: its target, taken from the directory that holds the link.
pub open spec fn pointed_to(p: Seq<u8>, target: Seq<u8>) -> Seq<u8> {
    match parent_spec(p) {
        Some(above) => join_spec(above, target),
        None => target,
    }
}

/// The way, gone on through a link. From there it goes up as far as it has to.
pub open spec fn through(walk: Walk, target: Seq<u8>) -> Walk {
    Walk {
        p: pointed_to(walk.p, target),
        low: -1,
        links: (walk.links - 1) as nat,
        ..walk
    }
}

/// Whether what is missing lies inside, when the directory above resolves to `target`. As
/// long as no link was followed, that directory has to lie inside; behind a link, the place
/// has to that its components lead to from there.
pub open spec fn lands_inside(walk: Walk, target: Seq<u8>, inside: Seq<u8>) -> bool {
    if walk.low >= 0 {
        starts_with_spec(target, inside)
    } else {
        components_spec(inside).is_prefix_of(settled(components_spec(target), behind(walk)))
    }
}

/// The judgement of something that does not exist, as far as it has come on its way up.
/// Where a symbolic link stands on the way, it goes on with what the link points to. The
/// nearest directory above that exists decides.
pub open spec fn judge_missing(
    full: Seq<u8>,
    inside: Seq<u8>,
    walk: Walk,
    replies: Seq<ReplyView>,
    i: int,
) -> PathStepView
    decreases walk.links, components_spec(walk.p).len(),
{
    proof {
        law_parent_drops_last(walk.p);
    }
    match path_at(replies, i) {
        Heard::Nothing => PathStepView::Ask(CallView::ReadLink(bare_spec(walk.p))),
        Heard::Value(target) => if walk.links == 0 {
            PathStepView::Allowed { path: full, used: i + 1 }
        } else {
            judge_missing(full, inside, through(walk, target), replies, i + 1)
        },
        Heard::Failure(_) => match parent_spec(walk.p) {
            None => if walk.low >= 0 {
                PathStepView::Allowed { path: full, used: i + 1 }
            } else {
                PathStepView::Refused(PathError::Traversal)
            },
            Some(above) => match flag_at(replies, i + 1) {
                None => PathStepView::Ask(CallView::Exists(above)),
                Some(false) => if components_spec(above).len() > walk.low {
                    judge_missing(full, inside, up(walk, above), replies, i + 2)
                } else {
                    PathStepView::Allowed { path: full, used: i + 2 }
                },
                Some(true) => match path_at(replies, i + 2) {
                    Heard::Nothing => PathStepView::Ask(CallView::Canonicalize(above)),
                    Heard::Failure(_) => PathStepView::Refused(PathError::CanonicalizeParent),
                    Heard::Value(target) => if lands_inside(walk, target, inside) {
                        PathStepView::Allowed { path: full, used: i + 3 }
                    } else {
                        PathStepView::Refused(PathError::Traversal)
                    },
                },
            },
        },
    }
}

/// The judgement of the path `requested` below `root`, as far as the disk's replies
/// allow it.
pub open spec fn sanitize_spec(
    root: Seq<u8>,
    requested: Seq<char>,
    replies: Seq<ReplyView>,
) -> PathStepView {
    let rel = encode_utf8(requested);
    let full = join_spec(root, rel);
    if is_absolute_spec(rel) {
        PathStepView::Refused(PathError::Absolute)
    } else if !no_parent_dir(components_spec(rel)) {
        PathStepView::Refused(PathError::ParentComponent)
    } else {
        match path_at(replies, 0) {
            Heard::Nothing => PathStepView::Ask(CallView::Canonicalize(root)),
            resolved => {
                let inside = match resolved {
                    Heard::Value(path) => path,
                    _ => root,
                };
                match flag_at(replies, 1) {
                    None => PathStepView::Ask(CallView::Exists(full)),
                    Some(true) => judge_existing(full, inside, replies),
                    Some(false) => judge_missing(full, inside, way_up(full, root), replies, 2),
                }
            },
        }
    }
}

fn climbs(rel: &[u8]) -> (res: bool)
    ensures
        res == !no_parent_dir(components_spec(rel@)),
{
    let parts = components(rel);
    let ghost all = components_spec(rel@);
    let mut i: usize = 0;
    while i < parts.len()
        invariant
            i <= parts@.len(),
            all == components_spec(rel@),
            component_views(parts@) == all,
            forall|k: int| 0 <= k < i ==> all[k] != ComponentView::ParentDir,
        decreases parts@.len() - i,
    {
        assert(all[i as int] == parts@[i as int]@);
        match &parts[i] {
            Component::ParentDir => {
                return true;
            },
            _ => {},
        }
        i = i + 1;
    }
    false
}

/// Judges what does not exist.
fn missing(full: Vec<u8>, root: &[u8], inside: &[u8], replies: &[Reply]) -> (step: PathStep)
    requires
        flag_at(reply_views(replies@), 1) is Some,
    ensures
        step@ == judge_missing(
            full@,
            inside@,
            way_up(full@, root@),
            reply_views(replies@),
            2,
        ),
        step matches PathStep::Allowed { path, used } ==> used <= replies@.len(),
{
    let ghost heard = reply_views(replies@);
    let ghost goal = judge_missing(full@, inside@, way_up(full@, root@), heard, 2);
    let depth: usize = components(root).len();
    let count: usize = replies.len();
    let mut p: Vec<u8> = slice_to_vec(full.as_slice());
    let mut rest: Vec<Component> = Vec::new();
    let mut followed: bool = false;
    let mut links: usize = MAX_LINKS;
    let mut i: usize = 2;
    let ghost mut walk = way_up(full@, root@);
    assert(component_views(rest@).reverse() =~= walk.rest);
    loop
        invariant
            i <= count,
            count == replies@.len(),
            heard == reply_views(replies@),
            depth == components_spec(root@).len(),
            walk == (Walk {
                p: p@,
                rest: component_views(rest@).reverse(),
                low: if followed {
                    -1
                } else {
                    depth as int
                },
                links: links as nat,
            }),
            goal == judge_missing(full@, inside@, way_up(full@, root@), heard, 2),
            goal == judge_missing(full@, inside@, walk, heard, i as int),
        decreases links, components_spec(p@).len(),
    {
        proof {
            law_parent_drops_last(p@);
        }
        match get_path(replies, i) {
            None => {
                return PathStep::Ask(Call::ReadLink(bare(p.as_slice())));
            },
            Some(Ok(target)) => {
                assert(i < count);
                if links == 0 {
                    return PathStep::Allowed { path: full, used: i + 1 };
                }
                proof {
                    walk = through(walk, target@);
                }
                p = match parent(p.as_slice()) {
                    Some(above) => join(above.as_slice(), target.as_slice()),
                    None => slice_to_vec(target.as_slice()),
                };
                followed = true;
                links = links - 1;
                i = i + 1;
                continue;
            },
            Some(Err(_)) => {
                assert(i < count);
            },
        }
        let above: Vec<u8> = match parent(p.as_slice()) {
            None => {
                if followed {
                    return PathStep::Refused(PathError::Traversal);
                }
                return PathStep::Allowed { path: full, used: i + 1 };
            },
            Some(above) => above,
        };
        let mut parts = components(p.as_slice());
        let ghost all = parts@;
        let left: usize = parts.len() - 1;
        if let Some(last) = parts.pop() {
            let ghost before = rest@;
            assert(component_views(all).last() == last@);
            rest.push(last);
            assert(component_views(rest@).reverse() =~= behind(walk)) by {
                let views = component_views(rest@);
                assert(views =~= component_views(before).push(last@));
            }
        }
        match get_flag(replies, i + 1) {
            None => {
                return PathStep::Ask(Call::Exists(above));
            },
            Some(true) => {
                return match get_path(replies, i + 2) {
                    None => PathStep::Ask(Call::Canonicalize(above)),
                    Some(Err(_)) => PathStep::Refused(PathError::CanonicalizeParent),
                    Some(Ok(target)) => {
                        let lands: bool = if followed {
                            let place = settle(components(target.as_slice()), rest.as_slice());
                            leads(components(inside).as_slice(), place.as_slice())
                        } else {
                            starts_with(target.as_slice(), inside)
                        };
                        if lands {
                            PathStep::Allowed { path: full, used: i + 3 }
                        } else {
                            PathStep::Refused(PathError::Traversal)
                        }
                    },
                };
            },
            Some(false) => {},
        }
        if !followed && left <= depth {
            return PathStep::Allowed { path: full, used: i + 2 };
        }
        proof {
            walk = up(walk, above@);
        }
        p = above;
        i = i + 2;
    }
}

/// Judges the path `requested` below `root`. The replies are those that the disk gave
/// to the calls asked for so far, in their order; a reply that is not of the kind
/// that answers its call counts as not given.
pub fn sanitize_path(root: &[u8], requested: &str, replies: &[Reply]) -> (step: PathStep)
    ensures
        step@ == sanitize_spec(root@, requested@, reply_views(replies@)),
        step matches PathStep::Allowed { path, used } ==> used <= replies@.len(),
{
    let rel = requested.as_bytes();
    if is_absolute(rel) {
        return PathStep::Refused(PathError::Absolute);
    }
    if climbs(rel) {
        return PathStep::Refused(PathError::ParentComponent);
    }
    let full = join(root, rel);
    let inside: Vec<u8> = match get_path(replies, 0) {
        None => {
            return PathStep::Ask(Call::Canonicalize(slice_to_vec(root)));
        },
        Some(Err(_)) => slice_to_vec(root),
        Some(Ok(resolved)) => slice_to_vec(resolved.as_slice()),
    };
    match get_flag(replies, 1) {
        None => PathStep::Ask(Call::Exists(full)),
        Some(false) => missing(full, root, inside.as_slice(), replies),
        Some(true) => match get_path(replies, 2) {
            None => PathStep::Ask(Call::Canonicalize(full)),
            Some(Err(_)) => PathStep::Refused(PathError::Canonicalize),
            Some(Ok(target)) => if starts_with(target.as_slice(), inside.as_slice()) {
                PathStep::Allowed { path: slice_to_vec(target.as_slice()), used: 3 }
            } else {
                PathStep::Refused(PathError::Traversal)
            },
        },
    }
}

// ---------------------------------------------------------------------------
// Laws
// ---------------------------------------------------------------------------

/// A request that begins at a root of its own, or that climbs to a parent directory
/// anywhere, is refused, whatever the disk holds, and the disk is not asked.
pub proof fn law_escapes_are_refused(root: Seq<u8>, requested: Seq<char>, replies: Seq<ReplyView>)
    requires
        is_absolute_spec(encode_utf8(requested)) || components_spec(
            encode_utf8(requested),
        ).contains(ComponentView::ParentDir),
    ensures
        sanitize_spec(root, requested, replies) is Refused,
{
    let rel = encode_utf8(requested);
    if !is_absolute_spec(rel) {
        let k = choose|k: int|
            0 <= k < components_spec(rel).len() && components_spec(rel)[k]
                == ComponentView::ParentDir;
        assert(!no_parent_dir(components_spec(rel)));
    }
}

/// What the paths of a disk resolve to, which of them exist, and where symbolic links
/// stand and point.
pub struct DiskPaths {
    pub resolve: spec_fn(Seq<u8>) -> Option<Seq<u8>>,
    pub present: spec_fn(Seq<u8>) -> bool,
    pub link: spec_fn(Seq<u8>) -> Option<Seq<u8>>,
}

/// Whether a reply is the one that this disk gives to the call.
pub open spec fn told_by(disk: DiskPaths, call: CallView, reply: ReplyView) -> bool {
    match call {
        CallView::Canonicalize(path) => match (disk.resolve)(path) {
            Some(target) => reply == ReplyView::Path(target),
            None => reply is Failed,
        },
        CallView::Exists(path) => reply == ReplyView::Flag((disk.present)(path)),
        CallView::ReadLink(path) => match (disk.link)(path) {
            Some(target) => reply == ReplyView::Path(target),
            None => reply is Failed,
        },
        _ => false,
    }
}

/// The path that counts as the root's own: what the root resolves to, or the root
/// itself when it does not resolve.
pub open spec fn resolved_root(root: Seq<u8>, disk: DiskPaths) -> Seq<u8> {
    match (disk.resolve)(root) {
        Some(path) => path,
        None => root,
    }
}

/// The nearest directory above `p` that exists. It is not looked for above `root`.
pub open spec fn nearest_present(p: Seq<u8>, root: Seq<u8>, disk: DiskPaths) -> Option<Seq<u8>>
    decreases components_spec(p).len(),
{
    proof {
        law_parent_drops_last(p);
    }
    match parent_spec(p) {
        None => None,
        Some(above) => if (disk.present)(above) {
            Some(above)
        } else if below(above, root) {
            nearest_present(above, root, disk)
        } else {
            None
        },
    }
}

/// Whether `p`, or a name between it and the nearest directory above that exists, is a
/// symbolic link. The root and what is above it are not asked about.
pub open spec fn meets_link(p: Seq<u8>, root: Seq<u8>, disk: DiskPaths) -> bool
    decreases components_spec(p).len(),
{
    proof {
        law_parent_drops_last(p);
    }
    (disk.link)(bare_spec(p)) is Some || match parent_spec(p) {
        None => false,
        Some(above) => !(disk.present)(above) && below(above, root) && meets_link(
            above,
            root,
            disk,
        ),
    }
}

/// Where the way up from something that does not exist ends.
pub enum Landing {
    /// At a directory that exists, with the last part of the way below it.
    Below { above: Seq<u8>, walk: Walk },
    /// At the root, where nothing is, or behind more links than are followed.
    Nowhere,
    /// Behind a link, where no directory is found at all.
    Loose,
}

/// Where the way up ends on this disk.
pub open spec fn landing(walk: Walk, disk: DiskPaths) -> Landing
    decreases walk.links, components_spec(walk.p).len(),
{
    proof {
        law_parent_drops_last(walk.p);
    }
    match (disk.link)(bare_spec(walk.p)) {
        Some(target) => if walk.links == 0 {
            Landing::Nowhere
        } else {
            landing(through(walk, target), disk)
        },
        None => match parent_spec(walk.p) {
            None => if walk.low >= 0 {
                Landing::Nowhere
            } else {
                Landing::Loose
            },
            Some(above) => if (disk.present)(above) {
                Landing::Below { above, walk }
            } else if components_spec(above).len() > walk.low {
                landing(up(walk, above), disk)
            } else {
                Landing::Nowhere
            },
        },
    }
}

/// Why what does not exist may not be created, if it may not.
pub open spec fn missing_verdict(walk: Walk, inside: Seq<u8>, disk: DiskPaths) -> Option<PathError> {
    match landing(walk, disk) {
        Landing::Nowhere => None,
        Landing::Loose => Some(PathError::Traversal),
        Landing::Below { above, walk } => match (disk.resolve)(above) {
            None => Some(PathError::CanonicalizeParent),
            Some(target) => if lands_inside(walk, target, inside) {
                None
            } else {
                Some(PathError::Traversal)
            },
        },
    }
}

/// Which path on this disk the request stands for, or why it is refused.
pub open spec fn verdict(root: Seq<u8>, requested: Seq<char>, disk: DiskPaths) -> Result<
    Seq<u8>,
    PathError,
> {
    let rel = encode_utf8(requested);
    let full = join_spec(root, rel);
    let inside = resolved_root(root, disk);
    if is_absolute_spec(rel) {
        Err(PathError::Absolute)
    } else if !no_parent_dir(components_spec(rel)) {
        Err(PathError::ParentComponent)
    } else if (disk.present)(full) {
        match (disk.resolve)(full) {
            None => Err(PathError::Canonicalize),
            Some(target) => if starts_with_spec(target, inside) {
                Ok(target)
            } else {
                Err(PathError::Traversal)
            },
        }
    } else {
        match missing_verdict(way_up(full, root), inside, disk) {
            None => Ok(full),
            Some(error) => Err(error),
        }
    }
}

/// A path is refused as absolute exactly when it begins with `/`, and for a parent component
/// exactly when, not so beginning, it has one.
pub proof fn law_reasons_of_refusal(root: Seq<u8>, requested: Seq<char>, disk: DiskPaths)
    ensures
        verdict(root, requested, disk) == Err::<Seq<u8>, PathError>(PathError::Absolute) <==> {
            &&& encode_utf8(requested).len() > 0
            &&& encode_utf8(requested)[0] == 0x2f
        },
        verdict(root, requested, disk) == Err::<Seq<u8>, PathError>(PathError::ParentComponent)
            <==> {
            &&& !(encode_utf8(requested).len() > 0 && encode_utf8(requested)[0] == 0x2f)
            &&& components_spec(encode_utf8(requested)).contains(ComponentView::ParentDir)
        },
{
    let parts = components_spec(encode_utf8(requested));
    if !no_parent_dir(parts) {
        let k = choose|k: int| 0 <= k < parts.len() && parts[k] == ComponentView::ParentDir;
        assert(parts.contains(ComponentView::ParentDir));
    }
}

/// Whether a requested path neither begins with `/` nor climbs.
pub open spec fn is_plain(requested: Seq<char>) -> bool {
    &&& !(encode_utf8(requested).len() > 0 && encode_utf8(requested)[0] == 0x2f)
    &&& !components_spec(encode_utf8(requested)).contains(ComponentView::ParentDir)
}

/// What exists is served exactly when it resolves to the root or to something below it,
/// component by component, and then as what it resolves to.
pub proof fn law_what_exists_is_served(root: Seq<u8>, requested: Seq<char>, disk: DiskPaths)
    requires
        is_plain(requested),
        (disk.present)(join_spec(root, encode_utf8(requested))),
    ensures
        verdict(root, requested, disk) == match (disk.resolve)(
            join_spec(root, encode_utf8(requested)),
        ) {
            None => Err::<Seq<u8>, PathError>(PathError::Canonicalize),
            Some(target) => {
                let inside = match (disk.resolve)(root) {
                    Some(path) => path,
                    None => root,
                };
                if components_spec(inside).is_prefix_of(components_spec(target)) {
                    Ok(target)
                } else {
                    Err(PathError::Traversal)
                }
            },
        },
{
    lemma_plain(requested);
}

proof fn lemma_plain(requested: Seq<char>)
    requires
        is_plain(requested),
    ensures
        !is_absolute_spec(encode_utf8(requested)),
        no_parent_dir(components_spec(encode_utf8(requested))),
{
    let parts = components_spec(encode_utf8(requested));
    assert forall|k: int| 0 <= k < parts.len() implies parts[k] != ComponentView::ParentDir by {
        if parts[k] == ComponentView::ParentDir {
            assert(parts.contains(ComponentView::ParentDir));
        }
    }
}

/// What does not exist, with no link on the way, stands for its own path below the root. It is
/// allowed exactly when the nearest directory above it that exists, looked for up to the root,
/// resolves to the root or to something below it, or when there is none.
pub proof fn law_what_is_missing_may_be_made(
    root: Seq<u8>,
    requested: Seq<char>,
    disk: DiskPaths,
)
    requires
        is_plain(requested),
        !(disk.present)(join_spec(root, encode_utf8(requested))),
        !meets_link(join_spec(root, encode_utf8(requested)), root, disk),
    ensures
        ({
            let full = join_spec(root, encode_utf8(requested));
            let inside = match (disk.resolve)(root) {
                Some(path) => path,
                None => root,
            };
            verdict(root, requested, disk) == match nearest_present(full, root, disk) {
                None => Ok::<Seq<u8>, PathError>(full),
                Some(above) => match (disk.resolve)(above) {
                    None => Err(PathError::CanonicalizeParent),
                    Some(target) => if components_spec(inside).is_prefix_of(
                        components_spec(target),
                    ) {
                        Ok(full)
                    } else {
                        Err(PathError::Traversal)
                    },
                },
            }
        }),
{
    let full = join_spec(root, encode_utf8(requested));
    lemma_plain(requested);
    law_way_without_links(full, root, way_up(full, root), disk);
}

/// A link with nothing behind it is allowed exactly when what it points to, taken from the
/// link's own directory, lies at or below the root. Here the directory of what it points to
/// exists, and no link stands there again.
pub proof fn law_links_are_judged_by_where_they_point(
    root: Seq<u8>,
    requested: Seq<char>,
    disk: DiskPaths,
    holder: Seq<u8>,
    target: Seq<u8>,
    above: Seq<u8>,
    place: Seq<u8>,
)
    requires
        is_plain(requested),
        !(disk.present)(join_spec(root, encode_utf8(requested))),
        (disk.link)(bare_spec(join_spec(root, encode_utf8(requested)))) == Some(target),
        parent_spec(join_spec(root, encode_utf8(requested))) == Some(holder),
        (disk.link)(bare_spec(join_spec(holder, target))) is None,
        parent_spec(join_spec(holder, target)) == Some(above),
        (disk.present)(above),
        (disk.resolve)(above) == Some(place),
        components_spec(join_spec(holder, target)).last() is Normal,
    ensures
        ({
            let inside = match (disk.resolve)(root) {
                Some(path) => path,
                None => root,
            };
            let there = components_spec(place).push(
                components_spec(join_spec(holder, target)).last(),
            );
            verdict(root, requested, disk) == if components_spec(inside).is_prefix_of(there) {
                Ok::<Seq<u8>, PathError>(join_spec(root, encode_utf8(requested)))
            } else {
                Err(PathError::Traversal)
            }
        }),
{
    reveal_with_fuel(landing, 3);
    reveal_with_fuel(settled, 3);
    lemma_plain(requested);
    let full = join_spec(root, encode_utf8(requested));
    let walk = through(way_up(full, root), target);
    assert(behind(walk) =~= seq![components_spec(join_spec(holder, target)).last()]);
    assert(behind(walk).skip(1) =~= Seq::<ComponentView>::empty());
    assert(landing(walk, disk) == (Landing::Below { above, walk }));
}

/// The way up from something that does not exist goes on step by step. A link is followed
/// from the directory that holds it, with the same names behind it, as long as links may be
/// followed; where no link stands it goes to the directory above, which adds a name; a
/// directory that exists decides, by itself as long as no link was followed, and else by where
/// the names lead from it.
pub proof fn law_the_way_up(walk: Walk, inside: Seq<u8>, disk: DiskPaths)
    ensures
        ({
            let link = (disk.link)(bare_spec(walk.p));
            let above = parent_spec(walk.p);
            let names = seq![components_spec(walk.p).last()] + walk.rest;
            &&& (link is Some && walk.links == 0) ==> missing_verdict(walk, inside, disk) is None
            &&& (link is Some && walk.links > 0) ==> missing_verdict(walk, inside, disk)
                == missing_verdict(
                Walk {
                    p: match above {
                        Some(holder) => join_spec(holder, link->0),
                        None => link->0,
                    },
                    rest: walk.rest,
                    low: -1,
                    links: (walk.links - 1) as nat,
                },
                inside,
                disk,
            )
            &&& (link is None && above is None) ==> missing_verdict(walk, inside, disk) == if walk.low
                >= 0 {
                None::<PathError>
            } else {
                Some(PathError::Traversal)
            }
            &&& (link is None && above is Some && (disk.present)(above->0)) ==> missing_verdict(
                walk,
                inside,
                disk,
            ) == match (disk.resolve)(above->0) {
                None => Some(PathError::CanonicalizeParent),
                Some(target) => {
                    let there = if walk.low >= 0 {
                        components_spec(target)
                    } else {
                        settled(components_spec(target), names)
                    };
                    if components_spec(inside).is_prefix_of(there) {
                        None::<PathError>
                    } else {
                        Some(PathError::Traversal)
                    }
                },
            }
            &&& (link is None && above is Some && !(disk.present)(above->0)) ==> missing_verdict(
                walk,
                inside,
                disk,
            ) == if components_spec(above->0).len() > walk.low {
                missing_verdict(
                    Walk { p: above->0, rest: names, low: walk.low, links: walk.links },
                    inside,
                    disk,
                )
            } else {
                None::<PathError>
            }
        }),
{
    law_parent_drops_last(walk.p);
}

/// What does not exist is judged on its way up from its own path, where up to forty links may
/// be followed and the root is the last directory to be looked at.
pub proof fn law_missing_paths_go_up(root: Seq<u8>, requested: Seq<char>, disk: DiskPaths)
    requires
        is_plain(requested),
        !(disk.present)(join_spec(root, encode_utf8(requested))),
    ensures
        ({
            let full = join_spec(root, encode_utf8(requested));
            let inside = match (disk.resolve)(root) {
                Some(path) => path,
                None => root,
            };
            let walk = Walk {
                p: full,
                rest: Seq::empty(),
                low: components_spec(root).len() as int,
                links: 40,
            };
            verdict(root, requested, disk) == match missing_verdict(walk, inside, disk) {
                None => Ok::<Seq<u8>, PathError>(full),
                Some(error) => Err(error),
            }
        }),
{
    lemma_plain(requested);
}

/// Where no link stands on the way, it ends at the nearest directory that exists.
pub proof fn law_way_without_links(p: Seq<u8>, root: Seq<u8>, walk: Walk, disk: DiskPaths)
    requires
        walk.p == p,
        walk.low == components_spec(root).len(),
        !meets_link(p, root, disk),
    ensures
        match nearest_present(p, root, disk) {
            None => landing(walk, disk) is Nowhere,
            Some(nearest) => landing(walk, disk) matches Landing::Below { above, walk: last }
                && above == nearest && last.low == walk.low,
        },
    decreases components_spec(p).len(),
{
    law_parent_drops_last(p);
    if let Some(above) = parent_spec(p) {
        if !(disk.present)(above) && below(above, root) {
            law_way_without_links(above, root, up(walk, above), disk);
        }
    }
}

/// An allowed path lies in the shared directory. What exists was resolved, and the
/// resolved root leads to it. What does not exist is named below the root by the request's
/// own pieces, none of which climbs. Where no link stands on the way to it, the nearest
/// directory above it that exists, looked for up to the root, resolves to a path that the
/// resolved root leads to. Where links do, the place that they lead to is one that the
/// resolved root leads to, or nothing can be reached behind them.
pub proof fn law_allowed_is_inside(
    root: Seq<u8>,
    requested: Seq<char>,
    disk: DiskPaths,
    path: Seq<u8>,
)
    requires
        verdict(root, requested, disk) == Ok::<Seq<u8>, PathError>(path),
    ensures
        (disk.present)(join_spec(root, encode_utf8(requested))) ==> starts_with_spec(
            path,
            resolved_root(root, disk),
        ),
        !(disk.present)(join_spec(root, encode_utf8(requested))) ==> {
            &&& path == join_spec(root, encode_utf8(requested))
            &&& starts_with_spec(path, root)
            &&& all_names(parts_from(encode_utf8(requested), 0))
            &&& root.len() > 0 ==> components_spec(path) == components_spec(root) + parts_from(
                encode_utf8(requested),
                0,
            )
            &&& !meets_link(path, root, disk) ==> (nearest_present(path, root, disk) matches Some(
                above,
            ) ==> ((disk.resolve)(above) matches Some(target) && starts_with_spec(
                target,
                resolved_root(root, disk),
            )))
            &&& match landing(way_up(path, root), disk) {
                Landing::Below { above, walk } => (disk.resolve)(above) matches Some(target)
                    && lands_inside(walk, target, resolved_root(root, disk)),
                Landing::Nowhere => true,
                Landing::Loose => false,
            }
        },
{
    law_join_components(root, encode_utf8(requested));
    law_relative_components(encode_utf8(requested));
    if !(disk.present)(join_spec(root, encode_utf8(requested))) && !meets_link(path, root, disk) {
        law_way_without_links(path, root, way_up(path, root), disk);
    }
}

/// Whether the replies were given one by one, each to the call that was asked for at
/// that point.
pub open spec fn path_dialogue(
    root: Seq<u8>,
    requested: Seq<char>,
    replies: Seq<ReplyView>,
) -> bool {
    forall|i: int|
        0 <= i < replies.len() ==> {
            &&& sanitize_spec(root, requested, #[trigger] replies.take(i)) is Ask
            &&& answers(sanitize_spec(root, requested, replies.take(i))->Ask_0, replies[i])
        }
}

/// The most calls that a way up takes from a path of `count` components, when so many
/// links may be followed and none of them points to more than `reach` components.
pub open spec fn walk_calls(count: int, links: nat, reach: int) -> int
    decreases links,
{
    2 * count + 3 + if links > 0 {
        walk_calls(count + reach, (links - 1) as nat, reach)
    } else {
        0
    }
}

/// The most calls that it takes to judge a path, when no path that the disk tells has more
/// than `reach` components.
pub open spec fn most_calls(root: Seq<u8>, requested: Seq<char>, reach: int) -> int {
    let full = join_spec(root, encode_utf8(requested));
    2 + walk_calls(components_spec(full).len() as int, MAX_LINKS as nat, reach)
}

/// Whether no path that the disk tells has more than `reach` components.
pub open spec fn within_reach(replies: Seq<ReplyView>, reach: int) -> bool {
    &&& reach >= 0
    &&& forall|i: int|
        0 <= i < replies.len() ==> (#[trigger] replies[i] matches ReplyView::Path(path)
            ==> components_spec(path).len() <= reach)
}

proof fn lemma_walk_calls_grow(count: int, more: int, links: nat, reach: int)
    requires
        0 <= count <= more,
        0 <= reach,
    ensures
        3 <= walk_calls(count, links, reach) <= walk_calls(more, links, reach),
    decreases links,
{
    if links > 0 {
        lemma_walk_calls_grow(count + reach, more + reach, (links - 1) as nat, reach);
    }
}

pub(crate) proof fn lemma_most_calls(root: Seq<u8>, requested: Seq<char>, reach: int)
    requires
        0 <= reach,
    ensures
        most_calls(root, requested, reach) >= 5,
{
    let count = components_spec(join_spec(root, encode_utf8(requested))).len() as int;
    lemma_walk_calls_grow(count, count, MAX_LINKS as nat, reach);
}

proof fn lemma_pointed_to(p: Seq<u8>, target: Seq<u8>)
    ensures
        components_spec(pointed_to(p, target)).len() <= components_spec(p).len()
            + components_spec(target).len(),
{
    law_parent_drops_last(p);
    if let Some(above) = parent_spec(p) {
        if !is_absolute_spec(target) {
            law_join_components(above, target);
            law_relative_components(target);
        }
    }
}

/// Whether the replies from `i` on were given to the calls that the judgement of what is
/// missing asked for.
spec fn missing_dialogue(
    full: Seq<u8>,
    inside: Seq<u8>,
    walk: Walk,
    replies: Seq<ReplyView>,
    i: int,
) -> bool {
    forall|k: int|
        i <= k < replies.len() ==> {
            &&& judge_missing(full, inside, walk, #[trigger] replies.take(k), i) is Ask
            &&& answers(judge_missing(full, inside, walk, replies.take(k), i)->Ask_0, replies[k])
        }
}

proof fn lemma_missing_dialogue_ends(
    full: Seq<u8>,
    inside: Seq<u8>,
    walk: Walk,
    replies: Seq<ReplyView>,
    i: int,
    reach: int,
)
    requires
        0 <= i <= replies.len(),
        missing_dialogue(full, inside, walk, replies, i),
        within_reach(replies, reach),
    ensures
        replies.len() - i <= walk_calls(
            components_spec(walk.p).len() as int,
            walk.links,
            reach,
        ),
        judge_missing(full, inside, walk, replies, i) is Ask ==> replies.len() - i < walk_calls(
            components_spec(walk.p).len() as int,
            walk.links,
            reach,
        ),
    decreases walk.links, components_spec(walk.p).len(),
{
    law_parent_drops_last(walk.p);
    let count = components_spec(walk.p).len() as int;
    lemma_walk_calls_grow(count, count, walk.links, reach);
    if replies.len() > i {
        assert(judge_missing(full, inside, walk, replies.take(i), i) is Ask);
        if let Heard::Value(target) = path_at(replies, i) {
            if walk.links > 0 {
                let next = through(walk, target);
                assert(replies[i] is Path);
                assert forall|k: int| i + 1 <= k < replies.len() implies {
                    &&& judge_missing(full, inside, next, #[trigger] replies.take(k), i + 1) is Ask
                    &&& answers(
                        judge_missing(full, inside, next, replies.take(k), i + 1)->Ask_0,
                        replies[k],
                    )
                } by {
                    assert(judge_missing(full, inside, walk, replies.take(k), i) is Ask);
                }
                lemma_missing_dialogue_ends(full, inside, next, replies, i + 1, reach);
                lemma_pointed_to(walk.p, target);
                lemma_walk_calls_grow(
                    components_spec(next.p).len() as int,
                    count + reach,
                    next.links,
                    reach,
                );
            } else if replies.len() > i + 1 {
                assert(judge_missing(full, inside, walk, replies.take(i + 1), i) is Ask);
            }
        } else {
            if replies.len() > i + 1 {
                assert(judge_missing(full, inside, walk, replies.take(i + 1), i) is Ask);
            }
            if replies.len() > i + 2 {
                assert(judge_missing(full, inside, walk, replies.take(i + 2), i) is Ask);
            }
            if replies.len() > i + 3 {
                assert(judge_missing(full, inside, walk, replies.take(i + 3), i) is Ask);
            }
            if replies.len() > i + 1 && flag_at(replies, i + 1) == Some(false) {
                let above = parent_spec(walk.p)->0;
                if components_spec(above).len() > walk.low {
                    let next = up(walk, above);
                    assert forall|k: int| i + 2 <= k < replies.len() implies {
                        &&& judge_missing(full, inside, next, #[trigger] replies.take(k), i + 2) is Ask
                        &&& answers(
                            judge_missing(full, inside, next, replies.take(k), i + 2)->Ask_0,
                            replies[k],
                        )
                    } by {
                        assert(judge_missing(full, inside, walk, replies.take(k), i) is Ask);
                    }
                    lemma_missing_dialogue_ends(full, inside, next, replies, i + 2, reach);
                    lemma_walk_calls_grow(
                        count - 1 + reach,
                        count + reach,
                        (walk.links - 1) as nat,
                        reach,
                    );
                }
            }
        }
    }
}

/// Behind the first two replies, the judgement of a path that exists takes one more, and
/// that of a path that does not exist is a dialogue of its own.
proof fn lemma_first_replies(root: Seq<u8>, requested: Seq<char>, replies: Seq<ReplyView>)
    requires
        path_dialogue(root, requested, replies),
    ensures
        replies.len() > 0 ==> !(path_at(replies, 0) is Nothing),
        replies.len() > 1 ==> flag_at(replies, 1) is Some,
        replies.len() > 1 && flag_at(replies, 1) == Some(true) ==> replies.len() <= 3 && (
        replies.len() == 3 ==> !(path_at(replies, 2) is Nothing)),
        replies.len() > 1 && flag_at(replies, 1) == Some(false) ==> {
            let full = join_spec(root, encode_utf8(requested));
            let inside = match path_at(replies, 0) {
                Heard::Value(path) => path,
                _ => root,
            };
            &&& missing_dialogue(full, inside, way_up(full, root), replies, 2)
            &&& forall|k: int|
                2 <= k <= replies.len() ==> sanitize_spec(root, requested, #[trigger] replies.take(k))
                    == judge_missing(full, inside, way_up(full, root), replies.take(k), 2)
        },
{
    if replies.len() > 0 {
        assert(sanitize_spec(root, requested, replies.take(0)) is Ask);
    }
    if replies.len() > 1 {
        assert(sanitize_spec(root, requested, replies.take(1)) is Ask);
        assert forall|k: int| 2 <= k <= replies.len() implies {
            &&& path_at(#[trigger] replies.take(k), 0) == path_at(replies, 0)
            &&& flag_at(replies.take(k), 1) == flag_at(replies, 1)
        } by {}
    }
    if replies.len() > 2 {
        assert(sanitize_spec(root, requested, replies.take(2)) is Ask);
    }
    if replies.len() > 3 {
        assert(sanitize_spec(root, requested, replies.take(3)) is Ask);
    }
}

/// A requested path is judged after so many answered calls as [`most_calls`] tells.
pub proof fn law_paths_are_judged(
    root: Seq<u8>,
    requested: Seq<char>,
    replies: Seq<ReplyView>,
    reach: int,
)
    requires
        path_dialogue(root, requested, replies),
        within_reach(replies, reach),
    ensures
        replies.len() <= most_calls(root, requested, reach),
        sanitize_spec(root, requested, replies) is Ask ==> replies.len() < most_calls(
            root,
            requested,
            reach,
        ),
{
    let full = join_spec(root, encode_utf8(requested));
    let walk = way_up(full, root);
    lemma_first_replies(root, requested, replies);
    lemma_most_calls(root, requested, reach);
    if replies.len() > 1 && flag_at(replies, 1) == Some(false) {
        let inside = match path_at(replies, 0) {
            Heard::Value(path) => path,
            _ => root,
        };
        lemma_missing_dialogue_ends(full, inside, walk, replies, 2, reach);
        assert(replies.take(replies.len() as int) =~= replies);
    }
}

proof fn lemma_missing_follows_the_disk(
    full: Seq<u8>,
    inside: Seq<u8>,
    walk: Walk,
    disk: DiskPaths,
    replies: Seq<ReplyView>,
    i: int,
)
    requires
        0 <= i <= replies.len(),
        forall|k: int|
            i <= k < replies.len() ==> {
                &&& judge_missing(full, inside, walk, #[trigger] replies.take(k), i) is Ask
                &&& told_by(
                    disk,
                    judge_missing(full, inside, walk, replies.take(k), i)->Ask_0,
                    replies[k],
                )
            },
    ensures
        match judge_missing(full, inside, walk, replies, i) {
            PathStepView::Ask(_) => true,
            PathStepView::Allowed { path, used } => {
                &&& missing_verdict(walk, inside, disk) is None
                &&& path == full
                &&& used == replies.len()
            },
            PathStepView::Refused(error) => missing_verdict(walk, inside, disk) == Some(error),
        },
    decreases walk.links, components_spec(walk.p).len(),
{
    law_parent_drops_last(walk.p);
    if replies.len() > i {
        assert(judge_missing(full, inside, walk, replies.take(i), i) is Ask);
        if let Heard::Value(target) = path_at(replies, i) {
            if walk.links > 0 {
                let next = through(walk, target);
                assert forall|k: int| i + 1 <= k < replies.len() implies {
                    &&& judge_missing(full, inside, next, #[trigger] replies.take(k), i + 1) is Ask
                    &&& told_by(
                        disk,
                        judge_missing(full, inside, next, replies.take(k), i + 1)->Ask_0,
                        replies[k],
                    )
                } by {
                    assert(judge_missing(full, inside, walk, replies.take(k), i) is Ask);
                }
                lemma_missing_follows_the_disk(full, inside, next, disk, replies, i + 1);
            } else if replies.len() > i + 1 {
                assert(judge_missing(full, inside, walk, replies.take(i + 1), i) is Ask);
            }
        } else {
            if replies.len() > i + 1 {
                assert(judge_missing(full, inside, walk, replies.take(i + 1), i) is Ask);
            }
            if replies.len() > i + 2 {
                assert(judge_missing(full, inside, walk, replies.take(i + 2), i) is Ask);
            }
            if replies.len() > i + 3 {
                assert(judge_missing(full, inside, walk, replies.take(i + 3), i) is Ask);
            }
            if replies.len() > i + 1 && flag_at(replies, i + 1) == Some(false) {
                let above = parent_spec(walk.p)->0;
                if components_spec(above).len() > walk.low {
                    let next = up(walk, above);
                    assert forall|k: int| i + 2 <= k < replies.len() implies {
                        &&& judge_missing(full, inside, next, #[trigger] replies.take(k), i + 2) is Ask
                        &&& told_by(
                            disk,
                            judge_missing(full, inside, next, replies.take(k), i + 2)->Ask_0,
                            replies[k],
                        )
                    } by {
                        assert(judge_missing(full, inside, walk, replies.take(k), i) is Ask);
                    }
                    lemma_missing_follows_the_disk(full, inside, next, disk, replies, i + 2);
                }
            }
        }
    }
}

/// Whether the replies were given one by one by this disk, each to the call that was asked
/// for at that point.
pub open spec fn path_told(
    root: Seq<u8>,
    requested: Seq<char>,
    disk: DiskPaths,
    replies: Seq<ReplyView>,
) -> bool {
    forall|i: int|
        0 <= i < replies.len() ==> {
            &&& sanitize_spec(root, requested, #[trigger] replies.take(i)) is Ask
            &&& told_by(disk, sanitize_spec(root, requested, replies.take(i))->Ask_0, replies[i])
        }
}

/// Asked step by step, a disk leads to exactly the verdict that its paths give.
pub proof fn law_judgement_follows_the_disk(
    root: Seq<u8>,
    requested: Seq<char>,
    disk: DiskPaths,
    replies: Seq<ReplyView>,
)
    requires
        path_told(root, requested, disk, replies),
    ensures
        match sanitize_spec(root, requested, replies) {
            PathStepView::Ask(_) => true,
            PathStepView::Allowed { path, used } => {
                &&& verdict(root, requested, disk) == Ok::<Seq<u8>, PathError>(path)
                &&& used == replies.len()
            },
            PathStepView::Refused(error) => verdict(root, requested, disk) == Err::<
                Seq<u8>,
                PathError,
            >(error),
        },
{
    let full = join_spec(root, encode_utf8(requested));
    assert(path_dialogue(root, requested, replies));
    lemma_first_replies(root, requested, replies);
    if replies.len() > 0 {
        assert(sanitize_spec(root, requested, replies.take(0)) is Ask);
    }
    if replies.len() > 1 {
        assert(sanitize_spec(root, requested, replies.take(1)) is Ask);
        if flag_at(replies, 1) == Some(false) {
            let inside = resolved_root(root, disk);
            let walk = way_up(full, root);
            lemma_missing_follows_the_disk(full, inside, walk, disk, replies, 2);
        }
    }
    if replies.len() > 2 {
        assert(sanitize_spec(root, requested, replies.take(2)) is Ask);
    }
}

/// Whether the disk takes paths that are written alike for the same.
pub open spec fn takes_alike(disk: DiskPaths) -> bool {
    forall|p: Seq<u8>, q: Seq<u8>| #[trigger]
        alike(p, q) ==> {
            &&& (disk.resolve)(p) == (disk.resolve)(q)
            &&& (disk.present)(p) == (disk.present)(q)
            &&& (disk.link)(p) == (disk.link)(q)
        }
}

pub(crate) proof fn lemma_nearest_alike(p: Seq<u8>, q: Seq<u8>, root: Seq<u8>, disk: DiskPaths)
    requires
        components_spec(p) == components_spec(q),
        takes_alike(disk),
    ensures
        meets_link(p, root, disk) == meets_link(q, root, disk),
        match (nearest_present(p, root, disk), nearest_present(q, root, disk)) {
            (Some(a), Some(b)) => alike(a, b),
            (None, None) => true,
            _ => false,
        },
    decreases components_spec(p).len(),
{
    law_parent_drops_last(p);
    law_parent_drops_last(q);
    law_bare_keeps_components(p);
    law_bare_keeps_components(q);
    assert(alike(bare_spec(p), bare_spec(q)));
    if parent_spec(p) is Some {
        let above = parent_spec(p)->0;
        let other = parent_spec(q)->0;
        assert(alike(above, other));
        if !(disk.present)(above) && below(above, root) {
            lemma_nearest_alike(above, other, root, disk);
        }
    }
}

/// Whether two ways differ at most in how their paths are written.
pub(crate) open spec fn same_way(walk: Walk, other: Walk) -> bool {
    &&& components_spec(walk.p) == components_spec(other.p)
    &&& walk.rest == other.rest
    &&& walk.low == other.low
    &&& walk.links == other.links
}

pub(crate) proof fn lemma_same_way_on(walk: Walk, other: Walk, target: Seq<u8>)
    requires
        same_way(walk, other),
    ensures
        parent_spec(walk.p) is Some == parent_spec(other.p) is Some,
        parent_spec(walk.p) matches Some(above) ==> same_way(
            up(walk, above),
            up(other, parent_spec(other.p)->0),
        ) && alike(above, parent_spec(other.p)->0),
        same_way(through(walk, target), through(other, target)),
        behind(walk) == behind(other),
        alike(bare_spec(walk.p), bare_spec(other.p)),
{
    law_parent_drops_last(walk.p);
    law_parent_drops_last(other.p);
    law_bare_keeps_components(walk.p);
    law_bare_keeps_components(other.p);
    if let Some(above) = parent_spec(walk.p) {
        let beside = parent_spec(other.p)->0;
        law_paths_have_components(above);
        law_paths_have_components(beside);
        if !is_absolute_spec(target) {
            law_join_components(above, target);
            law_join_components(beside, target);
        }
    }
}

proof fn lemma_landing_alike(walk: Walk, other: Walk, inside: Seq<u8>, disk: DiskPaths)
    requires
        same_way(walk, other),
        takes_alike(disk),
    ensures
        missing_verdict(walk, inside, disk) == missing_verdict(other, inside, disk),
    decreases walk.links, components_spec(walk.p).len(),
{
    law_parent_drops_last(walk.p);
    lemma_same_way_on(walk, other, Seq::empty());
    match (disk.link)(bare_spec(walk.p)) {
        Some(target) => {
            if walk.links > 0 {
                lemma_same_way_on(walk, other, target);
                lemma_landing_alike(through(walk, target), through(other, target), inside, disk);
            }
        },
        None => {
            if let Some(above) = parent_spec(walk.p) {
                let beside = parent_spec(other.p)->0;
                if !(disk.present)(above) && components_spec(above).len() > walk.low {
                    lemma_landing_alike(up(walk, above), up(other, beside), inside, disk);
                }
            }
        },
    }
}

/// The text `./` in front of another.
pub open spec fn from_here(requested: Seq<char>) -> Seq<char> {
    seq!['.', '/'] + requested
}

proof fn lemma_from_here(requested: Seq<char>)
    ensures
        encode_utf8(from_here(requested)) == dotted(encode_utf8(requested)),
{
    let text = from_here(requested);
    let rest = text.drop_first();
    assert(rest.drop_first() =~= requested);
    char_u32_cast('.', 0x2e);
    char_u32_cast('/', 0x2f);
    assert((0x2eu32 & 0x7F) as u8 == 0x2e) by (bit_vector);
    assert((0x2fu32 & 0x7F) as u8 == 0x2f) by (bit_vector);
    assert(encode_scalar(0x2e) =~= seq![DOT]);
    assert(encode_scalar(0x2f) =~= seq![SEPARATOR]);
    assert(encode_utf8(rest) =~= seq![SEPARATOR] + encode_utf8(requested));
    assert(encode_utf8(text) =~= dotted(encode_utf8(requested)));
}

/// A path with `./` in front is judged like the path without it: both are refused for the
/// same reason, or both are allowed and stand for the same components.
pub proof fn law_dot_makes_no_difference(root: Seq<u8>, requested: Seq<char>, disk: DiskPaths)
    requires
        root.len() > 0,
        !is_absolute_spec(encode_utf8(requested)),
        takes_alike(disk),
    ensures
        match (
            verdict(root, requested, disk),
            verdict(root, from_here(requested), disk),
        ) {
            (Ok(path), Ok(other)) => components_spec(path) == components_spec(other),
            (Err(error), Err(other)) => error == other,
            _ => false,
        },
{
    let rel = encode_utf8(requested);
    let full = join_spec(root, rel);
    let other = join_spec(root, dotted(rel));
    lemma_from_here(requested);
    law_dotted_is_alike(rel);
    law_join_alike(root, rel, dotted(rel));
    assert(alike(full, other));
    lemma_landing_alike(
        way_up(full, root),
        way_up(other, root),
        resolved_root(root, disk),
        disk,
    );
}

/// A value of [`PathStep`] is seen whole: as what it is, with all that it holds.
pub proof fn law_path_steps_are_seen_whole(value: &PathStep)
    ensures
        value@ == (match value {
            PathStep::Ask(call) => PathStepView::Ask(call@),
            PathStep::Allowed { path, used } => PathStepView::Allowed {
                path: path@,
                used: *used as int,
            },
            PathStep::Refused(error) => PathStepView::Refused(*error),
        }),
{
}

} // verus!
