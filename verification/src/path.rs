//! Slash-separated paths as byte strings.
//!
//! A path is a sequence of bytes that `/` divides into pieces. Empty pieces and
//! `.` pieces carry no meaning, except for a `.` that opens a relative path.
use vstd::prelude::*;
use vstd::slice::{slice_subrange, slice_to_vec};

verus! {

/// The byte that separates the pieces of a path: `/`.
pub const SEPARATOR: u8 = 0x2f;

/// The byte of which `.` and `..` are made.
pub const DOT: u8 = 0x2e;

/// One step of a path.
#[derive(Clone, Debug, PartialEq, Eq)]
pub enum Component {
    /// The leading `/` of an absolute path.
    RootDir,
    /// The leading `.` of a relative path.
    CurDir,
    /// A `..` piece.
    ParentDir,
    /// Any other named piece.
    Normal(Vec<u8>),
}

/// The mathematical value of a [`Component`].
pub enum ComponentView {
    RootDir,
    CurDir,
    ParentDir,
    Normal(Seq<u8>),
}

impl View for Component {
    type V = ComponentView;

    open spec fn view(&self) -> ComponentView {
        match self {
            Component::RootDir => ComponentView::RootDir,
            Component::CurDir => ComponentView::CurDir,
            Component::ParentDir => ComponentView::ParentDir,
            Component::Normal(name) => ComponentView::Normal(name@),
        }
    }
}

/// The values of a sequence of components.
pub open spec fn component_views(parts: Seq<Component>) -> Seq<ComponentView> {
    parts.map_values(|c: Component| c@)
}

// ---------------------------------------------------------------------------
// What a path means
// ---------------------------------------------------------------------------

/// A path is absolute when it begins with the separator.
pub open spec fn is_absolute_spec(p: Seq<u8>) -> bool {
    p.len() > 0 && p[0] == SEPARATOR
}

/// A relative path whose first piece is `.`.
pub open spec fn opens_with_dot(p: Seq<u8>) -> bool {
    &&& p.len() > 0
    &&& p[0] == DOT
    &&& p.len() == 1 || p[1] == SEPARATOR
}

/// Where the named pieces begin: behind the root, or behind an opening `.`.
pub open spec fn body_start(p: Seq<u8>) -> int {
    if is_absolute_spec(p) || opens_with_dot(p) {
        1
    } else {
        0
    }
}

/// The component in front of the named pieces, if there is one.
pub open spec fn head(p: Seq<u8>) -> Seq<ComponentView> {
    if is_absolute_spec(p) {
        seq![ComponentView::RootDir]
    } else if opens_with_dot(p) {
        seq![ComponentView::CurDir]
    } else {
        Seq::empty()
    }
}

/// The position of the first separator at or behind `i`, or the path's end.
pub open spec fn sep_from(p: Seq<u8>, i: int) -> int
    decreases p.len() - i,
{
    if i >= p.len() {
        p.len() as int
    } else if p[i] == SEPARATOR {
        i
    } else {
        sep_from(p, i + 1)
    }
}

/// A piece without meaning: nothing at all, or a single dot.
pub open spec fn is_blank(piece: Seq<u8>) -> bool {
    piece.len() == 0 || (piece.len() == 1 && piece[0] == DOT)
}

/// The components that one piece stands for: none, or one.
pub open spec fn piece_parts(piece: Seq<u8>) -> Seq<ComponentView> {
    if is_blank(piece) {
        Seq::empty()
    } else if piece.len() == 2 && piece[0] == DOT && piece[1] == DOT {
        seq![ComponentView::ParentDir]
    } else {
        seq![ComponentView::Normal(piece)]
    }
}

/// Where the piece behind the one at `i` begins.
pub open spec fn next_piece(p: Seq<u8>, i: int) -> int {
    if sep_from(p, i) < p.len() {
        sep_from(p, i) + 1
    } else {
        p.len() as int
    }
}

/// The components of the pieces from position `i` on.
pub open spec fn parts_from(p: Seq<u8>, i: int) -> Seq<ComponentView>
    decreases p.len() - i,
{
    if i < 0 || i >= p.len() {
        Seq::empty()
    } else {
        proof {
            lemma_sep_from(p, i);
        }
        piece_parts(p.subrange(i, sep_from(p, i))) + parts_from(p, next_piece(p, i))
    }
}

/// The components of a path.
pub open spec fn components_spec(p: Seq<u8>) -> Seq<ComponentView> {
    head(p) + parts_from(p, body_start(p))
}

/// Whether `base` is a leading part of `p`, component by component.
pub open spec fn starts_with_spec(p: Seq<u8>, base: Seq<u8>) -> bool {
    components_spec(base).is_prefix_of(components_spec(p))
}

/// One component further from the directory `base`, by its name alone.
pub open spec fn stepped(base: Seq<ComponentView>, part: ComponentView) -> Seq<ComponentView> {
    match part {
        ComponentView::RootDir => seq![ComponentView::RootDir],
        ComponentView::CurDir => base,
        ComponentView::ParentDir => if base.len() > 0 && base.last() is Normal {
            base.drop_last()
        } else {
            base
        },
        ComponentView::Normal(_) => base.push(part),
    }
}

/// Where the components `rest` lead from the directory `base`, by their names alone.
pub open spec fn settled(base: Seq<ComponentView>, rest: Seq<ComponentView>) -> Seq<ComponentView>
    decreases rest.len(),
{
    if rest.len() == 0 {
        base
    } else {
        settled(stepped(base, rest[0]), rest.skip(1))
    }
}

/// `other` taken from `base`: an absolute path stands for itself, another one
/// is set behind `base` and one separator.
pub open spec fn join_spec(base: Seq<u8>, other: Seq<u8>) -> Seq<u8> {
    if is_absolute_spec(other) {
        other
    } else if base.len() > 0 && base.last() != SEPARATOR {
        base.push(SEPARATOR) + other
    } else {
        base + other
    }
}

/// Where the last piece of `p[lo..hi]` begins.
pub open spec fn last_piece(p: Seq<u8>, lo: int, hi: int) -> int
    decreases hi - lo,
{
    if hi <= lo {
        lo
    } else if p[hi - 1] == SEPARATOR {
        hi
    } else {
        last_piece(p, lo, hi - 1)
    }
}

/// The end of `p[lo..hi]` once its last piece, and the separator in front of
/// that piece, are gone.
pub open spec fn without_last(p: Seq<u8>, lo: int, hi: int) -> int {
    if last_piece(p, lo, hi) > lo {
        last_piece(p, lo, hi) - 1
    } else {
        lo
    }
}

/// The end of `p[lo..hi]` without the blank pieces at its end.
pub open spec fn trim_end(p: Seq<u8>, lo: int, hi: int) -> int
    decreases hi - lo,
{
    if hi <= lo {
        hi
    } else {
        proof {
            lemma_last_piece(p, lo, hi);
        }
        if is_blank(p.subrange(last_piece(p, lo, hi), hi)) {
            trim_end(p, lo, without_last(p, lo, hi))
        } else {
            hi
        }
    }
}

/// The path without the blank pieces at its end.
pub open spec fn bare_spec(p: Seq<u8>) -> Seq<u8> {
    p.take(trim_end(p, body_start(p), p.len() as int))
}

/// The path without its last component. A path that is empty or only the root
/// has no parent.
pub open spec fn parent_spec(p: Seq<u8>) -> Option<Seq<u8>> {
    let lo = body_start(p);
    let end = trim_end(p, lo, p.len() as int);
    if end > lo {
        Some(p.take(trim_end(p, lo, without_last(p, lo, end))))
    } else if opens_with_dot(p) {
        Some(Seq::empty())
    } else {
        None
    }
}

/// The last component, when it is a name.
pub open spec fn file_name_spec(p: Seq<u8>) -> Option<Seq<u8>> {
    let parts = components_spec(p);
    if parts.len() == 0 {
        None
    } else {
        match parts.last() {
            ComponentView::Normal(name) => Some(name),
            _ => None,
        }
    }
}

/// The position behind the first `count` components from `i` on.
pub open spec fn skip_parts(p: Seq<u8>, i: int, count: int) -> int
    decreases p.len() - i,
{
    if i >= p.len() || count <= 0 {
        i
    } else {
        proof {
            lemma_sep_from(p, i);
        }
        if is_blank(p.subrange(i, sep_from(p, i))) {
            skip_parts(p, next_piece(p, i), count)
        } else {
            skip_parts(p, next_piece(p, i), count - 1)
        }
    }
}

/// The position of the first piece from `i` on that is not blank.
pub open spec fn trim_start(p: Seq<u8>, i: int) -> int
    decreases p.len() - i,
{
    if i >= p.len() {
        i
    } else {
        proof {
            lemma_sep_from(p, i);
        }
        if is_blank(p.subrange(i, sep_from(p, i))) {
            trim_start(p, next_piece(p, i))
        } else {
            i
        }
    }
}

/// What is left of `p` behind `base`, or nothing when `base` is not a leading
/// part of it.
pub open spec fn strip_prefix_spec(p: Seq<u8>, base: Seq<u8>) -> Option<Seq<u8>> {
    let count = components_spec(base).len();
    if !starts_with_spec(p, base) {
        None
    } else if count == 0 {
        Some(p.take(trim_end(p, body_start(p), p.len() as int)))
    } else {
        let from = trim_start(p, skip_parts(p, body_start(p), count - head(p).len()));
        Some(p.subrange(from, trim_end(p, from, p.len() as int)))
    }
}

// ---------------------------------------------------------------------------
// Positions stay within the path
// ---------------------------------------------------------------------------

pub proof fn lemma_sep_from(p: Seq<u8>, i: int)
    ensures
        i <= p.len() ==> i <= sep_from(p, i) <= p.len(),
        i > p.len() ==> sep_from(p, i) == p.len(),
    decreases p.len() - i,
{
    if i < p.len() && p[i] != SEPARATOR {
        lemma_sep_from(p, i + 1);
    }
}

pub proof fn lemma_last_piece(p: Seq<u8>, lo: int, hi: int)
    requires
        lo <= hi,
    ensures
        lo <= last_piece(p, lo, hi) <= hi,
        lo < hi ==> lo <= without_last(p, lo, hi) < hi,
    decreases hi - lo,
{
    if lo < hi && p[hi - 1] != SEPARATOR {
        lemma_last_piece(p, lo, hi - 1);
    }
}

proof fn lemma_next_piece(p: Seq<u8>, i: int)
    requires
        i < p.len(),
    ensures
        i < next_piece(p, i) <= p.len(),
{
    lemma_sep_from(p, i);
}

proof fn lemma_trim_end(p: Seq<u8>, lo: int, hi: int)
    requires
        lo <= hi,
    ensures
        lo <= trim_end(p, lo, hi) <= hi,
    decreases hi - lo,
{
    if lo < hi {
        lemma_last_piece(p, lo, hi);
        lemma_trim_end(p, lo, without_last(p, lo, hi));
    }
}

proof fn lemma_skip_parts(p: Seq<u8>, i: int, count: int)
    requires
        i <= p.len(),
    ensures
        i <= skip_parts(p, i, count) <= p.len(),
    decreases p.len() - i,
{
    if i < p.len() && count > 0 {
        lemma_next_piece(p, i);
        lemma_skip_parts(p, next_piece(p, i), count);
        lemma_skip_parts(p, next_piece(p, i), count - 1);
    }
}

proof fn lemma_trim_start(p: Seq<u8>, i: int)
    requires
        i <= p.len(),
    ensures
        i <= trim_start(p, i) <= p.len(),
    decreases p.len() - i,
{
    if i < p.len() {
        lemma_next_piece(p, i);
        lemma_trim_start(p, next_piece(p, i));
    }
}

// ---------------------------------------------------------------------------
// Taking paths apart
// ---------------------------------------------------------------------------

/// Whether the path begins at the root.
pub fn is_absolute(p: &[u8]) -> (res: bool)
    ensures
        res == is_absolute_spec(p@),
{
    p.len() > 0 && p[0] == SEPARATOR
}

fn has_opening_dot(p: &[u8]) -> (res: bool)
    ensures
        res == opens_with_dot(p@),
{
    p.len() > 0 && p[0] == DOT && (p.len() == 1 || p[1] == SEPARATOR)
}

fn find_body(p: &[u8]) -> (start: usize)
    ensures
        start == body_start(p@),
        start <= p@.len(),
{
    if is_absolute(p) || has_opening_dot(p) {
        1
    } else {
        0
    }
}

fn find_sep(p: &[u8], from: usize) -> (at: usize)
    requires
        from <= p@.len(),
    ensures
        at == sep_from(p@, from as int),
        from <= at <= p@.len(),
{
    let mut i: usize = from;
    while i < p.len() && p[i] != SEPARATOR
        invariant
            from <= i <= p@.len(),
            sep_from(p@, i as int) == sep_from(p@, from as int),
        decreases p@.len() - i,
    {
        i = i + 1;
    }
    i
}

fn blank(p: &[u8], from: usize, to: usize) -> (res: bool)
    requires
        from <= to <= p@.len(),
    ensures
        res == is_blank(p@.subrange(from as int, to as int)),
{
    from == to || (to - from == 1 && p[from] == DOT)
}

fn next_start(p: &[u8], sep: usize) -> (at: usize)
    requires
        sep <= p@.len(),
    ensures
        at == (if sep < p@.len() { sep + 1 } else { p@.len() as int }),
{
    if sep < p.len() {
        sep + 1
    } else {
        sep
    }
}

/// The components of a path, in order.
pub fn components(p: &[u8]) -> (parts: Vec<Component>)
    ensures
        component_views(parts@) == components_spec(p@),
{
    let mut parts: Vec<Component> = Vec::new();
    if is_absolute(p) {
        parts.push(Component::RootDir);
    } else if has_opening_dot(p) {
        parts.push(Component::CurDir);
    }
    assert(component_views(parts@) =~= head(p@));
    let start: usize = find_body(p);
    let mut i: usize = start;
    while i < p.len()
        invariant
            i <= p@.len(),
            component_views(parts@) + parts_from(p@, i as int) =~= components_spec(p@),
        decreases p@.len() - i,
    {
        let sep: usize = find_sep(p, i);
        let ghost before = parts@;
        let ghost piece = p@.subrange(i as int, sep as int);
        if !blank(p, i, sep) {
            if sep - i == 2 && p[i] == DOT && p[i + 1] == DOT {
                parts.push(Component::ParentDir);
            } else {
                parts.push(Component::Normal(slice_to_vec(slice_subrange(p, i, sep))));
            }
        }
        assert(component_views(parts@) =~= component_views(before) + piece_parts(piece));
        proof {
            lemma_next_piece(p@, i as int);
        }
        i = next_start(p, sep);
    }
    parts
}

fn same_bytes(a: &[u8], b: &[u8]) -> (res: bool)
    ensures
        res == (a@ == b@),
{
    if a.len() != b.len() {
        return false;
    }
    let mut i: usize = 0;
    while i < a.len()
        invariant
            i <= a@.len(),
            a@.len() == b@.len(),
            forall|k: int| 0 <= k < i ==> a@[k] == b@[k],
        decreases a@.len() - i,
    {
        if a[i] != b[i] {
            return false;
        }
        i = i + 1;
    }
    assert(a@ =~= b@);
    true
}

fn same_component(a: &Component, b: &Component) -> (res: bool)
    ensures
        res == (a@ == b@),
{
    match (a, b) {
        (Component::RootDir, Component::RootDir) => true,
        (Component::CurDir, Component::CurDir) => true,
        (Component::ParentDir, Component::ParentDir) => true,
        (Component::Normal(x), Component::Normal(y)) => same_bytes(x.as_slice(), y.as_slice()),
        _ => false,
    }
}

/// Whether the components `first` lead the components `whole`.
pub fn leads(first: &[Component], whole: &[Component]) -> (res: bool)
    ensures
        res == component_views(first@).is_prefix_of(component_views(whole@)),
{
    let ghost w = component_views(whole@);
    let ghost f = component_views(first@);
    if first.len() > whole.len() {
        return false;
    }
    let mut i: usize = 0;
    while i < first.len()
        invariant
            i <= first@.len() <= whole@.len(),
            w == component_views(whole@),
            f == component_views(first@),
            forall|k: int| 0 <= k < i ==> f[k] == w[k],
        decreases first@.len() - i,
    {
        if !same_component(&first[i], &whole[i]) {
            assert(f[i as int] != w[i as int]);
            assert(w.subrange(0, f.len() as int)[i as int] == w[i as int]);
            return false;
        }
        i = i + 1;
    }
    assert(f =~= w.subrange(0, f.len() as int));
    true
}

/// Whether `base` is a leading part of `p`, component by component.
pub fn starts_with(p: &[u8], base: &[u8]) -> (res: bool)
    ensures
        res == starts_with_spec(p@, base@),
{
    leads(components(base).as_slice(), components(p).as_slice())
}

/// Where the components `rest` lead from the directory `base`, by their names alone. The
/// components of `rest` stand in the opposite order, the last one first.
pub fn settle(base: Vec<Component>, rest: &[Component]) -> (res: Vec<Component>)
    ensures
        component_views(res@) == settled(component_views(base@), component_views(rest@).reverse()),
{
    let ghost all = component_views(rest@);
    let ghost goal = settled(component_views(base@), all.reverse());
    let mut at: Vec<Component> = base;
    let mut k: usize = rest.len();
    assert(all.take(k as int) =~= all);
    while k > 0
        invariant
            k <= rest@.len(),
            all == component_views(rest@),
            settled(component_views(at@), all.take(k as int).reverse()) == goal,
        decreases k,
    {
        k = k - 1;
        let ghost here = component_views(at@);
        proof {
            let left = all.take(k + 1).reverse();
            assert(left[0] == rest@[k as int]@);
            assert(left.skip(1) =~= all.take(k as int).reverse());
        }
        match &rest[k] {
            Component::ParentDir => {
                let up: bool = at.len() > 0 && matches!(&at[at.len() - 1], Component::Normal(_));
                assert(up == (here.len() > 0 && here.last() is Normal));
                if up {
                    at.pop();
                    assert(component_views(at@) =~= here.drop_last());
                }
            },
            Component::CurDir => {},
            Component::RootDir => {
                at = Vec::new();
                at.push(Component::RootDir);
                assert(component_views(at@) =~= seq![ComponentView::RootDir]);
            },
            Component::Normal(name) => {
                at.push(Component::Normal(slice_to_vec(name.as_slice())));
                assert(component_views(at@) =~= here.push(rest@[k as int]@));
            },
        }
        assert(component_views(at@) == stepped(here, rest@[k as int]@));
    }
    at
}

/// `other` taken from `base`.
pub fn join(base: &[u8], other: &[u8]) -> (full: Vec<u8>)
    ensures
        full@ == join_spec(base@, other@),
{
    if is_absolute(other) {
        return slice_to_vec(other);
    }
    let mut full: Vec<u8> = slice_to_vec(base);
    if base.len() > 0 && base[base.len() - 1] != SEPARATOR {
        full.push(SEPARATOR);
    }
    full.extend_from_slice(other);
    full
}

fn find_last_piece(p: &[u8], lo: usize, hi: usize) -> (at: usize)
    requires
        lo <= hi <= p@.len(),
    ensures
        at == last_piece(p@, lo as int, hi as int),
        lo <= at <= hi,
{
    let mut i: usize = hi;
    while i > lo && p[i - 1] != SEPARATOR
        invariant
            lo <= i <= hi <= p@.len(),
            last_piece(p@, lo as int, i as int) == last_piece(p@, lo as int, hi as int),
        decreases i,
    {
        i = i - 1;
    }
    i
}

fn find_without_last(p: &[u8], lo: usize, hi: usize) -> (at: usize)
    requires
        lo < hi <= p@.len(),
    ensures
        at == without_last(p@, lo as int, hi as int),
        lo <= at < hi,
{
    proof {
        lemma_last_piece(p@, lo as int, hi as int);
    }
    let start: usize = find_last_piece(p, lo, hi);
    if start > lo {
        start - 1
    } else {
        lo
    }
}

fn find_trim_end(p: &[u8], lo: usize, hi: usize) -> (end: usize)
    requires
        lo <= hi <= p@.len(),
    ensures
        end == trim_end(p@, lo as int, hi as int),
        lo <= end <= hi,
{
    let mut end: usize = hi;
    while end > lo
        invariant
            lo <= end <= hi <= p@.len(),
            trim_end(p@, lo as int, end as int) == trim_end(p@, lo as int, hi as int),
        decreases end,
    {
        let start: usize = find_last_piece(p, lo, end);
        if !blank(p, start, end) {
            return end;
        }
        end = find_without_last(p, lo, end);
    }
    end
}

fn find_trim_start(p: &[u8], from: usize) -> (at: usize)
    requires
        from <= p@.len(),
    ensures
        at == trim_start(p@, from as int),
        from <= at <= p@.len(),
{
    let mut i: usize = from;
    while i < p.len()
        invariant
            from <= i <= p@.len(),
            trim_start(p@, i as int) == trim_start(p@, from as int),
        decreases p@.len() - i,
    {
        let sep: usize = find_sep(p, i);
        if !blank(p, i, sep) {
            return i;
        }
        proof {
            lemma_next_piece(p@, i as int);
        }
        i = next_start(p, sep);
    }
    i
}

fn find_skip_parts(p: &[u8], from: usize, count: usize) -> (at: usize)
    requires
        from <= p@.len(),
    ensures
        at == skip_parts(p@, from as int, count as int),
        from <= at <= p@.len(),
{
    let mut i: usize = from;
    let mut left: usize = count;
    while i < p.len() && left > 0
        invariant
            from <= i <= p@.len(),
            skip_parts(p@, i as int, left as int) == skip_parts(p@, from as int, count as int),
        decreases p@.len() - i,
    {
        let sep: usize = find_sep(p, i);
        if !blank(p, i, sep) {
            left = left - 1;
        }
        proof {
            lemma_next_piece(p@, i as int);
        }
        i = next_start(p, sep);
    }
    i
}

/// The path without the blank pieces at its end.
pub fn bare(p: &[u8]) -> (res: Vec<u8>)
    ensures
        res@ == bare_spec(p@),
{
    let end: usize = find_trim_end(p, find_body(p), p.len());
    assert(p@.take(end as int) =~= p@.subrange(0, end as int));
    slice_to_vec(slice_subrange(p, 0, end))
}

/// The path without its last component.
pub fn parent(p: &[u8]) -> (res: Option<Vec<u8>>)
    ensures
        match res {
            Some(up) => parent_spec(p@) == Some(up@),
            None => parent_spec(p@) is None,
        },
{
    let lo: usize = find_body(p);
    let end: usize = find_trim_end(p, lo, p.len());
    if end > lo {
        let cut: usize = find_without_last(p, lo, end);
        let up: usize = find_trim_end(p, lo, cut);
        assert(p@.take(up as int) =~= p@.subrange(0, up as int));
        Some(slice_to_vec(slice_subrange(p, 0, up)))
    } else if has_opening_dot(p) {
        let none: Vec<u8> = Vec::new();
        Some(none)
    } else {
        None
    }
}

/// The last component of the path, when it is a name.
pub fn file_name(p: &[u8]) -> (res: Option<Vec<u8>>)
    ensures
        match res {
            Some(name) => file_name_spec(p@) == Some(name@),
            None => file_name_spec(p@) is None,
        },
{
    let mut parts = components(p);
    let ghost all = parts@;
    match parts.pop() {
        Some(last) => {
            assert(component_views(all).last() == last@);
            match last {
                Component::Normal(name) => Some(name),
                _ => None,
            }
        },
        None => None,
    }
}

/// What is left of `p` behind `base`.
pub fn strip_prefix(p: &[u8], base: &[u8]) -> (res: Option<Vec<u8>>)
    ensures
        match res {
            Some(rest) => strip_prefix_spec(p@, base@) == Some(rest@),
            None => strip_prefix_spec(p@, base@) is None,
        },
{
    if !starts_with(p, base) {
        return None;
    }
    let count: usize = components(base).len();
    let lo: usize = find_body(p);
    if count == 0 {
        let end: usize = find_trim_end(p, lo, p.len());
        assert(p@.take(end as int) =~= p@.subrange(0, end as int));
        return Some(slice_to_vec(slice_subrange(p, 0, end)));
    }
    assert(head(p@).len() == lo);
    let from: usize = find_trim_start(p, find_skip_parts(p, lo, count - lo));
    let end: usize = find_trim_end(p, from, p.len());
    Some(slice_to_vec(slice_subrange(p, from, end)))
}

// ---------------------------------------------------------------------------
// Laws
// ---------------------------------------------------------------------------

proof fn lemma_sep_from_ends_a_piece(p: Seq<u8>, i: int)
    requires
        0 <= i <= p.len(),
    ensures
        forall|k: int| i <= k < sep_from(p, i) ==> p[k] != SEPARATOR,
        sep_from(p, i) < p.len() ==> p[sep_from(p, i)] == SEPARATOR,
    decreases p.len() - i,
{
    lemma_sep_from(p, i);
    if i < p.len() && p[i] != SEPARATOR {
        lemma_sep_from_ends_a_piece(p, i + 1);
    }
}

proof fn lemma_sep_from_is(p: Seq<u8>, i: int, at: int)
    requires
        0 <= i <= at <= p.len(),
        forall|k: int| i <= k < at ==> p[k] != SEPARATOR,
        at < p.len() ==> p[at] == SEPARATOR,
    ensures
        sep_from(p, i) == at,
    decreases at - i,
{
    if i < at {
        lemma_sep_from_is(p, i + 1, at);
    }
}

proof fn lemma_parts_behind(a: Seq<u8>, b: Seq<u8>, i: int)
    requires
        0 <= i <= b.len(),
    ensures
        parts_from(a + b, a.len() + i) == parts_from(b, i),
    decreases b.len() - i,
{
    let p = a + b;
    if i < b.len() {
        let at = sep_from(b, i);
        lemma_sep_from(b, i);
        lemma_next_piece(b, i);
        lemma_sep_from_ends_a_piece(b, i);
        assert forall|k: int| a.len() + i <= k < a.len() + at implies p[k] != SEPARATOR by {
            assert(p[k] == b[k - a.len()]);
        }
        lemma_sep_from_is(p, a.len() + i, a.len() + at);
        assert(p.subrange(a.len() + i, a.len() + at) =~= b.subrange(i, at));
        lemma_parts_behind(a, b, next_piece(b, i));
    }
}

proof fn lemma_parts_around_separator(a: Seq<u8>, b: Seq<u8>, i: int)
    requires
        0 <= i <= a.len(),
    ensures
        parts_from(a.push(SEPARATOR) + b, i) == parts_from(a, i) + parts_from(b, 0),
    decreases a.len() - i,
{
    let front = a.push(SEPARATOR);
    let p = front + b;
    let at = sep_from(a, i);
    lemma_sep_from(a, i);
    lemma_sep_from_ends_a_piece(a, i);
    assert forall|k: int| i <= k < at implies p[k] != SEPARATOR by {
        assert(p[k] == a[k]);
    }
    assert(p[at] == SEPARATOR);
    lemma_sep_from_is(p, i, at);
    assert(p.subrange(i, at) =~= a.subrange(i, at));
    if at < a.len() {
        lemma_parts_around_separator(a, b, at + 1);
    } else {
        lemma_parts_behind(front, b, 0);
        assert(parts_from(a, a.len() as int) =~= Seq::<ComponentView>::empty());
        assert(parts_from(a, i) =~= piece_parts(a.subrange(i, at))) by {
            if i == a.len() {
                assert(a.subrange(i, at) =~= Seq::<u8>::empty());
            }
        }
    }
    assert(parts_from(p, i) =~= parts_from(a, i) + parts_from(b, 0));
}

/// Whether none of the components climbs to a parent.
pub open spec fn no_parent_dir(parts: Seq<ComponentView>) -> bool {
    forall|k: int| 0 <= k < parts.len() ==> parts[k] != ComponentView::ParentDir
}

/// Whether every component is a name.
pub open spec fn all_names(parts: Seq<ComponentView>) -> bool {
    forall|k: int| 0 <= k < parts.len() ==> (#[trigger] parts[k]) is Normal
}

proof fn lemma_parts_kinds(p: Seq<u8>, i: int)
    requires
        0 <= i <= p.len(),
    ensures
        forall|k: int|
            0 <= k < parts_from(p, i).len() ==> {
                ||| (#[trigger] parts_from(p, i)[k]) is ParentDir
                ||| parts_from(p, i)[k] is Normal
            },
    decreases p.len() - i,
{
    if i < p.len() {
        lemma_next_piece(p, i);
        lemma_parts_kinds(p, next_piece(p, i));
    }
}

/// A relative path is its opening `.`, if it has one, and then its pieces.
pub proof fn law_relative_components(rel: Seq<u8>)
    requires
        !is_absolute_spec(rel),
    ensures
        components_spec(rel) == head(rel) + parts_from(rel, 0),
        no_parent_dir(components_spec(rel)) == all_names(parts_from(rel, 0)),
{
    if opens_with_dot(rel) {
        assert(rel[0] != SEPARATOR);
        lemma_sep_from_is(rel, 0, 1);
        assert(is_blank(rel.subrange(0, 1)));
        if rel.len() > 1 {
            lemma_sep_from_is(rel, 1, 1);
            assert(rel.subrange(1, 1) =~= Seq::<u8>::empty());
            assert(next_piece(rel, 1) == 2);
            assert(parts_from(rel, 1) =~= parts_from(rel, 2));
            assert(parts_from(rel, 0) =~= parts_from(rel, 2));
        } else {
            assert(parts_from(rel, 1) =~= Seq::<ComponentView>::empty());
            assert(parts_from(rel, 0) =~= Seq::<ComponentView>::empty());
        }
    }
    lemma_parts_kinds(rel, 0);
    let all = components_spec(rel);
    let parts = parts_from(rel, 0);
    assert(all == head(rel) + parts);
    if no_parent_dir(all) {
        assert forall|k: int| 0 <= k < parts.len() implies (#[trigger] parts[k]) is Normal by {
            assert(all[head(rel).len() + k] == parts[k]);
        }
    }
    if all_names(parts) {
        assert forall|k: int| 0 <= k < all.len() implies all[k] != ComponentView::ParentDir by {
            if k >= head(rel).len() {
                assert(all[k] == parts[k - head(rel).len()]);
            }
        }
    }
}

/// Joining keeps the components of the base in front and puts the pieces of the
/// relative path behind them.
pub proof fn law_join_components(base: Seq<u8>, rel: Seq<u8>)
    requires
        !is_absolute_spec(rel),
    ensures
        base.len() > 0 ==> components_spec(join_spec(base, rel)) == components_spec(base)
            + parts_from(rel, 0),
        base.len() == 0 ==> components_spec(join_spec(base, rel)) == components_spec(rel),
        starts_with_spec(join_spec(base, rel), base),
{
    let full = join_spec(base, rel);
    if base.len() == 0 {
        assert(full =~= rel);
        assert(components_spec(base) =~= Seq::<ComponentView>::empty());
        assert(components_spec(base).is_prefix_of(components_spec(full)));
    } else {
        let lo = body_start(base);
        if base.last() != SEPARATOR {
            lemma_parts_around_separator(base, rel, lo);
        } else {
            let stem = base.drop_last();
            assert(stem.push(SEPARATOR) =~= base);
            assert(stem.push(SEPARATOR) + rel =~= full);
            if lo <= stem.len() {
                lemma_parts_around_separator(stem, rel, lo);
                lemma_parts_around_separator(stem, Seq::empty(), lo);
                assert(stem.push(SEPARATOR) + Seq::<u8>::empty() =~= base);
                assert(parts_from(Seq::<u8>::empty(), 0) =~= Seq::<ComponentView>::empty());
                assert(parts_from(base, lo) =~= parts_from(stem, lo));
            } else {
                assert(base.len() == 1);
                lemma_parts_behind(base, rel, 0);
                assert(parts_from(base, lo) =~= Seq::<ComponentView>::empty());
            }
        }
        assert(full[0] == base[0]);
        assert(head(full) == head(base));
        assert(body_start(full) == lo);
        assert(components_spec(full) =~= components_spec(base) + parts_from(rel, 0));
        assert(components_spec(base) =~= components_spec(full).subrange(
            0,
            components_spec(base).len() as int,
        ));
    }
}

proof fn lemma_last_piece_is_whole(p: Seq<u8>, lo: int, hi: int)
    requires
        0 <= lo <= hi <= p.len(),
    ensures
        forall|k: int| last_piece(p, lo, hi) <= k < hi ==> p[k] != SEPARATOR,
        last_piece(p, lo, hi) > lo ==> p[last_piece(p, lo, hi) - 1] == SEPARATOR,
    decreases hi - lo,
{
    if lo < hi && p[hi - 1] != SEPARATOR {
        lemma_last_piece_is_whole(p, lo, hi - 1);
    }
}

proof fn lemma_single_piece(piece: Seq<u8>)
    requires
        forall|k: int| 0 <= k < piece.len() ==> piece[k] != SEPARATOR,
    ensures
        parts_from(piece, 0) == piece_parts(piece),
{
    lemma_sep_from_is(piece, 0, piece.len() as int);
    assert(piece.subrange(0, piece.len() as int) =~= piece);
    assert(parts_from(piece, piece.len() as int) =~= Seq::<ComponentView>::empty());
    assert(parts_from(piece, 0) =~= piece_parts(piece));
}

proof fn lemma_parts_without_last(p: Seq<u8>, lo: int, hi: int)
    requires
        0 <= lo < hi <= p.len(),
    ensures
        parts_from(p.take(hi), lo) == parts_from(p.take(without_last(p, lo, hi)), lo)
            + piece_parts(p.subrange(last_piece(p, lo, hi), hi)),
{
    let s = last_piece(p, lo, hi);
    let piece = p.subrange(s, hi);
    lemma_last_piece(p, lo, hi);
    lemma_last_piece_is_whole(p, lo, hi);
    lemma_single_piece(piece);
    if s > lo {
        let front = p.take(s - 1);
        lemma_parts_around_separator(front, piece, lo);
        assert(front.push(SEPARATOR) + piece =~= p.take(hi));
    } else {
        let front = p.take(lo);
        lemma_parts_behind(front, piece, 0);
        assert(front + piece =~= p.take(hi));
        assert(parts_from(front, lo) =~= Seq::<ComponentView>::empty());
        assert(parts_from(p.take(hi), lo) =~= parts_from(front, lo) + piece_parts(piece));
    }
}

proof fn lemma_trim_end_keeps_parts(p: Seq<u8>, lo: int, hi: int)
    requires
        0 <= lo <= hi <= p.len(),
    ensures
        parts_from(p.take(trim_end(p, lo, hi)), lo) == parts_from(p.take(hi), lo),
        trim_end(p, lo, hi) > lo ==> !is_blank(
            p.subrange(last_piece(p, lo, trim_end(p, lo, hi)), trim_end(p, lo, hi)),
        ),
    decreases hi - lo,
{
    if lo < hi {
        lemma_last_piece(p, lo, hi);
        lemma_parts_without_last(p, lo, hi);
        if is_blank(p.subrange(last_piece(p, lo, hi), hi)) {
            lemma_trim_end_keeps_parts(p, lo, without_last(p, lo, hi));
            assert(parts_from(p.take(hi), lo) =~= parts_from(
                p.take(without_last(p, lo, hi)),
                lo,
            ));
        }
    }
}

proof fn lemma_take_keeps_head(p: Seq<u8>, n: int)
    requires
        body_start(p) <= n <= p.len(),
        opens_with_dot(p) || is_absolute_spec(p) || n == 0 || p[0] != DOT || n > 1,
    ensures
        head(p.take(n)) == head(p),
        body_start(p.take(n)) == body_start(p),
{
}

proof fn lemma_last_piece_within(p: Seq<u8>, lo: int, hi: int, n: int)
    requires
        0 <= lo <= hi <= n <= p.len(),
    ensures
        last_piece(p.take(n), lo, hi) == last_piece(p, lo, hi),
    decreases hi - lo,
{
    if lo < hi && p[hi - 1] != SEPARATOR {
        lemma_last_piece_within(p, lo, hi - 1, n);
    }
}

proof fn lemma_trimmed_is_bare(p: Seq<u8>, hi: int)
    requires
        body_start(p) <= hi <= p.len(),
    ensures
        ({
            let cut = p.take(trim_end(p, body_start(p), hi));
            &&& head(cut) == head(p)
            &&& body_start(cut) == body_start(p)
            &&& bare_spec(cut) == cut
        }),
{
    let lo = body_start(p);
    let n = trim_end(p, lo, hi);
    let cut = p.take(n);
    lemma_trim_end(p, lo, hi);
    lemma_trim_end_keeps_parts(p, lo, hi);
    if lo == 0 && n == 1 && p[0] == DOT {
        assert(last_piece(p, 0, 0) == 0);
        assert(last_piece(p, 0, 1) == 0);
        assert(is_blank(p.subrange(0, 1)));
    }
    lemma_take_keeps_head(p, n);
    if n > lo {
        lemma_last_piece(p, lo, n);
        lemma_last_piece_within(p, lo, n, n);
        assert(cut.subrange(last_piece(p, lo, n), n) =~= p.subrange(last_piece(p, lo, n), n));
    }
    assert(cut.take(n) =~= cut);
}

/// Blank pieces at the end of a path carry no meaning; once they are gone, none are left.
pub proof fn law_bare_keeps_components(p: Seq<u8>)
    ensures
        components_spec(bare_spec(p)) == components_spec(p),
        bare_spec(bare_spec(p)) == bare_spec(p),
        is_absolute_spec(p) ==> is_absolute_spec(bare_spec(p)),
{
    let lo = body_start(p);
    let len = p.len() as int;
    lemma_trim_end(p, lo, len);
    lemma_trim_end_keeps_parts(p, lo, len);
    lemma_trimmed_is_bare(p, len);
    assert(p.take(len) =~= p);
}

/// A path's parent has all of its components but the last, and that one is never
/// the root. It has no blank pieces at its end.
pub proof fn law_parent_drops_last(p: Seq<u8>)
    ensures
        parent_spec(p) is Some <==> {
            &&& components_spec(p).len() > 0
            &&& !(components_spec(p).last() is RootDir)
        },
        parent_spec(p) matches Some(up) ==> {
            &&& components_spec(up) == components_spec(p).drop_last()
            &&& bare_spec(up) == up
            &&& is_absolute_spec(p) ==> is_absolute_spec(up)
        },
{
    let lo = body_start(p);
    let len = p.len() as int;
    let end = trim_end(p, lo, len);
    let all = components_spec(p);
    assert(p.take(len) =~= p);
    lemma_trim_end(p, lo, len);
    lemma_trim_end_keeps_parts(p, lo, len);
    if end > lo {
        let cut = without_last(p, lo, end);
        let up = p.take(trim_end(p, lo, cut));
        let piece = p.subrange(last_piece(p, lo, end), end);
        lemma_last_piece(p, lo, end);
        lemma_trim_end(p, lo, cut);
        lemma_trim_end_keeps_parts(p, lo, cut);
        lemma_parts_without_last(p, lo, end);
        assert(piece_parts(piece).len() == 1);
        assert(parts_from(p, lo) == parts_from(p.take(cut), lo) + piece_parts(piece));
        assert(parts_from(up, lo) == parts_from(p, lo).drop_last());
        lemma_trimmed_is_bare(p, cut);
        assert(components_spec(up) =~= all.drop_last());
        assert(!(all.last() is RootDir));
    } else {
        assert(parts_from(p.take(lo), lo) =~= Seq::<ComponentView>::empty());
        assert(all =~= head(p));
        if opens_with_dot(p) {
            assert(components_spec(Seq::<u8>::empty()) =~= Seq::<ComponentView>::empty());
            assert(all.drop_last() =~= Seq::<ComponentView>::empty());
            assert(bare_spec(Seq::<u8>::empty()) =~= Seq::<u8>::empty());
        }
    }
}

proof fn lemma_skip_parts_drops(p: Seq<u8>, i: int, count: int)
    requires
        0 <= i <= p.len(),
        0 <= count <= parts_from(p, i).len(),
    ensures
        parts_from(p, skip_parts(p, i, count)) == parts_from(p, i).skip(count),
    decreases p.len() - i,
{
    if i < p.len() && count > 0 {
        let next = next_piece(p, i);
        let piece = p.subrange(i, sep_from(p, i));
        lemma_next_piece(p, i);
        if is_blank(piece) {
            assert(parts_from(p, i) =~= parts_from(p, next));
            lemma_skip_parts_drops(p, next, count);
        } else {
            assert(piece_parts(piece).len() == 1);
            lemma_skip_parts_drops(p, next, count - 1);
            assert(parts_from(p, i).skip(count) =~= parts_from(p, next).skip(count - 1));
        }
    } else {
        assert(parts_from(p, i).skip(count) =~= parts_from(p, i));
    }
}

proof fn lemma_trim_start_keeps_parts(p: Seq<u8>, i: int)
    requires
        0 <= i <= p.len(),
    ensures
        parts_from(p, trim_start(p, i)) == parts_from(p, i),
        trim_start(p, i) < p.len() ==> !is_blank(
            p.subrange(trim_start(p, i), sep_from(p, trim_start(p, i))),
        ),
    decreases p.len() - i,
{
    if i < p.len() {
        lemma_next_piece(p, i);
        if is_blank(p.subrange(i, sep_from(p, i))) {
            assert(parts_from(p, i) =~= parts_from(p, next_piece(p, i)));
            lemma_trim_start_keeps_parts(p, next_piece(p, i));
        }
    }
}

proof fn lemma_last_piece_of_rest(p: Seq<u8>, from: int, end: int, hi: int)
    requires
        0 <= from <= hi <= end <= p.len(),
    ensures
        last_piece(p.subrange(from, end), 0, hi - from) == last_piece(p, from, hi) - from,
    decreases hi - from,
{
    if from < hi && p[hi - 1] != SEPARATOR {
        lemma_last_piece_of_rest(p, from, end, hi - 1);
    }
}

/// What is left of a path behind one of its leading parts has exactly the
/// components that follow that part, and no blank pieces at its end.
pub proof fn law_strip_prefix_keeps_rest(p: Seq<u8>, base: Seq<u8>)
    ensures
        strip_prefix_spec(p, base) is Some <==> starts_with_spec(p, base),
        strip_prefix_spec(p, base) matches Some(rest) ==> {
            &&& components_spec(rest) == components_spec(p).skip(
                components_spec(base).len() as int,
            )
            &&& bare_spec(rest) == rest
            &&& components_spec(base).len() > 0 ==> head(rest).len() == 0
        },
{
    let lo = body_start(p);
    let len = p.len() as int;
    let count = components_spec(base).len() as int;
    let all = components_spec(p);
    assert(p.take(len) =~= p);
    if starts_with_spec(p, base) {
        if count == 0 {
            let end = trim_end(p, lo, len);
            lemma_trim_end(p, lo, len);
            lemma_trim_end_keeps_parts(p, lo, len);
            lemma_trimmed_is_bare(p, len);
            assert(all.skip(0) =~= all);
        } else {
            let drop = count - head(p).len();
            let at = skip_parts(p, lo, drop);
            let from = trim_start(p, at);
            let end = trim_end(p, from, len);
            let rest = p.subrange(from, end);
            lemma_skip_parts(p, lo, drop);
            lemma_skip_parts_drops(p, lo, drop);
            lemma_trim_start(p, at);
            lemma_trim_start_keeps_parts(p, at);
            lemma_trim_end(p, from, len);
            lemma_trim_end_keeps_parts(p, from, len);
            lemma_parts_behind(p.take(from), rest, 0);
            assert(p.take(from) + rest =~= p.take(end));
            assert(parts_from(rest, 0) == all.skip(count)) by {
                assert(all.skip(count) =~= parts_from(p, lo).skip(drop));
            }
            if rest.len() > 0 {
                lemma_sep_from(p, from);
                lemma_sep_from_ends_a_piece(p, from);
                assert(rest[0] == p[from]);
                if is_absolute_spec(rest) {
                    lemma_sep_from_is(p, from, from);
                    assert(false);
                }
                if opens_with_dot(rest) {
                    if rest.len() > 1 {
                        assert(p[from + 1] == rest[1]);
                        lemma_sep_from_is(p, from, from + 1);
                    } else {
                        assert(p[from] == DOT);
                        assert(last_piece(p, from, from) == from);
                        assert(last_piece(p, from, end) == from);
                        assert(is_blank(p.subrange(from, end)));
                    }
                    assert(false);
                }
            }
            assert(components_spec(rest) =~= parts_from(rest, 0));
            if rest.len() > 0 {
                let s = last_piece(p, from, end);
                lemma_last_piece(p, from, end);
                lemma_last_piece_of_rest(p, from, end, end);
                assert(rest.subrange(s - from, end - from) =~= p.subrange(s, end));
            }
            assert(bare_spec(rest) =~= rest);
        }
    }
}

/// Whether the path is written as that of a directory: with blank pieces behind its last
/// name.
pub open spec fn names_directory(p: Seq<u8>) -> bool {
    bare_spec(p) != p && !(components_spec(p).last() is RootDir)
}

/// Whether two paths are written alike: with the same components, and both or neither as
/// the path of a directory.
pub open spec fn alike(p: Seq<u8>, q: Seq<u8>) -> bool {
    components_spec(p) == components_spec(q) && names_directory(p) == names_directory(q)
}

/// The last piece of a relative path.
pub open spec fn ending(rel: Seq<u8>) -> Seq<u8> {
    rel.skip(last_piece(rel, 0, rel.len() as int))
}

proof fn lemma_last_piece_behind(a: Seq<u8>, b: Seq<u8>, lo: int, h: int)
    requires
        0 <= lo <= a.len(),
        0 < a.len(),
        a.last() == SEPARATOR,
        0 <= h <= b.len(),
    ensures
        last_piece(a + b, lo, a.len() + h) == a.len() + last_piece(b, 0, h),
    decreases h,
{
    if h > 0 {
        assert((a + b)[a.len() + h - 1] == b[h - 1]);
        if b[h - 1] != SEPARATOR {
            lemma_last_piece_behind(a, b, lo, h - 1);
        }
    } else {
        assert((a + b)[a.len() - 1] == SEPARATOR);
    }
}

proof fn lemma_bare_by_ending(a: Seq<u8>, rel: Seq<u8>)
    requires
        0 < a.len(),
        a.last() == SEPARATOR,
        a.len() + rel.len() > body_start(a + rel),
    ensures
        bare_spec(a + rel) == a + rel <==> !is_blank(ending(rel)),
{
    let p = a + rel;
    let lo = body_start(p);
    let len = p.len() as int;
    let s = last_piece(p, lo, len);
    lemma_last_piece_behind(a, rel, lo, rel.len() as int);
    lemma_last_piece(p, lo, len);
    lemma_last_piece(rel, 0, rel.len() as int);
    assert(p.subrange(s, len) =~= ending(rel));
    assert(p.take(len) =~= p);
    if is_blank(ending(rel)) {
        lemma_trim_end(p, lo, without_last(p, lo, len));
        assert(bare_spec(p).len() < p.len());
    }
}

/// Below a directory, a path is written as that of a directory exactly when its last piece
/// is blank; and it stays alike when other pieces in front of that are.
pub proof fn law_join_alike(base: Seq<u8>, rel: Seq<u8>, other: Seq<u8>)
    requires
        base.len() > 0,
        !is_absolute_spec(rel),
        !is_absolute_spec(other),
        parts_from(rel, 0) == parts_from(other, 0),
        is_blank(ending(rel)) == is_blank(ending(other)),
    ensures
        alike(join_spec(base, rel), join_spec(base, other)),
{
    let front = if base.last() == SEPARATOR {
        base
    } else {
        base.push(SEPARATOR)
    };
    law_join_components(base, rel);
    law_join_components(base, other);
    assert(join_spec(base, rel) == front + rel);
    assert(join_spec(base, other) == front + other);
    let parts = components_spec(join_spec(base, rel));
    if front.len() + rel.len() > body_start(front + rel) {
        lemma_bare_by_ending(front, rel);
    }
    if front.len() + other.len() > body_start(front + other) {
        lemma_bare_by_ending(front, other);
    }
    if front.len() + rel.len() <= body_start(front + rel) || front.len() + other.len()
        <= body_start(front + other) {
        assert(front.len() == 1);
        assert(base =~= front);
        assert(parts_from(base, 1) =~= Seq::<ComponentView>::empty());
        assert(parts_from(rel, 0) =~= Seq::<ComponentView>::empty()) by {
            if rel.len() == 0 {
                assert(parts_from(rel, 0).len() == 0);
            } else {
                assert(parts_from(other, 0).len() == 0);
            }
        }
        assert(components_spec(base) =~= seq![ComponentView::RootDir]);
        assert(parts =~= seq![ComponentView::RootDir]);
    }
}

/// What is left of a path behind a leading part, taken from that part again, has the path's
/// components, and unless nothing was left it is written alike.
pub proof fn law_strip_then_join(p: Seq<u8>, base: Seq<u8>)
    requires
        is_absolute_spec(base),
        starts_with_spec(p, base),
        bare_spec(p) == p,
    ensures
        strip_prefix_spec(p, base) matches Some(rest) && {
            &&& !is_absolute_spec(rest)
            &&& components_spec(rest) == components_spec(p).skip(
                components_spec(base).len() as int,
            )
            &&& components_spec(join_spec(base, rest)) == components_spec(p)
            &&& rest.len() > 0 ==> alike(join_spec(base, rest), p)
        },
{
    law_strip_prefix_keeps_rest(p, base);
    let rest = strip_prefix_spec(p, base)->0;
    let count = components_spec(base).len() as int;
    assert(components_spec(base)[0] is RootDir);
    assert(head(rest).len() == 0);
    assert(components_spec(rest) =~= parts_from(rest, 0));
    law_join_components(base, rest);
    assert(components_spec(p).take(count) =~= components_spec(base));
    assert(components_spec(join_spec(base, rest)) =~= components_spec(p));
    if rest.len() > 0 {
        let front = if base.last() == SEPARATOR {
            base
        } else {
            base.push(SEPARATOR)
        };
        let len = rest.len() as int;
        assert(join_spec(base, rest) == front + rest);
        lemma_last_piece(rest, 0, len);
        assert(ending(rest) =~= rest.subrange(last_piece(rest, 0, len), len));
        if is_blank(ending(rest)) {
            lemma_trim_end(rest, 0, without_last(rest, 0, len));
            assert(bare_spec(rest).len() < rest.len());
        }
        lemma_bare_by_ending(front, rest);
    }
}

/// A path is absolute exactly when its first byte is `/`.
pub proof fn law_absolute_paths(p: Seq<u8>)
    ensures
        is_absolute_spec(p) <==> p.len() > 0 && p[0] == 0x2f,
{
}

/// A path of one piece, without a `/`, has the component that the piece stands for: none when
/// it is empty, the current directory for `.`, the parent for `..`, and else its name, byte
/// for byte. The path `/` is the root.
pub proof fn law_single_components(piece: Seq<u8>)
    requires
        forall|k: int| 0 <= k < piece.len() ==> piece[k] != 0x2f,
    ensures
        components_spec(piece) == if piece.len() == 0 {
            Seq::<ComponentView>::empty()
        } else if piece == seq![0x2eu8] {
            seq![ComponentView::CurDir]
        } else if piece == seq![0x2eu8, 0x2eu8] {
            seq![ComponentView::ParentDir]
        } else {
            seq![ComponentView::Normal(piece)]
        },
        components_spec(seq![0x2fu8]) == seq![ComponentView::RootDir],
{
    lemma_single_piece(piece);
    assert(parts_from(seq![0x2fu8], 1) =~= Seq::<ComponentView>::empty());
    assert(components_spec(seq![0x2fu8]) =~= seq![ComponentView::RootDir]);
    if piece.len() == 0 {
        assert(components_spec(piece) =~= Seq::<ComponentView>::empty());
    } else if opens_with_dot(piece) {
        assert(piece.len() == 1);
        assert(piece =~= seq![0x2eu8]);
        assert(parts_from(piece, 1) =~= Seq::<ComponentView>::empty());
        assert(components_spec(piece) =~= seq![ComponentView::CurDir]);
    } else {
        assert(components_spec(piece) =~= piece_parts(piece));
        if piece.len() == 1 && piece[0] == DOT {
            assert(false);
        }
        if piece.len() == 2 && piece[0] == DOT && piece[1] == DOT {
            assert(piece =~= seq![0x2eu8, 0x2eu8]);
        }
    }
}

/// A path written behind another, with a `/` in between, has the components of both; only an
/// opening `.` of the second one is passed over.
pub proof fn law_components_add_up(front: Seq<u8>, back: Seq<u8>)
    requires
        front.len() > 0,
    ensures
        ({
            let after = if is_absolute_spec(back) {
                components_spec(back).skip(1)
            } else if components_spec(back).len() > 0 && components_spec(back)[0] is CurDir {
                components_spec(back).skip(1)
            } else {
                components_spec(back)
            };
            components_spec(front + seq![0x2fu8] + back) == components_spec(front) + after
        }),
{
    let p = front + seq![0x2fu8] + back;
    let lo = body_start(front);
    assert(p =~= front.push(SEPARATOR) + back);
    assert(p[0] == front[0]);
    assert(head(p) == head(front));
    lemma_parts_around_separator(front, back, lo);
    lemma_parts_kinds(back, 0);
    if is_absolute_spec(back) {
        lemma_sep_from_is(back, 0, 0);
        assert(back.subrange(0, 0) =~= Seq::<u8>::empty());
        assert(parts_from(back, 0) =~= parts_from(back, 1));
        assert(components_spec(back).skip(1) =~= parts_from(back, 0));
    } else {
        law_relative_components(back);
        if opens_with_dot(back) {
            assert(components_spec(back)[0] is CurDir);
            assert(components_spec(back).skip(1) =~= parts_from(back, 0));
        } else {
            assert(components_spec(back) =~= parts_from(back, 0));
            if components_spec(back).len() > 0 {
                assert(parts_from(back, 0)[0] is ParentDir || parts_from(back, 0)[0] is Normal);
            }
        }
    }
    assert(components_spec(p) =~= components_spec(front) + parts_from(back, 0));
}

/// A path written behind the root begins at the root and goes on with its own components; only
/// an opening `.` is passed over.
pub proof fn law_components_behind_root(back: Seq<u8>)
    requires
        !is_absolute_spec(back),
    ensures
        components_spec(seq![0x2fu8] + back) == seq![ComponentView::RootDir] + if components_spec(
            back,
        ).len() > 0 && components_spec(back)[0] is CurDir {
            components_spec(back).skip(1)
        } else {
            components_spec(back)
        },
{
    let p = seq![0x2fu8] + back;
    lemma_parts_behind(seq![0x2fu8], back, 0);
    lemma_parts_kinds(back, 0);
    law_relative_components(back);
    if opens_with_dot(back) {
        assert(components_spec(back)[0] is CurDir);
        assert(components_spec(back).skip(1) =~= parts_from(back, 0));
    } else {
        assert(components_spec(back) =~= parts_from(back, 0));
        if components_spec(back).len() > 0 {
            assert(parts_from(back, 0)[0] is ParentDir || parts_from(back, 0)[0] is Normal);
        }
    }
    assert(components_spec(p) =~= seq![ComponentView::RootDir] + parts_from(back, 0));
}

/// What is left of a path behind a leading part stands in the path as it is.
pub proof fn law_strip_prefix_copies(p: Seq<u8>, base: Seq<u8>)
    ensures
        strip_prefix_spec(p, base) matches Some(rest) ==> exists|from: int|
            0 <= from <= from + rest.len() <= p.len() && rest == #[trigger] p.subrange(
                from,
                from + rest.len() as int,
            ),
{
    if let Some(rest) = strip_prefix_spec(p, base) {
        let lo = body_start(p);
        let len = p.len() as int;
        let count = components_spec(base).len() as int;
        if count == 0 {
            lemma_trim_end(p, lo, len);
            assert(rest =~= p.subrange(0, 0 + rest.len() as int));
        } else {
            let at = skip_parts(p, lo, count - head(p).len());
            let from = trim_start(p, at);
            lemma_skip_parts(p, lo, count - head(p).len());
            lemma_trim_start(p, at);
            lemma_trim_end(p, from, len);
            assert(rest =~= p.subrange(from, from + rest.len() as int));
        }
    }
}

/// Joining writes one path behind the other, with exactly one `/` added where none is; an
/// absolute path stands for itself.
pub proof fn law_join_bytes(base: Seq<u8>, other: Seq<u8>)
    ensures
        other.len() > 0 && other[0] == 0x2f ==> join_spec(base, other) == other,
        !(other.len() > 0 && other[0] == 0x2f) ==> join_spec(base, other) == if base.len() == 0
            || base[base.len() - 1] == 0x2f {
            base + other
        } else {
            base + seq![0x2fu8] + other
        },
{
    assert(base.push(SEPARATOR) + other =~= base + seq![0x2fu8] + other);
}

/// One path leads another exactly when its components are the first of the other's.
pub proof fn law_leading_paths(p: Seq<u8>, base: Seq<u8>)
    ensures
        starts_with_spec(p, base) <==> {
            &&& components_spec(base).len() <= components_spec(p).len()
            &&& forall|i: int|
                0 <= i < components_spec(base).len() ==> components_spec(base)[i]
                    == components_spec(p)[i]
        },
{
    let f = components_spec(base);
    let w = components_spec(p);
    if f.len() <= w.len() && forall|i: int| 0 <= i < f.len() ==> f[i] == w[i] {
        assert(f =~= w.subrange(0, f.len() as int));
    }
    if starts_with_spec(p, base) {
        assert forall|i: int| 0 <= i < f.len() implies f[i] == w[i] by {
            assert(w.subrange(0, f.len() as int)[i] == w[i]);
        }
    }
}

/// The name of a path is its last component, when that is a name.
pub proof fn law_file_names(p: Seq<u8>)
    ensures
        file_name_spec(p) matches Some(name) ==> components_spec(p).len() > 0
            && components_spec(p)[components_spec(p).len() - 1] == ComponentView::Normal(name),
        file_name_spec(p) is None ==> components_spec(p).len() == 0 || !(components_spec(
            p,
        )[components_spec(p).len() - 1] is Normal),
{
}

/// A path without blank pieces at its end, and a path's parent, are written as the path
/// begins; neither ends with `/`, unless it is the root, nor with `/.`.
pub proof fn law_bare_paths_are_beginnings(p: Seq<u8>)
    ensures
        bare_spec(p).is_prefix_of(p),
        bare_spec(p).len() > 1 ==> bare_spec(p)[bare_spec(p).len() - 1] != 0x2f,
        bare_spec(p).len() > 1 ==> !(bare_spec(p)[bare_spec(p).len() - 1] == 0x2e && bare_spec(
            p,
        )[bare_spec(p).len() - 2] == 0x2f),
        parent_spec(p) matches Some(above) ==> above.is_prefix_of(p),
{
    let lo = body_start(p);
    let len = p.len() as int;
    let n = trim_end(p, lo, len);
    lemma_trim_end(p, lo, len);
    lemma_trim_end_keeps_parts(p, lo, len);
    let cut = bare_spec(p);
    assert(cut =~= p.subrange(0, n));
    if n > 1 {
        lemma_last_piece(p, lo, n);
        lemma_last_piece_is_whole(p, lo, n);
        let s = last_piece(p, lo, n);
        let piece = p.subrange(s, n);
        assert(n > lo);
        assert(!is_blank(piece));
        assert(s < n);
        if cut[n - 1] == 0x2e && cut[n - 2] == 0x2f {
            if s <= n - 2 {
                assert(p[n - 2] != SEPARATOR);
            }
            assert(s == n - 1);
            assert(piece[0] == DOT);
        }
    }
    let end = n;
    if end > lo {
        lemma_last_piece(p, lo, end);
        let up = without_last(p, lo, end);
        lemma_trim_end(p, lo, up);
        assert(p.take(trim_end(p, lo, up)) =~= p.subrange(0, trim_end(p, lo, up)));
    } else {
        assert(Seq::<u8>::empty() =~= p.subrange(0, 0));
    }
}

/// A `..` behind a name leads back to where the name began; at the root it stays there.
pub proof fn law_parents_settle_back(
    base: Seq<ComponentView>,
    name: Seq<u8>,
    rest: Seq<ComponentView>,
)
    ensures
        settled(base, seq![ComponentView::Normal(name), ComponentView::ParentDir] + rest)
            == settled(base, rest),
        settled(seq![ComponentView::RootDir], seq![ComponentView::ParentDir] + rest) == settled(
            seq![ComponentView::RootDir],
            rest,
        ),
{
    reveal_with_fuel(settled, 3);
    let parts = seq![ComponentView::Normal(name), ComponentView::ParentDir] + rest;
    assert(parts.skip(1).skip(1) =~= rest);
    assert(parts.skip(1)[0] == ComponentView::ParentDir);
    assert(base.push(ComponentView::Normal(name)).drop_last() =~= base);
    let up = seq![ComponentView::ParentDir] + rest;
    assert(up.skip(1) =~= rest);
}

/// From a directory, names lead to what is named behind it.
pub proof fn law_names_settle_below(base: Seq<ComponentView>, rest: Seq<ComponentView>)
    requires
        all_names(rest),
    ensures
        settled(base, rest) == base + rest,
    decreases rest.len(),
{
    if rest.len() > 0 {
        assert(rest[0] is Normal);
        assert forall|k: int| 0 <= k < rest.skip(1).len() implies (#[trigger] rest.skip(
            1,
        )[k]) is Normal by {
            assert(rest.skip(1)[k] == rest[k + 1]);
        }
        law_names_settle_below(base.push(rest[0]), rest.skip(1));
        assert(base.push(rest[0]) + rest.skip(1) =~= base + rest);
    } else {
        assert(base + rest =~= base);
    }
}

/// Only the empty path has no components.
pub proof fn law_paths_have_components(p: Seq<u8>)
    ensures
        components_spec(p).len() == 0 <==> p.len() == 0,
{
    if p.len() > 0 {
        if !is_absolute_spec(p) && !opens_with_dot(p) {
            lemma_sep_from(p, 0);
            lemma_sep_from_ends_a_piece(p, 0);
            let at = sep_from(p, 0);
            let piece = p.subrange(0, at);
            assert(at > 0);
            assert(piece[0] == p[0]);
            if at == 1 && at < p.len() {
                assert(p[1] == SEPARATOR);
            }
            assert(!is_blank(piece));
            assert(parts_from(p, 0).len() > 0);
        }
    } else {
        assert(parts_from(p, 0).len() == 0);
    }
}

/// The path `rel`, written from the directory where it begins.
pub open spec fn dotted(rel: Seq<u8>) -> Seq<u8> {
    seq![DOT, SEPARATOR] + rel
}

/// An opening `./` changes neither the pieces of a relative path nor its end.
pub proof fn law_dotted_is_alike(rel: Seq<u8>)
    requires
        !is_absolute_spec(rel),
    ensures
        !is_absolute_spec(dotted(rel)),
        parts_from(dotted(rel), 0) == parts_from(rel, 0),
        ending(dotted(rel)) == ending(rel),
        no_parent_dir(components_spec(dotted(rel))) == no_parent_dir(components_spec(rel)),
{
    let front = seq![DOT, SEPARATOR];
    let p = dotted(rel);
    lemma_sep_from_is(p, 0, 1);
    assert(is_blank(p.subrange(0, 1)));
    assert(next_piece(p, 0) == 2);
    lemma_parts_behind(front, rel, 0);
    assert(parts_from(p, 0) =~= parts_from(rel, 0));
    lemma_last_piece_behind(front, rel, 0, rel.len() as int);
    lemma_last_piece(rel, 0, rel.len() as int);
    assert(ending(p) =~= ending(rel));
    law_relative_components(p);
    law_relative_components(rel);
}

/// A value of [`Component`] is seen whole: as what it is, with all that it holds.
pub proof fn law_components_are_seen_whole(value: &Component)
    ensures
        value@ == (match value {
            Component::RootDir => ComponentView::RootDir,
            Component::CurDir => ComponentView::CurDir,
            Component::ParentDir => ComponentView::ParentDir,
            Component::Normal(name) => ComponentView::Normal(name@),
        }),
{
}

/// Components are seen one by one, none left out.
pub proof fn law_all_components_are_seen(parts: Seq<Component>)
    ensures
        component_views(parts).len() == parts.len(),
        forall|i: int| 0 <= i < parts.len() ==> #[trigger] component_views(parts)[i] == parts[i]@,
{
}

} // verus!
