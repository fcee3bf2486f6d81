//! Directory entries: how they are made from what the disk tells, and in which order
//! they are listed.
use crate::disk::{listed_views, FileMeta, Listed, ListedView};
use crate::outside::{lossy_text, utf8_lossy};
use crate::path::{
    alike, bare_spec, components_spec, file_name, file_name_spec, is_absolute_spec, join_spec,
    law_strip_then_join, no_parent_dir, starts_with_spec, strip_prefix, strip_prefix_spec,
};
use crate::protocol::{entry_views, DirEntry, EntryView};
use crate::sanitize::{takes_alike, verdict, DiskPaths, PathError};
use vstd::prelude::*;
use vstd::utf8::{decode_utf8, decode_utf8_encode_utf8, encode_utf8, valid_utf8};

verus! {

/// The part of `full` behind `root`, or all of it when it does not lie below `root`.
pub open spec fn relative_to(full: Seq<u8>, root: Seq<u8>) -> Seq<u8> {
    match strip_prefix_spec(full, root) {
        Some(rest) => rest,
        None => full,
    }
}

/// The text of a byte string: what it encodes, or, when it is not UTF-8, the text with
/// replacement characters.
pub open spec fn shown_text(bytes: Seq<u8>) -> Seq<char> {
    if valid_utf8(bytes) {
        decode_utf8(bytes)
    } else {
        lossy_text(bytes)
    }
}

/// An entry with this metadata. What has no name is called `/`.
pub open spec fn named_entry(
    name: Option<Seq<char>>,
    path: Seq<char>,
    meta: FileMeta,
) -> EntryView {
    EntryView {
        name: match name {
            Some(text) => text,
            None => "/"@,
        },
        path,
        is_dir: meta.is_dir,
        size: meta.size,
        modified: meta.modified,
        created: meta.created,
    }
}

/// The entry of the file at `full`, seen from `root`.
pub open spec fn entry_spec(root: Seq<u8>, full: Seq<u8>, meta: FileMeta) -> EntryView {
    named_entry(
        match file_name_spec(full) {
            Some(name) => Some(shown_text(name)),
            None => None,
        },
        shown_text(relative_to(full, root)),
        meta,
    )
}

/// The entry with this name, path and metadata.
pub fn assemble_entry(name: Option<String>, path: String, meta: FileMeta) -> (entry: DirEntry)
    ensures
        entry@ == named_entry(
            match name {
                Some(text) => Some(text@),
                None => None,
            },
            path@,
            meta,
        ),
        name matches Some(text) ==> entry.name@ == text@,
        name is None ==> entry.name@ == "/"@,
        entry.path@ == path@,
        entry.is_dir == meta.is_dir,
        entry.size == meta.size,
        entry.modified == meta.modified,
        entry.created == meta.created,
{
    let name: String = match name {
        Some(text) => text,
        None => "/".to_owned(),
    };
    DirEntry {
        name,
        path,
        is_dir: meta.is_dir,
        size: meta.size,
        modified: meta.modified,
        created: meta.created,
    }
}

/// The entry of the file at `full`, seen from `root`. Without metadata there is none.
pub fn make_entry(root: &[u8], full: &[u8], meta: Option<FileMeta>) -> (res: Option<DirEntry>)
    ensures
        res is Some <==> meta is Some,
        res matches Some(entry) ==> entry@ == entry_spec(root@, full@, meta->0),
        res matches Some(entry) ==> {
            &&& file_name_spec(full@) matches Some(name) ==> (valid_utf8(name) ==> entry.name@
                == decode_utf8(name))
            &&& valid_utf8(relative_to(full@, root@)) ==> entry.path@ == decode_utf8(
                relative_to(full@, root@),
            )
            &&& file_name_spec(full@) is None ==> entry.name@ == "/"@
        },
        res matches Some(entry) ==> (meta matches Some(told) && {
            &&& entry.is_dir == told.is_dir
            &&& entry.size == told.size
            &&& entry.modified == told.modified
            &&& entry.created == told.created
        }),
{
    match meta {
        None => None,
        Some(meta) => {
            let name: Option<String> = match file_name(full) {
                Some(bytes) => Some(utf8_lossy(bytes.as_slice())),
                None => None,
            };
            let path: String = match strip_prefix(full, root) {
                Some(rest) => utf8_lossy(rest.as_slice()),
                None => utf8_lossy(full),
            };
            Some(assemble_entry(name, path, meta))
        },
    }
}

// ---------------------------------------------------------------------------
// Order
// ---------------------------------------------------------------------------

/// Whether `a` comes no later than `b`, judged by the bytes from `i` on.
pub open spec fn bytes_le_from(a: Seq<u8>, b: Seq<u8>, i: int) -> bool
    decreases a.len() - i,
{
    if i >= a.len() {
        true
    } else if i >= b.len() {
        false
    } else if a[i] == b[i] {
        bytes_le_from(a, b, i + 1)
    } else {
        a[i] < b[i]
    }
}

/// Names are ordered by the bytes of their UTF-8 form.
pub open spec fn name_le(a: Seq<char>, b: Seq<char>) -> bool {
    bytes_le_from(encode_utf8(a), encode_utf8(b), 0)
}

/// The entries that come no later than `e`.
pub open spec fn not_after(s: Seq<EntryView>, e: EntryView) -> Seq<EntryView> {
    s.filter(|x: EntryView| name_le(x.name, e.name))
}

/// The entries that come later than `e`.
pub open spec fn after(s: Seq<EntryView>, e: EntryView) -> Seq<EntryView> {
    s.filter(|x: EntryView| !name_le(x.name, e.name))
}

/// `e` set behind all entries that come no later.
pub open spec fn with_entry(s: Seq<EntryView>, e: EntryView) -> Seq<EntryView> {
    not_after(s, e).push(e) + after(s, e)
}

/// The entries in the order of their names; equal names keep their order.
pub open spec fn sorted_entries(s: Seq<EntryView>) -> Seq<EntryView>
    decreases s.len(),
{
    if s.len() == 0 {
        s
    } else {
        with_entry(sorted_entries(s.drop_last()), s.last())
    }
}

/// Whether the entries stand in the order of their names.
pub open spec fn in_order(s: Seq<EntryView>) -> bool {
    forall|i: int, j: int| 0 <= i <= j < s.len() ==> name_le(#[trigger] s[i].name, #[trigger] s[j].name)
}

/// The entries of a listing, without those whose metadata could not be read.
pub open spec fn readable_entries(root: Seq<u8>, listing: Seq<ListedView>) -> Seq<EntryView>
    decreases listing.len(),
{
    if listing.len() == 0 {
        Seq::empty()
    } else {
        let before = readable_entries(root, listing.drop_last());
        match listing.last().meta {
            Some(meta) => before.push(entry_spec(root, listing.last().path, meta)),
            None => before,
        }
    }
}

proof fn lemma_bytes_total(a: Seq<u8>, b: Seq<u8>, i: int)
    requires
        0 <= i,
    ensures
        bytes_le_from(a, b, i) || bytes_le_from(b, a, i),
    decreases a.len() - i,
{
    if i < a.len() && i < b.len() && a[i] == b[i] {
        lemma_bytes_total(a, b, i + 1);
    }
}

proof fn lemma_bytes_transitive(a: Seq<u8>, b: Seq<u8>, c: Seq<u8>, i: int)
    requires
        0 <= i,
        bytes_le_from(a, b, i),
        bytes_le_from(b, c, i),
    ensures
        bytes_le_from(a, c, i),
    decreases a.len() - i,
{
    if i < a.len() && a[i] == b[i] && b[i] == c[i] {
        lemma_bytes_transitive(a, b, c, i + 1);
    }
}

proof fn lemma_names_total(a: Seq<char>, b: Seq<char>)
    ensures
        name_le(a, b) || name_le(b, a),
{
    lemma_bytes_total(encode_utf8(a), encode_utf8(b), 0);
}

proof fn lemma_names_transitive(a: Seq<char>, b: Seq<char>, c: Seq<char>)
    requires
        name_le(a, b),
        name_le(b, c),
    ensures
        name_le(a, c),
{
    lemma_bytes_transitive(encode_utf8(a), encode_utf8(b), encode_utf8(c), 0);
}

fn name_not_after(a: &str, b: &str) -> (res: bool)
    ensures
        res == name_le(a@, b@),
{
    let x = a.as_bytes();
    let y = b.as_bytes();
    let mut i: usize = 0;
    while i < x.len()
        invariant
            x@ == encode_utf8(a@),
            y@ == encode_utf8(b@),
            i <= x@.len(),
            i <= y@.len(),
            bytes_le_from(x@, y@, i as int) == name_le(a@, b@),
        decreases x@.len() - i,
    {
        if i >= y.len() {
            return false;
        }
        if x[i] != y[i] {
            return x[i] < y[i];
        }
        i = i + 1;
    }
    true
}

proof fn lemma_split_of_ordered(s: Seq<EntryView>, e: EntryView, at: int)
    requires
        0 <= at <= s.len(),
        forall|k: int| 0 <= k < at ==> name_le(#[trigger] s[k].name, e.name),
        forall|k: int| at <= k < s.len() ==> !name_le(#[trigger] s[k].name, e.name),
    ensures
        not_after(s, e) == s.take(at),
        after(s, e) == s.skip(at),
    decreases s.len(),
{
    reveal(Seq::filter);
    if s.len() > 0 {
        let front = s.drop_last();
        if at == s.len() {
            lemma_split_of_ordered(front, e, at - 1);
            assert(s.take(at) =~= front.take(at - 1).push(s.last()));
            assert(s.skip(at) =~= front.skip(at - 1));
        } else {
            lemma_split_of_ordered(front, e, at);
            assert(s.take(at) =~= front.take(at));
            assert(s.skip(at) =~= front.skip(at).push(s.last()));
        }
    } else {
        assert(s.take(at) =~= s);
        assert(s.skip(at) =~= s);
    }
}

fn insertion_point(sorted: &Vec<DirEntry>, entry: &DirEntry) -> (at: usize)
    requires
        in_order(entry_views(sorted@)),
    ensures
        at <= sorted@.len(),
        forall|k: int|
            0 <= k < at ==> name_le(#[trigger] entry_views(sorted@)[k].name, entry@.name),
        forall|k: int|
            at <= k < sorted@.len() ==> !name_le(
                #[trigger] entry_views(sorted@)[k].name,
                entry@.name,
            ),
{
    let ghost s = entry_views(sorted@);
    let mut lo: usize = 0;
    let mut hi: usize = sorted.len();
    while lo < hi
        invariant
            lo <= hi <= sorted@.len(),
            s == entry_views(sorted@),
            in_order(s),
            forall|k: int| 0 <= k < lo ==> name_le(#[trigger] s[k].name, entry@.name),
            forall|k: int| hi <= k < s.len() ==> !name_le(#[trigger] s[k].name, entry@.name),
        decreases hi - lo,
    {
        let mid: usize = lo + (hi - lo) / 2;
        assert(s[mid as int] == sorted@[mid as int]@);
        if name_not_after(sorted[mid].name.as_str(), entry.name.as_str()) {
            assert forall|k: int| 0 <= k < mid + 1 implies name_le(
                #[trigger] s[k].name,
                entry@.name,
            ) by {
                assert(name_le(s[k].name, s[mid as int].name));
                lemma_names_transitive(s[k].name, s[mid as int].name, entry@.name);
            }
            lo = mid + 1;
        } else {
            assert forall|k: int| mid <= k < s.len() implies !name_le(
                #[trigger] s[k].name,
                entry@.name,
            ) by {
                if name_le(s[k].name, entry@.name) {
                    assert(name_le(s[mid as int].name, s[k].name));
                    lemma_names_transitive(s[mid as int].name, s[k].name, entry@.name);
                }
            }
            hi = mid;
        }
    }
    lo
}

/// Sets an entry behind all entries that come no later.
fn insert_entry(sorted: &mut Vec<DirEntry>, entry: DirEntry)
    requires
        in_order(entry_views(old(sorted)@)),
    ensures
        entry_views(final(sorted)@) == with_entry(entry_views(old(sorted)@), entry@),
        in_order(entry_views(final(sorted)@)),
{
    let ghost s = entry_views(sorted@);
    let ghost e = entry@;
    let at: usize = insertion_point(sorted, &entry);
    sorted.insert(at, entry);
    proof {
        lemma_split_of_ordered(s, e, at as int);
        assert(entry_views(sorted@) =~= s.take(at as int).push(e) + s.skip(at as int));
        lemma_with_entry_in_order(s, e);
    }
}

proof fn lemma_filter_pred_holds(s: Seq<EntryView>, p: spec_fn(EntryView) -> bool)
    ensures
        forall|k: int| 0 <= k < s.filter(p).len() ==> p(#[trigger] s.filter(p)[k]),
    decreases s.len(),
{
    reveal(Seq::filter);
    if s.len() > 0 {
        lemma_filter_pred_holds(s.drop_last(), p);
    }
}

proof fn lemma_filter_in_order(s: Seq<EntryView>, p: spec_fn(EntryView) -> bool)
    requires
        in_order(s),
    ensures
        in_order(s.filter(p)),
        forall|k: int| 0 <= k < s.filter(p).len() ==> s.contains(#[trigger] s.filter(p)[k]),
    decreases s.len(),
{
    reveal(Seq::filter);
    if s.len() > 0 {
        let front = s.drop_last();
        assert(in_order(front)) by {
            assert forall|i: int, j: int| 0 <= i <= j < front.len() implies name_le(
                #[trigger] front[i].name,
                #[trigger] front[j].name,
            ) by {
                assert(name_le(s[i].name, s[j].name));
            }
        }
        lemma_filter_in_order(front, p);
        let t = s.filter(p);
        let u = front.filter(p);
        assert forall|k: int| 0 <= k < t.len() implies s.contains(#[trigger] t[k]) by {
            if k < u.len() {
                assert(front.contains(u[k]));
                let m = choose|m: int| 0 <= m < front.len() && front[m] == u[k];
                assert(s[m] == t[k]);
            } else {
                assert(s[s.len() - 1] == t[k]);
            }
        }
        if p(s.last()) {
            assert forall|i: int, j: int| 0 <= i <= j < t.len() implies name_le(
                #[trigger] t[i].name,
                #[trigger] t[j].name,
            ) by {
                if j < u.len() {
                    assert(name_le(u[i].name, u[j].name));
                } else {
                    assert(s.contains(t[i]));
                    let m = choose|m: int| 0 <= m < s.len() && s[m] == t[i];
                    assert(name_le(s[m].name, s[s.len() - 1].name));
                }
            }
        }
    }
}

proof fn lemma_with_entry_in_order(s: Seq<EntryView>, e: EntryView)
    requires
        in_order(s),
    ensures
        in_order(with_entry(s, e)),
{
    let lower = |x: EntryView| name_le(x.name, e.name);
    let upper = |x: EntryView| !name_le(x.name, e.name);
    let front = not_after(s, e);
    let back = after(s, e);
    let all = with_entry(s, e);
    assert(front == s.filter(lower));
    assert(back == s.filter(upper));
    lemma_filter_in_order(s, lower);
    lemma_filter_in_order(s, upper);
    lemma_filter_pred_holds(s, lower);
    lemma_filter_pred_holds(s, upper);
    lemma_names_total(e.name, e.name);
    assert forall|i: int, j: int| 0 <= i <= j < all.len() implies name_le(
        #[trigger] all[i].name,
        #[trigger] all[j].name,
    ) by {
        let n = front.len();
        if i < n {
            assert(all[i] == front[i]);
            assert(lower(front[i]));
        }
        if j > n {
            assert(all[j] == back[j - n - 1]);
            assert(upper(back[j - n - 1]));
            lemma_names_total(all[j].name, e.name);
        }
        if j < n {
            assert(all[j] == front[j]);
            assert(name_le(front[i].name, front[j].name));
        } else if i > n {
            assert(all[i] == back[i - n - 1]);
            assert(name_le(back[i - n - 1].name, back[j - n - 1].name));
        } else if i < n && j > n {
            lemma_names_transitive(all[i].name, e.name, all[j].name);
        }
    }
}

/// The entries of a listing, in the order of their names. Names whose metadata could
/// not be read are left out.
pub fn list_entries(root: &[u8], listing: &[Listed]) -> (entries: Vec<DirEntry>)
    ensures
        entry_views(entries@) == sorted_entries(
            readable_entries(root@, listed_views(listing@)),
        ),
        entries@.len() == readable_count(listed_views(listing@)),
        forall|i: int|
            0 <= i < listing@.len() ==> ((#[trigger] listing@[i]).meta matches Some(meta)
                ==> entry_views(entries@).contains(entry_spec(root@, listing@[i].path@, meta))),
{
    let mut sorted: Vec<DirEntry> = Vec::new();
    let ghost all = listed_views(listing@);
    let mut i: usize = 0;
    proof {
        assert(all.take(0) =~= Seq::<ListedView>::empty());
        assert(entry_views(sorted@) =~= Seq::<EntryView>::empty());
    }
    while i < listing.len()
        invariant
            i <= listing@.len(),
            all == listed_views(listing@),
            in_order(entry_views(sorted@)),
            entry_views(sorted@) == sorted_entries(readable_entries(root@, all.take(i as int))),
        decreases listing@.len() - i,
    {
        let ghost before = readable_entries(root@, all.take(i as int));
        let ghost next = all.take(i + 1);
        proof {
            assert(next.drop_last() =~= all.take(i as int));
            assert(next.last() == listing@[i as int]@);
        }
        match make_entry(root, listing[i].path.as_slice(), listing[i].meta) {
            Some(entry) => {
                proof {
                    let grown = before.push(entry@);
                    assert(readable_entries(root@, next) == grown);
                    assert(grown.drop_last() =~= before);
                }
                insert_entry(&mut sorted, entry);
            },
            None => {},
        }
        i = i + 1;
    }
    proof {
        assert(all.take(i as int) =~= all);
        law_every_readable_name_is_listed(root@, all);
        assert forall|k: int| 0 <= k < listing@.len() implies ((#[trigger] listing@[k]).meta matches Some(
            meta,
        ) ==> entry_views(sorted@).contains(entry_spec(root@, listing@[k].path@, meta))) by {
            assert(all[k] == listing@[k]@);
        }
    }
    sorted
}

// ---------------------------------------------------------------------------
// Laws
// ---------------------------------------------------------------------------

/// A listing stands in the order of its names.
pub proof fn law_listing_in_order(s: Seq<EntryView>)
    ensures
        in_order(sorted_entries(s)),
    decreases s.len(),
{
    if s.len() > 0 {
        law_listing_in_order(s.drop_last());
        lemma_with_entry_in_order(sorted_entries(s.drop_last()), s.last());
    }
}

proof fn lemma_filter_within(
    s: Seq<EntryView>,
    p: spec_fn(EntryView) -> bool,
    q: spec_fn(EntryView) -> bool,
)
    requires
        forall|x: EntryView| #[trigger] q(x) ==> p(x),
    ensures
        s.filter(p).filter(q) == s.filter(q),
    decreases s.len(),
{
    reveal(Seq::filter);
    if s.len() > 0 {
        lemma_filter_within(s.drop_last(), p, q);
        if p(s.last()) {
            assert(s.filter(p).drop_last() =~= s.drop_last().filter(p));
        }
    }
}

proof fn lemma_filter_outside(
    s: Seq<EntryView>,
    p: spec_fn(EntryView) -> bool,
    q: spec_fn(EntryView) -> bool,
)
    requires
        forall|x: EntryView| #[trigger] q(x) ==> !p(x),
    ensures
        s.filter(p).filter(q) == Seq::<EntryView>::empty(),
    decreases s.len(),
{
    reveal(Seq::filter);
    if s.len() > 0 {
        lemma_filter_outside(s.drop_last(), p, q);
        if p(s.last()) {
            assert(s.filter(p).drop_last() =~= s.drop_last().filter(p));
        }
    }
}

/// A listing holds what was read: of each name the same entries as before, in the same
/// order among themselves.
pub proof fn law_listing_keeps_entries(s: Seq<EntryView>, name: Seq<char>)
    ensures
        sorted_entries(s).filter(|x: EntryView| x.name == name) == s.filter(
            |x: EntryView| x.name == name,
        ),
    decreases s.len(),
{
    reveal(Seq::filter);
    let q = |x: EntryView| x.name == name;
    if s.len() > 0 {
        let e = s.last();
        let t = sorted_entries(s.drop_last());
        let lower = |x: EntryView| name_le(x.name, e.name);
        let upper = |x: EntryView| !name_le(x.name, e.name);
        law_listing_keeps_entries(s.drop_last(), name);
        assert(t.filter(q) == s.drop_last().filter(q));
        lemma_names_total(e.name, e.name);
        let front = t.filter(lower);
        let back = t.filter(upper);
        Seq::filter_distributes_over_add(front.push(e), back, q);
        assert(front.push(e).drop_last() =~= front);
        if name_le(name, e.name) {
            lemma_filter_within(t, lower, q);
            lemma_filter_outside(t, upper, q);
        } else {
            lemma_filter_outside(t, lower, q);
            lemma_filter_within(t, upper, q);
        }
        assert(sorted_entries(s) == front.push(e) + back);
        assert(sorted_entries(s).filter(q) =~= s.filter(q));
    }
}

proof fn lemma_split_keeps_all(
    s: Seq<EntryView>,
    p: spec_fn(EntryView) -> bool,
    q: spec_fn(EntryView) -> bool,
)
    requires
        forall|x: EntryView| #[trigger] q(x) == !p(x),
    ensures
        s.filter(p).to_multiset().add(s.filter(q).to_multiset()) =~= s.to_multiset(),
    decreases s.len(),
{
    reveal(Seq::filter);
    broadcast use vstd::seq_lib::group_to_multiset_ensures;

    if s.len() > 0 {
        let front = s.drop_last();
        lemma_split_keeps_all(front, p, q);
        assert(front.push(s.last()) =~= s);
    }
}

/// A listing holds exactly the readable entries, each as often as it was read.
pub proof fn law_listing_is_complete(s: Seq<EntryView>)
    ensures
        sorted_entries(s).to_multiset() =~= s.to_multiset(),
        sorted_entries(s).len() == s.len(),
    decreases s.len(),
{
    broadcast use vstd::seq_lib::group_to_multiset_ensures;

    if s.len() > 0 {
        let e = s.last();
        let t = sorted_entries(s.drop_last());
        let lower = |x: EntryView| name_le(x.name, e.name);
        law_listing_is_complete(s.drop_last());
        let upper = |x: EntryView| !name_le(x.name, e.name);
        lemma_split_keeps_all(t, lower, upper);
        assert(not_after(t, e) == t.filter(lower));
        assert(after(t, e) == t.filter(upper));
        vstd::seq_lib::lemma_multiset_commutative(not_after(t, e).push(e), after(t, e));
        assert(s.drop_last().push(e) =~= s);
        assert(sorted_entries(s).to_multiset() =~= s.to_multiset());
        assert(sorted_entries(s).to_multiset().len() == sorted_entries(s).len());
        assert(s.to_multiset().len() == s.len());
    }
}

/// How many of the listed names have metadata.
pub open spec fn readable_count(listing: Seq<ListedView>) -> nat {
    listing.filter(|l: ListedView| l.meta is Some).len()
}

proof fn lemma_readable_entries(root: Seq<u8>, listing: Seq<ListedView>)
    ensures
        readable_entries(root, listing).len() == readable_count(listing),
        forall|i: int|
            0 <= i < listing.len() ==> ((#[trigger] listing[i]).meta matches Some(meta)
                ==> readable_entries(root, listing).contains(
                entry_spec(root, listing[i].path, meta),
            )),
        forall|j: int|
            0 <= j < readable_entries(root, listing).len() ==> is_of_listing(
                root,
                listing,
                #[trigger] readable_entries(root, listing)[j],
            ),
    decreases listing.len(),
{
    reveal(Seq::filter);
    if listing.len() > 0 {
        let front = listing.drop_last();
        let before = readable_entries(root, front);
        let all = readable_entries(root, listing);
        lemma_readable_entries(root, front);
        assert forall|i: int| 0 <= i < listing.len() implies ((#[trigger] listing[i]).meta matches Some(
            meta,
        ) ==> all.contains(entry_spec(root, listing[i].path, meta))) by {
            if let Some(meta) = listing[i].meta {
                let e = entry_spec(root, listing[i].path, meta);
                if i < front.len() {
                    assert(front[i] == listing[i]);
                    let k = choose|k: int| 0 <= k < before.len() && before[k] == e;
                    assert(all[k] == e);
                } else {
                    assert(all[all.len() - 1] == e);
                }
            }
        }
        assert forall|j: int| 0 <= j < all.len() implies is_of_listing(
            root,
            listing,
            #[trigger] all[j],
        ) by {
            if j < before.len() {
                assert(is_of_listing(root, front, before[j]));
                let i = choose|i: int|
                    0 <= i < front.len() && (#[trigger] front[i]).meta is Some && before[j]
                        == entry_spec(root, front[i].path, front[i].meta->0);
                assert(listing[i] == front[i]);
            } else {
                assert(listing[listing.len() - 1].meta is Some);
            }
        }
    }
}

/// Before they are sorted, the entries stand in the order in which the disk listed the names.
pub proof fn law_entries_keep_the_order_of_the_disk(root: Seq<u8>, listing: Seq<ListedView>)
    ensures
        readable_entries(root, listing) == listing.filter(
            |l: ListedView| l.meta is Some,
        ).map_values(|l: ListedView| entry_spec(root, l.path, l.meta->0)),
    decreases listing.len(),
{
    reveal(Seq::filter);
    let p = |l: ListedView| l.meta is Some;
    let f = |l: ListedView| entry_spec(root, l.path, l.meta->0);
    if listing.len() > 0 {
        let front = listing.drop_last();
        law_entries_keep_the_order_of_the_disk(root, front);
        assert(readable_entries(root, front) == front.filter(p).map_values(f));
        assert(readable_entries(root, listing) =~= listing.filter(p).map_values(f));
    } else {
        assert(readable_entries(root, listing) =~= listing.filter(p).map_values(f));
    }
}

/// Whether the entry is that of a listed name with its metadata.
pub open spec fn is_of_listing(root: Seq<u8>, listing: Seq<ListedView>, entry: EntryView) -> bool {
    exists|i: int|
        0 <= i < listing.len() && (#[trigger] listing[i]).meta is Some && entry == entry_spec(
            root,
            listing[i].path,
            listing[i].meta->0,
        )
}

/// A listing has exactly one entry for each listed name whose metadata is there, whatever the
/// metadata says, and no other.
pub proof fn law_every_readable_name_is_listed(root: Seq<u8>, listing: Seq<ListedView>)
    ensures
        sorted_entries(readable_entries(root, listing)).len() == readable_count(listing),
        forall|i: int|
            0 <= i < listing.len() ==> ((#[trigger] listing[i]).meta matches Some(meta)
                ==> sorted_entries(readable_entries(root, listing)).contains(
                entry_spec(root, listing[i].path, meta),
            )),
        forall|j: int|
            0 <= j < sorted_entries(readable_entries(root, listing)).len() ==> is_of_listing(
                root,
                listing,
                #[trigger] sorted_entries(readable_entries(root, listing))[j],
            ),
{
    broadcast use vstd::seq_lib::group_to_multiset_ensures;

    let plain = readable_entries(root, listing);
    let all = sorted_entries(plain);
    lemma_readable_entries(root, listing);
    law_listing_is_complete(plain);
    assert forall|i: int| 0 <= i < listing.len() implies ((#[trigger] listing[i]).meta matches Some(
        meta,
    ) ==> all.contains(entry_spec(root, listing[i].path, meta))) by {
        if let Some(meta) = listing[i].meta {
            let e = entry_spec(root, listing[i].path, meta);
            assert(plain.contains(e));
            assert(plain.to_multiset().count(e) > 0);
            assert(all.to_multiset().count(e) > 0);
        }
    }
    assert forall|j: int| 0 <= j < all.len() implies is_of_listing(
        root,
        listing,
        #[trigger] all[j],
    ) by {
        let e = all[j];
        assert(all.contains(e));
        assert(all.to_multiset().count(e) > 0);
        assert(plain.to_multiset().count(e) > 0);
        assert(plain.contains(e));
        let k = choose|k: int| 0 <= k < plain.len() && plain[k] == e;
        assert(is_of_listing(root, listing, plain[k]));
    }
}

/// An entry tells the metadata as the disk told it. Its name is the last name of the path,
/// or `/` when it has none; its path is the rest of the path behind the root, or all of it
/// elsewhere. Both are told byte for byte when they are UTF-8.
pub proof fn law_entry_tells_the_disk(root: Seq<u8>, full: Seq<u8>, meta: FileMeta)
    ensures
        entry_spec(root, full, meta).is_dir == meta.is_dir,
        entry_spec(root, full, meta).size == meta.size,
        entry_spec(root, full, meta).modified == meta.modified,
        entry_spec(root, full, meta).created == meta.created,
        match file_name_spec(full) {
            Some(name) => {
                &&& valid_utf8(name) ==> encode_utf8(entry_spec(root, full, meta).name) == name
                &&& !valid_utf8(name) ==> entry_spec(root, full, meta).name == lossy_text(name)
            },
            None => entry_spec(root, full, meta).name == "/"@,
        },
        ({
            let rest = match strip_prefix_spec(full, root) {
                Some(rest) => rest,
                None => full,
            };
            &&& valid_utf8(rest) ==> encode_utf8(entry_spec(root, full, meta).path) == rest
            &&& !valid_utf8(rest) ==> entry_spec(root, full, meta).path == lossy_text(rest)
        }),
{
    if let Some(name) = file_name_spec(full) {
        if valid_utf8(name) {
            decode_utf8_encode_utf8(name);
        }
    }
    let rest = relative_to(full, root);
    if valid_utf8(rest) {
        decode_utf8_encode_utf8(rest);
    }
}

/// Names are ordered by the first byte in which they differ, and a name comes before those
/// that go on behind it.
pub proof fn law_names_in_byte_order(a: Seq<char>, b: Seq<char>, k: int)
    requires
        0 <= k <= encode_utf8(a).len(),
        k <= encode_utf8(b).len(),
        forall|i: int| 0 <= i < k ==> encode_utf8(a)[i] == encode_utf8(b)[i],
    ensures
        k == encode_utf8(a).len() ==> name_le(a, b),
        k == encode_utf8(b).len() < encode_utf8(a).len() ==> !name_le(a, b),
        k < encode_utf8(a).len() && k < encode_utf8(b).len() && encode_utf8(a)[k] != encode_utf8(
            b,
        )[k] ==> (name_le(a, b) <==> encode_utf8(a)[k] < encode_utf8(b)[k]),
{
    lemma_bytes_skip(encode_utf8(a), encode_utf8(b), 0, k);
}

proof fn lemma_bytes_skip(a: Seq<u8>, b: Seq<u8>, i: int, k: int)
    requires
        0 <= i <= k <= a.len(),
        k <= b.len(),
        forall|j: int| 0 <= j < k ==> a[j] == b[j],
    ensures
        bytes_le_from(a, b, i) == bytes_le_from(a, b, k),
    decreases k - i,
{
    if i < k {
        lemma_bytes_skip(a, b, i + 1, k);
    }
}

/// The path of an entry, sent back to the server, stands for the same file. The root and
/// the file's path are resolved, the root is found as a directory, and the path can be
/// written in UTF-8.
pub proof fn law_entry_paths_lead_back(
    root: Seq<u8>,
    full: Seq<u8>,
    meta: FileMeta,
    disk: DiskPaths,
)
    requires
        is_absolute_spec(root),
        bare_spec(root) == root,
        (disk.resolve)(root) == Some(root),
        (disk.present)(join_spec(root, Seq::empty())),
        (disk.resolve)(join_spec(root, Seq::empty())) == Some(root),
        starts_with_spec(full, root),
        bare_spec(full) == full,
        no_parent_dir(components_spec(full)),
        (disk.present)(full),
        (disk.resolve)(full) == Some(full),
        takes_alike(disk),
        valid_utf8(relative_to(full, root)),
    ensures
        verdict(root, entry_spec(root, full, meta).path, disk) == Ok::<Seq<u8>, PathError>(full),
{
    let rel = relative_to(full, root);
    let there = join_spec(root, rel);
    law_strip_then_join(full, root);
    decode_utf8_encode_utf8(rel);
    assert(encode_utf8(entry_spec(root, full, meta).path) == rel);
    let count = components_spec(root).len() as int;
    assert(no_parent_dir(components_spec(rel))) by {
        assert(forall|k: int|
            0 <= k < components_spec(rel).len() ==> components_spec(rel)[k]
                == components_spec(full)[count + k]);
    }
    if rel.len() > 0 {
        assert(alike(there, full));
    } else {
        assert(rel =~= Seq::<u8>::empty());
        assert(components_spec(rel) =~= Seq::empty());
        assert(components_spec(full) =~= components_spec(root));
        assert(alike(full, root));
    }
}

} // verus!
