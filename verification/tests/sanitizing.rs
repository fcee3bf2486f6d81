use fox_sharing::disk::{Call, Reply};
use fox_sharing::sanitize::{sanitize_path, PathError, PathStep, MAX_LINKS};
use std::path::Path;

const ROOT: &[u8] = b"/srv/share";

fn path(text: &str) -> Reply {
    Reply::Path(text.as_bytes().to_vec())
}

fn failed() -> Reply {
    Reply::Failed("no such file".to_string())
}

fn judge(requested: &str, replies: &[Reply]) -> PathStep {
    sanitize_path(ROOT, requested, replies)
}

#[test]
fn absolute_paths_are_refused() {
    for requested in ["/", "/etc/passwd", "//x"] {
        assert_eq!(judge(requested, &[]), PathStep::Refused(PathError::Absolute));
    }
    assert_eq!(PathError::Absolute.message(), "absolute paths are not allowed");
}

#[test]
fn parent_components_are_refused_wherever_they_stand() {
    for requested in ["..", "../x", "a/..", "a/../b", "./.."] {
        assert_eq!(judge(requested, &[]), PathStep::Refused(PathError::ParentComponent));
    }
    assert_eq!(PathError::ParentComponent.message(), "illegal path component: ParentDir");
}

#[test]
fn names_with_dots_are_no_parents() {
    for requested in ["", ".", "..a", "...", "a..", "./a", "a/./b"] {
        assert_eq!(judge(requested, &[]), PathStep::Ask(Call::Canonicalize(ROOT.to_vec())));
    }
}

#[test]
fn what_exists_stands_for_what_it_resolves_to() {
    let replies = [path("/data"), Reply::Flag(true), path("/data/real.txt")];
    assert_eq!(judge("link.txt", &replies[..0]), PathStep::Ask(Call::Canonicalize(ROOT.to_vec())));
    assert_eq!(
        judge("link.txt", &replies[..1]),
        PathStep::Ask(Call::Exists(b"/srv/share/link.txt".to_vec()))
    );
    assert_eq!(
        judge("link.txt", &replies[..2]),
        PathStep::Ask(Call::Canonicalize(b"/srv/share/link.txt".to_vec()))
    );
    assert_eq!(
        judge("link.txt", &replies),
        PathStep::Allowed { path: b"/data/real.txt".to_vec(), used: 3 }
    );
}

#[test]
fn a_link_that_leads_out_is_refused() {
    let replies = [path("/srv/share"), Reply::Flag(true), path("/etc/passwd")];
    assert_eq!(judge("link", &replies), PathStep::Refused(PathError::Traversal));
    let replies = [path("/srv/share"), Reply::Flag(true), path("/srv/shared/x")];
    assert_eq!(judge("link", &replies), PathStep::Refused(PathError::Traversal));
    assert_eq!(PathError::Traversal.message(), "path traversal detected");
}

#[test]
fn what_exists_has_to_resolve() {
    let replies = [path("/srv/share"), Reply::Flag(true), failed()];
    assert_eq!(judge("x", &replies), PathStep::Refused(PathError::Canonicalize));
    assert_eq!(PathError::Canonicalize.message(), "canonicalize");
}

#[test]
fn a_missing_file_is_judged_by_the_directory_above_it() {
    let replies = [
        path("/data"),
        Reply::Flag(false),
        failed(),
        Reply::Flag(true),
        path("/data/docs"),
    ];
    assert_eq!(
        judge("docs/new.txt", &replies[..2]),
        PathStep::Ask(Call::ReadLink(b"/srv/share/docs/new.txt".to_vec()))
    );
    assert_eq!(
        judge("docs/new.txt", &replies[..3]),
        PathStep::Ask(Call::Exists(b"/srv/share/docs".to_vec()))
    );
    assert_eq!(
        judge("docs/new.txt", &replies[..4]),
        PathStep::Ask(Call::Canonicalize(b"/srv/share/docs".to_vec()))
    );
    assert_eq!(
        judge("docs/new.txt", &replies),
        PathStep::Allowed { path: b"/srv/share/docs/new.txt".to_vec(), used: 5 }
    );
}

#[test]
fn a_missing_file_below_a_link_that_leads_out_is_refused() {
    let replies = [
        path("/srv/share"),
        Reply::Flag(false),
        failed(),
        Reply::Flag(true),
        path("/etc"),
    ];
    assert_eq!(judge("out/new", &replies), PathStep::Refused(PathError::Traversal));
}

#[test]
fn the_directory_above_has_to_resolve() {
    let replies = [
        path("/srv/share"),
        Reply::Flag(false),
        failed(),
        Reply::Flag(true),
        failed(),
    ];
    assert_eq!(judge("a/b", &replies), PathStep::Refused(PathError::CanonicalizeParent));
    assert_eq!(PathError::CanonicalizeParent.message(), "canonicalize parent");
}

#[test]
fn a_missing_directory_is_judged_by_the_one_above_it() {
    let replies = [
        path("/srv/share"),
        Reply::Flag(false),
        failed(),
        Reply::Flag(false),
        failed(),
        Reply::Flag(true),
        path("/srv/share/a"),
    ];
    assert_eq!(
        judge("a/b/c", &replies[..4]),
        PathStep::Ask(Call::ReadLink(b"/srv/share/a/b".to_vec()))
    );
    assert_eq!(
        judge("a/b/c", &replies[..5]),
        PathStep::Ask(Call::Exists(b"/srv/share/a".to_vec()))
    );
    assert_eq!(
        judge("a/b/c", &replies),
        PathStep::Allowed { path: b"/srv/share/a/b/c".to_vec(), used: 7 }
    );
}

#[test]
fn blank_pieces_do_not_hide_a_link() {
    for requested in ["link", "link/", "link/.", "./link//"] {
        match judge(requested, &[path("/srv/share"), Reply::Flag(false)]) {
            PathStep::Ask(Call::ReadLink(asked)) => assert!(asked.ends_with(b"/link"), "{requested}"),
            other => panic!("{other:?}"),
        }
    }
}

#[test]
fn a_link_is_followed_from_its_own_directory() {
    let replies = [
        path("/srv/share"),
        Reply::Flag(false),
        path("../new"),
        failed(),
        Reply::Flag(true),
        path("/srv/share"),
    ];
    assert_eq!(
        judge("docs/link", &replies[..3]),
        PathStep::Ask(Call::ReadLink(b"/srv/share/docs/../new".to_vec()))
    );
    assert_eq!(
        judge("docs/link", &replies[..4]),
        PathStep::Ask(Call::Exists(b"/srv/share/docs/..".to_vec()))
    );
    assert_eq!(
        judge("docs/link", &replies),
        PathStep::Allowed { path: b"/srv/share/docs/link".to_vec(), used: 6 }
    );
}

#[test]
fn a_chain_of_links_is_followed_so_far() {
    let mut replies = vec![path("/srv/share"), Reply::Flag(false)];
    for _ in 0..MAX_LINKS {
        replies.push(path("next"));
        assert!(matches!(judge("link", &replies), PathStep::Ask(Call::ReadLink(_))));
    }
    replies.push(path("next"));
    let used = replies.len();
    assert_eq!(used, 43);
    assert_eq!(
        judge("link", &replies),
        PathStep::Allowed { path: b"/srv/share/link".to_vec(), used }
    );
}

#[test]
fn a_link_to_where_no_directory_is_found_is_refused() {
    let replies = [
        path("share"),
        Reply::Flag(false),
        path("x"),
        failed(),
        Reply::Flag(false),
        failed(),
        Reply::Flag(false),
        failed(),
    ];
    assert_eq!(
        sanitize_path(b"share", "link", &replies),
        PathStep::Refused(PathError::Traversal)
    );
}

#[test]
fn a_path_with_nothing_above_it_is_allowed() {
    let replies = [failed(), Reply::Flag(false), failed()];
    assert_eq!(
        sanitize_path(b"/", "", &replies),
        PathStep::Allowed { path: b"/".to_vec(), used: 3 }
    );
}

/// A disk of directories and symbolic links.
struct Links {
    dirs: Vec<&'static str>,
    links: Vec<(&'static str, &'static str)>,
}

impl Links {
    fn target(&self, path: &str) -> Option<&'static str> {
        self.links.iter().find(|(link, _)| *link == path).map(|(_, target)| *target)
    }

    fn resolve_from(&self, start: &str, path: &str, depth: usize) -> Option<String> {
        let mut at = if path.starts_with('/') { String::new() } else { start.to_string() };
        for name in path.split('/').filter(|name| !name.is_empty() && *name != ".") {
            if name == ".." {
                at = at.rsplit_once('/').map_or(String::new(), |(above, _)| above.to_string());
                continue;
            }
            let next = format!("{at}/{name}");
            at = match self.target(&next) {
                Some(target) if depth > 0 => self.resolve_from(&at, target, depth - 1)?,
                Some(_) => return None,
                None if self.dirs.contains(&next.as_str()) => next,
                None => return None,
            };
        }
        Some(at)
    }

    fn resolve(&self, path: &str) -> Option<String> {
        let at = self.resolve_from("", path, 40)?;
        Some(if at.is_empty() { "/".to_string() } else { at })
    }

    fn judge(&self, root: &str, requested: &str) -> Result<String, PathError> {
        let mut replies = Vec::new();
        loop {
            let call = match sanitize_path(root.as_bytes(), requested, &replies) {
                PathStep::Ask(call) => call,
                PathStep::Allowed { path, used } => {
                    assert_eq!(used, replies.len());
                    return Ok(String::from_utf8(path).unwrap());
                }
                PathStep::Refused(error) => return Err(error),
            };
            let text = |bytes: Vec<u8>| String::from_utf8(bytes).unwrap();
            replies.push(match call {
                Call::Canonicalize(p) => match self.resolve(&text(p)) {
                    Some(target) => Reply::Path(target.into_bytes()),
                    None => failed(),
                },
                Call::Exists(p) => Reply::Flag(self.resolve(&text(p)).is_some()),
                Call::ReadLink(p) => {
                    let p = text(p);
                    let (above, name) = p.rsplit_once('/').unwrap();
                    let there = self.resolve_from("", above, 40).map(|at| format!("{at}/{name}"));
                    match there.and_then(|link| self.target(&link)) {
                        Some(target) => path(target),
                        None => failed(),
                    }
                }
                other => panic!("{other:?}"),
            });
        }
    }
}

fn shared() -> Links {
    Links {
        dirs: vec!["/srv", "/srv/share", "/srv/share/docs", "/outside"],
        links: vec![
            ("/srv/share/out", "/outside"),
            ("/srv/share/gone", "/outside/new"),
            ("/srv/share/far", "/outside/none/new"),
            ("/srv/share/climb", "../../outside/new"),
            ("/srv/share/odd", "none/../../../outside/new"),
            ("/srv/share/chain", "gone"),
            ("/srv/share/loop", "/srv/share/loop"),
            ("/srv/share/in", "/srv/share/docs"),
            ("/srv/share/later", "docs/later"),
            ("/srv/share/deep", "docs/none/later"),
            ("/srv/share/even", "none/../docs/later"),
            ("/srv/share/twice", "later"),
            ("/srv/share/docs/back", "../later"),
            ("/srv/share/docs/gone", "/outside/other"),
        ],
    }
}

#[test]
fn links_do_not_lead_out_of_the_share() {
    let disk = shared();
    for requested in [
        "out", "out/new", "out/d/new.txt", "out/a/b/c/d", "gone", "gone/x", "gone/x/y", "far",
        "far/x", "climb", "odd", "chain", "chain/x", "in/gone", "in/gone/x", "docs/gone/",
        "./out/./d/new.txt",
    ] {
        assert_eq!(disk.judge("/srv/share", requested), Err(PathError::Traversal), "{requested}");
    }
}

#[test]
fn links_with_nothing_behind_them_are_allowed_in_the_share() {
    let disk = shared();
    for requested in [
        "later", "later/x", "deep", "even", "twice", "docs/back", "in/back", "loop", "loop/x",
    ] {
        let full = format!("/srv/share/{requested}");
        assert_eq!(disk.judge("/srv/share", requested), Ok(full), "{requested}");
    }
}

#[test]
fn links_within_the_share_are_followed() {
    let disk = shared();
    assert_eq!(disk.judge("/srv/share", "in"), Ok("/srv/share/docs".to_string()));
    assert_eq!(disk.judge("/srv/share", "in/a/b"), Ok("/srv/share/in/a/b".to_string()));
}

#[test]
fn missing_names_in_the_share_are_allowed() {
    let disk = shared();
    for requested in ["new", "docs/new", "x/y/z", "new/"] {
        let full = format!("/srv/share/{requested}");
        assert_eq!(disk.judge("/srv/share", requested), Ok(full));
    }
}

#[test]
fn names_below_a_missing_root_are_allowed() {
    let disk = shared();
    for requested in ["x", "x/y/z"] {
        let full = format!("/srv/none/{requested}");
        assert_eq!(disk.judge("/srv/none", requested), Ok(full));
    }
    assert_eq!(disk.judge("/srv/none", ""), Err(PathError::Traversal));
}

#[test]
fn an_opening_dot_makes_no_difference() {
    let disk = shared();
    for requested in [
        "", "docs", "in", "out", "gone", "new", "x/y", "out/d/f", "docs/", "later", "chain", "docs/back",
    ] {
        let plain = disk.judge("/srv/share", requested);
        match disk.judge("/srv/share", &format!("./{requested}")) {
            Ok(dotted) => assert_eq!(Path::new(&dotted), Path::new(&plain.unwrap())),
            Err(error) => assert_eq!(plain, Err(error)),
        }
    }
}

#[test]
fn a_root_that_does_not_resolve_counts_as_it_is() {
    let replies = [failed(), Reply::Flag(true), path("/srv/share/x")];
    assert_eq!(judge("x", &replies), PathStep::Allowed { path: b"/srv/share/x".to_vec(), used: 3 });
    let replies = [failed(), Reply::Flag(true), path("/data/x")];
    assert_eq!(judge("x", &replies), PathStep::Refused(PathError::Traversal));
}

#[test]
fn the_empty_path_is_the_shared_directory() {
    let replies = [path("/srv/share"), Reply::Flag(true), path("/srv/share")];
    assert_eq!(judge("", &replies), PathStep::Allowed { path: b"/srv/share".to_vec(), used: 3 });
    assert_eq!(
        judge("", &replies[..1]),
        PathStep::Ask(Call::Exists(b"/srv/share/".to_vec()))
    );
}

#[test]
fn a_reply_of_another_kind_counts_as_not_given() {
    assert_eq!(judge("x", &[Reply::Done]), PathStep::Ask(Call::Canonicalize(ROOT.to_vec())));
    assert_eq!(
        judge("x", &[path("/srv/share"), failed()]),
        PathStep::Ask(Call::Exists(b"/srv/share/x".to_vec()))
    );
}
