use fox_sharing::path::{
    bare, components, file_name, is_absolute, join, leads, parent, settle, starts_with, strip_prefix,
    Component,
};
use std::path::Path;

const PATHS: [&str; 34] = [
    "", "/", "//", ".", "..", "./", "../", "/.", "/..", "a", "a/", "a//", "/a", "//a", "./a", "././a",
    "../a", "a/.", "a/./b", "a/..", "a/../b", "a/b", "a//b", "a/b/", "/a/b", "/a/b/.", "/./a",
    ".a", "..a", "a.", "...", "/srv/share", "/srv/shared/x", "f\u{fc}chse/\u{e9}",
];

fn expected_parts(text: &str) -> Vec<Component> {
    Path::new(text)
        .components()
        .map(|part| match part {
            std::path::Component::RootDir => Component::RootDir,
            std::path::Component::CurDir => Component::CurDir,
            std::path::Component::ParentDir => Component::ParentDir,
            std::path::Component::Normal(name) => {
                Component::Normal(name.to_str().unwrap().as_bytes().to_vec())
            }
            std::path::Component::Prefix(_) => unreachable!(),
        })
        .collect()
}

fn text_of(path: Option<&Path>) -> Option<Vec<u8>> {
    path.map(|p| p.to_str().unwrap().as_bytes().to_vec())
}

#[test]
fn components_are_those_of_the_standard_library() {
    for text in PATHS {
        assert_eq!(components(text.as_bytes()), expected_parts(text), "{text:?}");
        assert_eq!(is_absolute(text.as_bytes()), Path::new(text).is_absolute(), "{text:?}");
    }
}

#[test]
fn parents_and_names_are_those_of_the_standard_library() {
    for text in PATHS {
        let path = Path::new(text);
        assert_eq!(parent(text.as_bytes()), text_of(path.parent()), "{text:?}");
        let name = path.file_name().map(|n| n.to_str().unwrap().as_bytes().to_vec());
        assert_eq!(file_name(text.as_bytes()), name, "{text:?}");
    }
}

#[test]
fn bare_paths_are_those_of_the_standard_library() {
    for text in PATHS {
        let trimmed = Path::new(text).components();
        let expected = trimmed.as_path().to_str().unwrap().as_bytes().to_vec();
        assert_eq!(bare(text.as_bytes()), expected, "{text:?}");
    }
    assert_eq!(bare(b"/srv/x/./"), b"/srv/x".to_vec());
}

#[test]
fn pairs_of_paths_behave_as_in_the_standard_library() {
    for first in PATHS {
        for second in PATHS {
            let (p, q) = (Path::new(first), Path::new(second));
            let (a, b) = (first.as_bytes(), second.as_bytes());
            let joined = p.join(q);
            assert_eq!(join(a, b), joined.to_str().unwrap().as_bytes(), "{first:?} {second:?}");
            assert_eq!(starts_with(a, b), p.starts_with(q), "{first:?} {second:?}");
            let rest = text_of(p.strip_prefix(q).ok());
            assert_eq!(strip_prefix(a, b), rest, "{first:?} {second:?}");
        }
    }
}

#[test]
fn components_of_a_joined_path_are_those_of_both() {
    assert_eq!(
        components(&join(b"/srv/share", b"docs/./a.txt")),
        vec![
            Component::RootDir,
            Component::Normal(b"srv".to_vec()),
            Component::Normal(b"share".to_vec()),
            Component::Normal(b"docs".to_vec()),
            Component::Normal(b"a.txt".to_vec()),
        ]
    );
}

#[test]
fn a_relative_path_has_no_root() {
    assert_eq!(
        components(b"./a/../b"),
        vec![
            Component::CurDir,
            Component::Normal(b"a".to_vec()),
            Component::ParentDir,
            Component::Normal(b"b".to_vec()),
        ]
    );
}

#[test]
fn names_are_compared_whole() {
    assert!(starts_with(b"/srv/share/x", b"/srv/share"));
    assert!(!starts_with(b"/srv/shared/x", b"/srv/share"));
    assert_eq!(strip_prefix(b"/srv/share/x/y", b"/srv/share"), Some(b"x/y".to_vec()));
    assert_eq!(strip_prefix(b"/srv/shared/x", b"/srv/share"), None);
    assert_eq!(strip_prefix(b"/srv/share", b"/srv/share"), Some(Vec::new()));
}

#[test]
fn a_parent_lacks_the_last_name() {
    assert_eq!(parent(b"/srv/share/x"), Some(b"/srv/share".to_vec()));
    assert_eq!(parent(b"x"), Some(Vec::new()));
    assert_eq!(parent(b"/"), None);
    assert_eq!(parent(b""), None);
}

#[test]
fn paths_need_not_be_utf8() {
    assert_eq!(file_name(b"/srv/\xff\xfe"), Some(vec![0xff, 0xfe]));
    assert_eq!(parent(b"\xff/\xfe"), Some(vec![0xff]));
}

#[test]
fn components_settle_by_their_names() {
    let cases: [(&str, &str, &str); 6] = [
        ("/srv/share", "a/b", "/srv/share/a/b"),
        ("/srv/share", "a/../b", "/srv/share/b"),
        ("/srv/share", "../../x", "/x"),
        ("/", "../..", "/"),
        ("/srv", "", "/srv"),
        ("/srv", "/x", "/x"),
    ];
    for (base, rest, place) in cases {
        let mut rest = components(rest.as_bytes());
        rest.reverse();
        let settled = settle(components(base.as_bytes()), &rest);
        assert_eq!(settled, components(place.as_bytes()));
        assert!(leads(&settled, &settled));
        assert!(leads(&settled[..1], &settled));
        assert_eq!(leads(&components(b"/srv/share"), &settled), place.starts_with("/srv/share"));
    }
}
