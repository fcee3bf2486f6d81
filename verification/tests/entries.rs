use fox_sharing::disk::{FileMeta, Listed};
use fox_sharing::entry::{assemble_entry, list_entries, make_entry};
use fox_sharing::protocol::{DirEntry, Timestamp};

fn file(size: u64) -> FileMeta {
    FileMeta { is_dir: false, size, modified: None, created: None }
}

fn listed(path: &[u8], meta: Option<FileMeta>) -> Listed {
    Listed { path: path.to_vec(), meta }
}

fn names(entries: &[DirEntry]) -> Vec<&str> {
    entries.iter().map(|e| e.name.as_str()).collect()
}

#[test]
fn an_entry_is_named_and_placed_below_the_root() {
    let modified = Some(Timestamp { secs: 10, nanos: 20 });
    let created = Some(Timestamp { secs: -5, nanos: 0 });
    let meta = FileMeta { is_dir: true, size: 4096, modified, created };
    assert_eq!(
        make_entry(b"/srv/share", b"/srv/share/docs/old", Some(meta)),
        Some(DirEntry {
            name: "old".to_string(),
            path: "docs/old".to_string(),
            is_dir: true,
            size: 4096,
            modified,
            created,
        })
    );
}

#[test]
fn without_metadata_there_is_no_entry() {
    assert_eq!(make_entry(b"/srv/share", b"/srv/share/x", None), None);
}

#[test]
fn the_shared_directory_has_its_own_name_and_an_empty_path() {
    let entry = make_entry(b"/srv/share", b"/srv/share", Some(file(0))).unwrap();
    assert_eq!((entry.name.as_str(), entry.path.as_str()), ("share", ""));
}

#[test]
fn what_has_no_name_is_called_slash() {
    let entry = make_entry(b"/", b"/", Some(file(0))).unwrap();
    assert_eq!((entry.name.as_str(), entry.path.as_str()), ("/", ""));
    assert_eq!(assemble_entry(None, "p".to_string(), file(3)).name, "/");
    assert_eq!(assemble_entry(Some("n".to_string()), "p".to_string(), file(3)).name, "n");
}

#[test]
fn what_lies_elsewhere_keeps_its_whole_path() {
    let entry = make_entry(b"/srv/share", b"/data/x", Some(file(7))).unwrap();
    assert_eq!(entry.path, "/data/x");
    assert_eq!(entry.size, 7);
}

#[test]
fn names_that_are_not_utf8_are_shown_with_replacements() {
    let entry = make_entry(b"/srv", b"/srv/a\xffb", Some(file(0))).unwrap();
    assert_eq!(entry.name, "a\u{fffd}b");
    assert_eq!(entry.path, "a\u{fffd}b");
    let entry = make_entry(b"/srv", "/srv/f\u{fc}chse".as_bytes(), Some(file(0))).unwrap();
    assert_eq!(entry.name, "f\u{fc}chse");
}

#[test]
fn a_listing_is_ordered_by_name() {
    let listing: Vec<Listed> = ["b", "a", "B", "ab", "", "\u{e9}", "z", "10", "9"]
        .iter()
        .map(|name| listed(format!("/r/d{name}").as_bytes(), Some(file(1))))
        .collect();
    let entries = list_entries(b"/r", &listing);
    let mut expected: Vec<String> = listing
        .iter()
        .map(|l| String::from_utf8(l.path[3..].to_vec()).unwrap())
        .collect();
    expected.sort();
    assert_eq!(names(&entries), expected);
    assert_eq!(names(&entries), ["d", "d10", "d9", "dB", "da", "dab", "db", "dz", "d\u{e9}"]);
}

#[test]
fn equal_names_keep_their_order() {
    let listing = [
        listed(b"/r/x\xff", Some(file(1))),
        listed(b"/r/a", Some(file(2))),
        listed(b"/r/x\xfe", Some(file(3))),
        listed(b"/r/x\xfd", Some(file(4))),
    ];
    let entries = list_entries(b"/r", &listing);
    let sizes: Vec<u64> = entries.iter().map(|e| e.size).collect();
    assert_eq!(sizes, vec![2, 1, 3, 4]);
}

#[test]
fn unreadable_names_are_left_out_and_nothing_else() {
    let listing = [
        listed(b"/r/c", Some(file(3))),
        listed(b"/r/b", None),
        listed(b"/r/a", Some(file(1))),
    ];
    let entries = list_entries(b"/r", &listing);
    assert_eq!(names(&entries), ["a", "c"]);
    assert_eq!(list_entries(b"/r", &[]), Vec::new());
}
