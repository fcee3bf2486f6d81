use fox_sharing::display::{describe, describe_dated, list_line};
use fox_sharing::protocol::{DirEntry, Timestamp};
use fox_sharing::text::{decimal, joined, right_aligned};

fn entry(is_dir: bool, size: u64) -> DirEntry {
    DirEntry {
        name: "a.txt".to_string(),
        path: "docs/a.txt".to_string(),
        is_dir,
        size,
        modified: None,
        created: None,
    }
}

#[test]
fn listings_have_columns() {
    assert_eq!(list_line(&entry(false, 1234)), "FILE          1234  docs/a.txt");
    assert_eq!(list_line(&entry(true, 4096)), "DIR              -  docs/a.txt");
    let wide = entry(false, 12_345_678_901_234);
    assert_eq!(list_line(&wide), "FILE  12345678901234  docs/a.txt");
    for (is_dir, size) in [(false, 0), (false, 7), (false, u64::MAX), (true, 9)] {
        let kind = if is_dir { "DIR " } else { "FILE" };
        let text = if is_dir { "-".to_string() } else { size.to_string() };
        let expected = format!("{:<5} {:>12}  {}", kind, text, "docs/a.txt");
        assert_eq!(list_line(&entry(is_dir, size)), expected);
    }
}

#[test]
fn an_entry_is_described_line_by_line() {
    assert_eq!(
        describe(&entry(true, 0)),
        ["Path     : docs/a.txt", "Name     : a.txt", "Type     : directory", "Size     : 0"]
    );
    let dated = describe_dated(&entry(false, 10), Some("then".to_string()), Some("before".to_string()));
    assert_eq!(
        dated[2..],
        ["Type     : file", "Size     : 10", "Modified : then", "Created  : before"]
    );
    let dated = describe_dated(&entry(false, 10), None, Some("before".to_string()));
    assert_eq!(dated[4..], ["Created  : before"]);
}

#[test]
fn dates_are_written_in_utc() {
    let mut dated = entry(false, 10);
    dated.modified = Some(Timestamp { secs: 1_431_648_000, nanos: 0 });
    dated.created = Some(Timestamp { secs: 0, nanos: 500_000_000 });
    let lines = describe(&dated);
    assert_eq!(lines[4], "Modified : 2015-05-15 00:00:00 UTC");
    assert_eq!(lines[5], "Created  : 1970-01-01 00:00:00.500 UTC");
}

#[test]
fn a_moment_outside_the_calendar_has_no_line() {
    let mut dated = entry(false, 10);
    dated.modified = Some(Timestamp { secs: i64::MAX, nanos: 0 });
    dated.created = Some(Timestamp { secs: -1, nanos: 0 });
    assert_eq!(describe(&dated)[4..], ["Created  : 1969-12-31 23:59:59 UTC"]);
}

#[test]
fn numbers_are_written_in_decimal() {
    for n in [0, 9, 10, 99, 100, 4242, 67_108_864, u64::MAX] {
        assert_eq!(decimal(n), n.to_string());
    }
}

#[test]
fn text_is_set_to_the_right() {
    assert_eq!(right_aligned("ab", 5), "   ab");
    assert_eq!(right_aligned("\u{fc}", 2), " \u{fc}");
    assert_eq!(right_aligned("abcdef", 3), "abcdef");
    assert_eq!(right_aligned("", 0), "");
    assert_eq!(joined("ab", "cd"), "abcd");
}
