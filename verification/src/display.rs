//! What a user is shown of directory entries.
use crate::outside::{utc_date, utc_date_text};
use crate::protocol::{DirEntry, EntryView, Timestamp};
use crate::text::{
    decimal, decimal_spec, joined, law_column_holds_its_text, law_decimal_reads_back, pad_left,
    right_aligned, writes_out,
};
use vstd::prelude::*;
use vstd::string::*;

verus! {

/// The line of a listing: what it is, its size unless it is a directory, and its path.
pub open spec fn list_line_spec(entry: EntryView) -> Seq<char> {
    let kind = if entry.is_dir {
        "DIR   "@
    } else {
        "FILE  "@
    };
    let size = if entry.is_dir {
        "-"@
    } else {
        decimal_spec(entry.size as nat)
    };
    kind + pad_left(size, 12) + "  "@ + entry.path
}

/// The line of a listing.
pub fn list_line(entry: &DirEntry) -> (line: String)
    ensures
        line@ == list_line_spec(entry@),
{
    let kind: &str = if entry.is_dir {
        "DIR   "
    } else {
        "FILE  "
    };
    let size: String = if entry.is_dir {
        "-".to_owned()
    } else {
        decimal(entry.size)
    };
    let mut line = kind.to_owned();
    line.append(right_aligned(size.as_str(), 12).as_str());
    line.append("  ");
    line.append(entry.path.as_str());
    line
}

/// A date in UTC, when the moment has one.
pub open spec fn date_spec(time: Option<Timestamp>) -> Option<Seq<char>> {
    match time {
        Some(moment) => utc_date_text(moment.secs, moment.nanos),
        None => None,
    }
}

fn date(time: Option<Timestamp>) -> (text: Option<String>)
    ensures
        match text {
            Some(t) => date_spec(time) == Some(t@),
            None => date_spec(time) is None,
        },
{
    match time {
        Some(moment) => utc_date(moment.secs, moment.nanos),
        None => None,
    }
}

/// The lines that describe an entry whose dates are written like this.
pub open spec fn dated_lines(
    entry: EntryView,
    modified: Option<Seq<char>>,
    created: Option<Seq<char>>,
) -> Seq<Seq<char>> {
    let kind = if entry.is_dir {
        "directory"@
    } else {
        "file"@
    };
    let base = seq![
        "Path     : "@ + entry.path,
        "Name     : "@ + entry.name,
        "Type     : "@ + kind,
        "Size     : "@ + decimal_spec(entry.size as nat),
    ];
    let more = match modified {
        Some(text) => base.push("Modified : "@ + text),
        None => base,
    };
    match created {
        Some(text) => more.push("Created  : "@ + text),
        None => more,
    }
}

/// The texts of a sequence of lines.
pub open spec fn line_views(lines: Seq<String>) -> Seq<Seq<char>> {
    lines.map_values(|line: String| line@)
}

/// The text of an optional string.
pub open spec fn text_view(text: Option<String>) -> Option<Seq<char>> {
    match text {
        Some(t) => Some(t@),
        None => None,
    }
}

fn push_line(lines: &mut Vec<String>, label: &str, text: &str)
    ensures
        line_views(final(lines)@) == line_views(old(lines)@).push(label@ + text@),
{
    lines.push(joined(label, text));
    assert(line_views(lines@) =~= line_views(old(lines)@).push(label@ + text@));
}

/// The lines that describe an entry whose dates are written like this.
pub fn describe_dated(
    entry: &DirEntry,
    modified: Option<String>,
    created: Option<String>,
) -> (lines: Vec<String>)
    ensures
        line_views(lines@) == dated_lines(entry@, text_view(modified), text_view(created)),
{
    let kind: &str = if entry.is_dir {
        "directory"
    } else {
        "file"
    };
    let mut lines: Vec<String> = Vec::new();
    push_line(&mut lines, "Path     : ", entry.path.as_str());
    push_line(&mut lines, "Name     : ", entry.name.as_str());
    push_line(&mut lines, "Type     : ", kind);
    push_line(&mut lines, "Size     : ", decimal(entry.size).as_str());
    if let Some(text) = &modified {
        push_line(&mut lines, "Modified : ", text.as_str());
    }
    if let Some(text) = &created {
        push_line(&mut lines, "Created  : ", text.as_str());
    }
    assert(line_views(lines@) =~= dated_lines(entry@, text_view(modified), text_view(created)));
    lines
}

/// The lines that describe an entry. A moment outside the calendar's range has no line.
pub fn describe(entry: &DirEntry) -> (lines: Vec<String>)
    ensures
        line_views(lines@) == dated_lines(
            entry@,
            date_spec(entry.modified),
            date_spec(entry.created),
        ),
{
    let modified = date(entry.modified);
    let created = date(entry.created);
    describe_dated(entry, modified, created)
}

// ---------------------------------------------------------------------------
// Laws
// ---------------------------------------------------------------------------

/// The line of a listing names the kind, tells the size of what is no directory in full,
/// set to the right in twelve places, and ends with the whole path.
pub proof fn law_list_lines_tell_the_entry(entry: EntryView)
    ensures
        ({
            let line = list_line_spec(entry);
            let column = line.subrange(6, line.len() - entry.path.len() - 2);
            &&& line.len() >= 20 + entry.path.len()
            &&& line.take(6) == if entry.is_dir {
                "DIR   "@
            } else {
                "FILE  "@
            }
            &&& line.skip(line.len() - entry.path.len()) == entry.path
            &&& line.subrange(line.len() - entry.path.len() - 2, line.len() - entry.path.len())
                == "  "@
            &&& exists|size: Seq<char>|
                {
                    &&& size.len() <= column.len()
                    &&& #[trigger] column.skip(column.len() - size.len()) == size
                    &&& forall|i: int|
                        0 <= i < column.len() - size.len() ==> #[trigger] column[i] == ' '
                    &&& column.len() == 12 || column == size
                    &&& if entry.is_dir {
                        size == "-"@
                    } else {
                        writes_out(size, entry.size as int)
                    }
                }
        }),
{
    reveal_strlit("DIR   ");
    reveal_strlit("FILE  ");
    reveal_strlit("  ");
    let kind = if entry.is_dir {
        "DIR   "@
    } else {
        "FILE  "@
    };
    let size = if entry.is_dir {
        "-"@
    } else {
        decimal_spec(entry.size as nat)
    };
    let column = pad_left(size, 12);
    let line = list_line_spec(entry);
    law_column_holds_its_text(size, 12);
    law_decimal_reads_back(entry.size as nat);
    assert(line == kind + column + "  "@ + entry.path);
    assert(line.take(6) =~= kind);
    assert(line.skip(line.len() - entry.path.len()) =~= entry.path);
    assert(line.subrange(6, line.len() - entry.path.len() - 2) =~= column);
    assert(line.subrange(line.len() - entry.path.len() - 2, line.len() - entry.path.len())
        =~= "  "@);
    assert(column.skip(column.len() - size.len()) == size);
}

/// An entry is described by its whole path and name, its kind, its size, and each of its dates
/// that it has, in this order.
pub proof fn law_descriptions_tell_the_entry(
    entry: EntryView,
    modified: Option<Seq<char>>,
    created: Option<Seq<char>>,
)
    ensures
        ({
            let lines = dated_lines(entry, modified, created);
            &&& lines[0] == "Path     : "@ + entry.path
            &&& lines[1] == "Name     : "@ + entry.name
            &&& lines[2] == "Type     : "@ + if entry.is_dir {
                "directory"@
            } else {
                "file"@
            }
            &&& exists|size: Seq<char>|
                #[trigger] writes_out(size, entry.size as int) && lines[3] == "Size     : "@ + size
            &&& lines.len() == 4 + (if modified is Some {
                1int
            } else {
                0
            }) + (if created is Some {
                1int
            } else {
                0
            })
            &&& modified matches Some(text) ==> lines[4] == "Modified : "@ + text
            &&& created matches Some(text) ==> lines[lines.len() - 1] == "Created  : "@ + text
        }),
{
    law_decimal_reads_back(entry.size as nat);
    assert(writes_out(decimal_spec(entry.size as nat), entry.size as int));
}

/// A date is the one of the moment, seconds and fraction.
pub proof fn law_dates_are_of_the_moment(moment: Timestamp)
    ensures
        date_spec(Some(moment)) == utc_date_text(moment.secs, moment.nanos),
        date_spec(None) is None,
{
}

/// Lines are seen one by one, none left out, and a text as it is.
pub proof fn law_all_lines_are_seen(lines: Seq<String>, text: String)
    ensures
        line_views(lines).len() == lines.len(),
        forall|i: int| 0 <= i < lines.len() ==> #[trigger] line_views(lines)[i] == lines[i]@,
        text_view(Some(text)) == Some(text@),
        text_view(None) is None,
{
}

} // verus!
