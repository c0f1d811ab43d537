//! The text rules of a process inspection: how a container is summarized
//! (its name, else the first twelve bytes of its id, cut before a
//! character that would not fit whole) and how the open-file list is cut
//! short (the first twenty descriptors, then a count of the rest).

use vstd::prelude::*;

use crate::container::{ContainerInfo, ContainerRuntime};
use crate::files::{FileKind, OpenFile};
use crate::intelligence::strings_view;
use crate::text::{decimal, push_decimal, push_signed, signed_decimal};

verus! {

/// How many open files an inspection lists before summarizing the rest.
pub const SHOWN_FILE_LIMIT: usize = 20;

/// How many leading bytes (in UTF-8) of a container id stand in for an
/// unnamed container.
pub const SHORT_ID_BYTES: usize = 12;

/// The name of a container runtime, as it is printed.
pub open spec fn runtime_name(r: ContainerRuntime) -> Seq<char> {
    match r {
        ContainerRuntime::Docker => "Docker"@,
        ContainerRuntime::Podman => "Podman"@,
        ContainerRuntime::Containerd => "Containerd"@,
    }
}

fn runtime_str(r: ContainerRuntime) -> (s: &'static str)
    ensures
        s@ == runtime_name(r),
{
    match r {
        ContainerRuntime::Docker => "Docker",
        ContainerRuntime::Podman => "Podman",
        ContainerRuntime::Containerd => "Containerd",
    }
}

/// How many bytes `c` takes in UTF-8.
pub open spec fn utf8_len(c: char) -> nat {
    let u = c as u32;
    if u < 0x80 { 1 } else if u < 0x800 { 2 } else if u < 0x10000 { 3 } else { 4 }
}

fn utf8_width(c: char) -> (n: usize)
    ensures
        n == utf8_len(c),
{
    let u = c as u32;
    if u < 0x80 { 1 } else if u < 0x800 { 2 } else if u < 0x10000 { 3 } else { 4 }
}

/// The end of the longest run of characters of `s` from `i` on that,
/// with the `used` bytes before it, fits in `SHORT_ID_BYTES` bytes.
pub open spec fn short_id_end(s: Seq<char>, i: int, used: nat) -> int
    decreases s.len() - i,
{
    if 0 <= i < s.len() && used + utf8_len(s[i]) <= SHORT_ID_BYTES {
        short_id_end(s, i + 1, used + utf8_len(s[i]))
    } else {
        i
    }
}

/// The longest prefix of a container id that takes at most
/// `SHORT_ID_BYTES` bytes in UTF-8 (all of it when it is shorter).
pub open spec fn short_id(id: Seq<char>) -> Seq<char> {
    id.take(short_id_end(id, 0, 0))
}

fn short_id_len(id: &str) -> (n: usize)
    ensures
        n == short_id_end(id@, 0, 0),
        n <= id@.len(),
{
    let cs = crate::text::chars_of(id);
    let mut i: usize = 0;
    let mut used: usize = 0;
    while i < cs.len() && used + utf8_width(cs[i]) <= SHORT_ID_BYTES
        invariant
            i <= cs@.len(),
            cs@ == id@,
            used <= SHORT_ID_BYTES,
            short_id_end(id@, i as int, used as nat) == short_id_end(id@, 0, 0),
        decreases cs@.len() - i,
    {
        used = used + utf8_width(cs[i]);
        i += 1;
    }
    i
}

/// What a container is called: its name, else its short id.
pub open spec fn container_label(c: ContainerInfo) -> Seq<char> {
    match c.name {
        Some(n) => n@,
        None => short_id(c.id@),
    }
}

/// An optional field as printed: its text, else `unknown`.
pub open spec fn or_unknown(o: Option<String>) -> Seq<char> {
    match o {
        Some(s) => s@,
        None => "unknown"@,
    }
}

/// The one-line summary of a container: runtime, name or short id, image
/// and status.
pub open spec fn container_summary_text(c: ContainerInfo) -> Seq<char> {
    runtime_name(c.runtime) + " "@ + container_label(c) + " (image: "@ + or_unknown(c.image) + ", status: "@
        + or_unknown(c.status) + ")"@
}

fn push_or_unknown(out: &mut String, o: &Option<String>)
    ensures
        final(out)@ == old(out)@ + or_unknown(*o),
{
    match o {
        Some(s) => out.append(s.as_str()),
        None => out.append("unknown"),
    }
}

/// The one-line summary of a container (see `container_summary_text`).
pub fn container_summary(c: &ContainerInfo) -> (r: String)
    ensures
        r@ == container_summary_text(*c),
{
    let mut r = String::from_str(runtime_str(c.runtime));
    r.append(" ");
    match &c.name {
        Some(n) => r.append(n.as_str()),
        None => {
            let id = c.id.as_str();
            let end = short_id_len(id);
            r.append(id.substring_char(0, end));
            assert(id@.subrange(0, end as int) =~= short_id(c.id@));
        },
    }
    r.append(" (image: ");
    push_or_unknown(&mut r, &c.image);
    r.append(", status: ");
    push_or_unknown(&mut r, &c.status);
    r.append(")");
    assert(r@ =~= container_summary_text(*c));
    r
}

/// The name of a file kind, as it is printed.
pub open spec fn file_kind_name(k: FileKind) -> Seq<char> {
    match k {
        FileKind::Regular => "Regular"@,
        FileKind::Directory => "Directory"@,
        FileKind::Socket => "Socket"@,
        FileKind::Pipe => "Pipe"@,
        FileKind::CharDevice => "CharDevice"@,
        FileKind::BlockDevice => "BlockDevice"@,
        FileKind::Unknown => "Unknown"@,
    }
}

fn file_kind_str(k: FileKind) -> (s: &'static str)
    ensures
        s@ == file_kind_name(k),
{
    match k {
        FileKind::Regular => "Regular",
        FileKind::Directory => "Directory",
        FileKind::Socket => "Socket",
        FileKind::Pipe => "Pipe",
        FileKind::CharDevice => "CharDevice",
        FileKind::BlockDevice => "BlockDevice",
        FileKind::Unknown => "Unknown",
    }
}

/// `s` right-aligned in a field `width` characters wide: padded on the
/// left with spaces when shorter, unchanged otherwise.
pub open spec fn right_aligned(s: Seq<char>, width: nat) -> Seq<char> {
    if s.len() < width { Seq::new((width - s.len()) as nat, |i: int| ' ') + s } else { s }
}

/// The line listing one open file: its descriptor right-aligned in four
/// columns, its kind and its path.
pub open spec fn file_line_text(f: OpenFile) -> Seq<char> {
    "  fd "@ + right_aligned(signed_decimal(f.fd as int), 4) + "  "@ + file_kind_name(f.kind) + "  "@ + f.path@
}

/// The line counting the open files that are not listed.
pub open spec fn more_files_text(n: nat) -> Seq<char> {
    "  ... and "@ + decimal(n) + " more"@
}

/// The lines listing `files`: the first `SHOWN_FILE_LIMIT` of them, then,
/// when there are more, one line counting the rest.
pub open spec fn file_lines_text(files: Seq<OpenFile>) -> Seq<Seq<char>> {
    if files.len() > SHOWN_FILE_LIMIT {
        files.take(SHOWN_FILE_LIMIT as int).map_values(|f: OpenFile| file_line_text(f)).push(
            more_files_text((files.len() - SHOWN_FILE_LIMIT) as nat),
        )
    } else {
        files.map_values(|f: OpenFile| file_line_text(f))
    }
}

fn file_line(f: &OpenFile) -> (r: String)
    ensures
        r@ == file_line_text(*f),
{
    let mut num = String::new();
    push_signed(&mut num, f.fd as i64);
    proof { reveal_strlit(""); }
    assert(num@ =~= signed_decimal(f.fd as int));
    let mut r = String::from_str("  fd ");
    let ghost start = r@;
    let len = num.as_str().unicode_len();
    let mut pad: usize = 0;
    let missing: usize = if len < 4 { 4 - len } else { 0 };
    while pad < missing
        invariant
            pad <= missing,
            r@ == start + Seq::new(pad as nat, |i: int| ' '),
        decreases missing - pad,
    {
        proof { reveal_strlit(" "); }
        r.append(" ");
        pad += 1;
        assert(r@ =~= start + Seq::new(pad as nat, |i: int| ' '));
    }
    r.append(num.as_str());
    assert(r@ =~= "  fd "@ + right_aligned(signed_decimal(f.fd as int), 4));
    r.append("  ");
    r.append(file_kind_str(f.kind));
    r.append("  ");
    r.append(f.path.as_str());
    assert(r@ =~= file_line_text(*f));
    r
}

/// The lines listing `files` in an inspection (see `file_lines_text`).
pub fn file_lines(files: &Vec<OpenFile>) -> (r: Vec<String>)
    ensures
        strings_view(r@) == file_lines_text(files@),
{
    let shown: usize = if files.len() > SHOWN_FILE_LIMIT { SHOWN_FILE_LIMIT } else { files.len() };
    let ghost lines = files@.take(shown as int).map_values(|f: OpenFile| file_line_text(f));
    let mut r: Vec<String> = Vec::new();
    let mut i: usize = 0;
    while i < shown
        invariant
            shown <= files@.len(),
            i <= shown,
            lines == files@.take(shown as int).map_values(|f: OpenFile| file_line_text(f)),
            strings_view(r@) == lines.take(i as int),
        decreases shown - i,
    {
        let line = file_line(&files[i]);
        let ghost before = r@;
        r.push(line);
        assert(files@.take(shown as int)[i as int] == files@[i as int]);
        assert(lines[i as int] == file_line_text(files@[i as int]));
        assert(strings_view(before) =~= lines.take(i as int));
        assert(strings_view(r@) =~= strings_view(before).push(line@));
        assert(strings_view(r@) =~= lines.take(i + 1));
        i += 1;
    }
    assert(lines.take(shown as int) =~= lines);
    if files.len() > SHOWN_FILE_LIMIT {
        let mut more = String::from_str("  ... and ");
        push_decimal(&mut more, (files.len() - SHOWN_FILE_LIMIT) as u128);
        more.append(" more");
        r.push(more);
        assert(strings_view(r@) =~= file_lines_text(files@));
    } else {
        assert(files@.take(shown as int) =~= files@);
        assert(strings_view(r@) =~= file_lines_text(files@));
    }
    r
}

} // verus!
