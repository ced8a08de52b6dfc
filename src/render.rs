use vstd::prelude::*;

use chrono::{Datelike, Timelike};

use crate::text::{decimal, padded, push_all, push_decimal, push_str, push_two_digits, string_of};
use crate::tree::{copy_name, holds, DirTree};
use crate::view::{Color, ColoredString};

verus! {

/// A run of text and its colour, as a value.
pub type Piece = (Seq<char>, Option<Color>);

pub open spec fn piece_view(p: ColoredString) -> Piece {
    (p.string@, p.color)
}

pub open spec fn line_view(line: Seq<ColoredString>) -> Seq<Piece> {
    line.map_values(|p: ColoredString| piece_view(p))
}

pub open spec fn lines_view(c: Seq<Vec<ColoredString>>) -> Seq<Seq<Piece>> {
    c.map_values(|l: Vec<ColoredString>| line_view(l@))
}

/// How the tree view marks directories.
pub struct Annotations {
    /// The directory whose content the detail view lists.
    pub current: usize,
    /// The directory waiting for a yes or no before it is removed.
    pub to_remove: Option<usize>,
    /// The candidates of a query that needs an index to pick one.
    pub ambiguous: Vec<usize>,
    /// The directories whose subtrees are hidden.
    pub closed: Vec<usize>,
}

pub open spec fn colored_piece(s: Seq<char>, c: Color) -> Piece {
    (s, Some(c))
}

/// The colour of a directory's name: current, then to be removed, then ambiguous, then closed.
pub open spec fn name_color(a: Annotations, id: int) -> Option<Color> {
    if a.current == id {
        Some(Color::Blue)
    } else if a.to_remove == Some(id as usize) {
        Some(Color::Red)
    } else if a.ambiguous@.contains(id as usize) {
        Some(Color::Green)
    } else if a.closed@.contains(id as usize) {
        Some(Color::DarkGray)
    } else {
        None
    }
}

/// The line of one directory: its name, then a suffix for each mark it has.
pub open spec fn head_line(t: DirTree, a: Annotations, id: int, counter: nat) -> Seq<Piece> {
    seq![(t.nodes@[id].name@, name_color(a, id))] + (if a.to_remove == Some(id as usize) {
        seq![colored_piece(" x"@, Color::Red)]
    } else {
        Seq::empty()
    }) + (if a.ambiguous@.contains(id as usize) {
        seq![colored_piece(": "@ + decimal(counter), Color::Green)]
    } else {
        Seq::empty()
    }) + (if a.closed@.contains(id as usize) {
        seq![colored_piece(" +"@, Color::DarkGray)]
    } else {
        Seq::empty()
    })
}

/// The counter after directory `id`: one more where it is ambiguous, saturating.
pub open spec fn bump(a: Annotations, id: int, counter: nat) -> nat {
    if a.ambiguous@.contains(id as usize) && counter < usize::MAX {
        counter + 1
    } else {
        counter
    }
}

/// The lines below a child, each after a prefix: a branch for its first line, a continuation
/// for the others; the last child gets a corner and blank continuation.
pub open spec fn prefixed(sub: Seq<Seq<Piece>>, last: bool) -> Seq<Seq<Piece>> {
    Seq::new(
        sub.len(),
        |i: int|
            seq![
                (if i == 0 {
                    if last {
                        "└─ "@
                    } else {
                        "├─ "@
                    }
                } else {
                    if last {
                        "   "@
                    } else {
                        "│  "@
                    }
                }, None::<Color>),
            ] + sub[i],
    )
}

/// The tree view of the subtree of `id`, in pre-order with children by name, and the counter of
/// ambiguous directories after it. A closed directory shows, its subtree does not.
pub open spec fn render(t: DirTree, a: Annotations, id: int, counter: nat) -> (Seq<Seq<Piece>>, nat)
    decreases t.nodes@.len() - id, 1int, 0int,
{
    if 0 <= id < t.nodes@.len() {
        let head = head_line(t, a, id, counter);
        let c1 = bump(a, id, counter);
        if a.closed@.contains(id as usize) {
            (seq![head], c1)
        } else {
            let kids = render_kids(t, a, id, t.nodes@[id].directories@.len() as int, c1);
            (seq![head] + kids.0, kids.1)
        }
    } else {
        (Seq::empty(), counter)
    }
}

/// The tree view of the first `k` children of `id`, one after the other.
pub open spec fn render_kids(t: DirTree, a: Annotations, id: int, k: int, counter: nat) -> (Seq<
    Seq<Piece>,
>, nat)
    decreases t.nodes@.len() - id, 0int, k,
{
    if 0 <= id < t.nodes@.len() && 0 < k <= t.nodes@[id].directories@.len() {
        let prev = render_kids(t, a, id, k - 1, counter);
        let c = t.nodes@[id].directories@[k - 1] as int;
        if id < c < t.nodes@.len() {
            let sub = render(t, a, c, prev.1);
            (prev.0 + prefixed(sub.0, k == t.nodes@[id].directories@.len()), sub.1)
        } else {
            prev
        }
    } else {
        (Seq::empty(), counter)
    }
}

/// A copy of a piece.
fn copy_piece(p: &ColoredString) -> (r: ColoredString)
    ensures
        piece_view(r) == piece_view(*p),
{
    ColoredString { string: copy_name(&p.string), color: p.color }
}

/// The line of directory `id`.
fn head_pieces(t: &DirTree, a: &Annotations, id: usize, counter: usize) -> (r: Vec<ColoredString>)
    requires
        id < t.nodes@.len(),
    ensures
        line_view(r@) == head_line(*t, *a, id as int, counter as nat),
{
    let ambiguous = holds(&a.ambiguous, id);
    let closed = holds(&a.closed, id);
    let remove = match a.to_remove {
        Some(r) => r == id,
        None => false,
    };
    let color = if a.current == id {
        Some(Color::Blue)
    } else if remove {
        Some(Color::Red)
    } else if ambiguous {
        Some(Color::Green)
    } else if closed {
        Some(Color::DarkGray)
    } else {
        None
    };
    let mut r: Vec<ColoredString> = Vec::new();
    r.push(ColoredString { string: copy_name(&t.nodes[id].name), color });
    if remove {
        r.push(ColoredString::colored(crate::text::chars_of(" x"), Color::Red));
    }
    if ambiguous {
        let mut s = crate::text::chars_of(": ");
        push_decimal(&mut s, counter as u64);
        r.push(ColoredString::colored(s, Color::Green));
    }
    if closed {
        r.push(ColoredString::colored(crate::text::chars_of(" +"), Color::DarkGray));
    }
    assert(line_view(r@) =~= head_line(*t, *a, id as int, counter as nat));
    r
}

/// Appends the lines of a child's subtree, each after its prefix.
fn push_prefixed(out: &mut Vec<Vec<ColoredString>>, sub: &Vec<Vec<ColoredString>>, last: bool)
    ensures
        lines_view(final(out)@) == lines_view(old(out)@) + prefixed(lines_view(sub@), last),
{
    let branch = if last { crate::text::chars_of("└─ ") } else { crate::text::chars_of("├─ ") };
    let cont = if last { crate::text::chars_of("   ") } else { crate::text::chars_of("│  ") };
    let ghost start = lines_view(out@);
    let mut i: usize = 0;
    while i < sub.len()
        invariant
            i <= sub.len(),
            branch@ == if last { "└─ "@ } else { "├─ "@ },
            cont@ == if last { "   "@ } else { "│  "@ },
            lines_view(out@) == start + prefixed(lines_view(sub@), last).subrange(0, i as int),
        decreases sub.len() - i,
    {
        let mut line: Vec<ColoredString> = Vec::new();
        let head = if i == 0 { copy_name(&branch) } else { copy_name(&cont) };
        line.push(ColoredString::normal(head));
        let src = &sub[i];
        let mut j: usize = 0;
        while j < src.len()
            invariant
                j <= src.len(),
                line@.len() == j + 1,
                line_view(line@) == seq![
                    (if i == 0 { branch@ } else { cont@ }, None::<Color>),
                ] + line_view(src@).subrange(0, j as int),
            decreases src.len() - j,
        {
            let ghost prev = line_view(line@);
            line.push(copy_piece(&src[j]));
            assert(line_view(line@) =~= prev.push(piece_view(src@[j as int])));
            assert(line_view(line@) =~= seq![
                (if i == 0 { branch@ } else { cont@ }, None::<Color>),
            ] + line_view(src@).subrange(0, j + 1));
            j = j + 1;
        }
        let ghost before = lines_view(out@);
        out.push(line);
        proof {
            assert(line_view(src@).subrange(0, j as int) =~= line_view(src@));
            assert(lines_view(sub@)[i as int] == line_view(src@));
            assert(lines_view(out@) =~= before.push(line_view(line@)));
            assert(lines_view(out@) =~= start + prefixed(lines_view(sub@), last).subrange(0, i + 1));
        }
        i = i + 1;
    }
    assert(prefixed(lines_view(sub@), last).subrange(0, i as int) =~= prefixed(lines_view(sub@), last));
}

/// The tree view of the subtree of `id`, and the counter after it.
pub fn render_tree(t: &DirTree, a: &Annotations, id: usize, counter: usize) -> (r: (
    Vec<Vec<ColoredString>>,
    usize,
))
    requires
        t.wf(),
        id < t.nodes@.len(),
    ensures
        lines_view(r.0@) == render(*t, *a, id as int, counter as nat).0,
        r.1 == render(*t, *a, id as int, counter as nat).1,
    decreases t.nodes@.len() - id,
{
    let head = head_pieces(t, a, id, counter);
    let mut lines: Vec<Vec<ColoredString>> = Vec::new();
    lines.push(head);
    assert(lines_view(lines@) =~= seq![head_line(*t, *a, id as int, counter as nat)]);
    let mut c = if holds(&a.ambiguous, id) && counter < usize::MAX {
        counter + 1
    } else {
        counter
    };
    if holds(&a.closed, id) {
        return (lines, c);
    }
    let n = t.nodes[id].directories.len();
    let ghost c1 = c as nat;
    let mut k: usize = 0;
    assert(render_kids(*t, *a, id as int, 0, c1).0 =~= Seq::empty());
    while k < n
        invariant
            t.wf(),
            id < t.nodes@.len(),
            n == t.nodes@[id as int].directories@.len(),
            k <= n,
            lines_view(lines@) == seq![head_line(*t, *a, id as int, counter as nat)] + render_kids(
                *t,
                *a,
                id as int,
                k as int,
                c1,
            ).0,
            c == render_kids(*t, *a, id as int, k as int, c1).1,
        decreases n - k,
    {
        let child = t.nodes[id].directories[k];
        proof {
            assert(t.node_ok(id as int));
            assert(t.nodes@[id as int].directories@[k as int] == child);
        }
        let (sub, c2) = render_tree(t, a, child, c);
        let ghost before = lines_view(lines@);
        push_prefixed(&mut lines, &sub, k + 1 == n);
        c = c2;
        proof {
            assert(lines_view(lines@) =~= seq![head_line(*t, *a, id as int, counter as nat)]
                + render_kids(*t, *a, id as int, k + 1, c1).0);
        }
        k = k + 1;
    }
    (lines, c)
}

/// The tree view of the whole tree, with the ambiguous directories numbered from zero.
pub fn tree_lines(t: &DirTree, a: &Annotations) -> (r: Vec<Vec<ColoredString>>)
    requires
        t.wf(),
    ensures
        lines_view(r@) == render(*t, *a, 0, 0).0,
{
    render_tree(t, a, 0, 0).0
}

pub const KB: u64 = 1024;

pub const MB: u64 = 1024 * 1024;

pub const GB: u64 = 1024 * 1024 * 1024;

/// A byte count in the largest unit it reaches, rounded down.
pub open spec fn size_text(size: u64) -> Seq<char> {
    if size >= GB {
        decimal((size / GB) as nat) + " GB"@
    } else if size >= MB {
        decimal((size / MB) as nat) + " MB"@
    } else if size >= KB {
        decimal((size / KB) as nat) + " KB"@
    } else {
        decimal(size as nat) + " B"@
    }
}

fn push_size(out: &mut Vec<char>, size: u64)
    ensures
        final(out)@ == old(out)@ + size_text(size),
{
    let ghost start = out@;
    if size >= GB {
        push_decimal(out, size / GB);
        push_str(out, " GB");
    } else if size >= MB {
        push_decimal(out, size / MB);
        push_str(out, " MB");
    } else if size >= KB {
        push_decimal(out, size / KB);
        push_str(out, " KB");
    } else {
        push_decimal(out, size);
        push_str(out, " B");
    }
    assert(out@ =~= start + size_text(size));
}

/// A byte count in the largest unit it reaches (GB, MB, KB of 1024, else B), rounded down.
pub fn file_size_to_str(size: u64) -> (r: String)
    ensures
        r@ == size_text(size),
{
    let mut v: Vec<char> = Vec::new();
    push_size(&mut v, size);
    assert(v@ =~= size_text(size));
    string_of(&v)
}

/// The calendar date (year, month, day) in UTC of an instant given in seconds since the Unix
/// epoch, where the instant is within chrono's range.
pub uninterp spec fn utc_date(secs: int) -> Option<(int, int, int)>;

/// Relies on chrono's `DateTime::<Utc>::from_timestamp` and its `year`, `month`, `day`,
/// `hour` and `minute`: the date in UTC, the month in 1..=12 and the day in 1..=31 as their
/// documentation gives, and the time of day from the seconds since midnight, which is the
/// timestamp taken modulo a day. `None` where the instant is out of chrono's range.
#[verifier::external_body]
fn utc_fields(secs: i64) -> (r: Option<(i32, u32, u32, u32, u32)>)
    ensures
        r is Some <==> utc_date(secs as int) is Some,
        r matches Some(f) ==> {
            &&& utc_date(secs as int) == Some((f.0 as int, f.1 as int, f.2 as int))
            &&& 1 <= f.1 <= 12
            &&& 1 <= f.2 <= 31
            &&& f.3 == (secs as int % 86400) / 3600
            &&& f.4 == (secs as int % 86400) % 3600 / 60
        },
{
    match chrono::DateTime::from_timestamp(secs, 0) {
        Some(d) => Some((d.year(), d.month(), d.day(), d.hour(), d.minute())),
        None => None,
    }
}

/// An integer at least two characters wide, zero-padded after any sign.
pub open spec fn year_text(y: int) -> Seq<char> {
    if y < 0 {
        "-"@ + decimal((-y) as nat)
    } else {
        padded(y as nat, 2)
    }
}

/// The hour on a twelve-hour clock.
pub open spec fn hour12(h: int) -> nat {
    if h % 12 == 0 {
        12
    } else {
        (h % 12) as nat
    }
}

/// `mm/dd/yy` of a date.
pub open spec fn date_text(y: int, mo: int, d: int) -> Seq<char> {
    padded(mo as nat, 2) + "/"@ + padded(d as nat, 2) + "/"@ + year_text(y)
}

/// `hh:mm AM` of a time of day.
pub open spec fn clock_text(h: int, mi: int) -> Seq<char> {
    padded(hour12(h), 2) + ":"@ + padded(mi as nat, 2) + " "@ + if h >= 12 {
        "PM"@
    } else {
        "AM"@
    }
}

/// `mm/dd/yy hh:mm AM` of an instant in UTC; question marks where it is out of range.
pub open spec fn stamp_text(secs: int) -> Seq<char> {
    match utc_date(secs) {
        Some((y, mo, d)) => date_text(y, mo, d) + " "@ + clock_text(
            (secs % 86400) / 3600,
            (secs % 86400) % 3600 / 60,
        ),
        None => "??/??/?? ??:?? ??"@,
    }
}

fn push_date(out: &mut Vec<char>, y: i32, mo: u32, d: u32)
    ensures
        final(out)@ == old(out)@ + date_text(y as int, mo as int, d as int),
{
    let ghost start = out@;
    push_two_digits(out, mo as u64);
    push_str(out, "/");
    push_two_digits(out, d as u64);
    push_str(out, "/");
    let ghost mid = out@;
    if y < 0 {
        push_str(out, "-");
        push_decimal(out, (-(y as i64)) as u64);
    } else {
        push_two_digits(out, y as u64);
    }
    assert(out@ =~= mid + year_text(y as int));
    assert(out@ =~= start + date_text(y as int, mo as int, d as int));
}

fn push_clock(out: &mut Vec<char>, h: u32, mi: u32)
    ensures
        final(out)@ == old(out)@ + clock_text(h as int, mi as int),
{
    let ghost start = out@;
    let h12 = if h % 12 == 0 { 12 } else { h % 12 };
    push_two_digits(out, h12 as u64);
    push_str(out, ":");
    push_two_digits(out, mi as u64);
    push_str(out, " ");
    if h >= 12 {
        push_str(out, "PM");
    } else {
        push_str(out, "AM");
    }
    assert(out@ =~= start + clock_text(h as int, mi as int));
}

/// Appends the date and time of an instant.
fn push_stamp(out: &mut Vec<char>, secs: i64)
    ensures
        final(out)@ == old(out)@ + stamp_text(secs as int),
{
    let ghost start = out@;
    match utc_fields(secs) {
        Some((y, mo, d, h, mi)) => {
            push_date(out, y, mo, d);
            push_str(out, " ");
            push_clock(out, h, mi);
            assert(out@ =~= start + stamp_text(secs as int));
        },
        None => {
            push_str(out, "??/??/?? ??:?? ??");
            assert(out@ =~= start + stamp_text(secs as int));
        },
    }
}

/// `s` right-aligned in a field `w` wide.
pub open spec fn right_aligned(s: Seq<char>, w: nat) -> Seq<char> {
    if s.len() < w {
        Seq::new((w - s.len()) as nat, |i: int| ' ') + s
    } else {
        s
    }
}

/// The listing line of a file: when it changed, its size, its name.
pub open spec fn file_line(f: crate::tree::File) -> Seq<char> {
    stamp_text(f.modified as int) + "  "@ + right_aligned(size_text(f.size), 7) + "  "@ + f.name@
}

/// The listing line of a directory: when it changed, its name.
pub open spec fn dir_line(d: crate::tree::Directory) -> Seq<char> {
    stamp_text(d.modified as int) + "           "@ + d.name@
}

pub open spec fn plain(s: Seq<char>) -> Seq<Piece> {
    seq![(s, None::<Color>)]
}

/// The detail view of directory `dir`: a note where it is empty, else a heading, then its files
/// and then its subdirectories, each part under a title and only where it has entries.
pub open spec fn details(t: DirTree, dir: int) -> Seq<Seq<Piece>> {
    let files = t.nodes@[dir].files@;
    let dirs = t.nodes@[dir].directories@;
    let top = if files.len() == 0 && dirs.len() == 0 {
        seq![plain("This directory is empty"@)]
    } else {
        seq![
            seq![colored_piece("Last Modified           Size  Name"@, Color::Cyan)],
            seq![colored_piece("‾‾‾‾‾‾‾‾‾‾‾‾‾           ‾‾‾‾  ‾‾‾‾"@, Color::Cyan)],
        ]
    };
    let file_part = if files.len() != 0 {
        seq![plain("- Files -"@)] + Seq::new(files.len(), |i: int| plain(file_line(files[i])))
            + seq![plain(Seq::empty())]
    } else {
        Seq::empty()
    };
    let dir_part = if dirs.len() != 0 {
        seq![plain("- Directories -"@)] + Seq::new(
            dirs.len(),
            |i: int| plain(dir_line(t.nodes@[dirs[i] as int])),
        )
    } else {
        Seq::empty()
    };
    top + file_part + dir_part
}

fn push_plain(out: &mut Vec<Vec<ColoredString>>, s: Vec<char>)
    ensures
        lines_view(final(out)@) == lines_view(old(out)@).push(plain(s@)),
{
    let mut line: Vec<ColoredString> = Vec::new();
    line.push(ColoredString::normal(s));
    let ghost before = lines_view(out@);
    out.push(line);
    assert(line_view(line@) =~= plain(s@));
    assert(lines_view(out@) =~= before.push(plain(s@)));
}

fn push_colored(out: &mut Vec<Vec<ColoredString>>, s: Vec<char>, c: Color)
    ensures
        lines_view(final(out)@) == lines_view(old(out)@).push(seq![colored_piece(s@, c)]),
{
    let mut line: Vec<ColoredString> = Vec::new();
    line.push(ColoredString::colored(s, c));
    let ghost before = lines_view(out@);
    out.push(line);
    assert(line_view(line@) =~= seq![colored_piece(s@, c)]);
    assert(lines_view(out@) =~= before.push(seq![colored_piece(s@, c)]));
}

fn file_text(f: &crate::tree::File) -> (r: Vec<char>)
    ensures
        r@ == file_line(*f),
{
    let mut r: Vec<char> = Vec::new();
    push_stamp(&mut r, f.modified);
    push_str(&mut r, "  ");
    let mut size: Vec<char> = Vec::new();
    push_size(&mut size, f.size);
    let mut pad = size.len();
    let ghost before = r@;
    while pad < 7
        invariant
            size@ == size_text(f.size),
            size@.len() <= pad <= 7 || (pad == size@.len() && pad >= 7),
            r@ == before + Seq::new((pad - size@.len()) as nat, |i: int| ' '),
        decreases 7 - pad,
    {
        r.push(' ');
        assert(r@ =~= before + Seq::new((pad + 1 - size@.len()) as nat, |i: int| ' '));
        pad = pad + 1;
    }
    assert(before + Seq::new((pad - size@.len()) as nat, |i: int| ' ') + size@ =~= before
        + right_aligned(size_text(f.size), 7));
    push_all(&mut r, &size);
    push_str(&mut r, "  ");
    push_all(&mut r, &f.name);
    assert(r@ =~= file_line(*f));
    r
}

fn dir_text(d: &crate::tree::Directory) -> (r: Vec<char>)
    ensures
        r@ == dir_line(*d),
{
    let mut r: Vec<char> = Vec::new();
    push_stamp(&mut r, d.modified);
    push_str(&mut r, "           ");
    push_all(&mut r, &d.name);
    assert(r@ =~= dir_line(*d));
    r
}

/// The detail view of directory `dir`.
pub fn detail_lines(t: &DirTree, dir: usize) -> (r: Vec<Vec<ColoredString>>)
    requires
        t.wf(),
        dir < t.nodes@.len(),
    ensures
        lines_view(r@) == details(*t, dir as int),
{
    let files = &t.nodes[dir].files;
    let dirs = &t.nodes[dir].directories;
    let mut out: Vec<Vec<ColoredString>> = Vec::new();
    if files.len() == 0 && dirs.len() == 0 {
        push_plain(&mut out, crate::text::chars_of("This directory is empty"));
    } else {
        push_colored(&mut out, crate::text::chars_of("Last Modified           Size  Name"), Color::Cyan);
        push_colored(&mut out, crate::text::chars_of("‾‾‾‾‾‾‾‾‾‾‾‾‾           ‾‾‾‾  ‾‾‾‾"), Color::Cyan);
    }
    let ghost top = lines_view(out@);
    proof {
        let files_s = t.nodes@[dir as int].files@;
        let dirs_s = t.nodes@[dir as int].directories@;
        if files_s.len() == 0 && dirs_s.len() == 0 {
            assert(top =~= seq![plain("This directory is empty"@)]);
        } else {
            assert(top =~= seq![
                seq![colored_piece("Last Modified           Size  Name"@, Color::Cyan)],
                seq![colored_piece("‾‾‾‾‾‾‾‾‾‾‾‾‾           ‾‾‾‾  ‾‾‾‾"@, Color::Cyan)],
            ]);
        }
    }
    if files.len() != 0 {
        push_plain(&mut out, crate::text::chars_of("- Files -"));
        let mut i: usize = 0;
        while i < files.len()
            invariant
                files == &t.nodes@[dir as int].files,
                i <= files.len(),
                lines_view(out@) == top + seq![plain("- Files -"@)] + Seq::new(
                    i as nat,
                    |k: int| plain(file_line(files@[k])),
                ),
            decreases files.len() - i,
        {
            let ghost before = lines_view(out@);
            push_plain(&mut out, file_text(&files[i]));
            assert(lines_view(out@) =~= top + seq![plain("- Files -"@)] + Seq::new(
                (i + 1) as nat,
                |k: int| plain(file_line(files@[k])),
            ));
            i = i + 1;
        }
        push_plain(&mut out, Vec::new());
    }
    let ghost mid = lines_view(out@);
    proof {
        let files_s = t.nodes@[dir as int].files@;
        if files_s.len() != 0 {
            assert(mid =~= top + (seq![plain("- Files -"@)] + Seq::new(files_s.len(), |k: int| plain(file_line(files_s[k])))
                + seq![plain(Seq::empty())]));
        } else {
            assert(mid =~= top + Seq::empty());
        }
    }
    if dirs.len() != 0 {
        push_plain(&mut out, crate::text::chars_of("- Directories -"));
        let mut i: usize = 0;
        while i < dirs.len()
            invariant
                t.wf(),
                dir < t.nodes@.len(),
                dirs == &t.nodes@[dir as int].directories,
                i <= dirs.len(),
                lines_view(out@) == mid + seq![plain("- Directories -"@)] + Seq::new(
                    i as nat,
                    |k: int| plain(dir_line(t.nodes@[dirs@[k] as int])),
                ),
            decreases dirs.len() - i,
        {
            let c = dirs[i];
            proof {
                assert(t.node_ok(dir as int));
                assert(t.nodes@[dir as int].directories@[i as int] == c);
            }
            push_plain(&mut out, dir_text(&t.nodes[c]));
            assert(lines_view(out@) =~= mid + seq![plain("- Directories -"@)] + Seq::new(
                (i + 1) as nat,
                |k: int| plain(dir_line(t.nodes@[dirs@[k] as int])),
            ));
            i = i + 1;
        }
    }
    proof {
        let dirs_s = t.nodes@[dir as int].directories@;
        if dirs_s.len() == 0 {
            assert(lines_view(out@) =~= mid + Seq::empty());
        }
        assert(lines_view(out@) =~= details(*t, dir as int));
    }
    out
}

/// Two trees, or two sets of marks, that hold the same values.
pub open spec fn same_content(t1: DirTree, a1: Annotations, t2: DirTree, a2: Annotations) -> bool {
    &&& t1.nodes@ == t2.nodes@
    &&& a1.current == a2.current
    &&& a1.to_remove == a2.to_remove
    &&& a1.ambiguous@ == a2.ambiguous@
    &&& a1.closed@ == a2.closed@
}

proof fn lemma_render_same(t1: DirTree, a1: Annotations, t2: DirTree, a2: Annotations, id: int, counter: nat)
    requires
        same_content(t1, a1, t2, a2),
    ensures
        render(t1, a1, id, counter) == render(t2, a2, id, counter),
    decreases t1.nodes@.len() - id, 1int, 0int,
{
    if 0 <= id < t1.nodes@.len() {
        assert(head_line(t1, a1, id, counter) == head_line(t2, a2, id, counter));
        let c1 = bump(a1, id, counter);
        if !a1.closed@.contains(id as usize) {
            lemma_render_kids_same(t1, a1, t2, a2, id, t1.nodes@[id].directories@.len() as int, c1);
        }
    }
}

proof fn lemma_render_kids_same(t1: DirTree, a1: Annotations, t2: DirTree, a2: Annotations, id: int, k: int, counter: nat)
    requires
        same_content(t1, a1, t2, a2),
    ensures
        render_kids(t1, a1, id, k, counter) == render_kids(t2, a2, id, k, counter),
    decreases t1.nodes@.len() - id, 0int, k,
{
    if 0 <= id < t1.nodes@.len() && 0 < k <= t1.nodes@[id].directories@.len() {
        lemma_render_kids_same(t1, a1, t2, a2, id, k - 1, counter);
        let prev = render_kids(t1, a1, id, k - 1, counter);
        let c = t1.nodes@[id].directories@[k - 1] as int;
        if id < c < t1.nodes@.len() {
            lemma_render_same(t1, a1, t2, a2, c, prev.1);
        }
    }
}

/// Rendering is repeatable: the tree view depends on nothing but what the tree and the marks
/// hold, so rendering twice with no change in between gives the same lines.
pub proof fn law_render_repeatable(t1: DirTree, a1: Annotations, t2: DirTree, a2: Annotations)
    requires
        same_content(t1, a1, t2, a2),
    ensures
        render(t1, a1, 0, 0) == render(t2, a2, 0, 0),
{
    lemma_render_same(t1, a1, t2, a2, 0, 0);
}

} // verus!
