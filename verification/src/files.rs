//! The viewer's side of file transfer: what the panes ask for, and what they are
//! told back.
//!
//! Transfers are not tied to the screen stream. A session can sign in, copy a
//! file off a robot and leave without the encoder ever starting.
use std::collections::HashMap;
use vstd::arithmetic::div_mod::lemma_fundamental_div_mod_converse;
use vstd::prelude::*;

use crate::listing::listing;
use crate::proto::{DirEntry, DirListing};
use crate::rounding::{as_double, double_of, lemma_spacing, nearest, nearest_of, spacing};
use crate::sort::in_order;
use crate::text::{
    chars_of, decimal, digit_char, holds, joined, pieces, push_decimal, same, split_on, string_of, subrange, views,
};

verus! {

broadcast use vstd::std_specs::hash::group_hash_axioms;

/// What the panes ask the session to do. Local paths are as this machine spells
/// them, remote ones as the robot does.
#[derive(Debug)]
pub enum Command {
    List { path: String },
    MakeDir { path: String },
    /// Create a folder and every missing one above it.
    MakeDirAll { path: String },
    Remove { path: String },
    Download { remote: String, local: String, batch: Option<u64> },
    Upload { local: String, remote: String, batch: Option<u64> },
    /// Copy a whole folder from the robot.
    DownloadTree { remote: String, local_parent: String },
    /// Copy a whole folder to the robot, under this name.
    UploadTree { local: String, name: String, remote_parent: String },
    /// Fetch a robot file to edit in place.
    Open { path: String },
    /// Write an edited file back to the robot.
    Save { path: String, text: String },
}

/// Which way a transfer is going, as the operator sees it.
#[derive(Debug, Clone, Copy, PartialEq, Eq, Structural)]
pub enum Direction {
    ToRobot,
    FromRobot,
}

/// One file on its way.
#[derive(Debug)]
pub struct Transfer {
    pub id: u64,
    /// Just the file name.
    pub name: String,
    pub direction: Direction,
    pub done: u64,
    /// Zero while a download's size is still unknown.
    pub total: u64,
    /// `None` while running; how it ended otherwise.
    pub outcome: Option<Result<(), String>>,
    /// The folder copy that this file belongs to.
    pub batch: Option<u64>,
}

impl Transfer {
    /// Progress as a numerator and a denominator, or `None` when the size is not
    /// known yet: a bar that invents a length is worse than one that admits it
    /// cannot.
    pub fn fraction(&self) -> (r: Option<(u64, u64)>)
        ensures
            r == if self.total == 0 {
                None
            } else if self.done > self.total {
                Some((self.total, self.total))
            } else {
                Some((self.done, self.total))
            },
    {
        if self.total == 0 {
            None
        } else if self.done > self.total {
            Some((self.total, self.total))
        } else {
            Some((self.done, self.total))
        }
    }

    /// Whether it has not ended yet.
    pub fn running(&self) -> (r: bool)
        ensures
            r == (self.outcome is None),
    {
        self.outcome.is_none()
    }
}

/// A folder that is copied whole.
#[derive(Debug)]
pub struct Batch {
    pub id: u64,
    pub name: String,
    pub direction: Direction,
    /// The folder held more than is listed at once.
    pub truncated: bool,
    pub error: Option<String>,
    /// Files that have not started yet.
    pub queued: usize,
}

/// How far a folder copy has come.
#[derive(Debug, Clone, Copy, PartialEq, Eq, Structural)]
pub struct BatchProgress {
    pub files_done: u128,
    pub files_failed: u128,
    pub files_total: u128,
    pub bytes_done: u128,
    pub bytes_total: u128,
}

impl BatchProgress {
    /// Whether every file has ended, one way or the other.
    pub fn finished(&self) -> (r: bool)
        ensures
            r == (self.files_done + self.files_failed == self.files_total),
    {
        match self.files_done.checked_add(self.files_failed) {
            Some(n) => n == self.files_total,
            None => false,
        }
    }
}

/// A robot file open in the editor.
#[derive(Debug)]
pub struct Editor {
    pub path: String,
    /// What is in the box now.
    pub text: String,
    /// What the robot last confirmed.
    pub saved: String,
    /// True between asking for the file and its arriving.
    pub loading: bool,
    /// True between pressing Save and the robot confirming.
    pub saving: bool,
    pub error: Option<String>,
}

impl Editor {
    /// Whether the text differs from what the robot has. Typing it back to the
    /// original counts as clean.
    pub fn dirty(&self) -> (r: bool)
        ensures
            r == (self.text@ != self.saved@),
    {
        self.text != self.saved
    }

    /// The file name alone, for a title that fits.
    pub fn name(&self) -> (r: String)
        ensures
            r@ == file_name(self.path@),
    {
        remote_file_name(&self.path)
    }
}

/// The separator of a path, as the host spells it: a path with backslashes and no
/// slash is a Windows path.
pub open spec fn separator(dir: Seq<char>) -> char {
    if dir.contains('\\') && !dir.contains('/') {
        '\\'
    } else {
        '/'
    }
}

/// A directory and a name joined the way the host spells paths.
pub open spec fn joined_path(dir: Seq<char>, name: Seq<char>) -> Seq<char> {
    let sep = separator(dir);
    if dir.len() > 0 && dir.last() == sep {
        dir + name
    } else {
        dir.push(sep) + name
    }
}

/// Join a directory and a name the way the host spells paths. The separator
/// already in the host's own path is the reliable clue.
pub fn remote_join(dir: &str, name: &str) -> (r: String)
    ensures
        r@ == joined_path(dir@, name@),
{
    let chars = chars_of(dir);
    let sep: char = if holds(&chars, '\\') && !holds(&chars, '/') {
        '\\'
    } else {
        '/'
    };
    let mut out = dir.to_owned();
    if chars.len() == 0 || chars[chars.len() - 1] != sep {
        out.push(sep);
    }
    out.push_str(name);
    assert(out@ =~= joined_path(dir@, name@));
    out
}

/// Whether `c` separates the parts of a path on some host.
pub open spec fn is_separator(c: char) -> bool {
    c == '/' || c == '\\'
}

/// `s` without the separators at its end.
pub open spec fn without_trailing(s: Seq<char>) -> Seq<char>
    decreases s.len(),
{
    if s.len() > 0 && is_separator(s.last()) {
        without_trailing(s.drop_last())
    } else {
        s
    }
}

/// What follows the last separator.
pub open spec fn after_last_separator(s: Seq<char>) -> Seq<char>
    decreases s.len(),
{
    if s.len() == 0 || is_separator(s.last()) {
        Seq::empty()
    } else {
        after_last_separator(s.drop_last()).push(s.last())
    }
}

/// The file-name part of a path: its last part that is not empty, or the path
/// itself where it has none.
pub open spec fn file_name(path: Seq<char>) -> Seq<char> {
    let t = without_trailing(path);
    if t.len() == 0 {
        path
    } else {
        after_last_separator(t)
    }
}

/// The file-name part of a host path, for naming a download locally.
pub fn remote_file_name(path: &str) -> (r: String)
    ensures
        r@ == file_name(path@),
{
    let chars = chars_of(path);
    let mut end: usize = chars.len();
    assert(chars@.take(end as int) =~= chars@);
    while end > 0 && (chars[end - 1] == '/' || chars[end - 1] == '\\')
        invariant
            end <= chars.len(),
            without_trailing(chars@) == without_trailing(chars@.take(end as int)),
        decreases end,
    {
        assert(chars@.take(end as int).drop_last() =~= chars@.take(end - 1));
        end = end - 1;
    }
    if end == 0 {
        return path.to_owned();
    }
    let ghost t = chars@.take(end as int);
    let mut start: usize = end;
    assert(t.take(start as int) =~= t);
    assert(after_last_separator(t) =~= after_last_separator(t.take(start as int)) + chars@.subrange(
        start as int,
        end as int,
    ));
    while start > 0 && chars[start - 1] != '/' && chars[start - 1] != '\\'
        invariant
            start <= end <= chars.len(),
            t == chars@.take(end as int),
            after_last_separator(t) == after_last_separator(t.take(start as int))
                + chars@.subrange(start as int, end as int),
        decreases start,
    {
        proof {
            let p = t.take(start as int);
            assert(p.drop_last() =~= t.take(start - 1));
            assert(p.last() == chars@[start - 1]);
            assert(after_last_separator(p) + chars@.subrange(start as int, end as int)
                =~= after_last_separator(t.take(start - 1)) + chars@.subrange(
                start - 1,
                end as int,
            ));
        }
        start = start - 1;
    }
    proof {
        let p = t.take(start as int);
        assert(after_last_separator(p) =~= Seq::<char>::empty()) by {
            if start > 0 {
                assert(p.last() == chars@[start - 1]);
            }
        }
        assert(after_last_separator(t) =~= chars@.subrange(start as int, end as int));
    }
    string_of(&subrange(&chars, start, end))
}

/// What is left of a path once it is shown under a directory: no part of it is
/// empty, and none leads upwards.
pub open spec fn stays_below(part: Seq<char>) -> bool {
    part.len() > 0 && part != "."@ && part != ".."@
}

/// `root` with the parts of a relative path joined to it one by one. Parts that
/// are empty, `.` or `..` are left out.
pub open spec fn below(root: Seq<char>, parts: Seq<Seq<char>>) -> Seq<char>
    decreases parts.len(),
{
    if parts.len() == 0 {
        root
    } else {
        let before = below(root, parts.drop_last());
        if stays_below(parts.last()) {
            joined_path(before, parts.last())
        } else {
            before
        }
    }
}

/// A path below a host directory, from a relative path with `/` between its
/// parts.
pub fn remote_join_rel(root: &str, rel: &str) -> (r: String)
    ensures
        r@ == below(root@, pieces(rel@, '/')),
{
    let parts = split_on(&chars_of(rel), '/');
    let mut out = root.to_owned();
    let mut i: usize = 0;
    assert(views(parts@).take(0) =~= Seq::<Seq<char>>::empty());
    while i < parts.len()
        invariant
            i <= parts.len(),
            out@ == below(root@, views(parts@).take(i as int)),
        decreases parts.len() - i,
    {
        let part = string_of(&parts[i]);
        assert(views(parts@)[i as int] == part@);
        assert(views(parts@).take(i + 1).drop_last() =~= views(parts@).take(i as int));
        if parts[i].len() > 0 && !same(&part, ".") && !same(&part, "..") {
            out = remote_join(&out, &part);
        }
        i = i + 1;
    }
    assert(views(parts@).take(i as int) =~= views(parts@));
    out
}

/// A path below a local directory, from a relative path of the host. The local
/// directory's own separator is used.
pub fn rel_to_local(root: &str, rel: &str) -> (r: String)
    ensures
        r@ == below(root@, pieces(rel@, '/')),
{
    remote_join_rel(root, rel)
}

/// Whatever a relative path holds, the result lies below the directory: it starts
/// with the directory's own path.
pub proof fn a_relative_path_stays_below(root: Seq<char>, parts: Seq<Seq<char>>)
    ensures
        crate::text::starts(below(root, parts), root),
    decreases parts.len(),
{
    if parts.len() > 0 {
        a_relative_path_stays_below(root, parts.drop_last());
        let before = below(root, parts.drop_last());
        assert(below(root, parts).take(root.len() as int) =~= before.take(root.len() as int));
    } else {
        assert(root.take(root.len() as int) =~= root);
    }
}

/// Whether every part of a relative path is a plain name, which holds no separator of
/// `root` either.
pub open spec fn all_plain(root: Seq<char>, parts: Seq<Seq<char>>) -> bool {
    forall|i: int|
        0 <= i < parts.len() ==> stays_below(#[trigger] parts[i]) && !parts[i].contains('/')
            && !parts[i].contains(separator(root))
}

proof fn lemma_below(root: Seq<char>, parts: Seq<Seq<char>>)
    requires
        parts.len() > 0,
        all_plain(root, parts),
    ensures
        below(root, parts) == joined_path(root, joined(parts, separator(root))),
    decreases parts.len(),
{
    let sep = separator(root);
    let name = parts.last();
    let before = below(root, parts.drop_last());
    assert(stays_below(name));
    if parts.len() == 1 {
        assert(parts.drop_last().len() == 0);
    } else {
        let front = parts.drop_last();
        assert forall|i: int| 0 <= i < front.len() implies stays_below(#[trigger] front[i])
            && !front[i].contains('/') && !front[i].contains(sep) by {
            assert(front[i] == parts[i]);
        }
        lemma_below(root, front);
        let base = if root.len() > 0 && root.last() == sep {
            root
        } else {
            root.push(sep)
        };
        let shown = joined(front, sep);
        assert(before == base + shown);
        // The path so far is spelled as the root is.
        assert(base.contains(sep)) by {
            assert(base[base.len() - 1] == sep);
        }
        let k = choose|k: int| 0 <= k < base.len() && base[k] == sep;
        assert(before[k] == sep);
        assert(before.contains(sep));
        if sep == '\\' {
            if before.contains('/') {
                let j = choose|j: int| 0 <= j < before.len() && before[j] == '/';
                if j < base.len() {
                    assert(base[j] == '/');
                    assert(root[j] == '/');
                    assert(root.contains('/'));
                } else {
                    lemma_joined_holds(front, sep, '/', j - base.len());
                }
            }
        }
        assert(separator(before) == sep);
        // It ends in the last name, which does not end in a separator.
        let last = front.last();
        assert(last == parts[parts.len() - 2]);
        assert(shown.len() >= last.len() && shown.skip(shown.len() - last.len()) =~= last) by {
            if front.len() == 1 {
                assert(shown == last);
            }
        }
        assert(before.last() == last.last());
        assert(last.contains(last[last.len() - 1]));
        assert(before.last() != sep);
        assert(below(root, parts) =~= base + joined(parts, sep));
    }
}

/// A character in a joined text is a separator, or in one of the parts.
proof fn lemma_joined_holds(parts: Seq<Seq<char>>, sep: char, c: char, at: int)
    requires
        0 <= at < joined(parts, sep).len(),
        joined(parts, sep)[at] == c,
        c != sep,
    ensures
        exists|i: int| 0 <= i < parts.len() && (#[trigger] parts[i]).contains(c),
    decreases parts.len(),
{
    if parts.len() == 1 {
        assert(parts[0].contains(c));
    } else if parts.len() > 1 {
        let front = parts.drop_last();
        let head = joined(front, sep);
        if at < head.len() {
            lemma_joined_holds(front, sep, c, at);
            let i = choose|i: int| 0 <= i < front.len() && (#[trigger] front[i]).contains(c);
            assert(parts[i].contains(c));
        } else {
            assert(at > head.len());
            assert(parts.last()[at - head.len() - 1] == c);
            assert(parts[parts.len() - 1].contains(c));
        }
    }
}

proof fn lemma_pieces_of_joined(parts: Seq<Seq<char>>, sep: char)
    requires
        parts.len() > 0,
        forall|i: int| 0 <= i < parts.len() ==> !(#[trigger] parts[i]).contains(sep),
    ensures
        pieces(joined(parts, sep), sep) == parts,
    decreases parts.len(),
{
    let name = parts.last();
    if parts.len() == 1 {
        crate::text::pieces_of_plain(Seq::empty(), name, sep);
        assert(Seq::<char>::empty() + name =~= name);
        assert(pieces(name, sep) =~= parts);
    } else {
        let front = parts.drop_last();
        assert forall|i: int| 0 <= i < front.len() implies !(#[trigger] front[i]).contains(sep) by {
            assert(front[i] == parts[i]);
        }
        lemma_pieces_of_joined(front, sep);
        let head = joined(front, sep).push(sep);
        assert(head.drop_last() =~= joined(front, sep));
        assert(pieces(head, sep) == front.push(Seq::<char>::empty()));
        crate::text::pieces_of_plain(head, name, sep);
        assert(Seq::<char>::empty() + name =~= name);
        assert(pieces(joined(parts, sep), sep) =~= parts);
    }
}

/// A copied folder keeps its shape: a file stands in the copy where it stood in the
/// folder, spelled the way of the side that it goes to.
pub proof fn a_copied_folder_keeps_its_shape(root: Seq<char>, rel: Seq<char>)
    requires
        all_plain(root, pieces(rel, '/')),
    ensures
        below(root, pieces(rel, '/')) == joined_path(
            root,
            joined(pieces(rel, '/'), separator(root)),
        ),
        separator(root) == '/' ==> below(root, pieces(rel, '/')) == joined_path(root, rel),
{
    crate::text::joined_pieces(rel, '/');
    lemma_below(root, pieces(rel, '/'));
}

/// No two files of a folder are copied to the same place.
pub proof fn files_of_a_folder_keep_apart(root: Seq<char>, a: Seq<char>, b: Seq<char>)
    requires
        all_plain(root, pieces(a, '/')),
        all_plain(root, pieces(b, '/')),
        a != b,
    ensures
        below(root, pieces(a, '/')) != below(root, pieces(b, '/')),
{
    let sep = separator(root);
    let (pa, pb) = (pieces(a, '/'), pieces(b, '/'));
    crate::text::joined_pieces(a, '/');
    crate::text::joined_pieces(b, '/');
    lemma_below(root, pa);
    lemma_below(root, pb);
    if below(root, pa) == below(root, pb) {
        let (ja, jb) = (joined(pa, sep), joined(pb, sep));
        let base = if root.len() > 0 && root.last() == sep {
            root
        } else {
            root.push(sep)
        };
        assert((base + ja).skip(base.len() as int) =~= ja);
        assert((base + jb).skip(base.len() as int) =~= jb);
        lemma_pieces_of_joined(pa, sep);
        lemma_pieces_of_joined(pb, sep);
    }
}

/// What Windows puts in front of a canonicalised path.
pub const VERBATIM_PREFIX: &'static str = "\\\\?\\";

/// A path as a person would type it.
pub open spec fn displayed(path: Seq<char>) -> Seq<char> {
    if crate::text::starts(path, VERBATIM_PREFIX@) {
        path.skip(VERBATIM_PREFIX@.len() as int)
    } else {
        path
    }
}

/// A path as a person would type it: without the prefix of a canonicalised Windows
/// path.
pub fn display_path(path: &str) -> (r: String)
    ensures
        r@ == displayed(path@),
{
    let chars = chars_of(path);
    let prefix = chars_of(VERBATIM_PREFIX);
    if chars.len() >= prefix.len() {
        let head = subrange(&chars, 0, prefix.len());
        assert(head@ =~= chars@.take(prefix.len() as int));
        if same(&string_of(&head), VERBATIM_PREFIX) {
            let rest = subrange(&chars, prefix.len(), chars.len());
            assert(rest@ =~= chars@.skip(prefix.len() as int));
            return string_of(&rest);
        }
    }
    path.to_owned()
}

/// A local directory as it is shown, from its path, the one above it, and its entries.
pub fn local_listing(dir: &str, parent: Option<&str>, entries: Vec<DirEntry>) -> (r: DirListing)
    ensures
        r.path@ == displayed(dir@),
        match parent {
            Some(p) => r.parent matches Some(shown) && shown@ == displayed(p@),
            None => r.parent is None,
        },
        r.entries@ == in_order(entries@),
{
    let above = match parent {
        Some(p) => Some(display_path(p)),
        None => None,
    };
    listing(display_path(dir), above, entries)
}

/// The drives of a Windows computer as a listing: what lies above the root of each.
pub fn drive_listing(letters: &Vec<char>) -> (r: DirListing)
    ensures
        r.path@.len() == 0,
        r.parent is None,
        r.entries@.len() == letters@.len(),
        forall|i: int|
            0 <= i < letters@.len() ==> {
                let e = #[trigger] r.entries@[i];
                e.name@ == seq![letters@[i], ':', '\\'] && e.is_dir && e.len == 0 && e.modified
                    is None && !e.is_link
            },
{
    let mut entries: Vec<DirEntry> = Vec::new();
    let mut i: usize = 0;
    while i < letters.len()
        invariant
            i <= letters.len(),
            entries@.len() == i,
            forall|j: int|
                0 <= j < i ==> {
                    let e = #[trigger] entries@[j];
                    e.name@ == seq![letters@[j], ':', '\\'] && e.is_dir && e.len == 0 && e.modified
                        is None && !e.is_link
                },
        decreases letters.len() - i,
    {
        let mut name = String::new();
        name.push(letters[i]);
        name.push(':');
        name.push('\\');
        assert(name@ =~= seq![letters@[i as int], ':', '\\']);
        entries.push(DirEntry { name, is_dir: true, len: 0, modified: None, is_link: false });
        i = i + 1;
    }
    DirListing { path: String::new(), parent: None, entries }
}

/// Where a file pane opens before anyone has navigated: the home directory, or the
/// working directory where there is none.
pub fn local_start(home: Option<String>) -> (r: String)
    ensures
        match home {
            Some(h) => r == h,
            None => r@ == "."@,
        },
{
    match home {
        Some(h) => h,
        None => ".".to_owned(),
    }
}

/// The unit that a size is shown in: the largest of bytes, KiB, MiB, GiB and TiB
/// of which there is at least one.
pub open spec fn size_unit(value: nat) -> nat {
    if value < 0x400 {
        0
    } else if value < 0x10_0000 {
        1
    } else if value < 0x4000_0000 {
        2
    } else if value < 0x100_0000_0000 {
        3
    } else {
        4
    }
}

/// Bytes per unit.
pub open spec fn unit_bytes(unit: nat) -> nat {
    if unit == 0 {
        1
    } else if unit == 1 {
        0x400
    } else if unit == 2 {
        0x10_0000
    } else if unit == 3 {
        0x4000_0000
    } else {
        0x100_0000_0000
    }
}

/// The name of a unit, after a space.
pub open spec fn unit_name(unit: nat) -> Seq<char> {
    if unit == 0 {
        " B"@
    } else if unit == 1 {
        " KiB"@
    } else if unit == 2 {
        " MiB"@
    } else if unit == 3 {
        " GiB"@
    } else {
        " TiB"@
    }
}

/// A size as text: whole bytes, otherwise one decimal below a hundred units and
/// none from there on.
pub open spec fn size_text(bytes: nat) -> Seq<char> {
    let value = as_double(bytes);
    let unit = size_unit(value);
    let per = unit_bytes(unit);
    if unit == 0 {
        decimal(bytes) + unit_name(0)
    } else if value >= 100 * per {
        decimal(nearest(value, per)) + unit_name(unit)
    } else {
        let tenths = nearest(value * 10, per);
        decimal(tenths / 10).push('.') + decimal(tenths % 10) + unit_name(unit)
    }
}

/// A size a person can read at a glance, in binary units.
pub fn human_size(bytes: u64) -> (r: String)
    ensures
        r@ == size_text(bytes as nat),
{
    let value: u128 = double_of(bytes);
    let mut out = String::new();
    if value < 0x400 {
        assert(value == bytes) by {
            if bytes >= 0x20_0000_0000_0000 {
                lemma_large_stays_large(bytes as nat);
            }
        }
        push_decimal(&mut out, bytes);
        out.push_str(" B");
        assert(out@ =~= size_text(bytes as nat));
        return out;
    }
    let (per, name): (u128, &str) = if value < 0x10_0000 {
        (0x400, " KiB")
    } else if value < 0x4000_0000 {
        (0x10_0000, " MiB")
    } else if value < 0x100_0000_0000 {
        (0x4000_0000, " GiB")
    } else {
        (0x100_0000_0000, " TiB")
    };
    if value >= 100 * per {
        let whole: u128 = nearest_of(value, per);
        push_decimal(&mut out, whole as u64);
        out.push_str(name);
        assert(out@ =~= size_text(bytes as nat));
    } else {
        let tenths: u128 = nearest_of(value * 10, per);
        push_decimal(&mut out, (tenths / 10) as u64);
        out.push('.');
        push_decimal(&mut out, (tenths % 10) as u64);
        out.push_str(name);
        assert(out@ =~= size_text(bytes as nat));
    }
    out
}

proof fn lemma_large_stays_large(n: nat)
    requires
        0x20_0000_0000_0000 <= n,
    ensures
        as_double(n) >= 0x400,
{
    lemma_spacing(n);
    let s = spacing(n);
    let k = nearest(n, s);
    assert(k * s >= 0x400) by (nonlinear_arith)
        requires
            k >= n / s,
            0 < s <= n / 0x1000,
            n >= 0x20_0000_0000_0000,
    {
        assert(n / s * s > n - s);
        assert(k * s >= n / s * s);
    }
}

/// Whether a year has a leap day.
pub open spec fn is_leap(y: int) -> bool {
    y % 4 == 0 && (y % 100 != 0 || y % 400 == 0)
}

/// Days in a month.
pub open spec fn month_days(y: int, m: int) -> int {
    if m == 2 {
        if is_leap(y) {
            29
        } else {
            28
        }
    } else if m == 4 || m == 6 || m == 9 || m == 11 {
        30
    } else {
        31
    }
}

/// Days in the months before `m`.
pub open spec fn days_before_month(y: int, m: int) -> int
    decreases m,
{
    if m <= 1 {
        0
    } else {
        days_before_month(y, m - 1) + month_days(y, m - 1)
    }
}

/// Days in the years from 0 up to `y`: one more for every fourth, but every
/// hundredth, but every four-hundredth.
pub open spec fn days_before_year(y: int) -> int {
    365 * y + (y + 3) / 4 - (y + 99) / 100 + (y + 399) / 400
}

/// Days from 1970-01-01 to a date.
pub open spec fn day_number(y: int, m: int, d: int) -> int {
    days_before_year(y) + days_before_month(y, m) + d - 1 - days_before_year(1970)
}

/// Whether there is such a date.
pub open spec fn is_date(y: int, m: int, d: int) -> bool {
    1 <= m <= 12 && 1 <= d <= month_days(y, m)
}

/// A number in two digits.
pub open spec fn two_digits(n: int) -> Seq<char> {
    seq![digit_char(n / 10), digit_char(n % 10)]
}

/// A date and a time of day as text.
pub open spec fn date_text(y: int, m: int, d: int, minute: int) -> Seq<char> {
    decimal(y as nat).push('-') + two_digits(m).push('-') + two_digits(d).push(' ') + two_digits(
        minute / 60,
    ).push(':') + two_digits(minute % 60)
}

proof fn lemma_months(y: int)
    ensures
        days_before_month(y, 1) == 0,
        days_before_month(y, 2) == 31,
        days_before_month(y, 3) == 31 + month_days(y, 2),
        days_before_month(y, 4) == 62 + month_days(y, 2),
        days_before_month(y, 5) == 92 + month_days(y, 2),
        days_before_month(y, 6) == 123 + month_days(y, 2),
        days_before_month(y, 7) == 153 + month_days(y, 2),
        days_before_month(y, 8) == 184 + month_days(y, 2),
        days_before_month(y, 9) == 215 + month_days(y, 2),
        days_before_month(y, 10) == 245 + month_days(y, 2),
        days_before_month(y, 11) == 276 + month_days(y, 2),
        days_before_month(y, 12) == 306 + month_days(y, 2),
{
    reveal_with_fuel(days_before_month, 13);
}

/// The date that lies `days` after 1970-01-01, as year, month and day.
#[verifier::spinoff_prover]
#[verifier::rlimit(60)]
pub fn civil_date(days: u64) -> (r: (u64, u64, u64))
    requires
        days <= 0xFFFF_FFFF_FFFF,
    ensures
        is_date(r.0 as int, r.1 as int, r.2 as int),
        day_number(r.0 as int, r.1 as int, r.2 as int) == days,
        1970 <= r.0 <= 0xFFFF_FFFF_FFFF,
{
    // Years are counted from March, so that a leap day is the last of its year.
    let z: u64 = days + 719468;
    let n400: u64 = z / 146097;
    let in400: u64 = z % 146097;
    let n100: u64 = if in400 == 146096 {
        3
    } else {
        in400 / 36524
    };
    let in100: u64 = in400 - n100 * 36524;
    let n4: u64 = in100 / 1461;
    let in4: u64 = in100 % 1461;
    let n1: u64 = if in4 == 1460 {
        3
    } else {
        in4 / 365
    };
    let doy: u64 = in4 - n1 * 365;
    let year: u64 = n400 * 400 + n100 * 100 + n4 * 4 + n1;
    let mp: u64 = (5 * doy + 2) / 153;
    let d: u64 = doy - (153 * mp + 2) / 5 + 1;
    let m: u64 = if mp < 10 {
        mp + 3
    } else {
        mp - 9
    };
    let y: u64 = if m <= 2 {
        year + 1
    } else {
        year
    };
    proof {
        lemma_months(y as int);
        lemma_years(n400 as int, n100 as int, n4 as int, n1 as int);
        assert(doy <= 365);
        assert(doy == 365 ==> n1 == 3 && (n4 != 24 || n100 == 3));
        assert(days_before_year(1970) == 719528);
        assert(0 <= mp <= 11);
        assert(mp == 0 || mp == 1 || mp == 2 || mp == 3 || mp == 4 || mp == 5 || mp == 6 || mp == 7
            || mp == 8 || mp == 9 || mp == 10 || mp == 11);
    }
    (y, m, d)
}

/// The days before the March of a year, and whether the next year has a leap day.
proof fn lemma_years(n400: int, n100: int, n4: int, n1: int)
    requires
        0 <= n400,
        0 <= n100 <= 3,
        0 <= n4 <= 24,
        0 <= n1 <= 3,
    ensures
        ({
            let y = n400 * 400 + n100 * 100 + n4 * 4 + n1;
            &&& days_before_year(y) + 31 + month_days(y, 2) == n400 * 146097 + n100 * 36524 + n4
                * 1461 + n1 * 365 + 60
            &&& days_before_year(y + 1) == days_before_year(y) + 337 + month_days(y, 2)
            &&& is_leap(y + 1) <==> n1 == 3 && (n4 != 24 || n100 == 3)
        }),
{
    let y = n400 * 400 + n100 * 100 + n4 * 4 + n1;
    let (q4, q100) = (n400 * 100 + n100 * 25 + n4, n400 * 4 + n100);
    let t = n4 * 4 + n1;
    let r = n100 * 100 + t;
    lemma_steps(y, 4, q4, n1);
    lemma_steps(y, 100, q100, t);
    lemma_steps(y, 400, n400, r);
}

/// How a year that is `r` past a multiple of `d` divides by `d`, and the year after it.
proof fn lemma_steps(y: int, d: int, q: int, r: int)
    requires
        d > 0,
        y == q * d + r,
        0 <= r < d,
    ensures
        y % d == r,
        (y + d - 1) / d == if r == 0 {
            q
        } else {
            q + 1
        },
        (y + d) / d == q + 1,
        (y + 1) % d == if r == d - 1 {
            0
        } else {
            r + 1
        },
{
    assert((q + 1) * d == q * d + d) by (nonlinear_arith);
    lemma_fundamental_div_mod_converse(y, d, q, r);
    lemma_fundamental_div_mod_converse(y + d, d, q + 1, r);
    if r == 0 {
        lemma_fundamental_div_mod_converse(y + d - 1, d, q, d - 1);
    } else {
        lemma_fundamental_div_mod_converse(y + d - 1, d, q + 1, r - 1);
    }
    if r == d - 1 {
        lemma_fundamental_div_mod_converse(y + 1, d, q + 1, 0);
    } else {
        lemma_fundamental_div_mod_converse(y + 1, d, q, r + 1);
    }
}

/// Whether a text names the day and the minute, in UTC, that hold an instant.
pub open spec fn names_minute(text: Seq<char>, secs: int) -> bool {
    exists|y: int, m: int, d: int|
        is_date(y, m, d) && day_number(y, m, d) == secs / 86400 && text == #[trigger] date_text(
            y,
            m,
            d,
            secs % 86400 / 60,
        )
}

fn push_two(out: &mut String, n: u64)
    requires
        n < 100,
    ensures
        final(out)@ == old(out)@ + two_digits(n as int),
{
    out.push((0x30u8 + (n / 10) as u8) as char);
    out.push((0x30u8 + (n % 10) as u8) as char);
    assert(out@ =~= old(out)@ + two_digits(n as int));
}

/// A timestamp, in seconds since the Unix epoch, as a short date for the listing
/// column.
pub fn short_date(secs: u64) -> (r: String)
    ensures
        names_minute(r@, secs as int),
{
    let (y, m, d) = civil_date(secs / 86400);
    let minute: u64 = secs % 86400 / 60;
    let mut out = String::new();
    push_decimal(&mut out, y);
    out.push('-');
    push_two(&mut out, m);
    out.push('-');
    push_two(&mut out, d);
    out.push(' ');
    push_two(&mut out, minute / 60);
    out.push(':');
    push_two(&mut out, minute % 60);
    assert(out@ =~= date_text(y as int, m as int, d as int, minute as int));
    out
}

/// A day has one date: the date that a timestamp is shown with is the only one
/// there is.
pub proof fn a_day_has_one_date(y1: int, m1: int, d1: int, y2: int, m2: int, d2: int)
    requires
        is_date(y1, m1, d1),
        is_date(y2, m2, d2),
        day_number(y1, m1, d1) == day_number(y2, m2, d2),
    ensures
        y1 == y2,
        m1 == m2,
        d1 == d2,
{
    if y1 < y2 {
        lemma_within_year(y1, m1, d1);
        lemma_within_year(y2, m2, d2);
        lemma_year_grows(y1 + 1, y2);
    } else if y2 < y1 {
        lemma_within_year(y1, m1, d1);
        lemma_within_year(y2, m2, d2);
        lemma_year_grows(y2 + 1, y1);
    } else {
        lemma_months(y1);
        assert(forall|m: int| 1 <= m <= 12 ==> m == 1 || m == 2 || m == 3 || m == 4 || m == 5 || m
            == 6 || m == 7 || m == 8 || m == 9 || m == 10 || m == 11 || (#[trigger] month_days(y1, m) == 31 && m == 12));
        assert(m1 == 12 || m1 <= 11);
        assert(m2 == 12 || m2 <= 11);
    }
}

proof fn lemma_within_year(y: int, m: int, d: int)
    requires
        is_date(y, m, d),
    ensures
        days_before_year(y) <= days_before_year(y) + days_before_month(y, m) + d - 1
            < days_before_year(y + 1),
{
    lemma_months(y);
    assert(m == 1 || m == 2 || m == 3 || m == 4 || m == 5 || m == 6 || m == 7 || m == 8 || m == 9
        || m == 10 || m == 11 || m == 12);
    lemma_year_length(y);
}

proof fn lemma_year_length(y: int)
    ensures
        days_before_year(y + 1) == days_before_year(y) + 337 + month_days(y, 2),
{
    lemma_steps(y, 4, y / 4, y % 4);
    lemma_steps(y, 100, y / 100, y % 100);
    lemma_steps(y, 400, y / 400, y % 400);
    assert(y % 100 == 0 ==> y % 4 == 0);
    assert(y % 400 == 0 ==> y % 100 == 0);
}

proof fn lemma_year_grows(a: int, b: int)
    requires
        a <= b,
    ensures
        days_before_year(a) <= days_before_year(b),
{
}

/// The first second of the year 10000.
pub const YEAR_10000: u64 = 253_402_300_800;

/// Whether a text has the form `YYYY-MM-DD HH:MM`.
pub open spec fn is_stamp(text: Seq<char>) -> bool {
    &&& text.len() == 16
    &&& text[4] == '-' && text[7] == '-' && text[10] == ' ' && text[13] == ':'
    &&& forall|i: int|
        0 <= i < 16 && i != 4 && i != 7 && i != 10 && i != 13 ==> crate::text::is_digit(
            #[trigger] text[i],
        )
}

/// Up to the year 9999 dates are texts of one form, which compare as the instants do that
/// they stand for: those of one minute are the same, and those of a later one come later.
pub proof fn dates_compare_as_instants_do(a: u64, b: u64, x: Seq<char>, y: Seq<char>)
    requires
        a <= b < YEAR_10000,
        names_minute(x, a as int),
        names_minute(y, b as int),
    ensures
        is_stamp(x),
        is_stamp(y),
        x == y <==> a / 60 == b / 60,
        a / 60 != b / 60 ==> crate::text::precedes(x, y),
{
    let (ta, tb) = (a as int % 86400 / 60, b as int % 86400 / 60);
    let (y1, m1, d1) = choose|y: int, m: int, d: int|
        is_date(y, m, d) && day_number(y, m, d) == a as int / 86400 && x == #[trigger] date_text(
            y,
            m,
            d,
            ta,
        );
    let (y2, m2, d2) = choose|yy: int, m: int, d: int|
        is_date(yy, m, d) && day_number(yy, m, d) == b as int / 86400 && y == #[trigger] date_text(
            yy,
            m,
            d,
            tb,
        );
    lemma_minutes(a as int);
    lemma_minutes(b as int);
    lemma_four_digit_year(y1, m1, d1);
    lemma_four_digit_year(y2, m2, d2);
    lemma_stamp(y1, m1, d1, ta);
    lemma_stamp(y2, m2, d2, tb);
    if a as int / 86400 == b as int / 86400 {
        a_day_has_one_date(y1, m1, d1, y2, m2, d2);
    } else {
        lemma_date_order(y1, m1, d1, y2, m2, d2);
    }
    if a / 60 != b / 60 {
        lemma_stamps_order(y1, m1, d1, ta, y2, m2, d2, tb);
        crate::text::precedes_is_asymmetric(x, y);
    }
}

proof fn lemma_minutes(secs: int)
    requires
        0 <= secs,
    ensures
        secs / 60 == secs / 86400 * 1440 + secs % 86400 / 60,
        0 <= secs % 86400 / 60 < 1440,
{
}

proof fn lemma_stamps_order(
    y1: int,
    m1: int,
    d1: int,
    t1: int,
    y2: int,
    m2: int,
    d2: int,
    t2: int,
)
    requires
        is_date(y1, m1, d1),
        is_date(y2, m2, d2),
        1970 <= y1 <= 9999,
        1970 <= y2 <= 9999,
        0 <= t1 < 1440,
        0 <= t2 < 1440,
        y1 < y2 || (y1 == y2 && (m1 < m2 || (m1 == m2 && (d1 < d2 || (d1 == d2 && t1 < t2))))),
    ensures
        crate::text::precedes(date_text(y1, m1, d1, t1), date_text(y2, m2, d2, t2)),
{
    let (x, y) = (date_text(y1, m1, d1, t1), date_text(y2, m2, d2, t2));
    lemma_stamp(y1, m1, d1, t1);
    lemma_stamp(y2, m2, d2, t2);
    if y1 < y2 {
        lemma_year_digits(x, y, y1, y2);
    } else if m1 < m2 {
        lemma_two_digits(x, y, 5, m1, m2);
    } else if d1 < d2 {
        lemma_two_digits(x, y, 8, d1, d2);
    } else if t1 / 60 < t2 / 60 {
        lemma_two_digits(x, y, 11, t1 / 60, t2 / 60);
    } else {
        lemma_two_digits(x, y, 14, t1 % 60, t2 % 60);
    }
}

proof fn lemma_four_digit_year(y: int, m: int, d: int)
    requires
        is_date(y, m, d),
        0 <= day_number(y, m, d) < 2_932_897,
    ensures
        1970 <= y <= 9999,
{
    lemma_within_year(y, m, d);
    if y < 1970 {
        lemma_year_grows(y + 1, 1970);
    }
    if y > 9999 {
        lemma_year_grows(10000, y);
        assert(days_before_year(10000) == 3_652_425);
        assert(days_before_year(1970) == 719_528);
    }
}

proof fn lemma_stamp(y: int, m: int, d: int, minute: int)
    requires
        is_date(y, m, d),
        1970 <= y <= 9999,
        0 <= minute < 1440,
    ensures
        ({
            let t = date_text(y, m, d, minute);
            &&& is_stamp(t)
            &&& t.subrange(0, 4) == decimal(y as nat)
            &&& t[0] == digit_char(y / 1000)
            &&& t[1] == digit_char(y / 100 % 10)
            &&& t[2] == digit_char(y / 10 % 10)
            &&& t[3] == digit_char(y % 10)
            &&& t[5] == digit_char(m / 10) && t[6] == digit_char(m % 10)
            &&& t[8] == digit_char(d / 10) && t[9] == digit_char(d % 10)
            &&& t[11] == digit_char(minute / 60 / 10) && t[12] == digit_char(minute / 60 % 10)
            &&& t[14] == digit_char(minute % 60 / 10) && t[15] == digit_char(minute % 60 % 10)
        }),
{
    reveal_with_fuel(decimal, 4);
    let n = y as nat;
    assert(decimal(n) =~= seq![
        digit_char(y / 1000),
        digit_char(y / 100 % 10),
        digit_char(y / 10 % 10),
        digit_char(y % 10),
    ]);
    let t = date_text(y, m, d, minute);
    assert(t.subrange(0, 4) =~= decimal(n));
    assert(t.len() == 16);
    assert(t[0] == decimal(n)[0] && t[1] == decimal(n)[1] && t[2] == decimal(n)[2] && t[3] == decimal(
        n,
    )[3]);
    assert forall|i: int| 0 <= i < 16 && i != 4 && i != 7 && i != 10 && i != 13 implies crate::text::is_digit(
        #[trigger] t[i],
    ) by {
        assert(i == 0 || i == 1 || i == 2 || i == 3 || i == 5 || i == 6 || i == 8 || i == 9 || i == 11
            || i == 12 || i == 14 || i == 15);
    }
}

proof fn lemma_date_order(y1: int, m1: int, d1: int, y2: int, m2: int, d2: int)
    requires
        is_date(y1, m1, d1),
        is_date(y2, m2, d2),
        day_number(y1, m1, d1) < day_number(y2, m2, d2),
    ensures
        y1 < y2 || (y1 == y2 && (m1 < m2 || (m1 == m2 && d1 < d2))),
{
    if y2 < y1 {
        lemma_within_year(y1, m1, d1);
        lemma_within_year(y2, m2, d2);
        lemma_year_grows(y2 + 1, y1);
    } else if y1 == y2 && m2 < m1 {
        lemma_month_grows(y1, m2 + 1, m1);
    }
}

proof fn lemma_month_grows(y: int, a: int, b: int)
    requires
        1 <= a <= b,
    ensures
        days_before_month(y, a) <= days_before_month(y, b),
    decreases b - a,
{
    if a < b {
        lemma_month_grows(y, a, b - 1);
    }
}

/// Two texts that agree up to a place compare as they do there.
proof fn lemma_first_difference(x: Seq<char>, y: Seq<char>, k: int)
    requires
        0 <= k < x.len(),
        k < y.len(),
        forall|i: int| 0 <= i < k ==> #[trigger] x[i] == y[i],
        (x[k] as int) < (y[k] as int),
    ensures
        crate::text::precedes(x, y),
    decreases k,
{
    if k > 0 {
        assert(x[0] == y[0]);
        let (u, v) = (x.drop_first(), y.drop_first());
        assert forall|i: int| 0 <= i < k - 1 implies #[trigger] u[i] == v[i] by {
            assert(x[i + 1] == y[i + 1]);
        }
        lemma_first_difference(u, v, k - 1);
    }
}

proof fn lemma_two_digits(x: Seq<char>, y: Seq<char>, at: int, m: int, n: int)
    requires
        0 <= m < n < 100,
        0 <= at,
        at + 1 < x.len(),
        at + 1 < y.len(),
        forall|i: int| 0 <= i < at ==> #[trigger] x[i] == y[i],
        x[at] == digit_char(m / 10) && x[at + 1] == digit_char(m % 10),
        y[at] == digit_char(n / 10) && y[at + 1] == digit_char(n % 10),
    ensures
        crate::text::precedes(x, y),
{
    if m / 10 < n / 10 {
        lemma_first_difference(x, y, at);
    } else {
        assert forall|i: int| 0 <= i < at + 1 implies #[trigger] x[i] == y[i] by {}
        lemma_first_difference(x, y, at + 1);
    }
}

proof fn lemma_year_digits(x: Seq<char>, y: Seq<char>, m: int, n: int)
    requires
        0 <= m < n <= 9999,
        x.len() >= 4,
        y.len() >= 4,
        x[0] == digit_char(m / 1000) && x[1] == digit_char(m / 100 % 10),
        x[2] == digit_char(m / 10 % 10) && x[3] == digit_char(m % 10),
        y[0] == digit_char(n / 1000) && y[1] == digit_char(n / 100 % 10),
        y[2] == digit_char(n / 10 % 10) && y[3] == digit_char(n % 10),
    ensures
        crate::text::precedes(x, y),
{
    let (a, b, c, d) = (m / 1000, m / 100 % 10, m / 10 % 10, m % 10);
    let (e, f, g, h) = (n / 1000, n / 100 % 10, n / 10 % 10, n % 10);
    lemma_places(m);
    lemma_places(n);
    lemma_digits_order(x, y, a, b, c, d, e, f, g, h);
}

proof fn lemma_places(n: int)
    requires
        0 <= n <= 9999,
    ensures
        n == 1000 * (n / 1000) + 100 * (n / 100 % 10) + 10 * (n / 10 % 10) + n % 10,
        0 <= n / 1000 <= 9,
{
    let (t, h) = (n / 10, n / 100);
    assert(t / 10 == h);
    assert(h / 10 == n / 1000);
    assert(n == 10 * t + n % 10);
    assert(t == 10 * h + t % 10);
    assert(h == 10 * (h / 10) + h % 10);
}

proof fn lemma_digits_order(
    x: Seq<char>,
    y: Seq<char>,
    a: int,
    b: int,
    c: int,
    d: int,
    e: int,
    f: int,
    g: int,
    h: int,
)
    requires
        x.len() >= 4,
        y.len() >= 4,
        0 <= a <= 9 && 0 <= b <= 9 && 0 <= c <= 9 && 0 <= d <= 9,
        0 <= e <= 9 && 0 <= f <= 9 && 0 <= g <= 9 && 0 <= h <= 9,
        1000 * a + 100 * b + 10 * c + d < 1000 * e + 100 * f + 10 * g + h,
        x[0] == digit_char(a) && x[1] == digit_char(b) && x[2] == digit_char(c) && x[3]
            == digit_char(d),
        y[0] == digit_char(e) && y[1] == digit_char(f) && y[2] == digit_char(g) && y[3]
            == digit_char(h),
    ensures
        crate::text::precedes(x, y),
{
    if a < e {
        lemma_first_difference(x, y, 0);
    } else if b < f {
        lemma_first_difference(x, y, 1);
    } else if c < g {
        lemma_first_difference(x, y, 2);
    } else {
        lemma_first_difference(x, y, 3);
    }
}

/// The first transfer with an id.
pub open spec fn transfer_at(transfers: Seq<Transfer>, id: u64, from: int) -> Option<int>
    decreases transfers.len() - from,
{
    if from < 0 || from >= transfers.len() {
        None
    } else if transfers[from].id == id {
        Some(from)
    } else {
        transfer_at(transfers, id, from + 1)
    }
}

/// The first folder copy with an id.
pub open spec fn batch_at(batches: Seq<Batch>, id: u64, from: int) -> Option<int>
    decreases batches.len() - from,
{
    if from < 0 || from >= batches.len() {
        None
    } else if batches[from].id == id {
        Some(from)
    } else {
        batch_at(batches, id, from + 1)
    }
}

/// The transfers with a new count of bytes moved.
pub open spec fn advanced(transfers: Seq<Transfer>, id: u64, done: u64) -> Seq<Transfer> {
    match transfer_at(transfers, id, 0) {
        Some(i) => transfers.update(i, Transfer { done, ..transfers[i] }),
        None => transfers,
    }
}

/// The transfers with a size learned.
pub open spec fn totalled(transfers: Seq<Transfer>, id: u64, total: u64) -> Seq<Transfer> {
    match transfer_at(transfers, id, 0) {
        Some(i) => transfers.update(i, Transfer { total, ..transfers[i] }),
        None => transfers,
    }
}

/// A transfer that has ended. One that succeeded shows a full bar rather than
/// stopping at whatever the last chunk happened to be.
pub open spec fn ended(t: Transfer, outcome: Result<(), String>) -> Transfer {
    Transfer {
        done: if outcome is Ok && t.total > 0 {
            t.total
        } else {
            t.done
        },
        outcome: Some(outcome),
        ..t
    }
}

/// The editor after a save of what is in the box was answered. Only a save that succeeded
/// makes that text the one that the robot has.
pub open spec fn after_save(editor: Option<Editor>, outcome: Result<(), String>) -> Option<Editor> {
    match editor {
        None => None,
        Some(e) => Some(
            match outcome {
                Ok(_) => Editor { saving: false, saved: e.text, error: None, ..e },
                Err(reason) => Editor { saving: false, error: Some(reason), ..e },
            },
        ),
    }
}

/// The editor after the answer to a save of `text` to `path`. What the robot confirmed is the
/// text that was sent, whatever was typed since; a file that is open by now instead is not
/// touched by it, but what went wrong is shown wherever the operator is looking.
pub open spec fn after_answer(
    editor: Option<Editor>,
    path: Seq<char>,
    text: String,
    outcome: Result<(), String>,
) -> Option<Editor> {
    match editor {
        None => None,
        Some(e) => Some(
            match outcome {
                Ok(_) => if e.path@ == path {
                    Editor { saving: false, saved: text, error: None, ..e }
                } else {
                    e
                },
                Err(reason) => if e.path@ == path {
                    Editor { saving: false, error: Some(reason), ..e }
                } else {
                    Editor { error: Some(reason), ..e }
                },
            },
        ),
    }
}

/// The editor after a file arrived. A file that the editor is not showing changes
/// nothing.
pub open spec fn after_open(editor: Option<Editor>, path: Seq<char>, text: String) -> Option<
    Editor,
> {
    match editor {
        None => None,
        Some(e) => if e.path@ == path {
            Some(Editor { saved: text, text, loading: false, error: None, ..e })
        } else {
            Some(e)
        },
    }
}

/// How many transfers have not ended.
pub open spec fn running_count(transfers: Seq<Transfer>) -> nat
    decreases transfers.len(),
{
    if transfers.len() == 0 {
        0
    } else {
        running_count(transfers.drop_last()) + (if transfers.last().outcome is None {
            1nat
        } else {
            0
        })
    }
}

/// The transfers that have not ended, in order.
pub open spec fn still_running(transfers: Seq<Transfer>) -> Seq<Transfer>
    decreases transfers.len(),
{
    if transfers.len() == 0 {
        transfers
    } else if transfers.last().outcome is None {
        still_running(transfers.drop_last()).push(transfers.last())
    } else {
        still_running(transfers.drop_last())
    }
}

/// Whether a transfer of a folder copy has not ended.
pub open spec fn moves_for(transfers: Seq<Transfer>, batch: u64) -> bool {
    exists|i: int|
        0 <= i < transfers.len() && (#[trigger] transfers[i]).outcome is None && transfers[i].batch
            == Some(batch)
}

/// The folder copies that still have something to move, in order.
pub open spec fn still_moving(batches: Seq<Batch>, transfers: Seq<Transfer>) -> Seq<Batch>
    decreases batches.len(),
{
    if batches.len() == 0 {
        batches
    } else {
        let before = still_moving(batches.drop_last(), transfers);
        let b = batches.last();
        if b.queued > 0 || moves_for(transfers, b.id) {
            before.push(b)
        } else {
            before
        }
    }
}

/// The folder copy that a command belongs to, if it moves a file of one.
pub open spec fn batch_of(command: Command) -> Option<u64> {
    match command {
        Command::Download { batch, .. } => batch,
        Command::Upload { batch, .. } => batch,
        _ => None,
    }
}

/// Whether a command moves a file.
pub open spec fn moves_file(command: Command) -> bool {
    command is Download || command is Upload
}

/// How many commands at the front of the queue can go out while there is room for
/// `room` more files. What moves no file needs no room.
pub open spec fn ready_count(queue: Seq<Command>, room: int) -> int
    decreases queue.len(),
{
    if queue.len() == 0 {
        0
    } else if !moves_file(queue[0]) {
        1 + ready_count(queue.drop_first(), room)
    } else if room > 0 {
        1 + ready_count(queue.drop_first(), room - 1)
    } else {
        0
    }
}

/// How many of the commands move a file.
pub open spec fn file_count(commands: Seq<Command>) -> nat
    decreases commands.len(),
{
    if commands.len() == 0 {
        0
    } else {
        file_count(commands.drop_last()) + (if moves_file(commands.last()) {
            1nat
        } else {
            0
        })
    }
}

/// The folder copies with one more file of `batch` waiting, or one fewer.
pub open spec fn queued_changed(batches: Seq<Batch>, batch: Option<u64>, up: bool) -> Seq<Batch> {
    match batch {
        None => batches,
        Some(id) => match batch_at(batches, id, 0) {
            None => batches,
            Some(i) => {
                let q = batches[i].queued;
                let n = if up {
                    if q < usize::MAX {
                        (q + 1) as usize
                    } else {
                        q
                    }
                } else if q > 0 {
                    (q - 1) as usize
                } else {
                    q
                };
                batches.update(i, Batch { queued: n, ..batches[i] })
            },
        },
    }
}

/// Files and bytes of a folder copy that have started.
pub struct Tally {
    pub done: nat,
    pub failed: nat,
    pub started: nat,
    pub bytes_done: nat,
    pub bytes_total: nat,
}

/// What the transfers of a folder copy add up to.
pub open spec fn tally(transfers: Seq<Transfer>, batch: u64) -> Tally
    decreases transfers.len(),
{
    if transfers.len() == 0 {
        Tally { done: 0, failed: 0, started: 0, bytes_done: 0, bytes_total: 0 }
    } else {
        let before = tally(transfers.drop_last(), batch);
        let t = transfers.last();
        if t.batch == Some(batch) {
            Tally {
                done: before.done + (if t.outcome matches Some(Ok(_)) {
                    1nat
                } else {
                    0
                }),
                failed: before.failed + (if t.outcome matches Some(Err(_)) {
                    1nat
                } else {
                    0
                }),
                started: before.started + 1,
                bytes_done: before.bytes_done + t.done as nat,
                bytes_total: before.bytes_total + t.total as nat,
            }
        } else {
            before
        }
    }
}

/// What the panes do not show: where downloads go, which requests were saves or
/// folder listings, what waits, how many files were handed out and have not
/// started, and the last request id.
pub struct Books {
    pub destinations: Map<u64, String>,
    /// The path and the text of each save that was not answered yet.
    pub saves: Map<u64, (String, String)>,
    pub trees: Map<u64, (u64, String)>,
    pub queue: Seq<Command>,
    pub handed: usize,
    pub last_id: u64,
}

/// What the panes show besides transfers.
pub struct Shown {
    pub listing: Option<DirListing>,
    pub loading: bool,
    pub error: Option<String>,
    pub editor: Option<Editor>,
}

/// What the panes do not show.
pub struct Ledger {
    destinations: HashMap<u64, String>,
    saves: HashMap<u64, (String, String)>,
    trees: HashMap<u64, (u64, String)>,
    queue: Vec<Command>,
    handed: usize,
    last_id: u64,
}

impl View for Ledger {
    type V = Books;

    closed spec fn view(&self) -> Books {
        Books {
            destinations: self.destinations@,
            saves: self.saves@,
            trees: self.trees@,
            queue: self.queue@,
            handed: self.handed,
            last_id: self.last_id,
        }
    }
}

/// Everything the file panes read, written by the session.
pub struct State {
    /// The robot directory currently shown.
    pub listing: Option<DirListing>,
    /// A listing has been asked for and has not come back.
    pub loading: bool,
    /// The last thing that went wrong.
    pub error: Option<String>,
    pub transfers: Vec<Transfer>,
    pub batches: Vec<Batch>,
    /// The file being edited, if any.
    pub editor: Option<Editor>,
    /// What the panes do not show.
    pub ledger: Ledger,
}

impl Default for State {
    /// Nothing shown, nothing moving.
    fn default() -> (r: Self)
        ensures
            r.shown() == (Shown { listing: None, loading: false, error: None, editor: None }),
            r.transfers@.len() == 0,
            r.batches@.len() == 0,
            r.books() == (Books {
                destinations: Map::empty(),
                saves: Map::empty(),
                trees: Map::empty(),
                queue: Seq::empty(),
                handed: 0,
                last_id: 0,
            }),
    {
        let r = State {
            listing: None,
            loading: false,
            error: None,
            transfers: Vec::new(),
            batches: Vec::new(),
            editor: None,
            ledger: Ledger {
                destinations: HashMap::new(),
                saves: HashMap::new(),
                trees: HashMap::new(),
                queue: Vec::new(),
                handed: 0,
                last_id: 0,
            },
        };
        assert(r.books().queue =~= Seq::<Command>::empty());
        r
    }
}

impl State {
    /// What the panes do not show.
    pub open spec fn books(&self) -> Books {
        self.ledger@
    }

    /// What the panes show besides transfers.
    pub open spec fn shown(&self) -> Shown {
        Shown {
            listing: self.listing,
            loading: self.loading,
            error: self.error,
            editor: self.editor,
        }
    }

    /// Whether there are ids left for a command, which may take two.
    pub fn has_ids(&self) -> (r: bool)
        ensures
            r == (self.books().last_id < u64::MAX - 1),
    {
        self.ledger.last_id < u64::MAX - 1
    }

    /// Take the next request id. Ids only have to be unique within a session.
    pub fn next_id(&mut self) -> (r: u64)
        requires
            old(self).books().last_id < u64::MAX,
        ensures
            r == old(self).books().last_id + 1,
            final(self).books() == (Books { last_id: r, ..old(self).books() }),
            final(self).shown() == old(self).shown(),
            final(self).transfers == old(self).transfers,
            final(self).batches == old(self).batches,
    {
        self.ledger.last_id = self.ledger.last_id + 1;
        self.ledger.last_id
    }

    /// Notes where a download goes. The host's reply carries only an id.
    pub fn remember_destination(&mut self, id: u64, path: String)
        ensures
            final(self).books() == (Books {
                destinations: old(self).books().destinations.insert(id, path),
                ..old(self).books()
            }),
            final(self).shown() == old(self).shown(),
            final(self).transfers == old(self).transfers,
            final(self).batches == old(self).batches,
    {
        self.ledger.destinations.insert(id, path);
    }

    /// Takes out where a download goes.
    pub fn destination(&mut self, id: u64) -> (r: Option<String>)
        ensures
            r == if old(self).books().destinations.contains_key(id) {
                Some(old(self).books().destinations[id])
            } else {
                None
            },
            final(self).books() == (Books {
                destinations: old(self).books().destinations.remove(id),
                ..old(self).books()
            }),
            final(self).shown() == old(self).shown(),
            final(self).transfers == old(self).transfers,
            final(self).batches == old(self).batches,
    {
        self.ledger.destinations.remove(&id)
    }

    fn find_transfer(&self, id: u64) -> (r: Option<usize>)
        ensures
            match r {
                Some(i) => transfer_at(self.transfers@, id, 0) == Some(i as int) && i
                    < self.transfers@.len(),
                None => transfer_at(self.transfers@, id, 0) is None,
            },
    {
        let mut i: usize = 0;
        while i < self.transfers.len()
            invariant
                i <= self.transfers.len(),
                transfer_at(self.transfers@, id, 0) == transfer_at(self.transfers@, id, i as int),
            decreases self.transfers.len() - i,
        {
            if self.transfers[i].id == id {
                return Some(i);
            }
            i = i + 1;
        }
        None
    }

    fn find_batch(&self, id: u64) -> (r: Option<usize>)
        ensures
            match r {
                Some(i) => batch_at(self.batches@, id, 0) == Some(i as int) && i
                    < self.batches@.len(),
                None => batch_at(self.batches@, id, 0) is None,
            },
    {
        let mut i: usize = 0;
        while i < self.batches.len()
            invariant
                i <= self.batches.len(),
                batch_at(self.batches@, id, 0) == batch_at(self.batches@, id, i as int),
            decreases self.batches.len() - i,
        {
            if self.batches[i].id == id {
                return Some(i);
            }
            i = i + 1;
        }
        None
    }

    /// Adds a row for a file that starts moving on its own.
    pub fn begin(&mut self, id: u64, name: String, direction: Direction, total: u64)
        ensures
            final(self).transfers@ == old(self).transfers@.push(
                Transfer { id, name, direction, done: 0, total, outcome: None, batch: None },
            ),
            final(self).shown() == old(self).shown(),
            final(self).batches == old(self).batches,
            final(self).books() == old(self).books(),
    {
        self.transfers.push(
            Transfer { id, name, direction, done: 0, total, outcome: None, batch: None },
        );
    }

    /// Notes that a file of a folder copy, handed out before, is no longer waiting.
    fn leave_queue(&mut self, batch: Option<u64>)
        ensures
            final(self).batches@ == queued_changed(old(self).batches@, batch, false),
            final(self).books() == (Books {
                handed: if batch is Some && old(self).books().handed > 0 {
                    (old(self).books().handed - 1) as usize
                } else {
                    old(self).books().handed
                },
                ..old(self).books()
            }),
            final(self).shown() == old(self).shown(),
            final(self).transfers == old(self).transfers,
    {
        if let Some(id) = batch {
            if self.ledger.handed > 0 {
                self.ledger.handed = self.ledger.handed - 1;
            }
            if let Some(i) = self.find_batch(id) {
                let b = &mut self.batches[i];
                if b.queued > 0 {
                    b.queued = b.queued - 1;
                }
            }
        }
        assert(self.batches@ =~= queued_changed(old(self).batches@, batch, false));
    }

    /// Notes that a file that was handed out will not start.
    pub fn give_up(&mut self, batch: Option<u64>)
        ensures
            final(self).batches@ == queued_changed(old(self).batches@, batch, false),
            final(self).books() == (Books {
                handed: if batch is Some && old(self).books().handed > 0 {
                    (old(self).books().handed - 1) as usize
                } else {
                    old(self).books().handed
                },
                ..old(self).books()
            }),
            final(self).shown() == old(self).shown(),
            final(self).transfers == old(self).transfers,
    {
        self.leave_queue(batch)
    }

    /// Adds a row for a file that starts moving, and counts it as started where it
    /// belongs to a folder copy.
    pub fn begin_in(
        &mut self,
        id: u64,
        name: String,
        direction: Direction,
        total: u64,
        batch: Option<u64>,
    )
        ensures
            final(self).transfers@ == old(self).transfers@.push(
                Transfer { id, name, direction, done: 0, total, outcome: None, batch },
            ),
            final(self).batches@ == queued_changed(old(self).batches@, batch, false),
            final(self).books() == (Books {
                handed: if batch is Some && old(self).books().handed > 0 {
                    (old(self).books().handed - 1) as usize
                } else {
                    old(self).books().handed
                },
                ..old(self).books()
            }),
            final(self).shown() == old(self).shown(),
    {
        self.leave_queue(batch);
        self.transfers.push(Transfer { id, name, direction, done: 0, total, outcome: None, batch });
    }

    /// Notes how many bytes of a file have moved.
    pub fn advance(&mut self, id: u64, done: u64)
        ensures
            final(self).transfers@ == advanced(old(self).transfers@, id, done),
            final(self).shown() == old(self).shown(),
            final(self).batches == old(self).batches,
            final(self).books() == old(self).books(),
    {
        if let Some(i) = self.find_transfer(id) {
            let t = &mut self.transfers[i];
            t.done = done;
        }
        assert(self.transfers@ =~= advanced(old(self).transfers@, id, done));
    }

    /// Notes the size of a file.
    pub fn set_total(&mut self, id: u64, total: u64)
        ensures
            final(self).transfers@ == totalled(old(self).transfers@, id, total),
            final(self).shown() == old(self).shown(),
            final(self).batches == old(self).batches,
            final(self).books() == old(self).books(),
    {
        if let Some(i) = self.find_transfer(id) {
            let t = &mut self.transfers[i];
            t.total = total;
        }
        assert(self.transfers@ =~= totalled(old(self).transfers@, id, total));
    }

    /// Records how a save of what is in the box ended, on the editor.
    pub fn finish_save(&mut self, outcome: Result<(), String>)
        ensures
            final(self).shown() == (Shown {
                editor: after_save(old(self).editor, outcome),
                ..old(self).shown()
            }),
            final(self).transfers == old(self).transfers,
            final(self).batches == old(self).batches,
            final(self).books() == old(self).books(),
    {
        if let Some(editor) = &mut self.editor {
            editor.saving = false;
            match outcome {
                Ok(_) => {
                    editor.saved = editor.text.clone();
                    editor.error = None;
                },
                Err(reason) => {
                    editor.error = Some(reason);
                },
            }
        }
    }

    /// Records how a save of `text` to `path` ended, on the editor.
    pub fn settle_save(&mut self, path: &str, text: String, outcome: Result<(), String>)
        ensures
            final(self).shown() == (Shown {
                editor: after_answer(old(self).editor, path@, text, outcome),
                ..old(self).shown()
            }),
            final(self).transfers == old(self).transfers,
            final(self).batches == old(self).batches,
            final(self).books() == old(self).books(),
    {
        if let Some(editor) = &mut self.editor {
            let open = same(&editor.path, path);
            match outcome {
                Ok(_) => {
                    if open {
                        editor.saving = false;
                        editor.saved = text;
                        editor.error = None;
                    }
                },
                Err(reason) => {
                    if open {
                        editor.saving = false;
                    }
                    editor.error = Some(reason);
                },
            }
        }
    }

    /// Records how a transfer ended. An answer can come for something that is no
    /// transfer at all, a delete or a new folder: then a failure is shown as an
    /// error, and success is nothing to show.
    pub fn finish(&mut self, id: u64, outcome: Result<(), String>)
        ensures
            match transfer_at(old(self).transfers@, id, 0) {
                Some(i) => final(self).transfers@ == old(self).transfers@.update(
                    i,
                    ended(old(self).transfers@[i], outcome),
                ) && final(self).shown() == old(self).shown(),
                None => final(self).transfers@ == old(self).transfers@ && final(self).shown() == (
                Shown {
                    error: match outcome {
                        Err(reason) => Some(reason),
                        Ok(_) => old(self).error,
                    },
                    ..old(self).shown()
                }),
            },
            final(self).batches == old(self).batches,
            final(self).books() == (Books {
                destinations: old(self).books().destinations.remove(id),
                ..old(self).books()
            }),
    {
        match self.find_transfer(id) {
            Some(i) => {
                let t = &mut self.transfers[i];
                if outcome.is_ok() && t.total > 0 {
                    t.done = t.total;
                }
                t.outcome = Some(outcome);
            },
            None => {
                if let Err(reason) = outcome {
                    self.error = Some(reason);
                }
            },
        }
        self.ledger.destinations.remove(&id);
        assert(transfer_at(old(self).transfers@, id, 0) matches Some(i) ==> self.transfers@
            =~= old(self).transfers@.update(i, ended(old(self).transfers@[i], outcome)));
    }

    /// Notes that a request is a save of `text` to `path`, whose answer belongs on the editor.
    pub fn remember_save(&mut self, id: u64, path: String, text: String)
        ensures
            final(self).books() == (Books {
                saves: old(self).books().saves.insert(id, (path, text)),
                ..old(self).books()
            }),
            final(self).shown() == old(self).shown(),
            final(self).transfers == old(self).transfers,
            final(self).batches == old(self).batches,
    {
        self.ledger.saves.insert(id, (path, text));
    }

    /// What a request saved, and where, if it was a save. Asked once: the note is taken out.
    pub fn take_save(&mut self, id: u64) -> (r: Option<(String, String)>)
        ensures
            match r {
                Some(s) => old(self).books().saves.contains_key(id) && s
                    == old(self).books().saves[id],
                None => !old(self).books().saves.contains_key(id),
            },
            final(self).books() == (Books {
                saves: old(self).books().saves.remove(id),
                ..old(self).books()
            }),
            final(self).shown() == old(self).shown(),
            final(self).transfers == old(self).transfers,
            final(self).batches == old(self).batches,
    {
        self.ledger.saves.remove(&id)
    }

    /// Whether a request was a save. Asked once: the note is taken out.
    pub fn was_save(&mut self, id: u64) -> (r: bool)
        ensures
            r == old(self).books().saves.contains_key(id),
            final(self).books() == (Books {
                saves: old(self).books().saves.remove(id),
                ..old(self).books()
            }),
            final(self).shown() == old(self).shown(),
            final(self).transfers == old(self).transfers,
            final(self).batches == old(self).batches,
    {
        self.take_save(id).is_some()
    }

    /// Notes that a file has been asked for, so that the editor opens waiting rather
    /// than appearing only once the bytes arrive.
    pub fn begin_open(&mut self, path: String)
        ensures
            ({
                let e = final(self).editor;
                &&& e is Some
                &&& e->0.path == path
                &&& e->0.text@.len() == 0
                &&& e->0.saved@.len() == 0
                &&& e->0.loading
                &&& !e->0.saving
                &&& e->0.error is None
            }),
            final(self).shown() == (Shown { editor: final(self).editor, ..old(self).shown() }),
            final(self).transfers == old(self).transfers,
            final(self).batches == old(self).batches,
            final(self).books() == old(self).books(),
    {
        self.editor = Some(
            Editor {
                path,
                text: String::new(),
                saved: String::new(),
                loading: true,
                saving: false,
                error: None,
            },
        );
    }

    /// Fills the editor with what the robot sent, unless it shows another file by
    /// now: a slow read must not overwrite what has been typed since.
    pub fn opened(&mut self, path: &str, text: String)
        ensures
            final(self).shown() == (Shown {
                editor: after_open(old(self).editor, path@, text),
                ..old(self).shown()
            }),
            final(self).transfers == old(self).transfers,
            final(self).batches == old(self).batches,
            final(self).books() == old(self).books(),
    {
        if let Some(editor) = &mut self.editor {
            if same(&editor.path, path) {
                editor.saved = text.clone();
                editor.text = text;
                editor.loading = false;
                editor.error = None;
            }
        }
    }
}

impl State {
    /// Drop finished rows, keeping anything still running.
    pub fn clear_finished(&mut self)
        ensures
            final(self).transfers@ == still_running(old(self).transfers@),
            final(self).batches@ == still_moving(old(self).batches@, old(self).transfers@),
            final(self).shown() == old(self).shown(),
            final(self).books() == old(self).books(),
    {
        self.drop_settled_batches();
        let mut left: Vec<Transfer> = Vec::new();
        core::mem::swap(&mut left, &mut self.transfers);
        let ghost all = left@;
        let mut kept: Vec<Transfer> = Vec::new();
        assert(all.take(all.len() as int) =~= all);
        let ghost goal = still_running(all);
        assert(goal =~= still_running(all.take(left@.len() as int)) + kept@.reverse());
        loop
            invariant
                left@ == all.take(left@.len() as int),
                left@.len() <= all.len(),
                goal == still_running(all.take(left@.len() as int)) + kept@.reverse(),
                self.batches@ == still_moving(old(self).batches@, old(self).transfers@),
                self.shown() == old(self).shown(),
                self.books() == old(self).books(),
            ensures
                goal == kept@.reverse(),
            decreases left@.len(),
        {
            let ghost n = left@.len() as int;
            match left.pop() {
                None => {
                    assert(all.take(0) =~= Seq::<Transfer>::empty());
                    assert(still_running(all.take(0)) + kept@.reverse() =~= kept@.reverse());
                    break;
                },
                Some(t) => {
                    let ghost old_kept = kept@;
                    assert(all.take(n).drop_last() =~= all.take(n - 1));
                    assert(all.take(n).last() == t);
                    if t.running() {
                        kept.push(t);
                        assert(still_running(all.take(n)) + old_kept.reverse() =~= still_running(
                            all.take(n - 1),
                        ) + kept@.reverse());
                    }
                    assert(left@ =~= all.take(n - 1));
                },
            }
        }
        let mut out: Vec<Transfer> = Vec::new();
        let ghost back = kept@;
        assert(back.take(back.len() as int) =~= back);
        loop
            invariant
                kept@ == back.take(kept@.len() as int),
                kept@.len() <= back.len(),
                goal == back.reverse(),
                out@ + kept@.reverse() == goal,
                self.batches@ == still_moving(old(self).batches@, old(self).transfers@),
                self.shown() == old(self).shown(),
                self.books() == old(self).books(),
            ensures
                out@ == goal,
            decreases kept@.len(),
        {
            let ghost old_kept = kept@;
            let ghost old_out = out@;
            match kept.pop() {
                None => {
                    assert(out@ + kept@.reverse() =~= out@);
                    break;
                },
                Some(t) => {
                    out.push(t);
                    assert(kept@ =~= old_kept.drop_last());
                    assert(out@ + kept@.reverse() =~= old_out + old_kept.reverse());
                    assert(kept@ =~= back.take(kept@.len() as int));
                },
            }
        }
        self.transfers = out;
    }

    fn moves(&self, batch: u64) -> (r: bool)
        ensures
            r == moves_for(self.transfers@, batch),
    {
        let mut i: usize = 0;
        while i < self.transfers.len()
            invariant
                i <= self.transfers.len(),
                forall|j: int|
                    0 <= j < i ==> !((#[trigger] self.transfers@[j]).outcome is None
                        && self.transfers@[j].batch == Some(batch)),
            decreases self.transfers.len() - i,
        {
            let t = &self.transfers[i];
            if t.running() {
                if let Some(b) = t.batch {
                    if b == batch {
                        assert(self.transfers@[i as int].batch == Some(batch));
                        return true;
                    }
                }
            }
            i = i + 1;
        }
        false
    }

    fn drop_settled_batches(&mut self)
        ensures
            final(self).batches@ == still_moving(old(self).batches@, old(self).transfers@),
            final(self).transfers == old(self).transfers,
            final(self).shown() == old(self).shown(),
            final(self).books() == old(self).books(),
    {
        let mut i: usize = 0;
        let ghost all = self.batches@;
        let ghost transfers = self.transfers@;
        assert(all.take(0) =~= Seq::<Batch>::empty());
        assert(all.skip(0) =~= all);
        assert(still_moving(all.take(0), transfers) + all.skip(0) =~= all);
        let ghost mut seen: int = 0;
        while i < self.batches.len()
            invariant
                0 <= seen <= all.len(),
                i == still_moving(all.take(seen), transfers).len(),
                self.batches@ == still_moving(all.take(seen), transfers) + all.skip(seen),
                self.transfers == old(self).transfers,
                transfers == self.transfers@,
                self.shown() == old(self).shown(),
                self.books() == old(self).books(),
            decreases all.len() - seen,
        {
            let ghost before = still_moving(all.take(seen), transfers);
            proof {
                assert(self.batches@[i as int] == all[seen]);
                assert(all.take(seen + 1).drop_last() =~= all.take(seen));
            }
            if self.batches[i].queued > 0 || self.moves(self.batches[i].id) {
                assert(before + all.skip(seen) =~= before.push(all[seen]) + all.skip(seen + 1));
                i = i + 1;
            } else {
                self.batches.remove(i);
                assert(self.batches@ =~= before + all.skip(seen + 1));
            }
            proof {
                seen = seen + 1;
            }
        }
        proof {
            assert(all.skip(seen).len() == 0);
            assert(all.take(seen) =~= all);
            assert(self.batches@ =~= still_moving(all, transfers));
        }
    }

    /// How many transfers have not ended.
    pub fn running(&self) -> (r: usize)
        ensures
            r == running_count(self.transfers@),
            r <= self.transfers@.len(),
    {
        let mut n: usize = 0;
        let mut i: usize = 0;
        assert(self.transfers@.take(0) =~= Seq::<Transfer>::empty());
        while i < self.transfers.len()
            invariant
                n <= i <= self.transfers.len(),
                n == running_count(self.transfers@.take(i as int)),
            decreases self.transfers.len() - i,
        {
            assert(self.transfers@.take(i + 1).drop_last() =~= self.transfers@.take(i as int));
            if self.transfers[i].running() {
                n = n + 1;
            }
            i = i + 1;
        }
        assert(self.transfers@.take(i as int) =~= self.transfers@);
        n
    }

    /// Adds a row for a folder that is about to be copied, and gives its id.
    pub fn new_batch(&mut self, name: String, direction: Direction) -> (r: u64)
        requires
            old(self).books().last_id < u64::MAX,
        ensures
            r == old(self).books().last_id + 1,
            final(self).books() == (Books { last_id: r, ..old(self).books() }),
            final(self).batches@ == old(self).batches@.push(
                Batch { id: r, name, direction, truncated: false, error: None, queued: 0 },
            ),
            final(self).shown() == old(self).shown(),
            final(self).transfers == old(self).transfers,
    {
        let id: u64 = self.next_id();
        self.batches.push(
            Batch { id, name, direction, truncated: false, error: None, queued: 0 },
        );
        id
    }

    /// Notes that a request asks for a folder's contents, for which copy, and where
    /// the copy goes.
    pub fn remember_tree(&mut self, id: u64, batch: u64, local_parent: String)
        ensures
            final(self).books() == (Books {
                trees: old(self).books().trees.insert(id, (batch, local_parent)),
                ..old(self).books()
            }),
            final(self).shown() == old(self).shown(),
            final(self).transfers == old(self).transfers,
            final(self).batches == old(self).batches,
    {
        self.ledger.trees.insert(id, (batch, local_parent));
    }

    /// Takes out which copy a request belongs to, if it asked for a folder's
    /// contents.
    pub fn take_tree(&mut self, id: u64) -> (r: Option<(u64, String)>)
        ensures
            r == if old(self).books().trees.contains_key(id) {
                Some(old(self).books().trees[id])
            } else {
                None
            },
            final(self).books() == (Books {
                trees: old(self).books().trees.remove(id),
                ..old(self).books()
            }),
            final(self).shown() == old(self).shown(),
            final(self).transfers == old(self).transfers,
            final(self).batches == old(self).batches,
    {
        self.ledger.trees.remove(&id)
    }

    /// Notes on a folder copy whether its folder was cut off, and what went wrong.
    pub fn note_batch(&mut self, id: u64, truncated: bool, error: Option<String>)
        ensures
            final(self).batches@ == match batch_at(old(self).batches@, id, 0) {
                Some(i) => old(self).batches@.update(
                    i,
                    Batch { truncated, error, ..old(self).batches@[i] },
                ),
                None => old(self).batches@,
            },
            final(self).shown() == old(self).shown(),
            final(self).transfers == old(self).transfers,
            final(self).books() == old(self).books(),
    {
        if let Some(i) = self.find_batch(id) {
            let b = &mut self.batches[i];
            b.truncated = truncated;
            b.error = error;
        }
    }

    /// Notes on a folder copy that its folder was cut off.
    pub fn cut_batch(&mut self, id: u64)
        ensures
            final(self).batches@ == match batch_at(old(self).batches@, id, 0) {
                Some(i) => old(self).batches@.update(
                    i,
                    Batch { truncated: true, ..old(self).batches@[i] },
                ),
                None => old(self).batches@,
            },
            final(self).shown() == old(self).shown(),
            final(self).transfers == old(self).transfers,
            final(self).books() == old(self).books(),
    {
        if let Some(i) = self.find_batch(id) {
            let b = &mut self.batches[i];
            b.truncated = true;
        }
    }

    /// Notes on a folder copy what went wrong.
    pub fn fail_batch(&mut self, id: u64, reason: String)
        ensures
            final(self).batches@ == match batch_at(old(self).batches@, id, 0) {
                Some(i) => old(self).batches@.update(
                    i,
                    Batch { error: Some(reason), ..old(self).batches@[i] },
                ),
                None => old(self).batches@,
            },
            final(self).shown() == old(self).shown(),
            final(self).transfers == old(self).transfers,
            final(self).books() == old(self).books(),
    {
        if let Some(i) = self.find_batch(id) {
            let b = &mut self.batches[i];
            b.error = Some(reason);
        }
    }

    /// Puts a command at the end of the queue.
    pub fn enqueue(&mut self, command: Command)
        ensures
            final(self).books() == (Books {
                queue: old(self).books().queue.push(command),
                ..old(self).books()
            }),
            final(self).batches@ == queued_changed(old(self).batches@, batch_of(command), true),
            final(self).shown() == old(self).shown(),
            final(self).transfers == old(self).transfers,
    {
        let batch: Option<u64> = match &command {
            Command::Download { batch, .. } => *batch,
            Command::Upload { batch, .. } => *batch,
            _ => None,
        };
        if let Some(id) = batch {
            if let Some(i) = self.find_batch(id) {
                let b = &mut self.batches[i];
                if b.queued < usize::MAX {
                    b.queued = b.queued + 1;
                }
            }
        }
        self.ledger.queue.push(command);
        assert(self.batches@ =~= queued_changed(old(self).batches@, batch, true));
    }

    /// Takes the commands from the front of the queue that can go out now, so that
    /// no more than `max` files move at once.
    pub fn take_ready(&mut self, max: usize) -> (r: Vec<Command>)
        ensures
            ({
                let q = old(self).books().queue;
                let n = ready_count(
                    q,
                    max - running_count(old(self).transfers@) - old(self).books().handed,
                );
                &&& 0 <= n <= q.len()
                &&& r@ == q.take(n)
                &&& final(self).books().queue == q.skip(n)
                &&& final(self).books().handed == old(self).books().handed + file_count(q.take(n))
                &&& final(self).books() == (Books {
                    queue: final(self).books().queue,
                    handed: final(self).books().handed,
                    ..old(self).books()
                })
            }),
            final(self).shown() == old(self).shown(),
            final(self).transfers == old(self).transfers,
            final(self).batches == old(self).batches,
    {
        let running: usize = self.running();
        let mut room: usize = if max <= running || max - running <= self.ledger.handed {
            0
        } else {
            max - running - self.ledger.handed
        };
        let ghost q = self.ledger.queue@;
        let ghost wanted = max - running - self.ledger.handed;
        let ghost n = ready_count(q, wanted);
        let mut out: Vec<Command> = Vec::new();
        let mut moved: usize = 0;
        proof {
            lemma_ready_count(q, wanted);
            lemma_no_room(q, wanted, room as int);
            assert(q.take(0) =~= Seq::<Command>::empty());
            assert(q.skip(0) =~= q);
        }
        loop
            invariant
                out@.len() <= n <= q.len(),
                n == ready_count(q, wanted),
                n == out@.len() + ready_count(self.ledger.queue@, room as int),
                out@ == q.take(out@.len() as int),
                self.ledger.queue@ == q.skip(out@.len() as int),
                moved == file_count(out@),
                room > 0 || moved > 0 ==> running + self.ledger.handed + moved + room == max,
                room == 0 && moved == 0 ==> self.ledger.handed + moved <= usize::MAX,
                self.books() == (Books { queue: self.books().queue, ..old(self).books() }),
                self.shown() == old(self).shown(),
                self.transfers == old(self).transfers,
                self.batches == old(self).batches,
            ensures
                out@.len() == n,
            decreases q.len() - out@.len(),
        {
            if self.ledger.queue.len() == 0 {
                break;
            }
            let moves: bool = match &self.ledger.queue[0] {
                Command::Download { .. } => true,
                Command::Upload { .. } => true,
                _ => false,
            };
            if moves && room == 0 {
                break;
            }
            let ghost before = self.ledger.queue@;
            let ghost k = out@.len() as int;
            let c = self.ledger.queue.remove(0);
            proof {
                assert(c == q[k]);
                assert(self.ledger.queue@ =~= before.drop_first());
                assert(before.drop_first() =~= q.skip(k + 1));
                assert(q.take(k + 1) =~= q.take(k).push(c));
                assert(q.take(k + 1).drop_last() =~= q.take(k));
                lemma_ready_count(self.ledger.queue@, room as int);
                lemma_ready_count(self.ledger.queue@, room - 1);
            }
            out.push(c);
            if moves {
                room = room - 1;
                moved = moved + 1;
            }
        }
        self.ledger.handed = self.ledger.handed + moved;
        out
    }

    /// Whether anything moves or waits to.
    pub fn busy(&self) -> (r: bool)
        ensures
            r == (running_count(self.transfers@) > 0 || self.books().queue.len() > 0
                || self.books().handed > 0),
    {
        self.running() > 0 || self.ledger.queue.len() > 0 || self.ledger.handed > 0
    }

    /// How many commands wait.
    pub fn queued(&self) -> (r: usize)
        ensures
            r == self.books().queue.len(),
    {
        self.ledger.queue.len()
    }

    /// How far a folder copy has come. Files that wait count, their bytes do not.
    pub fn batch_progress(&self, id: u64) -> (r: BatchProgress)
        ensures
            ({
                let t = tally(self.transfers@, id);
                &&& r.files_done == t.done
                &&& r.files_failed == t.failed
                &&& r.files_total == t.started + (match batch_at(self.batches@, id, 0) {
                    Some(i) => self.batches@[i].queued as nat,
                    None => 0,
                })
                &&& r.bytes_done == t.bytes_done
                &&& r.bytes_total == t.bytes_total
            }),
    {
        let mut r = BatchProgress {
            files_done: 0,
            files_failed: 0,
            files_total: 0,
            bytes_done: 0,
            bytes_total: 0,
        };
        let mut i: usize = 0;
        assert(self.transfers@.take(0) =~= Seq::<Transfer>::empty());
        while i < self.transfers.len()
            invariant
                i <= self.transfers.len(),
                r.files_done + r.files_failed <= i,
                r.files_total <= i,
                r.bytes_done <= i * 0xFFFF_FFFF_FFFF_FFFF,
                r.bytes_total <= i * 0xFFFF_FFFF_FFFF_FFFF,
                ({
                    let t = tally(self.transfers@.take(i as int), id);
                    &&& r.files_done == t.done
                    &&& r.files_failed == t.failed
                    &&& r.files_total == t.started
                    &&& r.bytes_done == t.bytes_done
                    &&& r.bytes_total == t.bytes_total
                }),
            decreases self.transfers.len() - i,
        {
            assert(self.transfers@.take(i + 1).drop_last() =~= self.transfers@.take(i as int));
            let t = &self.transfers[i];
            let ours: bool = match t.batch {
                Some(b) => b == id,
                None => false,
            };
            if ours {
                match &t.outcome {
                    None => {},
                    Some(Ok(_)) => {
                        r.files_done = r.files_done + 1;
                    },
                    Some(Err(_)) => {
                        r.files_failed = r.files_failed + 1;
                    },
                }
                r.files_total = r.files_total + 1;
                r.bytes_done = r.bytes_done + t.done as u128;
                r.bytes_total = r.bytes_total + t.total as u128;
            }
            i = i + 1;
        }
        assert(self.transfers@.take(i as int) =~= self.transfers@);
        if let Some(k) = self.find_batch(id) {
            r.files_total = r.files_total + self.batches[k].queued as u128;
        }
        r
    }
}

proof fn lemma_ready_count(queue: Seq<Command>, room: int)
    ensures
        0 <= ready_count(queue, room) <= queue.len(),
    decreases queue.len(),
{
    if queue.len() > 0 {
        lemma_ready_count(queue.drop_first(), room);
        lemma_ready_count(queue.drop_first(), room - 1);
    }
}

proof fn lemma_no_room(queue: Seq<Command>, wanted: int, room: int)
    requires
        room == if wanted > 0 {
            wanted
        } else {
            0
        },
    ensures
        ready_count(queue, wanted) == ready_count(queue, room),
    decreases queue.len(),
{
    if queue.len() > 0 && !moves_file(queue[0]) {
        lemma_no_room(queue.drop_first(), wanted, room);
    }
}

/// At most `max` files move at once: the commands handed out never ask for more
/// files than there is room for.
pub proof fn no_more_files_than_there_is_room_for(queue: Seq<Command>, room: int)
    ensures
        0 <= ready_count(queue, room) <= queue.len(),
        file_count(queue.take(ready_count(queue, room))) <= if room > 0 {
            room
        } else {
            0
        },
    decreases queue.len(),
{
    lemma_ready_count(queue, room);
    if queue.len() > 0 {
        let rest = queue.drop_first();
        let (n, next) = (ready_count(queue, room), if moves_file(queue[0]) {
            room - 1
        } else {
            room
        });
        if n > 0 {
            no_more_files_than_there_is_room_for(rest, next);
            lemma_file_count_front(queue.take(n));
            assert(queue.take(n).drop_first() =~= rest.take(n - 1));
        } else {
            assert(queue.take(0) =~= Seq::<Command>::empty());
        }
    } else {
        assert(queue.take(0) =~= Seq::<Command>::empty());
    }
}

proof fn lemma_file_count_front(commands: Seq<Command>)
    requires
        commands.len() > 0,
    ensures
        file_count(commands) == file_count(commands.drop_first()) + (if moves_file(commands[0]) {
            1nat
        } else {
            0
        }),
    decreases commands.len(),
{
    if commands.len() > 1 {
        lemma_file_count_front(commands.drop_last());
        assert(commands.drop_last().drop_first() =~= commands.drop_first().drop_last());
    } else {
        assert(commands.drop_first() =~= Seq::<Command>::empty());
        assert(commands.drop_last() =~= Seq::<Command>::empty());
    }
}

/// Where there is room for a file, the queue moves: only an empty queue has nothing
/// to hand out.
pub proof fn a_queue_with_room_moves(queue: Seq<Command>, room: int)
    requires
        room > 0,
        queue.len() > 0,
    ensures
        ready_count(queue, room) > 0,
{
    lemma_ready_count(queue.drop_first(), room);
    lemma_ready_count(queue.drop_first(), room - 1);
}

/// A failed save never makes a file look saved: the mark of an unsaved change stays
/// exactly as it was, and a save that succeeded clears it.
pub proof fn only_a_successful_save_cleans_the_editor(e: Editor, reason: String)
    ensures
        ({
            let failed = after_save(Some(e), Err(reason))->0;
            &&& failed.text == e.text
            &&& failed.saved == e.saved
            &&& failed.error == Some(reason)
        }),
        ({
            let saved = after_save(Some(e), Ok(()))->0;
            &&& saved.text == e.text
            &&& saved.text@ == saved.saved@
        }),
{
}

/// What was typed since a save was sent stays unsaved: a confirmation makes the text that was
/// sent the one that the robot has, and no other, and leaves another file alone.
pub proof fn a_save_confirms_what_was_sent(e: Editor, path: Seq<char>, text: String)
    ensures
        ({
            let after = after_answer(Some(e), path, text, Ok(()))->0;
            &&& after.text == e.text
            &&& e.path@ == path ==> after.saved == text && !after.saving && after.error is None
            &&& e.path@ == path ==> ((after.text@ != after.saved@) <==> e.text@ != text@)
            &&& e.path@ != path ==> after == e
        }),
{
}

/// A file that arrives late never changes what is typed into another one.
pub proof fn a_late_file_changes_nothing(e: Editor, path: Seq<char>, text: String)
    requires
        e.path@ != path,
    ensures
        after_open(Some(e), path, text) == Some(e),
{
}

/// The name of a path is its last part, whatever stands in front of it and however many
/// separators end it. A path of separators alone is its own name.
pub proof fn the_name_is_the_last_part(
    front: Seq<char>,
    sep: char,
    name: Seq<char>,
    tail: Seq<char>,
)
    requires
        sep == '/' || sep == '\\',
        name.len() > 0,
        !name.contains('/') && !name.contains('\\'),
        forall|i: int| 0 <= i < tail.len() ==> #[trigger] tail[i] == '/' || tail[i] == '\\',
    ensures
        file_name(front.push(sep) + name + tail) == name,
        file_name(name + tail) == name,
        file_name(tail) == tail,
{
    let whole = front.push(sep) + name;
    assert(whole.last() == name.last());
    assert(name.contains(name.last()));
    lemma_trailing_goes(whole, tail);
    lemma_trailing_goes(name, tail);
    lemma_trailing_goes(Seq::empty(), tail);
    assert(Seq::empty() + tail =~= tail);
    lemma_after_separator(front.push(sep), name);
    lemma_after_separator(Seq::empty(), name);
    assert(Seq::empty() + name =~= name);
}

proof fn lemma_trailing_goes(s: Seq<char>, tail: Seq<char>)
    requires
        s.len() > 0 ==> !is_separator(s.last()),
        forall|i: int| 0 <= i < tail.len() ==> #[trigger] tail[i] == '/' || tail[i] == '\\',
    ensures
        without_trailing(s + tail) == s,
    decreases tail.len(),
{
    if tail.len() == 0 {
        assert(s + tail =~= s);
    } else {
        assert((s + tail).last() == tail[tail.len() - 1]);
        assert((s + tail).drop_last() =~= s + tail.drop_last());
        lemma_trailing_goes(s, tail.drop_last());
    }
}

proof fn lemma_after_separator(front: Seq<char>, name: Seq<char>)
    requires
        front.len() > 0 ==> is_separator(front.last()),
        !name.contains('/') && !name.contains('\\'),
    ensures
        after_last_separator(front + name) == name,
    decreases name.len(),
{
    let whole = front + name;
    if name.len() == 0 {
        assert(whole =~= front);
        assert(after_last_separator(front) =~= name);
    } else {
        assert(whole.last() == name.last());
        assert(name.contains(name.last()));
        assert(whole.drop_last() =~= front + name.drop_last());
        let less = name.drop_last();
        assert(!less.contains('/') && !less.contains('\\')) by {
            if less.contains('/') {
                let i = choose|i: int| 0 <= i < less.len() && less[i] == '/';
                assert(name[i] == '/');
            }
            if less.contains('\\') {
                let i = choose|i: int| 0 <= i < less.len() && less[i] == '\\';
                assert(name[i] == '\\');
            }
        }
        lemma_after_separator(front, less);
        assert(less.push(name.last()) =~= name);
    }
}

/// A joined path is the directory, one separator and the name: a slash, unless the directory
/// is spelled with backslashes alone. Its name is the name that was joined to it.
pub proof fn a_joined_path_ends_in_its_name(dir: Seq<char>, name: Seq<char>)
    ensures
        dir.contains('/') || !dir.contains('\\') ==> joined_path(dir, name) == if dir.len() > 0
            && dir.last() == '/' {
            dir + name
        } else {
            dir + seq!['/'] + name
        },
        !dir.contains('/') && dir.contains('\\') ==> joined_path(dir, name) == if dir.last()
            == '\\' {
            dir + name
        } else {
            dir + seq!['\\'] + name
        },
        name.len() > 0 && !name.contains('/') && !name.contains('\\') ==> file_name(
            joined_path(dir, name),
        ) == name,
{
    assert(dir.push('/') =~= dir + seq!['/']);
    assert(dir.push('\\') =~= dir + seq!['\\']);
    if dir.contains('\\') {
        assert(dir.len() > 0);
    }
    if name.len() > 0 && !name.contains('/') && !name.contains('\\') {
        let sep = separator(dir);
        let front = if dir.len() > 0 && dir.last() == sep {
            dir.drop_last()
        } else {
            dir
        };
        the_name_is_the_last_part(front, sep, name, Seq::empty());
        assert(front.push(sep) + name + Seq::empty() =~= joined_path(dir, name));
    }
}

/// A part of a relative path that is empty or leads to where it is or upwards makes no
/// difference, wherever it stands.
pub proof fn parts_that_lead_nowhere_are_left_out(
    root: Seq<char>,
    front: Seq<Seq<char>>,
    part: Seq<char>,
    rest: Seq<Seq<char>>,
)
    requires
        part == ""@ || part == "."@ || part == ".."@,
    ensures
        below(root, front.push(part) + rest) == below(root, front + rest),
    decreases rest.len(),
{
    reveal_strlit("");
    let (with, without) = (front.push(part) + rest, front + rest);
    if rest.len() == 0 {
        assert(with =~= front.push(part));
        assert(with.drop_last() =~= front);
        assert(without =~= front);
    } else {
        parts_that_lead_nowhere_are_left_out(root, front, part, rest.drop_last());
        assert(with.drop_last() =~= front.push(part) + rest.drop_last());
        assert(without.drop_last() =~= front + rest.drop_last());
        assert(with.last() == without.last());
    }
}

/// The unit of a size is the one of which there is at least one and fewer than 1024, and each
/// unit is 1024 of the one before it.
pub proof fn sizes_are_in_the_largest_unit(value: nat, unit: nat)
    ensures
        size_unit(value) <= 4,
        value > 0 ==> unit_bytes(size_unit(value)) <= value,
        size_unit(value) < 4 ==> value < 1024 * unit_bytes(size_unit(value)),
        unit_bytes(0) == 1,
        unit < 4 ==> unit_bytes(unit + 1) == 1024 * unit_bytes(unit),
{
}

/// The text of a size names the size: whole bytes below 1 KiB, and otherwise to the nearest
/// tenth of a unit, or to the nearest unit from a hundred on.
pub proof fn a_size_reads_as_what_it_is(bytes: nat)
    requires
        bytes < 0x20_0000_0000_0000,
    ensures
        bytes < 1024 ==> size_text(bytes) == decimal(bytes) + " B"@,
        bytes >= 1024 ==> {
            let per = unit_bytes(size_unit(bytes));
            exists|n: nat|
                {
                    &&& bytes >= 100 * per ==> 2 * (n * per) <= 2 * bytes + per && 2 * bytes <= 2 * (
                    n * per) + per
                    &&& bytes < 100 * per ==> 2 * (n * per) <= 20 * bytes + per && 20 * bytes <= 2 * (
                    n * per) + per
                    &&& size_text(bytes) == if bytes >= 100 * per {
                        #[trigger] decimal(n) + unit_name(size_unit(bytes))
                    } else {
                        decimal(n / 10) + "."@ + decimal(n % 10) + unit_name(size_unit(bytes))
                    }
                }
        },
{
    crate::rounding::doubles_grow(bytes, bytes);
    let per = unit_bytes(size_unit(bytes));
    if bytes >= 1024 {
        let n = if bytes >= 100 * per {
            nearest(bytes, per)
        } else {
            nearest(bytes * 10, per)
        };
        crate::rounding::lemma_nearest_is_near(bytes, per);
        crate::rounding::lemma_nearest_is_near(bytes * 10, per);
        reveal_strlit(".");
        assert(decimal(n / 10).push('.') =~= decimal(n / 10) + "."@);
        assert(decimal(n).len() >= 0);
    }
}

/// Days follow each other: the day after a date is the next of its month, or the first of the
/// next month, or of the next year. The first is 1970-01-01.
pub proof fn days_follow_each_other(y: int, m: int, d: int)
    requires
        is_date(y, m, d),
    ensures
        day_number(1970, 1, 1) == 0,
        is_date(y, m, d + 1) ==> day_number(y, m, d + 1) == day_number(y, m, d) + 1,
        !is_date(y, m, d + 1) && m < 12 ==> day_number(y, m + 1, 1) == day_number(y, m, d) + 1,
        !is_date(y, m, d + 1) && m == 12 ==> day_number(y + 1, 1, 1) == day_number(y, m, d) + 1,
{
    lemma_months(y);
    lemma_year_length(y);
}

/// The months have the lengths that they have: 30 days in April, June, September and November,
/// 28 in February or 29 in a leap year, 31 in the others. Every fourth year is a leap year, but
/// of the full centuries only every fourth.
pub proof fn the_calendar_is_gregorian(y: int, m: int)
    ensures
        m == 1 || m == 3 || m == 5 || m == 7 || m == 8 || m == 10 || m == 12 ==> month_days(y, m)
            == 31,
        m == 4 || m == 6 || m == 9 || m == 11 ==> month_days(y, m) == 30,
        y % 4 != 0 ==> month_days(y, 2) == 28,
        y % 4 == 0 && y % 100 != 0 ==> month_days(y, 2) == 29,
        y % 100 == 0 && y % 400 != 0 ==> month_days(y, 2) == 28,
        y % 400 == 0 ==> month_days(y, 2) == 29,
        month_days(y + 400, m) == month_days(y, m),
        days_before_year(y + 400) == days_before_year(y) + 400 * 365 + 97,
{
    lemma_four_centuries(y);
    assert(y % 400 == 0 ==> y % 100 == 0);
    assert(y % 100 == 0 ==> y % 4 == 0);
    assert(is_leap(y + 400) == is_leap(y));
}

proof fn lemma_four_centuries(y: int)
    ensures
        (y + 400) % 4 == y % 4,
        (y + 400) % 100 == y % 100,
        (y + 400) % 400 == y % 400,
        (y + 400 + 3) / 4 == (y + 3) / 4 + 100,
        (y + 400 + 99) / 100 == (y + 99) / 100 + 4,
        (y + 400 + 399) / 400 == (y + 399) / 400 + 1,
{
    assert((y + 400) % 4 == y % 4) by {
    }
    assert((y + 400) % 100 == y % 100) by {
    }
    assert((y + 400) % 400 == y % 400) by {
    }
    assert((y + 400 + 3) / 4 == (y + 3) / 4 + 100) by {
    }
    assert((y + 400 + 99) / 100 == (y + 99) / 100 + 4) by {
    }
    assert((y + 400 + 399) / 400 == (y + 399) / 400 + 1) by {
    }
}

/// A row is found by its id: the first that has it, if any has.
pub proof fn a_row_is_found_by_its_id(transfers: Seq<Transfer>, id: u64, from: int)
    requires
        0 <= from,
    ensures
        match transfer_at(transfers, id, from) {
            Some(i) => {
                &&& from <= i < transfers.len()
                &&& transfers[i].id == id
                &&& forall|j: int| from <= j < i ==> (#[trigger] transfers[j]).id != id
            },
            None => forall|j: int| from <= j < transfers.len() ==> (#[trigger] transfers[j]).id != id,
        },
    decreases transfers.len() - from,
{
    if from < transfers.len() && transfers[from].id != id {
        a_row_is_found_by_its_id(transfers, id, from + 1);
    }
}

/// A folder copy is found by its id: the first that has it, if any has.
pub proof fn a_copy_is_found_by_its_id(batches: Seq<Batch>, id: u64, from: int)
    requires
        0 <= from,
    ensures
        match batch_at(batches, id, from) {
            Some(i) => {
                &&& from <= i < batches.len()
                &&& batches[i].id == id
                &&& forall|j: int| from <= j < i ==> (#[trigger] batches[j]).id != id
            },
            None => forall|j: int| from <= j < batches.len() ==> (#[trigger] batches[j]).id != id,
        },
    decreases batches.len() - from,
{
    if from < batches.len() && batches[from].id != id {
        a_copy_is_found_by_its_id(batches, id, from + 1);
    }
}

/// Progress is noted on the row with the id and on no other, and changes nothing else of it.
pub proof fn progress_is_noted_on_its_row(transfers: Seq<Transfer>, id: u64, n: u64, i: int)
    requires
        0 <= i < transfers.len(),
        forall|j: int, k: int|
            0 <= j < k < transfers.len() ==> (#[trigger] transfers[j]).id != (
            #[trigger] transfers[k]).id,
    ensures
        advanced(transfers, id, n).len() == transfers.len(),
        advanced(transfers, id, n)[i] == if transfers[i].id == id {
            Transfer { done: n, ..transfers[i] }
        } else {
            transfers[i]
        },
        totalled(transfers, id, n).len() == transfers.len(),
        totalled(transfers, id, n)[i] == if transfers[i].id == id {
            Transfer { total: n, ..transfers[i] }
        } else {
            transfers[i]
        },
{
    a_row_is_found_by_its_id(transfers, id, 0);
}

/// A transfer that ended says how. Success fills its bar where the size is known; a failure
/// leaves the bar where it was.
pub proof fn an_ended_transfer_says_how(t: Transfer, reason: String)
    ensures
        ended(t, Ok(())).outcome == Some(Ok::<(), String>(())),
        t.total > 0 ==> ended(t, Ok(())).done == t.total,
        t.total == 0 ==> ended(t, Ok(())).done == t.done,
        ended(t, Err(reason)) == (Transfer { outcome: Some(Err(reason)), ..t }),
        ended(t, Ok(())).id == t.id && ended(t, Ok(())).name == t.name,
        ended(t, Ok(())).total == t.total && ended(t, Ok(())).batch == t.batch,
        ended(t, Ok(())).direction == t.direction,
{
}

/// What is cleared is what has ended: the rows that are left are those that still run, in the
/// order they had, as many as are counted as running, and the folder copies that are left are
/// those with a file that waits or runs.
pub proof fn only_what_has_ended_is_cleared(transfers: Seq<Transfer>, batches: Seq<Batch>)
    ensures
        still_running(transfers) == transfers.filter(|t: Transfer| t.outcome is None),
        running_count(transfers) == transfers.filter(|t: Transfer| t.outcome is None).len(),
        still_moving(batches, transfers) == batches.filter(
            |b: Batch|
                b.queued > 0 || exists|i: int|
                    0 <= i < transfers.len() && (#[trigger] transfers[i]).outcome is None
                        && transfers[i].batch == Some(b.id),
        ),
    decreases transfers.len() + batches.len(),
{
    reveal(Seq::filter);
    if transfers.len() > 0 {
        only_what_has_ended_is_cleared(transfers.drop_last(), Seq::empty());
    }
    if batches.len() > 0 {
        only_what_has_ended_is_cleared(transfers, batches.drop_last());
    }
}

/// What is held back is held back for want of room: the first command that stays moves a file,
/// and the room is used up by those that go.
pub proof fn only_want_of_room_holds_back(queue: Seq<Command>, room: int)
    requires
        ready_count(queue, room) < queue.len(),
    ensures
        0 <= ready_count(queue, room),
        queue[ready_count(queue, room)] is Download || queue[ready_count(queue, room)] is Upload,
        file_count(queue.take(ready_count(queue, room))) >= room,
        file_count(queue.take(ready_count(queue, room))) == queue.take(
            ready_count(queue, room),
        ).filter(|c: Command| c is Download || c is Upload).len(),
    decreases queue.len(),
{
    let n = ready_count(queue, room);
    no_more_files_than_there_is_room_for(queue, room);
    lemma_files_are_counted(queue.take(n));
    lemma_ready_count(queue.drop_first(), room);
    lemma_ready_count(queue.drop_first(), room - 1);
    if queue.len() > 0 && n > 0 {
        let rest = queue.drop_first();
        let left = if moves_file(queue[0]) {
            room - 1
        } else {
            room
        };
        only_want_of_room_holds_back(rest, left);
        lemma_file_count_front(queue.take(n));
        assert(queue.take(n).drop_first() =~= rest.take(n - 1));
        assert(queue[n] == rest[n - 1]);
    }
}

proof fn lemma_files_are_counted(commands: Seq<Command>)
    ensures
        file_count(commands) == commands.filter(|c: Command| c is Download || c is Upload).len(),
    decreases commands.len(),
{
    reveal(Seq::filter);
    if commands.len() > 0 {
        lemma_files_are_counted(commands.drop_last());
    }
}

/// A file that joins a folder copy makes one more that waits, one that leaves makes one fewer,
/// and no other copy is touched.
pub proof fn waiting_files_are_counted(batches: Seq<Batch>, id: u64, i: int)
    requires
        0 <= i < batches.len(),
        forall|j: int, k: int|
            0 <= j < k < batches.len() ==> (#[trigger] batches[j]).id != (#[trigger] batches[k]).id,
    ensures
        ({
            let (up, down) = (
                queued_changed(batches, Some(id), true),
                queued_changed(batches, Some(id), false),
            );
            &&& up.len() == batches.len() && down.len() == batches.len()
            &&& batches[i].id != id ==> up[i] == batches[i] && down[i] == batches[i]
            &&& batches[i].id == id && batches[i].queued < usize::MAX ==> up[i].queued
                == batches[i].queued + 1
            &&& batches[i].id == id && batches[i].queued > 0 ==> down[i].queued
                == batches[i].queued - 1
            &&& batches[i].id == id && batches[i].queued == 0 ==> down[i] == batches[i]
            &&& up[i] == (Batch { queued: up[i].queued, ..batches[i] })
            &&& down[i] == (Batch { queued: down[i].queued, ..batches[i] })
        }),
        queued_changed(batches, None, true) == batches,
        queued_changed(batches, None, false) == batches,
{
    a_copy_is_found_by_its_id(batches, id, 0);
}

/// The progress of a folder copy adds up: what its files make together is the sum of what each
/// makes alone. A file counts as started, once, and as done or failed by how it ended; a file of
/// another copy counts for nothing.
pub proof fn progress_adds_up(a: Seq<Transfer>, b: Seq<Transfer>, t: Transfer, batch: u64)
    ensures
        ({
            let (x, y, both) = (tally(a, batch), tally(b, batch), tally(a + b, batch));
            &&& both.done == x.done + y.done
            &&& both.failed == x.failed + y.failed
            &&& both.started == x.started + y.started
            &&& both.bytes_done == x.bytes_done + y.bytes_done
            &&& both.bytes_total == x.bytes_total + y.bytes_total
        }),
        ({
            let one = tally(seq![t], batch);
            if t.batch == Some(batch) {
                &&& one.started == 1
                &&& one.bytes_done == t.done
                &&& one.bytes_total == t.total
                &&& t.outcome is None ==> one.done == 0 && one.failed == 0
                &&& t.outcome == Some(Ok::<(), String>(())) ==> one.done == 1 && one.failed == 0
                &&& (t.outcome matches Some(Err(_))) ==> one.done == 0 && one.failed == 1
            } else {
                one.started == 0 && one.done == 0 && one.failed == 0 && one.bytes_done == 0
                    && one.bytes_total == 0
            }
        }),
    decreases b.len(),
{
    let one = seq![t];
    assert(one.drop_last() =~= Seq::<Transfer>::empty());
    assert(tally(one.drop_last(), batch).started == 0);
    if b.len() == 0 {
        assert(a + b =~= a);
    } else {
        progress_adds_up(a, b.drop_last(), t, batch);
        assert((a + b).drop_last() =~= a + b.drop_last());
    }
}

/// A file that arrives for the editor is shown as it is, with nothing unsaved.
pub proof fn an_opened_file_is_shown(e: Editor, text: String)
    ensures
        ({
            let shown = after_open(Some(e), e.path@, text)->0;
            &&& shown.text == text && shown.saved == text
            &&& !shown.loading && shown.error is None
            &&& shown.path == e.path && shown.saving == e.saving
        }),
        after_open(None, e.path@, text) is None,
{
}

/// The files of a folder copy are those that are fetched or sent for it; other commands belong
/// to no copy and need no room.
pub proof fn only_files_belong_to_a_copy(a: String, b: String, batch: Option<u64>)
    ensures
        batch_of(Command::Download { remote: a, local: b, batch }) == batch,
        batch_of(Command::Upload { local: a, remote: b, batch }) == batch,
        moves_file(Command::Download { remote: a, local: b, batch }),
        moves_file(Command::Upload { local: a, remote: b, batch }),
        batch_of(Command::MakeDirAll { path: a }) is None,
        !moves_file(Command::MakeDirAll { path: a }) && !moves_file(Command::List { path: a }),
        !moves_file(Command::Remove { path: a }) && !moves_file(Command::MakeDir { path: a }),
        !moves_file(Command::Open { path: a }) && !moves_file(Command::Save { path: a, text: b }),
{
}

/// The prefix of a canonicalised path is not shown, and nothing else is left out.
pub proof fn only_the_prefix_is_left_out(path: Seq<char>)
    ensures
        displayed("\\\\?\\"@ + path) == path,
        path.len() > 0 && path[0] != '\\' ==> displayed(path) == path,
{
    let prefix = "\\\\?\\"@;
    reveal_strlit("\\\\?\\");
    assert((prefix + path).take(prefix.len() as int) =~= prefix);
    assert((prefix + path).skip(prefix.len() as int) =~= path);
    if path.len() > 0 && path[0] != '\\' && path.len() >= prefix.len() {
        assert(path.take(prefix.len() as int)[0] == path[0]);
    }
}

} // verus!
