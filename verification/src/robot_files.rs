//! Browsing and moving files on the robot: how a requested path becomes an absolute
//! one, what may be read, written and removed, and what is said when it may not.
//!
//! The host works as the account that signed in, so what it can reach is what that
//! user's own shell can reach. Paths are those of a Unix system.
use vstd::prelude::*;
use vstd::utf8::{decode_utf8, encode_utf8, valid_utf8};

use crate::listing::listing;
use crate::proto::{DirEntry, DirListing, MAX_FILE_BYTES, MAX_TEXT_BYTES};
use crate::sort::in_order;
use crate::text::{
    chars_of, decimal, pieces, push_decimal, split_on, string_of, subrange, trim, trimmed,
    views,
};

verus! {

/// Whether a path starts at the root.
pub open spec fn is_absolute(path: Seq<char>) -> bool {
    path.len() > 0 && path[0] == '/'
}

/// A path with another one joined to it: an absolute one replaces it.
pub open spec fn path_join(base: Seq<char>, rest: Seq<char>) -> Seq<char> {
    if is_absolute(rest) || base.len() == 0 {
        rest
    } else if base.last() == '/' {
        base + rest
    } else {
        base.push('/') + rest
    }
}

/// Joins two paths.
pub fn join(base: &str, rest: &str) -> (r: String)
    ensures
        r@ == path_join(base@, rest@),
{
    let b = chars_of(base);
    let t = chars_of(rest);
    if b.len() == 0 || (t.len() > 0 && t[0] == '/') {
        return rest.to_owned();
    }
    let mut out = base.to_owned();
    if b[b.len() - 1] != '/' {
        out.push('/');
    }
    out.push_str(rest);
    assert(out@ =~= path_join(base@, rest@));
    out
}

/// Whether a part of a path names something: it is not empty and not `.` or `..`.
pub open spec fn is_name(part: Seq<char>) -> bool {
    part.len() > 0 && part != seq!['.'] && part != seq!['.', '.']
}

/// The names that are left once `.` and `..` are resolved textually. At the top,
/// `..` stays at the top.
pub open spec fn resolved_names(parts: Seq<Seq<char>>) -> Seq<Seq<char>>
    decreases parts.len(),
{
    if parts.len() == 0 {
        Seq::empty()
    } else {
        let before = resolved_names(parts.drop_last());
        if is_name(parts.last()) {
            before.push(parts.last())
        } else if parts.last() == seq!['.', '.'] && before.len() > 0 {
            before.drop_last()
        } else {
            before
        }
    }
}

/// A path from its names.
pub open spec fn path_of(absolute: bool, names: Seq<Seq<char>>) -> Seq<char>
    decreases names.len(),
{
    if names.len() == 0 {
        if absolute {
            seq!['/']
        } else {
            Seq::empty()
        }
    } else {
        path_join(path_of(absolute, names.drop_last()), names.last())
    }
}

/// A path with `.` and `..` resolved textually, without looking at the disk.
pub open spec fn cleaned(path: Seq<char>) -> Seq<char> {
    path_of(is_absolute(path), resolved_names(pieces(path, '/')))
}

/// Resolve `.` and `..` textually. The path need not exist, which an upload
/// destination does not.
pub fn clean(path: &str) -> (r: String)
    ensures
        r@ == cleaned(path@),
{
    let chars = chars_of(path);
    let parts = split_on(&chars, '/');
    let ghost all = views(parts@);
    let mut names: Vec<Vec<char>> = Vec::new();
    let mut i: usize = 0;
    assert(all.take(0) =~= Seq::<Seq<char>>::empty());
    assert(views(names@) =~= Seq::<Seq<char>>::empty());
    while i < parts.len()
        invariant
            i <= parts.len(),
            all == views(parts@),
            views(names@) == resolved_names(all.take(i as int)),
        decreases parts.len() - i,
    {
        let ghost before = views(names@);
        let ghost part = parts@[i as int]@;
        assert(all.take(i + 1).drop_last() =~= all.take(i as int));
        assert(all.take(i + 1).last() == part);
        let n: usize = parts[i].len();
        let dot: bool = n == 1 && parts[i][0] == '.';
        let dots: bool = n == 2 && parts[i][0] == '.' && parts[i][1] == '.';
        assert(dot ==> part =~= seq!['.']);
        assert(dots ==> part =~= seq!['.', '.']);
        if dots {
            names.pop();
            proof {
                if before.len() > 0 {
                    assert(views(names@) =~= before.drop_last());
                } else {
                    assert(views(names@) =~= before);
                }
            }
        } else if n > 0 && !dot {
            let name = subrange(&parts[i], 0, n);
            assert(name@ =~= part);
            names.push(name);
            assert(views(names@) =~= before.push(part));
        }
        i = i + 1;
    }
    assert(all.take(i as int) =~= all);
    let absolute: bool = chars.len() > 0 && chars[0] == '/';
    let mut out: String = if absolute {
        "/".to_owned()
    } else {
        String::new()
    };
    let ghost found = views(names@);
    let mut k: usize = 0;
    proof {
        reveal_strlit("/");
        assert("/"@ =~= seq!['/']);
        assert(found.take(0) =~= Seq::<Seq<char>>::empty());
        assert(out@ =~= path_of(absolute, found.take(0)));
    }
    while k < names.len()
        invariant
            k <= names.len(),
            found == views(names@),
            out@ == path_of(absolute, found.take(k as int)),
        decreases names.len() - k,
    {
        assert(found.take(k + 1).drop_last() =~= found.take(k as int));
        assert(found.take(k + 1).last() == names@[k as int]@);
        out = join(&out, &string_of(&names[k]));
        k = k + 1;
    }
    assert(found.take(k as int) =~= found);
    out
}

/// Every name that is left is a name and holds no separator.
proof fn lemma_resolved_names(parts: Seq<Seq<char>>)
    requires
        forall|i: int| 0 <= i < parts.len() ==> !(#[trigger] parts[i]).contains('/'),
    ensures
        forall|i: int|
            0 <= i < resolved_names(parts).len() ==> is_name(#[trigger] resolved_names(parts)[i])
                && !resolved_names(parts)[i].contains('/'),
    decreases parts.len(),
{
    if parts.len() > 0 {
        let rest = parts.drop_last();
        assert forall|i: int| 0 <= i < rest.len() implies !(#[trigger] rest[i]).contains('/') by {
            assert(rest[i] == parts[i]);
        }
        lemma_resolved_names(rest);
        assert(!parts[parts.len() - 1].contains('/'));
        let now = resolved_names(parts);
        let before = resolved_names(rest);
        assert forall|i: int| 0 <= i < now.len() implies is_name(#[trigger] now[i])
            && !now[i].contains('/') by {
            if i < before.len() {
                assert(now[i] == before[i]);
            }
        }
    }
}

spec fn all_names(names: Seq<Seq<char>>) -> bool {
    forall|i: int|
        0 <= i < names.len() ==> is_name(#[trigger] names[i]) && !names[i].contains('/')
}

proof fn lemma_path_of(absolute: bool, names: Seq<Seq<char>>)
    requires
        all_names(names),
    ensures
        is_absolute(path_of(absolute, names)) == absolute,
        pieces(path_of(absolute, names), '/') == (if absolute && names.len() == 0 {
            seq![Seq::<char>::empty(), Seq::<char>::empty()]
        } else if absolute {
            seq![Seq::<char>::empty()] + names
        } else if names.len() == 0 {
            seq![Seq::<char>::empty()]
        } else {
            names
        }),
        names.len() > 0 ==> path_of(absolute, names).len() > 0 && path_of(absolute, names).last()
            != '/',
    decreases names.len(),
{
    let empty = Seq::<char>::empty();
    if names.len() == 0 {
        if absolute {
            assert(seq!['/'].drop_last() =~= empty);
            assert(pieces(empty, '/') == seq![empty]);
            assert(pieces(seq!['/'], '/') =~= seq![empty, empty]);
        }
    } else {
        let rest = names.drop_last();
        let name = names.last();
        assert(all_names(rest)) by {
            assert forall|i: int| 0 <= i < rest.len() implies is_name(#[trigger] rest[i])
                && !rest[i].contains('/') by {
                assert(rest[i] == names[i]);
            }
        }
        lemma_path_of(absolute, rest);
        assert(is_name(names[names.len() - 1]) && !names[names.len() - 1].contains('/'));
        assert(!is_absolute(name)) by {
            if is_absolute(name) {
                assert(name[0] == '/');
                assert(name.contains('/'));
            }
        }
        let base = path_of(absolute, rest);
        let whole = path_of(absolute, names);
        assert(name.last() != '/') by {
            if name.last() == '/' {
                assert(name[name.len() - 1] == '/');
                assert(name.contains('/'));
            }
        }
        if base.len() == 0 {
            crate::text::pieces_of_plain(empty, name, '/');
            assert(empty + name =~= name);
            assert(pieces(empty, '/') == seq![empty]);
            assert(seq![empty].drop_last().push(empty + name) =~= seq![name]);
            assert(names =~= seq![name]);
        } else if base.last() == '/' {
            assert(rest.len() == 0 && absolute);
            crate::text::pieces_of_plain(base, name, '/');
            assert(seq![empty, empty].drop_last().push(empty + name) =~= seq![empty, name]);
            assert(names =~= seq![name]);
            assert(seq![empty] + names =~= seq![empty, name]);
        } else {
            let t = base.push('/');
            assert(t.drop_last() =~= base);
            let p = pieces(base, '/');
            assert(pieces(t, '/') == p.push(empty));
            crate::text::pieces_of_plain(t, name, '/');
            assert(p.push(empty).drop_last().push(empty + name) =~= p.push(name));
            if absolute {
                assert((seq![empty] + rest).push(name) =~= seq![empty] + names);
            } else {
                assert(rest.push(name) =~= names);
            }
        }
    }
}

proof fn lemma_names_resolve_to_themselves(names: Seq<Seq<char>>, lead: bool)
    requires
        all_names(names),
    ensures
        resolved_names(if lead { seq![Seq::<char>::empty()] + names } else { names }) == names,
    decreases names.len(),
{
    let empty = Seq::<char>::empty();
    if names.len() == 0 {
        if lead {
            let one = seq![empty] + names;
            assert(one.drop_last() =~= Seq::<Seq<char>>::empty());
            assert(resolved_names(one.drop_last()) =~= names);
            assert(one.last() == empty);
            assert(seq!['.', '.'].len() == 2);
            assert(resolved_names(one) =~= names);
        } else {
            assert(resolved_names(names) =~= names);
        }
    } else {
        let rest = names.drop_last();
        assert forall|i: int| 0 <= i < rest.len() implies is_name(#[trigger] rest[i])
            && !rest[i].contains('/') by {
            assert(rest[i] == names[i]);
        }
        lemma_names_resolve_to_themselves(rest, lead);
        assert(is_name(names[names.len() - 1]));
        if lead {
            assert((seq![empty] + names).drop_last() =~= seq![empty] + rest);
        }
        assert(rest.push(names.last()) =~= names);
    }
}

/// A cleaned path stays what it is when it is cleaned again, and is absolute exactly
/// if it was before.
pub proof fn cleaning_twice_changes_nothing(path: Seq<char>)
    ensures
        cleaned(cleaned(path)) == cleaned(path),
        is_absolute(cleaned(path)) == is_absolute(path),
{
    crate::text::pieces_hold_no_separator(path, '/');
    let names = resolved_names(pieces(path, '/'));
    lemma_resolved_names(pieces(path, '/'));
    let absolute = is_absolute(path);
    lemma_path_of(absolute, names);
    lemma_names_resolve_to_themselves(names, true);
    lemma_names_resolve_to_themselves(names, false);
    let empty = Seq::<char>::empty();
    if names.len() == 0 {
        assert(seq![empty, empty].drop_last() =~= seq![empty]);
        assert(seq![empty].drop_last() =~= Seq::<Seq<char>>::empty());
        assert(resolved_names(seq![empty]) =~= names);
        assert(resolved_names(seq![empty, empty]) =~= names);
    }
}

/// No part of a cleaned path is `.` or `..`.
pub proof fn a_cleaned_path_never_leads_upwards(path: Seq<char>, i: int)
    requires
        0 <= i < pieces(cleaned(path), '/').len(),
    ensures
        pieces(cleaned(path), '/')[i] != seq!['.'],
        pieces(cleaned(path), '/')[i] != seq!['.', '.'],
{
    crate::text::pieces_hold_no_separator(path, '/');
    let names = resolved_names(pieces(path, '/'));
    lemma_resolved_names(pieces(path, '/'));
    lemma_path_of(is_absolute(path), names);
    let p = pieces(cleaned(path), '/');
    if p[i].len() > 0 {
        if is_absolute(path) {
            assert(i > 0);
            assert(p[i] == names[i - 1]);
            assert(is_name(names[i - 1]));
        } else {
            assert(p[i] == names[i]);
            assert(is_name(names[i]));
        }
    }
}

/// A requested path as an absolute one: empty means home, `~` stands for home, and
/// a relative path is taken from home.
pub open spec fn resolved(path: Seq<char>, home: Seq<char>) -> Seq<char> {
    let t = trimmed(path);
    if t.len() == 0 {
        home
    } else if is_absolute(t) {
        cleaned(t)
    } else if t.len() >= 2 && t[0] == '~' && t[1] == '/' {
        cleaned(path_join(home, t.skip(2)))
    } else if t == seq!['~'] {
        cleaned(path_join(home, Seq::empty()))
    } else {
        cleaned(path_join(home, t))
    }
}

/// Turn a requested path into an absolute one. A relative path is never taken
/// against whatever working directory the host was started in.
pub fn resolve(path: &str, home: &str) -> (r: String)
    ensures
        r@ == resolved(path@, home@),
{
    let t = trim(&chars_of(path));
    if t.len() == 0 {
        return home.to_owned();
    }
    if t[0] == '/' {
        return clean(&string_of(&t));
    }
    if t.len() >= 2 && t[0] == '~' && t[1] == '/' {
        let rest = subrange(&t, 2, t.len());
        assert(rest@ =~= t@.skip(2));
        return clean(&join(home, &string_of(&rest)));
    }
    if t.len() == 1 && t[0] == '~' {
        assert(t@ =~= seq!['~']);
        let none = String::new();
        return clean(&join(home, &none));
    }
    assert(t@ != seq!['~']);
    clean(&join(home, &string_of(&t)))
}

/// Wherever home is absolute, so is every resolved path.
pub proof fn a_resolved_path_is_absolute(path: Seq<char>, home: Seq<char>)
    requires
        is_absolute(home),
    ensures
        is_absolute(resolved(path, home)),
{
    let t = trimmed(path);
    cleaning_twice_changes_nothing(t);
    cleaning_twice_changes_nothing(path_join(home, t.skip(2)));
    cleaning_twice_changes_nothing(path_join(home, Seq::empty()));
    cleaning_twice_changes_nothing(path_join(home, t));
}

/// The account's home directory, from the two settings that can name it.
pub fn home(setting: Option<String>, profile: Option<String>) -> (r: String)
    ensures
        match (setting, profile) {
            (Some(h), _) => r == h,
            (None, Some(p)) => r == p,
            (None, None) => r@ == "/"@,
        },
{
    match setting {
        Some(h) => h,
        None => match profile {
            Some(p) => p,
            None => "/".to_owned(),
        },
    }
}

/// `s` without the slashes at its end.
pub open spec fn without_slashes(s: Seq<char>) -> Seq<char>
    decreases s.len(),
{
    if s.len() > 0 && s.last() == '/' {
        without_slashes(s.drop_last())
    } else {
        s
    }
}

/// What follows the last slash.
pub open spec fn last_part(s: Seq<char>) -> Seq<char>
    decreases s.len(),
{
    if s.len() == 0 || s.last() == '/' {
        Seq::empty()
    } else {
        last_part(s.drop_last()).push(s.last())
    }
}

/// The directory that holds a path: none for the root and for the empty path, and
/// the empty path where it is a single name.
pub open spec fn parent_path(path: Seq<char>) -> Option<Seq<char>> {
    let s = without_slashes(path);
    if s.len() == 0 {
        None
    } else {
        let before = s.take(s.len() - last_part(s).len());
        let dir = without_slashes(before);
        if dir.len() > 0 {
            Some(dir)
        } else if before.len() > 0 {
            Some(seq!['/'])
        } else {
            Some(Seq::empty())
        }
    }
}

/// The name of what a path leads to, if it has one.
pub open spec fn name_in(path: Seq<char>) -> Option<Seq<char>> {
    let n = last_part(without_slashes(path));
    if n.len() == 0 || n == seq!['.', '.'] {
        None
    } else {
        Some(n)
    }
}

fn slashes_end(v: &Vec<char>, to: usize) -> (r: usize)
    requires
        to <= v.len(),
    ensures
        r <= to,
        without_slashes(v@.take(to as int)) == v@.take(r as int),
        r > 0 ==> v@[r - 1] != '/',
{
    let mut end: usize = to;
    while end > 0 && v[end - 1] == '/'
        invariant
            end <= to <= v.len(),
            without_slashes(v@.take(to as int)) == without_slashes(v@.take(end as int)),
        decreases end,
    {
        assert(v@.take(end as int).drop_last() =~= v@.take(end - 1));
        end = end - 1;
    }
    end
}

proof fn lemma_last_part(s: Seq<char>)
    ensures
        last_part(s).len() <= s.len(),
    decreases s.len(),
{
    if s.len() > 0 && s.last() != '/' {
        lemma_last_part(s.drop_last());
    }
}

fn part_start(v: &Vec<char>, end: usize) -> (r: usize)
    requires
        end <= v.len(),
    ensures
        r <= end,
        last_part(v@.take(end as int)) == v@.subrange(r as int, end as int),
{
    let mut start: usize = end;
    let ghost t = v@.take(end as int);
    assert(t.take(start as int) =~= t);
    assert(last_part(t) =~= last_part(t.take(start as int)) + v@.subrange(
        start as int,
        end as int,
    ));
    while start > 0 && v[start - 1] != '/'
        invariant
            start <= end <= v.len(),
            t == v@.take(end as int),
            last_part(t) == last_part(t.take(start as int)) + v@.subrange(
                start as int,
                end as int,
            ),
        decreases start,
    {
        proof {
            let p = t.take(start as int);
            assert(p.drop_last() =~= t.take(start - 1));
            assert(p.last() == v@[start - 1]);
            assert(last_part(p) + v@.subrange(start as int, end as int) =~= last_part(
                t.take(start - 1),
            ) + v@.subrange(start - 1, end as int));
        }
        start = start - 1;
    }
    proof {
        let p = t.take(start as int);
        assert(last_part(p) =~= Seq::<char>::empty()) by {
            if start > 0 {
                assert(p.last() == v@[start - 1]);
            }
        }
        assert(last_part(t) =~= v@.subrange(start as int, end as int));
    }
    start
}

/// The directory that holds a path.
pub fn parent_of(path: &str) -> (r: Option<String>)
    ensures
        match r {
            Some(p) => parent_path(path@) == Some(p@),
            None => parent_path(path@) is None,
        },
{
    let v = chars_of(path);
    assert(v@.take(v@.len() as int) =~= v@);
    let end: usize = slashes_end(&v, v.len());
    if end == 0 {
        return None;
    }
    let start: usize = part_start(&v, end);
    let dir: usize = slashes_end(&v, start);
    proof {
        let s = v@.take(end as int);
        assert(s.take(s.len() - last_part(s).len()) =~= v@.take(start as int));
    }
    if dir > 0 {
        let d = subrange(&v, 0, dir);
        assert(d@ =~= v@.take(dir as int));
        Some(string_of(&d))
    } else if start > 0 {
        proof {
            reveal_strlit("/");
            assert("/"@ =~= seq!['/']);
        }
        Some("/".to_owned())
    } else {
        let none = String::new();
        assert(none@ =~= Seq::<char>::empty());
        Some(none)
    }
}

/// The name of what a path leads to.
pub fn name_of(path: &str) -> (r: Option<String>)
    ensures
        match r {
            Some(n) => name_in(path@) == Some(n@),
            None => name_in(path@) is None,
        },
{
    let v = chars_of(path);
    assert(v@.take(v@.len() as int) =~= v@);
    let end: usize = slashes_end(&v, v.len());
    let start: usize = part_start(&v, end);
    if start == end {
        return None;
    }
    let n = subrange(&v, start, end);
    if n.len() == 2 && n[0] == '.' && n[1] == '.' {
        assert(n@ =~= seq!['.', '.']);
        return None;
    }
    assert(n@ != seq!['.', '.']);
    Some(string_of(&n))
}

/// A directory of the robot as it is shown: without a parent at the root.
pub fn robot_listing(dir: String, entries: Vec<DirEntry>) -> (r: DirListing)
    ensures
        r.path == dir,
        r.entries@ == in_order(entries@),
        match r.parent {
            Some(p) => parent_path(dir@) == Some(p@) && p@.len() > 0,
            None => parent_path(dir@) is None || parent_path(dir@)->0.len() == 0,
        },
{
    let parent = match parent_of(&dir) {
        Some(p) => if p.as_str().is_empty() {
            None
        } else {
            Some(p)
        },
        None => None,
    };
    listing(dir, parent, entries)
}

fn said(path: &str, rest: &str) -> (r: String)
    ensures
        r@ == path@ + rest@,
{
    let mut out = path.to_owned();
    out.push_str(rest);
    out
}

/// Whether a folder can be created: not where something is already.
pub fn check_make_dir(target: &str, exists: bool) -> (r: Result<(), String>)
    ensures
        r is Ok <==> !exists,
        r matches Err(e) ==> e@ == target@ + " already exists"@,
{
    if exists {
        Err(said(target, " already exists"))
    } else {
        Ok(())
    }
}

/// What is said of a folder that is not empty.
pub const NOT_EMPTY: &'static str = " is not empty. Telekin only deletes empty folders — delete the contents first, or use a terminal if you meant to remove the tree.";

/// Whether something can be removed: anything but a folder with something in it.
/// One mistaken click has no undo.
pub fn check_remove(target: &str, is_dir: bool, empty: bool) -> (r: Result<(), String>)
    ensures
        r is Ok <==> !is_dir || empty,
        r matches Err(e) ==> e@ == target@ + NOT_EMPTY@,
{
    if is_dir && !empty {
        Err(said(target, NOT_EMPTY))
    } else {
        Ok(())
    }
}

/// What is said of a file that is too large to send.
pub open spec fn too_large_to_send(target: Seq<char>, len: u64) -> Seq<char> {
    target + " is "@ + decimal(len as nat) + " bytes, past the "@ + decimal(MAX_FILE_BYTES as nat)
        + " byte transfer limit"@
}

/// Whether something can be sent: a file that is not too large.
pub fn check_send(target: &str, is_dir: bool, len: u64) -> (r: Result<(), String>)
    ensures
        r is Ok <==> !is_dir && len <= MAX_FILE_BYTES,
        r matches Err(e) ==> e@ == if is_dir {
            target@ + " is a folder. Open it, or pick the files inside."@
        } else {
            too_large_to_send(target@, len)
        },
{
    if is_dir {
        return Err(said(target, " is a folder. Open it, or pick the files inside."));
    }
    if len > MAX_FILE_BYTES {
        let mut out = said(target, " is ");
        push_decimal(&mut out, len);
        out.push_str(" bytes, past the ");
        push_decimal(&mut out, MAX_FILE_BYTES);
        out.push_str(" byte transfer limit");
        return Err(out);
    }
    Ok(())
}

/// Whether something can be edited in place: a file that is not too large.
pub fn check_edit(target: &str, is_dir: bool, len: u64) -> (r: Result<(), String>)
    ensures
        r is Ok <==> !is_dir && len <= MAX_TEXT_BYTES,
        r matches Err(e) ==> e@ == if is_dir {
            target@ + " is a folder, not a file"@
        } else {
            target@ + " is "@ + decimal(len as nat)
                + " — too large to edit here. Copy it across instead."@
        },
{
    if is_dir {
        return Err(said(target, " is a folder, not a file"));
    }
    if len > MAX_TEXT_BYTES {
        let mut out = said(target, " is ");
        push_decimal(&mut out, len);
        out.push_str(" — too large to edit here. Copy it across instead.");
        return Err(out);
    }
    Ok(())
}

/// `String::from_utf8`: the text whose UTF-8 encoding the bytes are, where they are
/// valid UTF-8, and nothing otherwise.
#[verifier::external_body]
fn from_utf8(bytes: Vec<u8>) -> (r: Option<String>)
    ensures
        match r {
            Some(s) => encode_utf8(s@) == bytes@,
            None => !valid_utf8(bytes@),
        },
{
    String::from_utf8(bytes).ok()
}

/// The text of a file. Bytes that are no text are refused: saved back, every invalid
/// byte would be replaced.
pub fn file_text(target: &str, bytes: Vec<u8>) -> (r: Result<String, String>)
    ensures
        match r {
            Ok(s) => valid_utf8(bytes@) && s@ == decode_utf8(bytes@) && encode_utf8(s@) == bytes@,
            Err(e) => !valid_utf8(bytes@) && e@ == target@
                + " is not text — editing it here would corrupt it"@,
        },
{
    match from_utf8(bytes) {
        Some(s) => {
            proof {
                an_edited_text_reads_back(s@);
            }
            Ok(s)
        },
        None => Err(said(target, " is not text — editing it here would corrupt it")),
    }
}

/// What the editor saves, it reads back: the bytes of a text are taken for text again, and
/// for the same one.
pub proof fn an_edited_text_reads_back(text: Seq<char>)
    ensures
        valid_utf8(encode_utf8(text)),
        decode_utf8(encode_utf8(text)) == text,
{
    vstd::utf8::encode_utf8_valid_utf8(text);
    vstd::utf8::encode_utf8_decode_utf8(text);
}

/// What is said of an edit that is too large.
pub open spec fn edit_too_large(len: nat) -> Seq<char> {
    "that edit is "@ + decimal(len) + " bytes, past the "@ + decimal(MAX_TEXT_BYTES as nat)
        + " byte limit for editing in place"@
}

/// Whether an edited text can be written back.
pub fn check_write_text(text: &str) -> (r: Result<(), String>)
    ensures
        r is Ok <==> encode_utf8(text@).len() <= MAX_TEXT_BYTES,
        r matches Err(e) ==> e@ == edit_too_large(encode_utf8(text@).len()),
{
    let len: usize = text.as_bytes().len();
    if len as u64 > MAX_TEXT_BYTES {
        let mut out = "that edit is ".to_owned();
        push_decimal(&mut out, len as u64);
        out.push_str(" bytes, past the ");
        push_decimal(&mut out, MAX_TEXT_BYTES);
        out.push_str(" byte limit for editing in place");
        return Err(out);
    }
    Ok(())
}

/// Where an upload is written while it is in flight: beside the destination under a
/// temporary name, so that an interrupted transfer cannot be mistaken for a finished
/// file.
#[derive(Debug)]
pub struct Incoming {
    pub parent: String,
    pub temp: String,
    pub final_path: String,
}

/// The temporary name of a file in flight.
pub open spec fn part_name(name: Seq<char>) -> Seq<char> {
    seq!['.'] + name + ".telekin-part"@
}

/// Where a file goes and where it is written until it is complete. Missing folders
/// above it are to be created.
pub fn plan_write(final_path: &str) -> (r: Result<Incoming, String>)
    ensures
        match r {
            Ok(i) => {
                &&& i.final_path@ == final_path@
                &&& parent_path(final_path@) == Some(i.parent@)
                &&& name_in(final_path@) matches Some(n) && i.temp@ == path_join(
                    i.parent@,
                    part_name(n),
                )
            },
            Err(e) => {
                if parent_path(final_path@) is None {
                    e@ == "cannot write to a filesystem root"@
                } else {
                    name_in(final_path@) is None && e@ == "that name has no file part"@
                }
            },
        },
{
    let parent = match parent_of(final_path) {
        Some(p) => p,
        None => {
            return Err("cannot write to a filesystem root".to_owned());
        },
    };
    let name = match name_of(final_path) {
        Some(n) => n,
        None => {
            return Err("that name has no file part".to_owned());
        },
    };
    let mut part = String::new();
    part.push('.');
    part.push_str(&name);
    part.push_str(".telekin-part");
    assert(part@ =~= part_name(name@));
    let temp = join(&parent, &part);
    Ok(Incoming { parent, temp, final_path: final_path.to_owned() })
}

/// Whether a file can be written where it is to go.
pub fn check_write(incoming: &Incoming, parent_is_dir: bool, final_is_dir: bool) -> (r: Result<
    (),
    String,
>)
    ensures
        r is Ok <==> parent_is_dir && !final_is_dir,
        r matches Err(e) ==> e@ == if !parent_is_dir {
            incoming.parent@ + " is not a folder on this machine"@
        } else {
            incoming.final_path@ + " is a folder here; pick another name"@
        },
{
    if !parent_is_dir {
        return Err(said(&incoming.parent, " is not a folder on this machine"));
    }
    if final_is_dir {
        return Err(said(&incoming.final_path, " is a folder here; pick another name"));
    }
    Ok(())
}

/// A file in flight is never under the name that it will have: where the name is
/// that of the destination, the temporary one is longer.
pub proof fn an_upload_is_invisible_until_it_finishes(parent: Seq<char>, name: Seq<char>)
    requires
        name.len() > 0,
        !is_absolute(name),
    ensures
        path_join(parent, part_name(name)) != path_join(parent, name),
{
    assert(part_name(name).len() > name.len());
    assert(part_name(name)[0] == '.');
    assert(path_join(parent, part_name(name)).len() > path_join(parent, name).len());
}

/// What `.`, `..` and empty parts of a path come to: the first and the last nothing, wherever
/// they stand, and `..` undoes the name in front of it, or nothing at the top. Names are kept.
pub proof fn parts_resolve_one_by_one(
    front: Seq<Seq<char>>,
    name: Seq<char>,
    dot: Seq<char>,
    rest: Seq<Seq<char>>,
)
    requires
        name.len() > 0 && name != seq!['.'] && name != seq!['.', '.'],
        dot.len() == 0 || dot == seq!['.'],
    ensures
        resolved_names(front.push(name)) == resolved_names(front).push(name),
        resolved_names(front.push(dot) + rest) == resolved_names(front + rest),
        resolved_names(front.push(name).push(seq!['.', '.']) + rest) == resolved_names(front + rest),
        resolved_names(seq![seq!['.', '.']] + rest) == resolved_names(rest),
        resolved_names(Seq::empty()) == Seq::<Seq<char>>::empty(),
    decreases rest.len(),
{
    let up = seq!['.', '.'];
    assert(front.push(name).drop_last() =~= front);
    assert(dot != up) by {
        assert(up.len() == 2);
        assert(seq!['.'].len() == 1);
    }
    let (a, b, c, d) = (
        front.push(dot) + rest,
        front.push(name).push(up) + rest,
        seq![up] + rest,
        front + rest,
    );
    if rest.len() == 0 {
        assert(a =~= front.push(dot) && a.drop_last() =~= front);
        assert(b =~= front.push(name).push(up) && b.drop_last() =~= front.push(name));
        assert(c =~= seq![up] && c.drop_last() =~= Seq::<Seq<char>>::empty());
        assert(d =~= front);
        assert(resolved_names(front.push(name)).drop_last() =~= resolved_names(front));
        assert(resolved_names(c.drop_last()) =~= Seq::<Seq<char>>::empty());
        assert(rest =~= Seq::<Seq<char>>::empty());
    } else {
        parts_resolve_one_by_one(front, name, dot, rest.drop_last());
        assert(a.drop_last() =~= front.push(dot) + rest.drop_last());
        assert(b.drop_last() =~= front.push(name).push(up) + rest.drop_last());
        assert(c.drop_last() =~= seq![up] + rest.drop_last());
        assert(d.drop_last() =~= front + rest.drop_last());
        assert(a.last() == rest.last() && b.last() == rest.last() && c.last() == rest.last()
            && d.last() == rest.last());
    }
}

/// A path that has nothing to resolve stays as it is: an absolute one of names, one slash before
/// each, or a relative one with slashes between them. The parts of a cleaned path are the names
/// that its parts resolve to.
pub proof fn a_cleaned_path_is_its_names(path: Seq<char>)
    ensures
        ({
            let names = resolved_names(pieces(path, '/'));
            &&& names.len() > 0 && is_absolute(path) ==> pieces(cleaned(path), '/') == seq![
                Seq::<char>::empty(),
            ] + names
            &&& names.len() > 0 && !is_absolute(path) ==> pieces(cleaned(path), '/') == names
            &&& names.len() == 0 && is_absolute(path) ==> cleaned(path) == seq!['/']
            &&& names.len() == 0 && !is_absolute(path) ==> cleaned(path).len() == 0
        }),
{
    crate::text::pieces_hold_no_separator(path, '/');
    lemma_resolved_names(pieces(path, '/'));
    lemma_path_of(is_absolute(path), resolved_names(pieces(path, '/')));
}

/// An absolute path does not depend on home, `~` and the empty path are home, and a relative
/// path means the same with `~/` in front of it.
pub proof fn relative_paths_start_at_home(path: Seq<char>, home: Seq<char>, other: Seq<char>)
    requires
        path.len() > 0,
        !crate::text::white(path[0]),
        !crate::text::white(path.last()),
    ensures
        resolved(Seq::empty(), home) == home,
        path[0] == '/' ==> resolved(path, home) == resolved(path, other) && resolved(path, home)
            == cleaned(path),
        path[0] != '/' && path[0] != '~' ==> resolved(path, home) == cleaned(path_join(home, path))
            && resolved(seq!['~', '/'] + path, home) == resolved(path, home),
        home.len() > 0 && home.last() != '/' ==> resolved(seq!['~'], home) == cleaned(
            home + seq!['/'],
        ),
{
    crate::text::trimming_takes_only_white_space(Seq::empty(), path, Seq::empty());
    assert(Seq::empty() + path + Seq::empty() =~= path);
    let from_home = seq!['~', '/'] + path;
    assert(from_home[0] == '~' && from_home[1] == '/');
    crate::text::trimming_takes_only_white_space(Seq::empty(), from_home, Seq::empty());
    assert(Seq::empty() + from_home + Seq::empty() =~= from_home);
    assert(from_home.skip(2) =~= path);
    let tilde = seq!['~'];
    crate::text::trimming_takes_only_white_space(Seq::empty(), tilde, Seq::empty());
    assert(Seq::empty() + tilde + Seq::empty() =~= tilde);
    assert(home.push('/') + Seq::empty() =~= home + seq!['/']);
    assert(trimmed(Seq::<char>::empty()).len() == 0);
}

proof fn lemma_slashes_go(s: Seq<char>, tail: Seq<char>)
    requires
        s.len() > 0 ==> s.last() != '/',
        forall|i: int| 0 <= i < tail.len() ==> #[trigger] tail[i] == '/',
    ensures
        without_slashes(s + tail) == s,
    decreases tail.len(),
{
    if tail.len() == 0 {
        assert(s + tail =~= s);
    } else {
        assert((s + tail).last() == tail[tail.len() - 1]);
        assert((s + tail).drop_last() =~= s + tail.drop_last());
        lemma_slashes_go(s, tail.drop_last());
    }
}

proof fn lemma_part_behind_slash(front: Seq<char>, name: Seq<char>)
    requires
        front.len() > 0 ==> front.last() == '/',
        !name.contains('/'),
    ensures
        last_part(front + name) == name,
    decreases name.len(),
{
    let whole = front + name;
    if name.len() == 0 {
        assert(whole =~= front);
        assert(last_part(front) =~= name);
    } else {
        assert(whole.last() == name.last());
        assert(name.contains(name.last()));
        assert(whole.drop_last() =~= front + name.drop_last());
        let less = name.drop_last();
        assert(!less.contains('/')) by {
            if less.contains('/') {
                let i = choose|i: int| 0 <= i < less.len() && less[i] == '/';
                assert(name[i] == '/');
            }
        }
        lemma_part_behind_slash(front, less);
        assert(less.push(name.last()) =~= name);
    }
}

/// Taking a path apart undoes putting it together: what holds a name in a directory is that
/// directory, and what it leads to is that name, however many slashes stand between or behind
/// them. The root holds what is directly below it, and nothing holds the root.
pub proof fn a_joined_path_comes_apart(
    dir: Seq<char>,
    between: Seq<char>,
    name: Seq<char>,
    behind: Seq<char>,
)
    requires
        dir.len() > 0 ==> dir.last() != '/',
        between.len() > 0,
        forall|i: int| 0 <= i < between.len() ==> #[trigger] between[i] == '/',
        forall|i: int| 0 <= i < behind.len() ==> #[trigger] behind[i] == '/',
        name.len() > 0,
        !name.contains('/'),
    ensures
        parent_path(dir + between + name + behind) == Some(
            if dir.len() > 0 {
                dir
            } else {
                seq!['/']
            },
        ),
        parent_path(name + behind) == Some(Seq::<char>::empty()),
        parent_path(between) is None,
        parent_path(Seq::empty()) is None,
        name != seq!['.', '.'] ==> name_in(dir + between + name + behind) == Some(name),
        name != seq!['.', '.'] ==> name_in(name + behind) == Some(name),
        name_in(between) is None,
        dir.len() > 0 ==> parent_path(path_join(dir, name)) == Some(dir),
        dir.len() > 0 && name != seq!['.', '.'] ==> name_in(path_join(dir, name)) == Some(name),
{
    assert(name.contains(name.last()));
    assert(name.contains(name[0]));
    let held = dir + between;
    assert(held.last() == between[between.len() - 1]);
    let whole = held + name;
    lemma_slashes_go(whole, behind);
    lemma_slashes_go(name, behind);
    lemma_slashes_go(dir, between);
    lemma_slashes_go(Seq::empty(), between);
    assert(Seq::empty() + between =~= between);
    lemma_part_behind_slash(held, name);
    lemma_part_behind_slash(Seq::empty(), name);
    assert(Seq::empty() + name =~= name);
    assert(whole.take(whole.len() - name.len()) =~= held);
    assert(name.take(0) =~= Seq::<char>::empty());
    assert(without_slashes(Seq::<char>::empty()) =~= Seq::<char>::empty());
    if dir.len() > 0 {
        let joined = dir.push('/') + name;
        assert(joined == path_join(dir, name));
        assert(without_slashes(joined) == joined);
        lemma_part_behind_slash(dir.push('/'), name);
        assert(joined.take(joined.len() - name.len()) =~= dir.push('/'));
        assert(dir.push('/') =~= dir + seq!['/']);
        lemma_slashes_go(dir, seq!['/']);
    }
}

/// A file in flight is hidden, lies beside the file that it will be, and two files in flight
/// never share a name.
pub proof fn files_in_flight_keep_apart(dir: Seq<char>, name: Seq<char>, other: Seq<char>)
    requires
        dir.len() > 0,
        dir.last() != '/',
        name.len() > 0,
        !name.contains('/'),
    ensures
        part_name(name)[0] == '.',
        part_name(name) == part_name(other) <==> name == other,
        parent_path(path_join(dir, part_name(name))) == Some(dir),
        parent_path(path_join(dir, part_name(name))) == parent_path(path_join(dir, name)),
{
    reveal_strlit(".telekin-part");
    let part = part_name(name);
    let n = ".telekin-part"@.len() as int;
    if part == part_name(other) {
        assert(part.subrange(1, part.len() - n) =~= name);
        assert(part_name(other).subrange(1, part.len() - n) =~= other);
    }
    assert(!part.contains('/')) by {
        if part.contains('/') {
            let i = choose|i: int| 0 <= i < part.len() && part[i] == '/';
            if 1 <= i < 1 + name.len() {
                assert(name[i - 1] == '/');
            }
        }
    }
    a_joined_path_comes_apart(dir, seq!['/'], name, Seq::empty());
    a_joined_path_comes_apart(dir, seq!['/'], part, Seq::empty());
}

} // verus!
