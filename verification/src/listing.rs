//! A directory as it is shown, and a directory tree as it is copied.
use vstd::prelude::*;

use crate::proto::{DirEntry, DirListing, TreeFile, MAX_TREE_ENTRIES};
use crate::sort::{in_order, stable_sort, Ordered};
use crate::text::{
    chars_of, is_before, lowercase, precedes, precedes_is_asymmetric, precedes_is_transitive,
    to_lowercase,
};

verus! {

/// The order of a listing: folders first, then by name without regard to case.
pub open spec fn listed_before(a: DirEntry, b: DirEntry) -> bool {
    if a.is_dir != b.is_dir {
        a.is_dir
    } else {
        precedes(lowercase(a.name@), lowercase(b.name@))
    }
}

impl Ordered for DirEntry {
    open spec fn before(self, other: Self) -> bool {
        listed_before(self, other)
    }

    proof fn before_is_an_order(a: Self, b: Self, c: Self) {
        precedes_is_transitive(lowercase(a.name@), lowercase(b.name@), lowercase(c.name@));
        precedes_is_asymmetric(lowercase(a.name@), lowercase(b.name@));
    }

    fn goes_before(&self, other: &Self) -> (r: bool) {
        if self.is_dir != other.is_dir {
            self.is_dir
        } else {
            is_before(&chars_of(&to_lowercase(&self.name)), &chars_of(&to_lowercase(&other.name)))
        }
    }
}

/// An entry of a directory, from what the system says of it. A folder has no size of its own.
pub fn dir_entry(
    name: String,
    is_dir: bool,
    len: u64,
    modified: Option<u64>,
    is_link: bool,
) -> (r: DirEntry)
    ensures
        r == (DirEntry {
            name,
            is_dir,
            len: if is_dir {
                0
            } else {
                len
            },
            modified,
            is_link,
        }),
{
    DirEntry {
        name,
        is_dir,
        len: if is_dir {
            0
        } else {
            len
        },
        modified,
        is_link,
    }
}

/// A directory as it is shown.
pub fn listing(path: String, parent: Option<String>, entries: Vec<DirEntry>) -> (r: DirListing)
    ensures
        r.path == path,
        r.parent == parent,
        r.entries@ == in_order(entries@),
{
    DirListing { path, parent, entries: stable_sort(entries) }
}

/// What a name in a directory stands for.
#[derive(Debug, Clone, Copy, PartialEq, Eq, Structural)]
pub enum EntryKind {
    Dir,
    File,
    Link,
    Other,
}

/// One name in a directory that is being walked.
pub struct WalkEntry {
    pub name: String,
    pub kind: EntryKind,
    pub len: u64,
}

impl Ordered for WalkEntry {
    /// By name.
    open spec fn before(self, other: Self) -> bool {
        precedes(self.name@, other.name@)
    }

    proof fn before_is_an_order(a: Self, b: Self, c: Self) {
        precedes_is_transitive(a.name@, b.name@, c.name@);
        precedes_is_asymmetric(a.name@, b.name@);
    }

    fn goes_before(&self, other: &Self) -> (r: bool) {
        is_before(&chars_of(&self.name), &chars_of(&other.name))
    }
}

/// A walk through a directory tree. Paths are relative to where it started, with
/// `/` between their parts; the start itself is the empty path.
pub struct TreeWalk {
    stack: Vec<String>,
    dirs: Vec<String>,
    files: Vec<TreeFile>,
    count: usize,
    truncated: bool,
    read: Ghost<Seq<Seq<char>>>,
}

/// Where a walk stands: the directories still to be read, the directories and
/// files found, how many names counted, whether there were too many, and the directories
/// that were handed out to be read.
pub struct WalkState {
    pub stack: Seq<Seq<char>>,
    pub dirs: Seq<Seq<char>>,
    pub files: Seq<(Seq<char>, u64)>,
    pub count: nat,
    pub truncated: bool,
    pub read: Seq<Seq<char>>,
}

/// The path of a name in a directory.
pub open spec fn child(rel: Seq<char>, name: Seq<char>) -> Seq<char> {
    if rel.len() == 0 {
        name
    } else {
        rel.push('/') + name
    }
}

impl WalkState {
    /// The walk after a name that counts: directories are to be read in turn,
    /// files are found, and of anything else there is nothing to copy.
    pub open spec fn found(self, rel: Seq<char>, e: WalkEntry) -> WalkState {
        let path = child(rel, e.name@);
        let counted = WalkState { count: self.count + 1, ..self };
        match e.kind {
            EntryKind::Dir => WalkState {
                stack: self.stack.push(path),
                dirs: self.dirs.push(path),
                ..counted
            },
            EntryKind::File => WalkState { files: self.files.push((path, e.len)), ..counted },
            _ => counted,
        }
    }

    /// The walk after a directory was read. Symlinks are passed over; once there
    /// are too many names, the rest of the directory is left out.
    pub open spec fn visited(self, rel: Seq<char>, entries: Seq<WalkEntry>) -> WalkState
        decreases entries.len(),
    {
        if entries.len() == 0 {
            self
        } else if entries[0].kind == EntryKind::Link {
            self.visited(rel, entries.drop_first())
        } else if self.count >= MAX_TREE_ENTRIES {
            WalkState { truncated: true, ..self }
        } else {
            self.found(rel, entries[0]).visited(rel, entries.drop_first())
        }
    }

    /// Whether a path is the start of the walk or a directory found.
    pub open spec fn knows(self, rel: Seq<char>) -> bool {
        rel.len() == 0 || self.dirs.contains(rel)
    }

    /// Whether directory `i` lies in the start of the walk or in a directory found
    /// before it.
    pub open spec fn has_parent(self, i: int) -> bool {
        exists|rel: Seq<char>, name: Seq<char>| #[trigger]
            child(rel, name) == self.dirs[i] && (rel.len() == 0 || self.dirs.take(i).contains(rel))
    }

    /// Whether file `i` lies in the start of the walk or in a directory found.
    pub open spec fn file_has_parent(self, i: int) -> bool {
        exists|rel: Seq<char>, name: Seq<char>| #[trigger]
            child(rel, name) == self.files[i].0 && self.knows(rel)
    }

    /// Whether a directory is still to be read or was handed out.
    pub open spec fn gets_read(self, rel: Seq<char>) -> bool {
        self.stack.contains(rel) || self.read.contains(rel)
    }

    /// What holds of every walk: nothing found is counted twice, the count keeps
    /// the limit, parents come before what they hold, and no directory is forgotten: the start
    /// and every directory found gets read.
    pub open spec fn wf(self) -> bool {
        &&& self.dirs.len() + self.files.len() <= self.count <= MAX_TREE_ENTRIES
        &&& forall|i: int| 0 <= i < self.dirs.len() ==> #[trigger] self.has_parent(i)
        &&& forall|i: int| 0 <= i < self.files.len() ==> #[trigger] self.file_has_parent(i)
        &&& forall|i: int| 0 <= i < self.stack.len() ==> self.knows(#[trigger] self.stack[i])
        &&& self.gets_read(Seq::empty())
        &&& forall|i: int| 0 <= i < self.dirs.len() ==> self.gets_read(#[trigger] self.dirs[i])
    }
}

proof fn lemma_found(w: WalkState, rel: Seq<char>, e: WalkEntry)
    requires
        w.wf(),
        w.knows(rel),
        w.count < MAX_TREE_ENTRIES,
    ensures
        w.found(rel, e).wf(),
        w.found(rel, e).knows(rel),
{
    let f = w.found(rel, e);
    let path = child(rel, e.name@);
    assert forall|r: Seq<char>| #[trigger] w.knows(r) implies f.knows(r) by {
        if r.len() > 0 {
            let k = choose|k: int| 0 <= k < w.dirs.len() && w.dirs[k] == r;
            assert(f.dirs[k] == r);
        }
    }
    assert forall|i: int| 0 <= i < f.dirs.len() implies #[trigger] f.has_parent(i) by {
        if i < w.dirs.len() {
            assert(w.has_parent(i));
            assert(f.dirs.take(i) =~= w.dirs.take(i));
        } else {
            assert(f.dirs.take(i) =~= w.dirs);
            assert(child(rel, e.name@) == f.dirs[i]);
        }
    }
    assert forall|i: int| 0 <= i < f.files.len() implies #[trigger] f.file_has_parent(i) by {
        if i < w.files.len() {
            assert(w.file_has_parent(i));
            let (r, n) = choose|r: Seq<char>, n: Seq<char>| #[trigger]
                child(r, n) == w.files[i].0 && w.knows(r);
            assert(child(r, n) == f.files[i].0 && f.knows(r));
        } else {
            assert(child(rel, e.name@) == f.files[i].0);
        }
    }
    assert forall|i: int| 0 <= i < f.stack.len() implies f.knows(#[trigger] f.stack[i]) by {
        if i < w.stack.len() {
            assert(w.knows(w.stack[i]));
        } else {
            assert(f.dirs[f.dirs.len() - 1] == path);
        }
    }
    assert forall|r: Seq<char>| #[trigger] w.gets_read(r) implies f.gets_read(r) by {
        if w.stack.contains(r) {
            let k = choose|k: int| 0 <= k < w.stack.len() && w.stack[k] == r;
            assert(f.stack[k] == r);
        }
    }
    assert(w.gets_read(Seq::empty()));
    assert forall|i: int| 0 <= i < f.dirs.len() implies f.gets_read(#[trigger] f.dirs[i]) by {
        if i < w.dirs.len() {
            assert(w.gets_read(w.dirs[i]));
        } else {
            assert(f.stack[f.stack.len() - 1] == path);
        }
    }
}

/// Reading a directory keeps the walk in order: it never lists more than the
/// limit, and every directory and file found lies in a directory found before.
pub proof fn a_walk_keeps_its_limit_and_order(w: WalkState, rel: Seq<char>, entries: Seq<WalkEntry>)
    requires
        w.wf(),
        w.knows(rel),
    ensures
        w.visited(rel, entries).wf(),
    decreases entries.len(),
{
    if entries.len() == 0 {
    } else if entries[0].kind == EntryKind::Link {
        a_walk_keeps_its_limit_and_order(w, rel, entries.drop_first());
    } else if w.count >= MAX_TREE_ENTRIES {
        let t = WalkState { truncated: true, ..w };
        assert forall|i: int| 0 <= i < t.dirs.len() implies #[trigger] t.has_parent(i) by {
            assert(w.has_parent(i));
        }
        assert forall|i: int| 0 <= i < t.files.len() implies #[trigger] t.file_has_parent(i) by {
            assert(w.file_has_parent(i));
            let (r, n) = choose|r: Seq<char>, n: Seq<char>| #[trigger]
                child(r, n) == w.files[i].0 && w.knows(r);
            assert(child(r, n) == t.files[i].0 && t.knows(r));
        }
        assert forall|i: int| 0 <= i < t.stack.len() implies t.knows(#[trigger] t.stack[i]) by {
            assert(w.knows(w.stack[i]));
        }
        assert(w.gets_read(Seq::empty()));
        assert forall|i: int| 0 <= i < t.dirs.len() implies t.gets_read(#[trigger] t.dirs[i]) by {
            assert(w.gets_read(w.dirs[i]));
        }
    } else {
        lemma_found(w, rel, entries[0]);
        a_walk_keeps_its_limit_and_order(w.found(rel, entries[0]), rel, entries.drop_first());
    }
}

/// The names that count: all but symlinks.
pub open spec fn counting(entries: Seq<WalkEntry>) -> Seq<WalkEntry> {
    entries.filter(|e: WalkEntry| e.kind != EntryKind::Link)
}

/// The directories among the entries of a directory, as paths.
pub open spec fn dirs_in(rel: Seq<char>, entries: Seq<WalkEntry>) -> Seq<Seq<char>> {
    entries.filter(|e: WalkEntry| e.kind == EntryKind::Dir).map_values(
        |e: WalkEntry|
            if rel == Seq::<char>::empty() {
                e.name@
            } else {
                rel + seq!['/'] + e.name@
            },
    )
}

/// The files among the entries of a directory, as paths and sizes.
pub open spec fn files_in(rel: Seq<char>, entries: Seq<WalkEntry>) -> Seq<(Seq<char>, u64)> {
    entries.filter(|e: WalkEntry| e.kind == EntryKind::File).map_values(
        |e: WalkEntry|
            (
                if rel == Seq::<char>::empty() {
                    e.name@
                } else {
                    rel + seq!['/'] + e.name@
                },
                e.len,
            ),
    )
}

/// Whether a directory was taken in: of as many of its entries as there is room for, all of
/// them where there is room for all, the folders are found and are to be read, the files are
/// found with their sizes, and nothing else is.
pub open spec fn taken_in(
    before: WalkState,
    rel: Seq<char>,
    entries: Seq<WalkEntry>,
    after: WalkState,
) -> bool {
    let room = MAX_TREE_ENTRIES - before.count;
    let n = counting(entries).len();
    &&& after.read == before.read
    &&& after.truncated == (before.truncated || n > room)
    &&& after.count == before.count + if n <= room {
        n as int
    } else {
        room
    }
    &&& exists|k: int| #[trigger]
        found_first(before, rel, entries, k, after) && if n <= room {
            k == entries.len()
        } else {
            counting(entries.take(k)).len() == room
        }
}

/// Whether what the first `k` entries of a directory stand for was found, and nothing else.
pub open spec fn found_first(
    before: WalkState,
    rel: Seq<char>,
    entries: Seq<WalkEntry>,
    k: int,
    after: WalkState,
) -> bool {
    &&& 0 <= k <= entries.len()
    &&& after.stack == before.stack + dirs_in(rel, entries.take(k))
    &&& after.dirs == before.dirs + dirs_in(rel, entries.take(k))
    &&& after.files == before.files + files_in(rel, entries.take(k))
}

proof fn lemma_first_filtered<A>(s: Seq<A>, p: spec_fn(A) -> bool)
    requires
        s.len() > 0,
    ensures
        s.filter(p) == if p(s[0]) {
            seq![s[0]] + s.drop_first().filter(p)
        } else {
            s.drop_first().filter(p)
        },
    decreases s.len(),
{
    reveal(Seq::filter);
    let front = s.drop_last();
    if front.len() == 0 {
        assert(front.filter(p) =~= Seq::empty());
        assert(s.drop_first() =~= Seq::empty());
        assert(s.drop_first().filter(p) =~= Seq::empty());
        assert(s.filter(p) =~= if p(s[0]) {
            seq![s[0]]
        } else {
            Seq::empty()
        });
    } else {
        lemma_first_filtered(front, p);
        assert(s.drop_first().drop_last() =~= front.drop_first());
        assert(s.drop_first().last() == s.last());
        assert(s.filter(p) =~= if p(s[0]) {
            seq![s[0]] + s.drop_first().filter(p)
        } else {
            s.drop_first().filter(p)
        });
    }
}

proof fn lemma_first_entry(rel: Seq<char>, entries: Seq<WalkEntry>)
    requires
        entries.len() > 0,
    ensures
        ({
            let (e, rest) = (entries[0], entries.drop_first());
            let path = child(rel, e.name@);
            &&& counting(entries).len() == counting(rest).len() + if e.kind == EntryKind::Link {
                0int
            } else {
                1
            }
            &&& dirs_in(rel, entries) == if e.kind == EntryKind::Dir {
                seq![path] + dirs_in(rel, rest)
            } else {
                dirs_in(rel, rest)
            }
            &&& files_in(rel, entries) == if e.kind == EntryKind::File {
                seq![(path, e.len)] + files_in(rel, rest)
            } else {
                files_in(rel, rest)
            }
        }),
{
    let (e, rest) = (entries[0], entries.drop_first());
    let path = child(rel, e.name@);
    lemma_first_filtered(entries, |e: WalkEntry| e.kind != EntryKind::Link);
    lemma_first_filtered(entries, |e: WalkEntry| e.kind == EntryKind::Dir);
    lemma_first_filtered(entries, |e: WalkEntry| e.kind == EntryKind::File);
    assert(rel == Seq::<char>::empty() <==> rel.len() == 0) by {
        if rel.len() == 0 {
            assert(rel =~= Seq::<char>::empty());
        }
    }
    assert(rel.push('/') + e.name@ =~= rel + seq!['/'] + e.name@);
    assert(dirs_in(rel, entries) =~= if e.kind == EntryKind::Dir {
        seq![path] + dirs_in(rel, rest)
    } else {
        dirs_in(rel, rest)
    });
    assert(files_in(rel, entries) =~= if e.kind == EntryKind::File {
        seq![(path, e.len)] + files_in(rel, rest)
    } else {
        files_in(rel, rest)
    });
}

proof fn lemma_no_entries(rel: Seq<char>, entries: Seq<WalkEntry>)
    requires
        entries.len() == 0,
    ensures
        counting(entries).len() == 0,
        dirs_in(rel, entries) == Seq::<Seq<char>>::empty(),
        files_in(rel, entries) == Seq::<(Seq<char>, u64)>::empty(),
{
    reveal(Seq::filter);
    assert(dirs_in(rel, entries) =~= Seq::<Seq<char>>::empty());
    assert(files_in(rel, entries) =~= Seq::<(Seq<char>, u64)>::empty());
}

/// A directory is taken in whole: while there is room, every folder in it is found and is to be
/// read in turn, and every file is found with its size, in order, and nothing else is. Where
/// there is not room for every name, the walk says so.
pub proof fn a_directory_is_taken_in_whole(w: WalkState, rel: Seq<char>, entries: Seq<WalkEntry>)
    requires
        w.count <= MAX_TREE_ENTRIES,
    ensures
        taken_in(w, rel, entries, w.visited(rel, entries)),
    decreases entries.len(),
{
    let after = w.visited(rel, entries);
    let room = MAX_TREE_ENTRIES - w.count;
    let nothing = entries.take(0);
    lemma_no_entries(rel, nothing);
    assert(w.stack + dirs_in(rel, nothing) =~= w.stack);
    assert(w.dirs + dirs_in(rel, nothing) =~= w.dirs);
    assert(w.files + files_in(rel, nothing) =~= w.files);
    if entries.len() == 0 {
        assert(entries =~= nothing);
        assert(found_first(w, rel, entries, 0, after));
    } else {
        let e = entries[0];
        let rest = entries.drop_first();
        lemma_first_entry(rel, entries);
        if e.kind != EntryKind::Link && w.count >= MAX_TREE_ENTRIES {
            assert(found_first(w, rel, entries, 0, after));
        } else {
            let next = if e.kind == EntryKind::Link {
                w
            } else {
                w.found(rel, e)
            };
            a_directory_is_taken_in_whole(next, rel, rest);
            let left = MAX_TREE_ENTRIES - next.count;
            let k = choose|k: int| #[trigger]
                found_first(next, rel, rest, k, after) && if counting(rest).len() <= left {
                    k == rest.len()
                } else {
                    counting(rest.take(k)).len() == left
                };
            let whole = entries.take(k + 1);
            assert(whole.drop_first() =~= rest.take(k));
            assert(whole[0] == e);
            lemma_first_entry(rel, whole);
            assert(after.stack =~= w.stack + dirs_in(rel, whole));
            assert(after.dirs =~= w.dirs + dirs_in(rel, whole));
            assert(after.files =~= w.files + files_in(rel, whole));
            assert(counting(entries.take(k + 1)).len() == counting(rest.take(k)).len() + if e.kind
                == EntryKind::Link {
                0int
            } else {
                1
            });
            assert(found_first(w, rel, entries, k + 1, after));
        }
    }
}

/// A walk through a tree in which `holds` says what each directory holds, after so many
/// directories were read.
pub open spec fn walked(holds: spec_fn(Seq<char>) -> Seq<WalkEntry>, steps: nat) -> WalkState
    decreases steps,
{
    if steps == 0 {
        WalkState {
            stack: seq![Seq::<char>::empty()],
            dirs: Seq::empty(),
            files: Seq::empty(),
            count: 0,
            truncated: false,
            read: Seq::empty(),
        }
    } else {
        let w = walked(holds, (steps - 1) as nat);
        if w.stack.len() == 0 {
            w
        } else {
            let rel = w.stack.last();
            WalkState {
                stack: w.stack.drop_last(),
                read: w.read.push(rel),
                ..w
            }.visited(rel, holds(rel))
        }
    }
}

/// Whether everything in the directories that were read was found.
pub open spec fn has_all(w: WalkState, holds: spec_fn(Seq<char>) -> Seq<WalkEntry>) -> bool {
    forall|r: int, i: int|
        #![trigger w.read[r], holds(w.read[r])[i]]
        0 <= r < w.read.len() && 0 <= i < holds(w.read[r]).len() ==> {
            let rel = w.read[r];
            let e = holds(rel)[i];
            let path = if rel == Seq::<char>::empty() {
                e.name@
            } else {
                rel + seq!['/'] + e.name@
            };
            &&& e.kind == EntryKind::Dir ==> w.dirs.contains(path)
            &&& e.kind == EntryKind::File ==> w.files.contains((path, e.len))
        }
}

proof fn lemma_walked(holds: spec_fn(Seq<char>) -> Seq<WalkEntry>, steps: nat)
    ensures
        ({
            let w = walked(holds, steps);
            &&& w.wf()
            &&& !w.truncated ==> has_all(w, holds)
        }),
    decreases steps,
{
    let w = walked(holds, steps);
    if steps == 0 {
        assert(w.stack[0] == Seq::<char>::empty());
    } else {
        let v = walked(holds, (steps - 1) as nat);
        lemma_walked(holds, (steps - 1) as nat);
        if v.stack.len() > 0 {
            let rel = v.stack.last();
            let u = WalkState { stack: v.stack.drop_last(), read: v.read.push(rel), ..v };
            lemma_handed_out(v, u);
            a_walk_keeps_its_limit_and_order(u, rel, holds(rel));
            a_directory_is_taken_in_whole(u, rel, holds(rel));
            if !w.truncated {
                let all = holds(rel);
                let k = choose|k: int| #[trigger]
                    found_first(u, rel, all, k, w) && k == all.len();
                assert(all.take(all.len() as int) =~= all);
                assert(w.dirs == u.dirs + dirs_in(rel, all));
                assert(w.files == u.files + files_in(rel, all));
                assert forall|r: int, i: int|
                    #![trigger w.read[r], holds(w.read[r])[i]]
                    0 <= r < w.read.len() && 0 <= i < holds(w.read[r]).len() implies {
                    let d = w.read[r];
                    let e = holds(d)[i];
                    let path = if d == Seq::<char>::empty() {
                        e.name@
                    } else {
                        d + seq!['/'] + e.name@
                    };
                    &&& e.kind == EntryKind::Dir ==> w.dirs.contains(path)
                    &&& e.kind == EntryKind::File ==> w.files.contains((path, e.len))
                } by {
                    let d = w.read[r];
                    let e = holds(d)[i];
                    let path = if d == Seq::<char>::empty() {
                        e.name@
                    } else {
                        d + seq!['/'] + e.name@
                    };
                    if r < v.read.len() {
                        assert(v.read[r] == d);
                        assert(holds(v.read[r])[i] == e);
                        if e.kind == EntryKind::Dir {
                            let k = choose|k: int| 0 <= k < v.dirs.len() && v.dirs[k] == path;
                            assert(w.dirs[k] == path);
                        }
                        if e.kind == EntryKind::File {
                            let k = choose|k: int|
                                0 <= k < v.files.len() && v.files[k] == (path, e.len);
                            assert(w.files[k] == (path, e.len));
                        }
                    } else {
                        lemma_entry_is_listed(rel, all, i);
                        if e.kind == EntryKind::Dir {
                            let k = choose|k: int|
                                0 <= k < dirs_in(rel, all).len() && dirs_in(rel, all)[k] == path;
                            assert(w.dirs[u.dirs.len() + k] == path);
                        }
                        if e.kind == EntryKind::File {
                            let k = choose|k: int|
                                0 <= k < files_in(rel, all).len() && files_in(rel, all)[k] == (
                                    path,
                                    e.len,
                                );
                            assert(w.files[u.files.len() + k] == (path, e.len));
                        }
                    }
                }
            }
        }
    }
}

proof fn lemma_entry_is_listed(rel: Seq<char>, entries: Seq<WalkEntry>, i: int)
    requires
        0 <= i < entries.len(),
    ensures
        ({
            let e = entries[i];
            let path = if rel == Seq::<char>::empty() {
                e.name@
            } else {
                rel + seq!['/'] + e.name@
            };
            &&& e.kind == EntryKind::Dir ==> dirs_in(rel, entries).contains(path)
            &&& e.kind == EntryKind::File ==> files_in(rel, entries).contains((path, e.len))
        }),
    decreases entries.len(),
{
    let e = entries[i];
    let path = if rel == Seq::<char>::empty() {
        e.name@
    } else {
        rel + seq!['/'] + e.name@
    };
    let (d, f) = (dirs_in(rel, entries), files_in(rel, entries));
    let rest = entries.drop_first();
    let (dr, fr) = (dirs_in(rel, rest), files_in(rel, rest));
    lemma_first_entry(rel, entries);
    if i == 0 {
        assert(rel == Seq::<char>::empty() <==> rel.len() == 0) by {
            if rel.len() == 0 {
                assert(rel =~= Seq::<char>::empty());
            }
        }
        assert(rel.push('/') + e.name@ =~= rel + seq!['/'] + e.name@);
        assert(child(rel, e.name@) == path);
        if e.kind == EntryKind::Dir {
            assert(d[0] == path);
        }
        if e.kind == EntryKind::File {
            assert(f[0] == (path, e.len));
        }
    } else {
        lemma_entry_is_listed(rel, rest, i - 1);
        if e.kind == EntryKind::Dir {
            let k = choose|k: int| 0 <= k < dr.len() && dr[k] == path;
            assert(d[k] == path || d[k + 1] == path);
        }
        if e.kind == EntryKind::File {
            let k = choose|k: int| 0 <= k < fr.len() && fr[k] == (path, e.len);
            assert(f[k] == (path, e.len) || f[k + 1] == (path, e.len));
        }
    }
}

proof fn lemma_handed_out(v: WalkState, u: WalkState)
    requires
        v.wf(),
        v.stack.len() > 0,
        u == (WalkState {
            stack: v.stack.drop_last(),
            read: v.read.push(v.stack.last()),
            ..v
        }),
    ensures
        u.wf(),
        u.knows(v.stack.last()),
{
    assert(v.knows(v.stack[v.stack.len() - 1]));
    assert forall|d: Seq<char>| #[trigger] v.gets_read(d) implies u.gets_read(d) by {
        if v.stack.contains(d) {
            let k = choose|k: int| 0 <= k < v.stack.len() && v.stack[k] == d;
            if k < v.stack.len() - 1 {
                assert(u.stack[k] == d);
            } else {
                assert(u.read[u.read.len() - 1] == d);
            }
        } else {
            let k = choose|k: int| 0 <= k < v.read.len() && v.read[k] == d;
            assert(u.read[k] == d);
        }
    }
    assert(v.gets_read(Seq::empty()));
    assert forall|i: int| 0 <= i < u.dirs.len() implies u.gets_read(#[trigger] u.dirs[i]) by {
        assert(v.gets_read(v.dirs[i]));
    }
    assert forall|i: int| 0 <= i < u.dirs.len() implies #[trigger] u.has_parent(i) by {
        assert(v.has_parent(i));
    }
    assert forall|i: int| 0 <= i < u.files.len() implies #[trigger] u.file_has_parent(i) by {
        assert(v.file_has_parent(i));
        let (p, n) = choose|p: Seq<char>, n: Seq<char>| #[trigger]
            child(p, n) == v.files[i].0 && v.knows(p);
        assert(child(p, n) == u.files[i].0 && u.knows(p));
    }
    assert forall|i: int| 0 <= i < u.stack.len() implies u.knows(#[trigger] u.stack[i]) by {
        assert(v.knows(v.stack[i]));
    }
}

/// Folders copy whole: once a walk through a tree has no more to read and was not cut off, the
/// start and every folder found were read, and everything that they hold was found, folders and
/// files alike, however deep.
pub proof fn a_whole_tree_is_found(holds: spec_fn(Seq<char>) -> Seq<WalkEntry>, steps: nat)
    requires
        walked(holds, steps).stack.len() == 0,
        !walked(holds, steps).truncated,
    ensures
        ({
            let w = walked(holds, steps);
            &&& w.read.contains(Seq::empty())
            &&& forall|i: int| 0 <= i < w.dirs.len() ==> w.read.contains(#[trigger] w.dirs[i])
            &&& has_all(w, holds)
        }),
{
    lemma_walked(holds, steps);
    let w = walked(holds, steps);
    assert(w.gets_read(Seq::empty()));
    assert forall|i: int| 0 <= i < w.dirs.len() implies w.read.contains(#[trigger] w.dirs[i]) by {
        assert(w.gets_read(w.dirs[i]));
    }
}

/// The texts of a list of strings.
pub open spec fn string_views(v: Seq<String>) -> Seq<Seq<char>> {
    v.map_values(|x: String| x@)
}

/// Path and size of each file.
pub open spec fn file_views(v: Seq<TreeFile>) -> Seq<(Seq<char>, u64)> {
    v.map_values(|x: TreeFile| (x.rel@, x.len))
}

impl View for TreeWalk {
    type V = WalkState;

    closed spec fn view(&self) -> WalkState {
        WalkState {
            stack: string_views(self.stack@),
            dirs: string_views(self.dirs@),
            files: file_views(self.files@),
            count: self.count as nat,
            truncated: self.truncated,
            read: self.read@,
        }
    }
}

impl TreeWalk {
    /// A walk that is about to read its start.
    pub fn new() -> (r: Self)
        ensures
            r@ == (WalkState {
                stack: seq![Seq::<char>::empty()],
                dirs: Seq::empty(),
                files: Seq::empty(),
                count: 0,
                truncated: false,
                read: Seq::empty(),
            }),
            r@.wf(),
    {
        let mut stack: Vec<String> = Vec::new();
        stack.push(String::new());
        let r = TreeWalk {
            stack,
            dirs: Vec::new(),
            files: Vec::new(),
            count: 0,
            truncated: false,
            read: Ghost(Seq::empty()),
        };
        assert(r@.stack =~= seq![Seq::<char>::empty()]);
        assert(r@.stack[0] == Seq::<char>::empty());
        assert(r@.dirs =~= Seq::<Seq<char>>::empty());
        assert(r@.files =~= Seq::<(Seq<char>, u64)>::empty());
        r
    }

    /// The directory to read next, the last one found first.
    pub fn next_dir(&mut self) -> (r: Option<String>)
        requires
            old(self)@.wf(),
        ensures
            final(self)@.wf(),
            match r {
                None => old(self)@.stack.len() == 0 && final(self)@ == old(self)@,
                Some(rel) => old(self)@.stack.len() > 0 && rel@ == old(self)@.stack.last()
                    && final(self)@ == (WalkState {
                    stack: old(self)@.stack.drop_last(),
                    read: old(self)@.read.push(rel@),
                    ..old(self)@
                }) && final(self)@.knows(rel@),
            },
            // Once there is no more to read, everything found was.
            r is None ==> {
                &&& final(self)@.read.contains(Seq::empty())
                &&& forall|i: int|
                    0 <= i < final(self)@.dirs.len() ==> final(self)@.read.contains(
                        #[trigger] final(self)@.dirs[i],
                    )
            },
    {
        let r = self.stack.pop();
        if let Some(rel) = &r {
            self.read = Ghost(self.read@.push(rel@));
        }
        proof {
            let w = old(self)@;
            assert(w.gets_read(Seq::empty()));
            assert forall|i: int| 0 <= i < w.dirs.len() implies w.gets_read(#[trigger] w.dirs[i]) by {}
            assert forall|d: Seq<char>| #[trigger] w.gets_read(d) implies self@.gets_read(d) by {
                if r is Some {
                    if w.stack.contains(d) {
                        let k = choose|k: int| 0 <= k < w.stack.len() && w.stack[k] == d;
                        if k < w.stack.len() - 1 {
                            assert(self@.stack[k] == d);
                        } else {
                            assert(self@.read[self@.read.len() - 1] == d);
                        }
                    } else {
                        let k = choose|k: int| 0 <= k < w.read.len() && w.read[k] == d;
                        assert(self@.read[k] == d);
                    }
                } else {
                    assert(self@.stack =~= w.stack);
                }
            }
        }
        proof {
            let w = old(self)@;
            if r is Some {
                assert(self@.stack =~= w.stack.drop_last());
                assert(w.knows(w.stack[w.stack.len() - 1]));
                assert forall|i: int| 0 <= i < self@.dirs.len() implies #[trigger] self@.has_parent(
                    i,
                ) by {
                    assert(w.has_parent(i));
                }
                assert forall|i: int|
                    0 <= i < self@.files.len() implies #[trigger] self@.file_has_parent(i) by {
                    assert(w.file_has_parent(i));
                    let (p, n) = choose|p: Seq<char>, n: Seq<char>| #[trigger]
                        child(p, n) == w.files[i].0 && w.knows(p);
                    assert(child(p, n) == self@.files[i].0 && self@.knows(p));
                }
                assert forall|i: int| 0 <= i < self@.stack.len() implies self@.knows(
                    #[trigger] self@.stack[i],
                ) by {
                    assert(w.knows(w.stack[i]));
                }
            } else {
                assert(self@.stack =~= w.stack);
            }
        }
        r
    }

    /// Takes in what a directory holds, in the order of the names.
    pub fn look_through(&mut self, rel: &str, entries: Vec<WalkEntry>)
        requires
            old(self)@.wf(),
            old(self)@.knows(rel@),
        ensures
            final(self)@ == old(self)@.visited(rel@, in_order(entries@)),
            final(self)@.wf(),
            taken_in(old(self)@, rel@, in_order(entries@), final(self)@),
    {
        self.visit(rel, &stable_sort(entries))
    }

    /// Takes in the names of a directory, in the order in which they are to be
    /// found.
    pub fn visit(&mut self, rel: &str, entries: &Vec<WalkEntry>)
        requires
            old(self)@.wf(),
            old(self)@.knows(rel@),
        ensures
            final(self)@ == old(self)@.visited(rel@, entries@),
            final(self)@.wf(),
            taken_in(old(self)@, rel@, entries@, final(self)@),
    {
        proof {
            a_directory_is_taken_in_whole(self@, rel@, entries@);
        }
        let mut i: usize = 0;
        proof {
            a_walk_keeps_its_limit_and_order(self@, rel@, entries@);
            assert(entries@.skip(0) =~= entries@);
        }
        while i < entries.len()
            invariant
                i <= entries.len(),
                self@.wf(),
                self@.knows(rel@),
                old(self)@.visited(rel@, entries@) == self@.visited(rel@, entries@.skip(i as int)),
                old(self)@.visited(rel@, entries@).wf(),
                taken_in(old(self)@, rel@, entries@, old(self)@.visited(rel@, entries@)),
            decreases entries.len() - i,
        {
            assert(entries@.skip(i as int).drop_first() =~= entries@.skip(i + 1));
            let kind = entries[i].kind;
            if kind != EntryKind::Link {
                if self.count >= MAX_TREE_ENTRIES {
                    self.truncated = true;
                    assert(self@ == old(self)@.visited(rel@, entries@));
                    return;
                }
                let ghost before = self@;
                let mut path = String::new();
                path.push_str(rel);
                if !rel.is_empty() {
                    path.push('/');
                }
                path.push_str(&entries[i].name);
                assert(path@ =~= child(rel@, entries@[i as int].name@));
                proof {
                    lemma_found(before, rel@, entries@[i as int]);
                }
                self.count = self.count + 1;
                if kind == EntryKind::Dir {
                    self.stack.push(path.clone());
                    self.dirs.push(path);
                } else if kind == EntryKind::File {
                    self.files.push(TreeFile { rel: path, len: entries[i].len });
                }
                assert(self@.stack =~= before.found(rel@, entries@[i as int]).stack);
                assert(self@.dirs =~= before.found(rel@, entries@[i as int]).dirs);
                assert(self@.files =~= before.found(rel@, entries@[i as int]).files);
            }
            i = i + 1;
        }
        assert(entries@.skip(i as int) =~= Seq::<WalkEntry>::empty());
    }

    /// What was found: the directories, the files, and whether there were too
    /// many names.
    pub fn finish(self) -> (r: (Vec<String>, Vec<TreeFile>, bool))
        ensures
            string_views(r.0@) == self@.dirs,
            file_views(r.1@) == self@.files,
            r.2 == self@.truncated,
    {
        (self.dirs, self.files, self.truncated)
    }
}

/// A listing shows its folders before everything else, and within each by name without regard
/// to case.
pub proof fn folders_come_first(entries: Seq<DirEntry>, i: int, j: int)
    requires
        0 <= i < j < entries.len(),
    ensures
        ({
            let shown = in_order(entries);
            &&& shown.len() == entries.len()
            &&& shown.to_multiset() == entries.to_multiset()
            &&& shown[j].is_dir ==> shown[i].is_dir
            &&& shown[i].is_dir == shown[j].is_dir ==> !precedes(
                lowercase(shown[j].name@),
                lowercase(shown[i].name@),
            )
        }),
{
    crate::sort::sorting_keeps_the_entries(entries);
    let shown = in_order(entries);
    assert(!crate::sort::comes_before(shown[j], shown[i]));
}

/// The names of a directory are walked in their order.
pub proof fn names_are_walked_in_order(entries: Seq<WalkEntry>, i: int, j: int)
    requires
        0 <= i < j < entries.len(),
    ensures
        in_order(entries).len() == entries.len(),
        in_order(entries).to_multiset() == entries.to_multiset(),
        !precedes(in_order(entries)[j].name@, in_order(entries)[i].name@),
{
    crate::sort::sorting_keeps_the_entries(entries);
    let sorted = in_order(entries);
    assert(!crate::sort::comes_before(sorted[j], sorted[i]));
}

} // verus!
