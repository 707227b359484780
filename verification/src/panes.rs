//! The file panes: this computer on the left, the robot on the right. What a press in
//! either of them asks of the session.
use vstd::prelude::*;

use crate::files::{
    file_count, human_size, joined_path, ready_count, remote_join, running_count, size_text,
    Batch, BatchProgress, Books, Command, Editor, State, Transfer,
};
use crate::proto::DirListing;
use crate::robot_files::{join, path_join};
use crate::text::{chars_of, same, string_of, trim, trimmed};

verus! {

/// Shown when Close is pressed on a file with unsaved changes.
pub const CLOSE_WARNING: &'static str =
    "This file has changes that are not on the robot. Press Close again to discard them.";

/// What an empty address box of this computer says: where folders hang from drives, an empty
/// address shows the drives.
pub fn address_hint(has_drives: bool) -> (r: &'static str)
    ensures
        r@ == if has_drives {
            "Pick a drive"@
        } else {
            ""@
        },
{
    if has_drives {
        "Pick a drive"
    } else {
        ""
    }
}

/// Transfers in flight at once. Enough to keep a wireless link busy; few enough that a
/// robot's card is not asked for two hundred files at the same time.
pub const MAX_INFLIGHT: usize = 4;

/// What the file panes remember between two frames.
#[derive(Debug)]
pub struct FilePanes {
    /// The directory shown in the local pane.
    pub local_dir: String,
    /// That directory's contents.
    pub local: Option<DirListing>,
    pub local_error: Option<String>,
    pub local_pick: Option<String>,
    pub remote_pick: Option<String>,
    /// Typed into the "new folder" box of the robot's pane.
    pub new_folder: String,
    /// Set once Close has been pressed on an edited file, so that the second press is the
    /// one that discards it.
    pub close_confirmed: bool,
    /// Whether transfers were running on the previous frame.
    pub transfers_were_busy: bool,
}

/// Whether a listing has a directory of that name.
pub open spec fn lists_dir(listing: DirListing, name: Seq<char>) -> bool {
    exists|i: int|
        #![trigger listing.entries@[i]]
        0 <= i < listing.entries@.len() && listing.entries@[i].name@ == name
            && listing.entries@[i].is_dir
}

fn has_dir(listing: &DirListing, name: &str) -> (r: bool)
    ensures
        r == lists_dir(*listing, name@),
{
    let mut i: usize = 0;
    while i < listing.entries.len()
        invariant
            i <= listing.entries.len(),
            forall|j: int|
                #![trigger listing.entries@[j]]
                0 <= j < i ==> !(listing.entries@[j].name@ == name@ && listing.entries@[j].is_dir),
        decreases listing.entries.len() - i,
    {
        if listing.entries[i].is_dir && same(&listing.entries[i].name, name) {
            assert(listing.entries@[i as int].is_dir);
            return true;
        }
        i = i + 1;
    }
    false
}

/// The robot directory that is shown.
pub open spec fn shown_dir(st: State) -> Option<String> {
    match st.listing {
        Some(l) => Some(l.path),
        None => None,
    }
}

/// The robot directory that is shown.
pub fn remote_dir(st: &State) -> (r: Option<String>)
    ensures
        r == shown_dir(*st),
{
    match &st.listing {
        Some(l) => Some(l.path.clone()),
        None => None,
    }
}

/// Whether the editor's text can be saved.
pub fn can_save(editor: &Editor) -> (r: bool)
    ensures
        r == (editor.text@ != editor.saved@ && !editor.saving && !editor.loading),
{
    editor.dirty() && !editor.saving && !editor.loading
}

/// What saving the file in the editor asks of the session.
pub fn save_editor(st: &State) -> (r: Option<Command>)
    ensures
        r == match st.editor {
            Some(e) => Some(Command::Save { path: e.path, text: e.text }),
            None => None,
        },
{
    match &st.editor {
        Some(e) => Some(Command::Save { path: e.path.clone(), text: e.text.clone() }),
        None => None,
    }
}

/// Whether there is a file in the editor with changes that are not on the robot.
pub open spec fn unsaved(st: State) -> bool {
    st.editor matches Some(e) && e.text@ != e.saved@
}

/// Whether a press of Close leaves the editor.
pub open spec fn closes(confirmed: bool, st: State) -> bool {
    confirmed || !unsaved(st)
}

/// What a frame of the panes asks of the session.
pub struct Pumped {
    pub commands: Vec<Command>,
    /// Whether everything has landed, so that the local pane is to be read again.
    pub refresh: bool,
}

/// What is shown of a file on its way.
pub open spec fn transfer_words(t: Transfer) -> Seq<char> {
    match t.outcome {
        Some(Ok(_)) => "100%"@,
        Some(Err(reason)) => reason@,
        None => if t.total > 0 {
            size_text(t.done as nat) + " / "@ + size_text(t.total as nat)
        } else {
            size_text(t.done as nat)
        },
    }
}

/// What is shown of a file on its way: how it ended, or how much of it has landed. Where
/// the size is not known yet, what has landed is all there is to say.
pub fn transfer_text(t: &Transfer) -> (r: String)
    ensures
        r@ == transfer_words(*t),
        t.outcome is None && t.total > 0 ==> r@ == size_text(t.done as nat) + " / "@ + size_text(
            t.total as nat,
        ),
        t.outcome is None && t.total == 0 ==> r@ == size_text(t.done as nat),
        t.outcome matches Some(Err(reason)) ==> r@ == reason@,
{
    match &t.outcome {
        Some(Ok(_)) => "100%".to_owned(),
        Some(Err(reason)) => reason.clone(),
        None => {
            let mut out = human_size(t.done);
            if t.total > 0 {
                out.push_str(" / ");
                out.push_str(&human_size(t.total));
            }
            out
        },
    }
}

/// What is shown of a folder copy.
#[derive(Debug)]
pub enum BatchShown {
    /// It could not be made.
    Error { reason: String },
    /// Every file has landed.
    Done,
    /// Every file has ended, and so many of them failed.
    Failed { files: u128 },
    /// It is under way: so many bytes of so many.
    Moving { done: u128, total: u128 },
}

/// What is shown of a folder copy.
pub fn batch_shown(b: &Batch, p: &BatchProgress) -> (r: BatchShown)
    ensures
        r == match b.error {
            Some(reason) => BatchShown::Error { reason },
            None => if p.files_done + p.files_failed == p.files_total && b.queued == 0 {
                if p.files_failed == 0 {
                    BatchShown::Done
                } else {
                    BatchShown::Failed { files: p.files_failed }
                }
            } else {
                BatchShown::Moving { done: p.bytes_done, total: p.bytes_total }
            },
        },
{
    match &b.error {
        Some(reason) => BatchShown::Error { reason: reason.clone() },
        None => {
            if p.finished() && b.queued == 0 {
                if p.files_failed == 0 {
                    BatchShown::Done
                } else {
                    BatchShown::Failed { files: p.files_failed }
                }
            } else {
                BatchShown::Moving { done: p.bytes_done, total: p.bytes_total }
            }
        },
    }
}

impl FilePanes {
    /// The panes before anyone has navigated.
    pub fn new(local_dir: String) -> (r: Self)
        ensures
            r.local_dir == local_dir,
            r.local is None,
            r.local_error is None,
            r.local_pick is None,
            r.remote_pick is None,
            r.new_folder@.len() == 0,
            !r.close_confirmed,
            !r.transfers_were_busy,
    {
        FilePanes {
            local_dir,
            local: None,
            local_error: None,
            local_pick: None,
            remote_pick: None,
            new_folder: String::new(),
            close_confirmed: false,
            transfers_were_busy: false,
        }
    }

    /// Whether the local directory is to be read: nothing is known of it yet.
    pub fn needs_local(&self) -> (r: bool)
        ensures
            r == (self.local is None && self.local_error is None),
    {
        self.local.is_none() && self.local_error.is_none()
    }

    /// Takes in what reading the local directory gave.
    pub fn reload_local(&mut self, listing: Result<DirListing, String>)
        ensures
            match listing {
                Ok(l) => *final(self) == (FilePanes {
                    local_dir: l.path,
                    local: Some(l),
                    local_error: None,
                    ..*old(self)
                }),
                Err(e) => {
                    &&& *final(self) == (FilePanes {
                        local: None,
                        local_error: final(self).local_error,
                        ..*old(self)
                    })
                    &&& final(self).local_error matches Some(t) && t@ == old(self).local_dir@
                        + ": "@ + e@
                },
            },
    {
        match listing {
            Ok(l) => {
                self.local_dir = l.path.clone();
                self.local = Some(l);
                self.local_error = None;
            },
            Err(e) => {
                let mut text = self.local_dir.clone();
                text.push_str(": ");
                text.push_str(&e);
                self.local = None;
                self.local_error = Some(text);
            },
        }
    }

    /// Go to another local directory.
    pub fn go_local(&mut self, dir: String)
        ensures
            *final(self) == (FilePanes { local_dir: dir, local_pick: None, ..*old(self) }),
    {
        self.local_dir = dir;
        self.local_pick = None;
    }

    /// The directory above the local one, if there is one. Above the root of a drive lie
    /// the drives themselves, listed under the empty path.
    pub fn above(&self, parent: Option<String>, has_drives: bool) -> (r: Option<String>)
        ensures
            match parent {
                Some(p) => r == Some(p),
                None => if has_drives && self.local_dir@.len() > 0 {
                    r matches Some(p) && p@.len() == 0
                } else {
                    r is None
                },
            },
    {
        match parent {
            Some(p) => Some(p),
            None => {
                if has_drives && chars_of(&self.local_dir).len() > 0 {
                    Some(String::new())
                } else {
                    None
                }
            },
        }
    }

    /// Whether there is something to copy to the robot, and somewhere to copy it. While the
    /// drives are listed there is not.
    pub fn can_send(&self, st: &State) -> (r: bool)
        ensures
            r == (self.local_pick is Some && shown_dir(*st) is Some && self.local_dir@.len() > 0),
    {
        self.local_pick.is_some() && st.listing.is_some() && chars_of(&self.local_dir).len() > 0
    }

    /// Whether there is something to copy from the robot, and somewhere to copy it. While
    /// the drives are listed there is not.
    pub fn can_get(&self) -> (r: bool)
        ensures
            r == (self.remote_pick is Some && self.local_dir@.len() > 0),
    {
        self.remote_pick.is_some() && chars_of(&self.local_dir).len() > 0
    }

    /// The directory that was typed over the local pane.
    pub fn type_local(&mut self, typed: &str)
        ensures
            final(self).local_dir@ == trimmed(typed@),
            *final(self) == (FilePanes {
                local_dir: final(self).local_dir,
                local_pick: None,
                ..*old(self)
            }),
    {
        self.local_dir = string_of(&trim(&chars_of(typed)));
        self.local_pick = None;
    }

    /// An entry of the local pane was opened.
    pub fn open_local(&mut self, name: &str)
        ensures
            final(self).local_dir@ == path_join(old(self).local_dir@, name@),
            *final(self) == (FilePanes {
                local_dir: final(self).local_dir,
                local_pick: None,
                ..*old(self)
            }),
    {
        self.local_dir = join(&self.local_dir, name);
        self.local_pick = None;
    }

    /// Ask for the robot's home directory the first time the pane is opened.
    pub fn ensure_remote_listed(&self, st: &State) -> (r: Option<Command>)
        ensures
            if st.listing is None && !st.loading && st.error is None {
                r matches Some(Command::List { path }) && path@.len() == 0
            } else {
                r is None
            },
    {
        if st.listing.is_none() && !st.loading && st.error.is_none() {
            Some(Command::List { path: String::new() })
        } else {
            None
        }
    }

    /// Start queued transfers, a few at a time, and refresh both panes once everything has
    /// landed, so that the copied files are simply there.
    pub fn pump_transfers(&mut self, st: &mut State) -> (r: Pumped)
        ensures
            ({
                let q = old(st).books().queue;
                let n = ready_count(
                    q,
                    MAX_INFLIGHT - running_count(old(st).transfers@) - old(st).books().handed,
                );
                let busy = running_count(final(st).transfers@) > 0 || final(st).books().queue.len()
                    > 0 || final(st).books().handed > 0;
                &&& 0 <= n <= q.len()
                &&& final(st).books() == (Books {
                    queue: q.skip(n),
                    handed: final(st).books().handed,
                    ..old(st).books()
                })
                &&& final(st).books().handed == old(st).books().handed + file_count(q.take(n))
                &&& r.refresh == (old(self).transfers_were_busy && !busy)
                &&& if r.refresh && shown_dir(*old(st)) is Some {
                    r.commands@ == q.take(n).push(
                        Command::List { path: shown_dir(*old(st)).unwrap() },
                    )
                } else {
                    r.commands@ == q.take(n)
                }
                &&& *final(self) == (FilePanes { transfers_were_busy: busy, ..*old(self) })
            }),
            final(st).shown() == old(st).shown(),
            final(st).transfers == old(st).transfers,
            final(st).batches == old(st).batches,
    {
        let mut commands = st.take_ready(MAX_INFLIGHT);
        let busy: bool = st.busy();
        let refresh: bool = self.transfers_were_busy && !busy;
        assert(st.shown() == old(st).shown());
        assert(st.listing == old(st).shown().listing);
        assert(old(st).listing == old(st).shown().listing);
        if refresh {
            if let Some(dir) = remote_dir(st) {
                commands.push(Command::List { path: dir });
            }
        }
        self.transfers_were_busy = busy;
        Pumped { commands, refresh }
    }

    /// Copy what is picked on this computer to the robot. `is_dir` says whether that is a
    /// folder.
    pub fn upload_selected(&self, st: &State, is_dir: bool) -> (r: Option<Command>)
        ensures
            match (self.local_pick, shown_dir(*st)) {
                (Some(name), Some(dir)) => if is_dir {
                    r matches Some(Command::UploadTree { local, name: n, remote_parent }) && local@
                        == path_join(self.local_dir@, name@) && n == name && remote_parent == dir
                } else {
                    r matches Some(Command::Upload { local, remote, batch: None }) && local@
                        == path_join(self.local_dir@, name@) && remote@ == joined_path(
                        dir@,
                        name@,
                    )
                },
                _ => r is None,
            },
    {
        match (&self.local_pick, remote_dir(st)) {
            (Some(name), Some(dir)) => {
                let local = join(&self.local_dir, name);
                if is_dir {
                    Some(Command::UploadTree { local, name: name.clone(), remote_parent: dir })
                } else {
                    let remote = remote_join(&dir, name);
                    Some(Command::Upload { local, remote, batch: None })
                }
            },
            _ => None,
        }
    }

    /// Copy what is picked on the robot to this computer.
    pub fn download_selected(&self, st: &State) -> (r: Option<Command>)
        ensures
            match (self.remote_pick, st.listing) {
                (Some(name), Some(l)) => if lists_dir(l, name@) {
                    r matches Some(Command::DownloadTree { remote, local_parent }) && remote@
                        == joined_path(l.path@, name@) && local_parent == self.local_dir
                } else {
                    r matches Some(Command::Download { remote, local, batch: None }) && remote@
                        == joined_path(l.path@, name@) && local@ == path_join(
                        self.local_dir@,
                        name@,
                    )
                },
                _ => r is None,
            },
    {
        match (&self.remote_pick, &st.listing) {
            (Some(name), Some(l)) => {
                let remote = remote_join(&l.path, name);
                if has_dir(l, name) {
                    Some(Command::DownloadTree { remote, local_parent: self.local_dir.clone() })
                } else {
                    let local = join(&self.local_dir, name);
                    Some(Command::Download { remote, local, batch: None })
                }
            },
            _ => None,
        }
    }

    /// Remove what is picked on the robot. The listing is stale the moment that lands, so
    /// it is asked for again.
    pub fn remove_selected(&mut self, st: &State) -> (r: Option<(Command, Command)>)
        ensures
            match (old(self).remote_pick, shown_dir(*st)) {
                (Some(name), Some(dir)) => {
                    &&& r matches Some((Command::Remove { path }, Command::List { path: again }))
                        && path@ == joined_path(dir@, name@) && again == dir
                    &&& *final(self) == (FilePanes { remote_pick: None, ..*old(self) })
                },
                _ => r is None && *final(self) == *old(self),
            },
    {
        let path = match (&self.remote_pick, &st.listing) {
            (Some(name), Some(l)) => remote_join(&l.path, name),
            _ => {
                return None;
            },
        };
        self.remote_pick = None;
        match remote_dir(st) {
            Some(dir) => Some((Command::Remove { path }, Command::List { path: dir })),
            None => None,
        }
    }

    /// Make the folder whose name was typed, and ask for the listing again.
    pub fn make_remote_folder(&mut self, st: &State) -> (r: Option<(Command, Command)>)
        ensures
            match shown_dir(*st) {
                Some(dir) if trimmed(old(self).new_folder@).len() > 0 => {
                    &&& r matches Some((Command::MakeDir { path }, Command::List { path: again }))
                        && path@ == joined_path(dir@, trimmed(old(self).new_folder@)) && again
                        == dir
                    &&& final(self).new_folder@.len() == 0
                    &&& *final(self) == (FilePanes {
                        new_folder: final(self).new_folder,
                        ..*old(self)
                    })
                },
                _ => r is None && *final(self) == *old(self),
            },
    {
        let dir = match remote_dir(st) {
            Some(dir) => dir,
            None => {
                return None;
            },
        };
        let name = trim(&chars_of(&self.new_folder));
        if name.len() == 0 {
            return None;
        }
        let path = remote_join(&dir, &string_of(&name));
        self.new_folder = String::new();
        Some((Command::MakeDir { path }, Command::List { path: dir }))
    }

    /// Go to another directory of the robot.
    pub fn list_remote(&mut self, path: String) -> (r: Command)
        ensures
            r == (Command::List { path }),
            *final(self) == (FilePanes { remote_pick: None, ..*old(self) }),
    {
        self.remote_pick = None;
        Command::List { path }
    }

    /// An entry of the robot's pane was opened: a folder is listed, and a file goes to the
    /// editor.
    pub fn open_remote(&mut self, listing: &DirListing, name: &str) -> (r: Command)
        ensures
            if lists_dir(*listing, name@) {
                &&& r matches Command::List { path } && path@ == joined_path(listing.path@, name@)
                &&& *final(self) == (FilePanes { remote_pick: None, ..*old(self) })
            } else {
                &&& r matches Command::Open { path } && path@ == joined_path(listing.path@, name@)
                &&& *final(self) == (FilePanes {
                    remote_pick: None,
                    close_confirmed: false,
                    ..*old(self)
                })
            },
    {
        let path = remote_join(&listing.path, name);
        self.remote_pick = None;
        if has_dir(listing, name) {
            Command::List { path }
        } else {
            self.close_confirmed = false;
            Command::Open { path }
        }
    }

    /// Leave the editor.
    ///
    /// Refused once when there are unsaved changes, so that a misplaced press does not
    /// throw away an edit; the second press goes through.
    pub fn close_editor(&mut self, st: &mut State)
        ensures
            final(st).books() == old(st).books(),
            final(st).transfers == old(st).transfers,
            final(st).batches == old(st).batches,
            final(st).listing == old(st).listing,
            final(st).loading == old(st).loading,
            final(st).error == old(st).error,
            if !closes(old(self).close_confirmed, *old(st)) {
                &&& *final(self) == (FilePanes { close_confirmed: true, ..*old(self) })
                &&& final(st).editor matches Some(e) && e == (Editor {
                    error: e.error,
                    ..old(st).editor.unwrap()
                }) && (e.error matches Some(t) && t@ == CLOSE_WARNING@)
            } else {
                &&& *final(self) == (FilePanes { close_confirmed: false, ..*old(self) })
                &&& final(st).editor is None
            },
    {
        let dirty: bool = match &st.editor {
            Some(e) => e.dirty(),
            None => false,
        };
        if dirty && !self.close_confirmed {
            self.close_confirmed = true;
            if let Some(e) = &mut st.editor {
                e.error = Some(CLOSE_WARNING.to_owned());
            }
            return;
        }
        self.close_confirmed = false;
        st.editor = None;
    }
}

/// No edit is lost to one press: while there are unsaved changes, the first press of Close
/// keeps the file as it is but for the warning, and the second one goes through.
pub proof fn it_takes_two_presses_to_discard(before: State, warned: State, e: Editor)
    requires
        unsaved(before),
        warned.editor == Some(e),
        e == (Editor { error: e.error, ..before.editor.unwrap() }),
    ensures
        !closes(false, before),
        unsaved(warned),
        e.text == before.editor.unwrap().text,
        closes(true, warned),
{
}

} // verus!
