//! How a file command becomes a request, and how a reply becomes what the panes
//! show.
use vstd::prelude::*;

use crate::files::{
    after_answer, after_open, batch_at, below, ended, file_name, joined_path,
    queued_changed, rel_to_local, remote_file_name, remote_join, remote_join_rel, totalled,
    transfer_at, Batch, Books, Command, Direction, Editor, Shown, State, Transfer,
};
use crate::proto::{FileOp, FileReply, FileRequest, FileTree, TreeFile};
use crate::text::pieces;

verus! {

/// What a file command comes to.
pub enum FileStep {
    /// Send this request.
    Send { request: FileRequest },
    /// Send this request, and the bytes of a local file after it.
    Upload { request: FileRequest, local: String },
    /// Look through a local folder and queue what is in it, to go below `remote`.
    Walk { local: String, remote: String, batch: u64 },
    /// There is nothing to send: the reason is shown.
    Nothing,
}

/// The name of a folder copy.
pub open spec fn folder_name(name: Seq<char>) -> Seq<char> {
    if name.len() == 0 {
        "folder"@
    } else {
        name
    }
}

/// The state that a command may leave behind besides the id it used up.
pub open spec fn untouched(before: State, after: State) -> bool {
    &&& after.shown() == before.shown()
    &&& after.transfers@ == before.transfers@
    &&& after.batches@ == before.batches@
    &&& after.books() == (Books { last_id: after.books().last_id, ..before.books() })
}

/// Turn a file-pane command into a request.
///
/// Every command takes an id. For an upload, `measured` is the size of the local
/// file, or why it could not be had; for anything else it is not looked at.
pub fn file_request(st: &mut State, command: Command, measured: Result<u64, String>) -> (r: FileStep)
    requires
        old(st).books().last_id < u64::MAX - 1,
    ensures
        ({
            let id = (old(st).books().last_id + 1) as u64;
            match command {
                Command::List { path } => {
                    &&& r matches FileStep::Send { request } && request == (FileRequest {
                        id,
                        op: FileOp::List { path },
                    })
                    &&& final(st).shown() == (Shown { loading: true, ..old(st).shown() })
                    &&& final(st).transfers@ == old(st).transfers@
                    &&& final(st).batches@ == old(st).batches@
                    &&& final(st).books() == (Books { last_id: id, ..old(st).books() })
                },
                Command::MakeDir { path } => {
                    &&& r matches FileStep::Send { request } && request == (FileRequest {
                        id,
                        op: FileOp::MakeDir { path },
                    })
                    &&& untouched(*old(st), *final(st))
                    &&& final(st).books().last_id == id
                },
                Command::MakeDirAll { path } => {
                    &&& r matches FileStep::Send { request } && request == (FileRequest {
                        id,
                        op: FileOp::MakeDirAll { path },
                    })
                    &&& untouched(*old(st), *final(st))
                    &&& final(st).books().last_id == id
                },
                Command::Remove { path } => {
                    &&& r matches FileStep::Send { request } && request == (FileRequest {
                        id,
                        op: FileOp::Remove { path },
                    })
                    &&& untouched(*old(st), *final(st))
                    &&& final(st).books().last_id == id
                },
                Command::Download { remote, local, batch } => {
                    &&& r matches FileStep::Send { request } && request == (FileRequest {
                        id,
                        op: FileOp::Get { path: remote },
                    })
                    &&& final(st).shown() == old(st).shown()
                    &&& started(*old(st), *final(st), id, remote@, Direction::FromRobot, 0, batch)
                    &&& final(st).books().destinations == old(st).books().destinations.insert(
                        id,
                        local,
                    )
                },
                Command::Upload { local, remote, batch } => match measured {
                    Ok(len) => {
                        &&& r matches FileStep::Upload { request, local: from } && from == local
                            && request == (FileRequest { id, op: FileOp::Put { path: remote, len } })
                        &&& final(st).shown() == old(st).shown()
                        &&& started(*old(st), *final(st), id, remote@, Direction::ToRobot, len, batch)
                        &&& final(st).books().destinations == old(st).books().destinations
                    },
                    Err(reason) => {
                        &&& r is Nothing
                        &&& final(st).shown() == (Shown { error: Some(reason), ..old(st).shown() })
                        &&& final(st).transfers@ == old(st).transfers@
                        &&& final(st).batches@ == queued_changed(old(st).batches@, batch, false)
                        &&& final(st).books() == (Books {
                            last_id: id,
                            handed: one_fewer(old(st).books().handed, batch),
                            ..old(st).books()
                        })
                    },
                },
                Command::DownloadTree { remote, local_parent } => {
                    let batch = (id + 1) as u64;
                    &&& r matches FileStep::Send { request } && request == (FileRequest {
                        id,
                        op: FileOp::Tree { path: remote },
                    })
                    &&& final(st).shown() == old(st).shown()
                    &&& final(st).transfers@ == old(st).transfers@
                    &&& opened_batch(
                        *old(st),
                        *final(st),
                        batch,
                        file_name(remote@),
                        Direction::FromRobot,
                    )
                    &&& final(st).books() == (Books {
                        last_id: batch,
                        trees: old(st).books().trees.insert(id, (batch, local_parent)),
                        ..old(st).books()
                    })
                },
                Command::UploadTree { local, name, remote_parent } => {
                    let batch = (id + 1) as u64;
                    &&& r matches FileStep::Walk { local: from, remote, batch: b } && from == local
                        && remote@ == joined_path(remote_parent@, folder_name(name@)) && b == batch
                    &&& final(st).shown() == old(st).shown()
                    &&& final(st).transfers@ == old(st).transfers@
                    &&& opened_batch(
                        *old(st),
                        *final(st),
                        batch,
                        folder_name(name@),
                        Direction::ToRobot,
                    )
                    &&& final(st).books() == (Books { last_id: batch, ..old(st).books() })
                },
                Command::Open { path } => {
                    &&& r matches FileStep::Send { request } && request == (FileRequest {
                        id,
                        op: FileOp::ReadText { path },
                    })
                    &&& final(st).editor matches Some(e) && e.path == path && e.text@.len() == 0
                        && e.saved@.len() == 0 && e.loading && !e.saving && e.error is None
                    &&& final(st).shown() == (Shown {
                        editor: final(st).editor,
                        ..old(st).shown()
                    })
                    &&& final(st).transfers@ == old(st).transfers@
                    &&& final(st).batches@ == old(st).batches@
                    &&& final(st).books() == (Books { last_id: id, ..old(st).books() })
                },
                Command::Save { path, text } => {
                    &&& r matches FileStep::Send { request } && request == (FileRequest {
                        id,
                        op: FileOp::WriteText { path, text },
                    })
                    &&& final(st).shown() == (Shown {
                        editor: match old(st).editor {
                            Some(e) => Some(Editor { saving: true, ..e }),
                            None => None,
                        },
                        ..old(st).shown()
                    })
                    &&& final(st).transfers@ == old(st).transfers@
                    &&& final(st).batches@ == old(st).batches@
                    &&& final(st).books() == (Books {
                        last_id: id,
                        saves: old(st).books().saves.insert(id, (path, text)),
                        ..old(st).books()
                    })
                },
            }
        }),
{
    let id: u64 = st.next_id();
    match command {
        Command::List { path } => {
            st.loading = true;
            FileStep::Send { request: FileRequest { id, op: FileOp::List { path } } }
        },
        Command::MakeDir { path } => FileStep::Send {
            request: FileRequest { id, op: FileOp::MakeDir { path } },
        },
        Command::MakeDirAll { path } => FileStep::Send {
            request: FileRequest { id, op: FileOp::MakeDirAll { path } },
        },
        Command::Remove { path } => FileStep::Send {
            request: FileRequest { id, op: FileOp::Remove { path } },
        },
        Command::Download { remote, local, batch } => {
            st.remember_destination(id, local);
            st.begin_in(id, remote_file_name(&remote), Direction::FromRobot, 0, batch);
            assert(st.transfers@.drop_last() =~= old(st).transfers@);
            FileStep::Send { request: FileRequest { id, op: FileOp::Get { path: remote } } }
        },
        Command::Upload { local, remote, batch } => match measured {
            Ok(len) => {
                st.begin_in(id, remote_file_name(&remote), Direction::ToRobot, len, batch);
                assert(st.transfers@.drop_last() =~= old(st).transfers@);
                FileStep::Upload {
                    request: FileRequest { id, op: FileOp::Put { path: remote, len } },
                    local,
                }
            },
            Err(reason) => {
                st.give_up(batch);
                st.error = Some(reason);
                FileStep::Nothing
            },
        },
        Command::DownloadTree { remote, local_parent } => {
            let batch: u64 = st.new_batch(remote_file_name(&remote), Direction::FromRobot);
            assert(st.batches@.drop_last() =~= old(st).batches@);
            st.remember_tree(id, batch, local_parent);
            FileStep::Send { request: FileRequest { id, op: FileOp::Tree { path: remote } } }
        },
        Command::UploadTree { local, name, remote_parent } => {
            let shown: String = if name.as_str().is_empty() {
                "folder".to_owned()
            } else {
                name
            };
            let remote = remote_join(&remote_parent, &shown);
            let batch: u64 = st.new_batch(shown, Direction::ToRobot);
            assert(st.batches@.drop_last() =~= old(st).batches@);
            FileStep::Walk { local, remote, batch }
        },
        Command::Open { path } => {
            st.begin_open(path.clone());
            FileStep::Send { request: FileRequest { id, op: FileOp::ReadText { path } } }
        },
        Command::Save { path, text } => {
            if let Some(editor) = &mut st.editor {
                editor.saving = true;
            }
            st.remember_save(id, path.clone(), text.clone());
            FileStep::Send { request: FileRequest { id, op: FileOp::WriteText { path, text } } }
        },
    }
}

/// How many files of folder copies are handed out, after one of `batch` is not any
/// more.
pub open spec fn one_fewer(handed: usize, batch: Option<u64>) -> usize {
    if batch is Some && handed > 0 {
        (handed - 1) as usize
    } else {
        handed
    }
}

/// Whether a row for the file at `path` was added, and the file counts as started.
pub open spec fn started(
    before: State,
    after: State,
    id: u64,
    path: Seq<char>,
    direction: Direction,
    total: u64,
    batch: Option<u64>,
) -> bool {
    &&& after.transfers@.len() == before.transfers@.len() + 1
    &&& after.transfers@.drop_last() == before.transfers@
    &&& after.transfers@.last().name@ == file_name(path)
    &&& after.transfers@.last() == (Transfer {
        id,
        name: after.transfers@.last().name,
        direction,
        done: 0,
        total,
        outcome: None,
        batch,
    })
    &&& after.batches@ == queued_changed(before.batches@, batch, false)
    &&& after.books() == (Books {
        last_id: id,
        handed: one_fewer(before.books().handed, batch),
        destinations: after.books().destinations,
        ..before.books()
    })
}

/// Whether a row for a folder copy was added.
pub open spec fn opened_batch(
    before: State,
    after: State,
    batch: u64,
    name: Seq<char>,
    direction: Direction,
) -> bool {
    &&& after.batches@.len() == before.batches@.len() + 1
    &&& after.batches@.drop_last() == before.batches@
    &&& after.batches@.last().name@ == name
    &&& after.batches@.last() == (Batch {
        id: batch,
        name: after.batches@.last().name,
        direction,
        truncated: false,
        error: None,
        queued: 0,
    })
}

/// A folder that the robot listed, about to be copied: the local folders to create,
/// in order, and the files to ask for once they are there.
pub struct TreePlan {
    pub batch: u64,
    pub local_root: String,
    pub dirs: Vec<String>,
    pub tree: FileTree,
}

impl TreePlan {
    /// Whether the plan is for this tree, below this local folder: the folder
    /// itself comes first, then the folders in it as the robot listed them.
    pub open spec fn is_for(self, batch: u64, local_parent: Seq<char>, tree: FileTree) -> bool {
        &&& self.batch == batch
        &&& self.tree == tree
        &&& self.local_root@ == joined_path(local_parent, file_name(tree.root@))
        &&& self.dirs@.len() == tree.dirs@.len() + 1
        &&& self.dirs@[0]@ == self.local_root@
        &&& forall|i: int|
            0 <= i < tree.dirs@.len() ==> (#[trigger] self.dirs@[i + 1])@ == below(
                self.local_root@,
                pieces(tree.dirs@[i]@, '/'),
            )
    }
}

fn plan(batch: u64, local_parent: &str, tree: FileTree) -> (r: TreePlan)
    ensures
        r.is_for(batch, local_parent@, tree),
{
    let local_root = remote_join(local_parent, &remote_file_name(&tree.root));
    let mut dirs: Vec<String> = Vec::new();
    dirs.push(local_root.clone());
    let mut i: usize = 0;
    while i < tree.dirs.len()
        invariant
            i <= tree.dirs.len(),
            dirs@.len() == i + 1,
            dirs@[0]@ == local_root@,
            forall|j: int|
                0 <= j < i ==> (#[trigger] dirs@[j + 1])@ == below(
                    local_root@,
                    pieces(tree.dirs@[j]@, '/'),
                ),
        decreases tree.dirs.len() - i,
    {
        let ghost before = dirs@;
        dirs.push(rel_to_local(&local_root, &tree.dirs[i]));
        i = i + 1;
        assert forall|j: int| 0 <= j < i implies (#[trigger] dirs@[j + 1])@ == below(
            local_root@,
            pieces(tree.dirs@[j]@, '/'),
        ) by {
            if j < i - 1 {
                assert(dirs@[j + 1] == before[j + 1]);
            }
        }
    }
    TreePlan { batch, local_root, dirs, tree }
}

/// Fold a reply into what the panes read. Where the robot listed a folder to copy,
/// says which local folders to create before [`tree_planted`] goes on.
pub fn apply_file_reply(st: &mut State, reply: FileReply) -> (r: Option<TreePlan>)
    ensures
        match reply {
            FileReply::Listing { id, listing } => {
                &&& r is None
                &&& final(st).shown() == (Shown {
                    loading: false,
                    error: None,
                    listing: Some(listing),
                    ..old(st).shown()
                })
                &&& final(st).transfers@ == old(st).transfers@
                &&& final(st).batches@ == old(st).batches@
                &&& final(st).books() == old(st).books()
            },
            FileReply::Sending { id, len } => {
                &&& r is None
                &&& final(st).shown() == old(st).shown()
                &&& final(st).transfers@ == totalled(old(st).transfers@, id, len)
                &&& final(st).batches@ == old(st).batches@
                &&& final(st).books() == old(st).books()
            },
            FileReply::Text { id, path, text } => {
                &&& r is None
                &&& final(st).shown() == (Shown {
                    editor: after_open(old(st).editor, path@, text),
                    ..old(st).shown()
                })
                &&& final(st).transfers@ == old(st).transfers@
                &&& final(st).batches@ == old(st).batches@
                &&& final(st).books() == old(st).books()
            },
            FileReply::Tree { id, tree } => {
                &&& final(st).shown() == old(st).shown()
                &&& final(st).transfers@ == old(st).transfers@
                &&& final(st).batches@ == old(st).batches@
                &&& final(st).books() == (Books {
                    trees: old(st).books().trees.remove(id),
                    ..old(st).books()
                })
                &&& if old(st).books().trees.contains_key(id) {
                    r matches Some(p) && p.is_for(
                        old(st).books().trees[id].0,
                        old(st).books().trees[id].1@,
                        tree,
                    )
                } else {
                    r is None
                }
            },
            FileReply::Done { id } => {
                &&& r is None
                &&& if old(st).books().saves.contains_key(id) {
                    saved(*old(st), *final(st), id, Ok(()))
                } else {
                    settled(*old(st), *final(st), id, Ok(()), old(st).shown())
                }
            },
            FileReply::Failed { id, reason } => {
                &&& r is None
                &&& if old(st).books().saves.contains_key(id) {
                    saved(*old(st), *final(st), id, Err(reason))
                } else if old(st).books().trees.contains_key(id) {
                    &&& final(st).shown() == old(st).shown()
                    &&& final(st).transfers@ == old(st).transfers@
                    &&& final(st).batches@ == (match batch_at(
                        old(st).batches@,
                        old(st).books().trees[id].0,
                        0,
                    ) {
                        Some(i) => old(st).batches@.update(
                            i,
                            Batch { error: Some(reason), ..old(st).batches@[i] },
                        ),
                        None => old(st).batches@,
                    })
                    &&& final(st).books() == (Books {
                        trees: old(st).books().trees.remove(id),
                        ..old(st).books()
                    })
                } else {
                    settled(
                        *old(st),
                        *final(st),
                        id,
                        Err(reason),
                        (Shown { loading: false, error: Some(reason), ..old(st).shown() }),
                    )
                }
            },
        },
{
    match reply {
        FileReply::Listing { id: _, listing } => {
            st.loading = false;
            st.error = None;
            st.listing = Some(listing);
            None
        },
        FileReply::Sending { id, len } => {
            st.set_total(id, len);
            None
        },
        FileReply::Text { id: _, path, text } => {
            st.opened(&path, text);
            None
        },
        FileReply::Tree { id, tree } => match st.take_tree(id) {
            None => None,
            Some(t) => Some(plan(t.0, &t.1, tree)),
        },
        FileReply::Done { id } => {
            match st.take_save(id) {
                Some(s) => {
                    st.settle_save(&s.0, s.1, Ok(()));
                },
                None => {
                    proof {
                        lemma_not_there(old(st).books(), id);
                    }
                    st.finish(id, Ok(()));
                },
            }
            None
        },
        FileReply::Failed { id, reason } => {
            match st.take_save(id) {
                Some(s) => {
                    st.settle_save(&s.0, s.1, Err(reason));
                },
                None => {
                    proof {
                        lemma_not_there(old(st).books(), id);
                    }
                    match st.take_tree(id) {
                        Some(t) => {
                            st.fail_batch(t.0, reason);
                        },
                        None => {
                            st.loading = false;
                            st.finish(id, Err(reason.clone()));
                            st.error = Some(reason);
                        },
                    }
                },
            }
            None
        },
    }
}

proof fn lemma_not_there(books: Books, id: u64)
    ensures
        !books.saves.contains_key(id) ==> books.saves.remove(id) == books.saves,
        !books.trees.contains_key(id) ==> books.trees.remove(id) == books.trees,
{
    if !books.saves.contains_key(id) {
        assert(books.saves.remove(id) =~= books.saves);
    }
    if !books.trees.contains_key(id) {
        assert(books.trees.remove(id) =~= books.trees);
    }
}

/// Whether the answer to a save went to the editor, and to nothing else.
pub open spec fn saved(before: State, after: State, id: u64, outcome: Result<(), String>) -> bool {
    &&& after.shown() == (Shown {
        editor: after_answer(
            before.editor,
            before.books().saves[id].0@,
            before.books().saves[id].1,
            outcome,
        ),
        ..before.shown()
    })
    &&& after.transfers@ == before.transfers@
    &&& after.batches@ == before.batches@
    &&& after.books() == (Books { saves: before.books().saves.remove(id), ..before.books() })
}

/// Whether the answer to a request that was no save ended its transfer, if it has
/// one, and `shown` is what is shown besides.
pub open spec fn settled(
    before: State,
    after: State,
    id: u64,
    outcome: Result<(), String>,
    shown: Shown,
) -> bool {
    &&& after.shown() == shown
    &&& after.transfers@ == match transfer_at(before.transfers@, id, 0) {
        Some(i) => before.transfers@.update(i, ended(before.transfers@[i], outcome)),
        None => before.transfers@,
    }
    &&& after.batches@ == before.batches@
    &&& after.books() == (Books {
        destinations: before.books().destinations.remove(id),
        ..before.books()
    })
}

/// The folder copies with `n` more files of `batch` waiting.
pub open spec fn queued_more(batches: Seq<Batch>, batch: u64, n: nat) -> Seq<Batch>
    decreases n,
{
    if n == 0 {
        batches
    } else {
        queued_changed(queued_more(batches, batch, (n - 1) as nat), Some(batch), true)
    }
}

/// Whether a command asks for this file of a tree.
pub open spec fn asks_for(c: Command, plan: TreePlan, f: TreeFile) -> bool {
    &&& c matches Command::Download { remote, local, batch }
    &&& remote@ == below(plan.tree.root@, pieces(f.rel@, '/'))
    &&& local@ == below(plan.local_root@, pieces(f.rel@, '/'))
    &&& batch == Some(plan.batch)
}

/// Goes on with a folder copy once its local folders were created, or `failed` says
/// why not: then nothing is asked for and the reason is shown on its row.
pub fn tree_planted(st: &mut State, plan: &TreePlan, failed: Option<String>)
    ensures
        final(st).shown() == old(st).shown(),
        final(st).transfers@ == old(st).transfers@,
        ({
            let noted = match batch_at(old(st).batches@, plan.batch, 0) {
                Some(i) => old(st).batches@.update(
                    i,
                    Batch {
                        truncated: plan.tree.truncated,
                        error: failed,
                        ..old(st).batches@[i]
                    },
                ),
                None => old(st).batches@,
            };
            let files = plan.tree.files@;
            let queue = old(st).books().queue;
            if failed is Some {
                &&& final(st).batches@ == noted
                &&& final(st).books() == old(st).books()
            } else {
                &&& final(st).batches@ == queued_more(noted, plan.batch, files.len())
                &&& final(st).books() == (Books {
                    queue: final(st).books().queue,
                    ..old(st).books()
                })
                &&& final(st).books().queue.len() == queue.len() + files.len()
                &&& final(st).books().queue.take(queue.len() as int) == queue
                &&& forall|i: int|
                    0 <= i < files.len() ==> asks_for(
                        #[trigger] final(st).books().queue[queue.len() + i],
                        *plan,
                        files[i],
                    )
            }
        }),
{
    let go: bool = failed.is_none();
    st.note_batch(plan.batch, plan.tree.truncated, failed);
    if !go {
        return;
    }
    let ghost noted = st.batches@;
    let ghost queue = old(st).books().queue;
    let ghost files = plan.tree.files@;
    let mut i: usize = 0;
    assert(queue.take(queue.len() as int) =~= queue);
    while i < plan.tree.files.len()
        invariant
            i <= plan.tree.files.len(),
            files == plan.tree.files@,
            queue == old(st).books().queue,
            st.shown() == old(st).shown(),
            st.transfers@ == old(st).transfers@,
            st.batches@ == queued_more(noted, plan.batch, i as nat),
            st.books() == (Books { queue: st.books().queue, ..old(st).books() }),
            st.books().queue.len() == queue.len() + i,
            st.books().queue.take(queue.len() as int) == queue,
            forall|j: int|
                0 <= j < i ==> asks_for(
                    #[trigger] st.books().queue[queue.len() + j],
                    *plan,
                    files[j],
                ),
        decreases plan.tree.files.len() - i,
    {
        let ghost before = st.books().queue;
        let rel = &plan.tree.files[i].rel;
        st.enqueue(
            Command::Download {
                remote: remote_join_rel(&plan.tree.root, rel),
                local: rel_to_local(&plan.local_root, rel),
                batch: Some(plan.batch),
            },
        );
        proof {
            let now = st.books().queue;
            assert(now.take(queue.len() as int) =~= before.take(queue.len() as int));
            assert forall|j: int| 0 <= j < i + 1 implies asks_for(
                #[trigger] now[queue.len() + j],
                *plan,
                files[j],
            ) by {
                if j < i {
                    assert(now[queue.len() + j] == before[queue.len() + j]);
                }
            }
        }
        i = i + 1;
    }
}

/// Whether a command creates a folder at this path.
pub open spec fn creates(c: Command, path: Seq<char>) -> bool {
    c matches Command::MakeDirAll { path: p } && p@ == path
}

/// Whether a command sends this file of a local folder.
pub open spec fn sends(
    c: Command,
    local_root: Seq<char>,
    remote_root: Seq<char>,
    rel: Seq<char>,
    b: u64,
) -> bool {
    &&& c matches Command::Upload { local, remote, batch }
    &&& local@ == below(local_root, pieces(rel, '/'))
    &&& remote@ == below(remote_root, pieces(rel, '/'))
    &&& batch == Some(b)
}

/// Queues a local folder for upload: the folder itself and the folders in it first,
/// so that empty ones are mirrored too, then the files.
pub fn tree_walked(
    st: &mut State,
    local_root: &str,
    remote_root: &str,
    batch: u64,
    dirs: &Vec<String>,
    files: &Vec<TreeFile>,
    truncated: bool,
)
    ensures
        final(st).shown() == old(st).shown(),
        final(st).transfers@ == old(st).transfers@,
        ({
            let noted = match batch_at(old(st).batches@, batch, 0) {
                Some(i) => if truncated {
                    old(st).batches@.update(
                        i,
                        Batch { truncated: true, ..old(st).batches@[i] },
                    )
                } else {
                    old(st).batches@
                },
                None => old(st).batches@,
            };
            let queue = old(st).books().queue;
            let now = final(st).books().queue;
            &&& final(st).batches@ == queued_more(noted, batch, files@.len())
            &&& final(st).books() == (Books { queue: now, ..old(st).books() })
            &&& now.len() == queue.len() + 1 + dirs@.len() + files@.len()
            &&& now.take(queue.len() as int) == queue
            &&& creates(now[queue.len() as int], remote_root@)
            &&& forall|i: int|
                0 <= i < dirs@.len() ==> creates(
                    #[trigger] now[queue.len() + 1 + i],
                    below(remote_root@, pieces(dirs@[i]@, '/')),
                )
            &&& forall|i: int|
                0 <= i < files@.len() ==> sends(
                    #[trigger] now[queue.len() + 1 + dirs@.len() + i],
                    local_root@,
                    remote_root@,
                    files@[i].rel@,
                    batch,
                )
        }),
{
    if truncated {
        st.cut_batch(batch);
    }
    let ghost noted = st.batches@;
    let ghost queue = old(st).books().queue;
    st.enqueue(Command::MakeDirAll { path: remote_root.to_owned() });
    let mut i: usize = 0;
    assert(st.books().queue.take(queue.len() as int) =~= queue);
    while i < dirs.len()
        invariant
            i <= dirs.len(),
            queue == old(st).books().queue,
            st.shown() == old(st).shown(),
            st.transfers@ == old(st).transfers@,
            st.batches@ == noted,
            st.books() == (Books { queue: st.books().queue, ..old(st).books() }),
            st.books().queue.len() == queue.len() + 1 + i,
            st.books().queue.take(queue.len() as int) == queue,
            creates(st.books().queue[queue.len() as int], remote_root@),
            forall|j: int|
                0 <= j < i ==> creates(
                    #[trigger] st.books().queue[queue.len() + 1 + j],
                    below(remote_root@, pieces(dirs@[j]@, '/')),
                ),
        decreases dirs.len() - i,
    {
        let ghost before = st.books().queue;
        st.enqueue(Command::MakeDirAll { path: remote_join_rel(remote_root, &dirs[i]) });
        proof {
            let now = st.books().queue;
            assert(now.take(queue.len() as int) =~= before.take(queue.len() as int));
            assert forall|j: int| 0 <= j < i + 1 implies creates(
                #[trigger] now[queue.len() + 1 + j],
                below(remote_root@, pieces(dirs@[j]@, '/')),
            ) by {
                if j < i {
                    assert(now[queue.len() + 1 + j] == before[queue.len() + 1 + j]);
                }
            }
        }
        i = i + 1;
    }
    let ghost base = queue.len() + 1 + dirs@.len();
    let mut k: usize = 0;
    while k < files.len()
        invariant
            k <= files.len(),
            base == queue.len() + 1 + dirs@.len(),
            queue == old(st).books().queue,
            st.shown() == old(st).shown(),
            st.transfers@ == old(st).transfers@,
            st.batches@ == queued_more(noted, batch, k as nat),
            st.books() == (Books { queue: st.books().queue, ..old(st).books() }),
            st.books().queue.len() == base + k,
            st.books().queue.take(queue.len() as int) == queue,
            creates(st.books().queue[queue.len() as int], remote_root@),
            forall|j: int|
                0 <= j < dirs@.len() ==> creates(
                    #[trigger] st.books().queue[queue.len() + 1 + j],
                    below(remote_root@, pieces(dirs@[j]@, '/')),
                ),
            forall|j: int|
                0 <= j < k ==> sends(
                    #[trigger] st.books().queue[base + j],
                    local_root@,
                    remote_root@,
                    files@[j].rel@,
                    batch,
                ),
        decreases files.len() - k,
    {
        let ghost before = st.books().queue;
        st.enqueue(
            Command::Upload {
                local: rel_to_local(local_root, &files[k].rel),
                remote: remote_join_rel(remote_root, &files[k].rel),
                batch: Some(batch),
            },
        );
        proof {
            let now = st.books().queue;
            assert(now.take(queue.len() as int) =~= before.take(queue.len() as int));
            assert forall|j: int| 0 <= j < dirs@.len() implies creates(
                #[trigger] now[queue.len() + 1 + j],
                below(remote_root@, pieces(dirs@[j]@, '/')),
            ) by {
                assert(now[queue.len() + 1 + j] == before[queue.len() + 1 + j]);
            }
            assert forall|j: int| 0 <= j < k + 1 implies sends(
                #[trigger] now[base + j],
                local_root@,
                remote_root@,
                files@[j].rel@,
                batch,
            ) by {
                if j < k {
                    assert(now[base + j] == before[base + j]);
                }
            }
        }
        k = k + 1;
    }
}

/// Every file of a folder that is copied waits: the count of its copy grows by as many, and
/// that of no other.
pub proof fn every_file_waits(batches: Seq<Batch>, batch: u64, n: nat, i: int)
    requires
        0 <= i < batches.len(),
        forall|j: int, k: int|
            0 <= j < k < batches.len() ==> (#[trigger] batches[j]).id != (#[trigger] batches[k]).id,
        forall|j: int| 0 <= j < batches.len() ==> (#[trigger] batches[j]).queued + n <= usize::MAX,
    ensures
        queued_more(batches, batch, n).len() == batches.len(),
        forall|j: int|
            0 <= j < batches.len() ==> (#[trigger] queued_more(batches, batch, n)[j]).id
                == batches[j].id,
        queued_more(batches, batch, n)[i] == if batches[i].id == batch {
            Batch { queued: (batches[i].queued + n) as usize, ..batches[i] }
        } else {
            batches[i]
        },
    decreases n,
{
    if n > 0 {
        let before = queued_more(batches, batch, (n - 1) as nat);
        every_file_waits(batches, batch, (n - 1) as nat, i);
        crate::files::waiting_files_are_counted(before, batch, i);
        assert forall|j: int| 0 <= j < batches.len() implies (#[trigger] queued_more(
            batches,
            batch,
            n,
        )[j]).id == batches[j].id by {
            assert(before[j].id == batches[j].id);
            crate::files::waiting_files_are_counted(before, batch, j);
        }
    }
}

/// A file of a copied folder is fetched from where it stands on the robot, and goes to the same
/// place below the local folder.
pub proof fn a_file_is_fetched_to_where_it_stood(c: Command, plan: TreePlan, f: TreeFile)
    requires
        asks_for(c, plan, f),
        crate::files::all_plain(plan.tree.root@, pieces(f.rel@, '/')),
        crate::files::all_plain(plan.local_root@, pieces(f.rel@, '/')),
    ensures
        c matches Command::Download { remote, local, batch } && {
            &&& remote@ == joined_path(
                plan.tree.root@,
                crate::text::joined(
                    pieces(f.rel@, '/'),
                    crate::files::separator(plan.tree.root@),
                ),
            )
            &&& local@ == joined_path(
                plan.local_root@,
                crate::text::joined(
                    pieces(f.rel@, '/'),
                    crate::files::separator(plan.local_root@),
                ),
            )
            &&& batch == Some(plan.batch)
        },
{
    crate::files::a_copied_folder_keeps_its_shape(plan.tree.root@, f.rel@);
    crate::files::a_copied_folder_keeps_its_shape(plan.local_root@, f.rel@);
}

/// A file of a local folder is sent from where it stands, and goes to the same place below the
/// robot's folder.
pub proof fn a_file_is_sent_to_where_it_stood(
    c: Command,
    local_root: Seq<char>,
    remote_root: Seq<char>,
    rel: Seq<char>,
    b: u64,
)
    requires
        sends(c, local_root, remote_root, rel, b),
        crate::files::all_plain(remote_root, pieces(rel, '/')),
        crate::files::all_plain(local_root, pieces(rel, '/')),
    ensures
        c matches Command::Upload { local, remote, batch } && {
            &&& local@ == joined_path(
                local_root,
                crate::text::joined(pieces(rel, '/'), crate::files::separator(local_root)),
            )
            &&& remote@ == joined_path(
                remote_root,
                crate::text::joined(pieces(rel, '/'), crate::files::separator(remote_root)),
            )
            &&& batch == Some(b)
        },
{
    crate::files::a_copied_folder_keeps_its_shape(local_root, rel);
    crate::files::a_copied_folder_keeps_its_shape(remote_root, rel);
}

/// An answer that ends a request ends the transfer of that request, as it says, and touches no
/// other; where its bytes were to go is forgotten.
pub proof fn an_answer_ends_its_own_transfer(
    before: State,
    after: State,
    id: u64,
    outcome: Result<(), String>,
    shown: Shown,
    i: int,
)
    requires
        settled(before, after, id, outcome, shown),
        0 <= i < before.transfers@.len(),
        forall|j: int, k: int|
            0 <= j < k < before.transfers@.len() ==> (#[trigger] before.transfers@[j]).id != (
            #[trigger] before.transfers@[k]).id,
    ensures
        after.shown() == shown,
        after.transfers@.len() == before.transfers@.len(),
        before.transfers@[i].id == id ==> after.transfers@[i].outcome == Some(outcome),
        before.transfers@[i].id != id ==> after.transfers@[i] == before.transfers@[i],
        !after.books().destinations.contains_key(id),
        after.batches@ == before.batches@,
        after.books().queue == before.books().queue,
        after.books().saves == before.books().saves,
{
    crate::files::a_row_is_found_by_its_id(before.transfers@, id, 0);
}

/// The answer to a save reaches the editor: a confirmation makes the text that was sent the one
/// that the robot has, where that file is still open, and a failure is shown. The save is then
/// answered.
pub proof fn an_answer_settles_its_save(
    before: State,
    after: State,
    id: u64,
    outcome: Result<(), String>,
    e: Editor,
)
    requires
        saved(before, after, id, outcome),
        before.editor == Some(e),
    ensures
        ({
            let (path, text) = before.books().saves[id];
            &&& after.editor matches Some(a) && {
                &&& a.text == e.text
                &&& a.path == e.path
                &&& outcome is Ok && e.path@ == path@ ==> a.saved == text && !a.saving
                    && a.error is None
                &&& outcome is Ok && e.path@ != path@ ==> a == e
                &&& outcome matches Err(reason) ==> a.error == Some(reason) && a.saved == e.saved
            }
        }),
        !after.books().saves.contains_key(id),
        after.transfers@ == before.transfers@,
{
}

/// A file that starts has one row more, under its own name, with nothing moved yet, and is no
/// longer among those that were handed out and wait.
pub proof fn a_started_file_has_a_row(
    before: State,
    after: State,
    id: u64,
    dir: Seq<char>,
    name: Seq<char>,
    direction: Direction,
    total: u64,
    batch: u64,
)
    requires
        started(before, after, id, joined_path(dir, name), direction, total, Some(batch)),
        name.len() > 0,
        !name.contains('/') && !name.contains('\\'),
        before.books().handed > 0,
    ensures
        ({
            let n = before.transfers@.len() as int;
            let t = after.transfers@[n];
            &&& after.transfers@.len() == n + 1
            &&& after.transfers@.take(n) == before.transfers@
            &&& t.id == id && t.name@ == name && t.direction == direction
            &&& t.done == 0 && t.total == total && t.outcome is None && t.batch == Some(batch)
            &&& after.books().handed == before.books().handed - 1
            &&& after.books().last_id == id
            &&& after.books().queue == before.books().queue
        }),
{
    crate::files::a_joined_path_ends_in_its_name(dir, name);
    assert(after.transfers@.take(before.transfers@.len() as int) =~= before.transfers@);
}

/// A folder copy that begins has one row more, under its name, with nothing waiting and nothing
/// wrong yet.
pub proof fn a_begun_copy_has_a_row(
    before: State,
    after: State,
    batch: u64,
    name: Seq<char>,
    direction: Direction,
)
    requires
        opened_batch(before, after, batch, name, direction),
    ensures
        ({
            let n = before.batches@.len() as int;
            let b = after.batches@[n];
            &&& after.batches@.len() == n + 1
            &&& after.batches@.take(n) == before.batches@
            &&& b.id == batch && b.name@ == name && b.direction == direction
            &&& b.queued == 0 && !b.truncated && b.error is None
        }),
{
    assert(after.batches@.take(before.batches@.len() as int) =~= before.batches@);
}

/// The plan for a folder copy creates the folder itself first and then every folder in it, each
/// in the place where it stands on the robot.
pub proof fn a_plan_creates_every_folder(
    plan: TreePlan,
    batch: u64,
    local_parent: Seq<char>,
    tree: FileTree,
    i: int,
)
    requires
        plan.is_for(batch, local_parent, tree),
        0 <= i < tree.dirs@.len(),
        crate::files::all_plain(plan.local_root@, pieces(tree.dirs@[i]@, '/')),
    ensures
        plan.batch == batch,
        plan.local_root@ == joined_path(local_parent, file_name(tree.root@)),
        plan.dirs@[0]@ == plan.local_root@,
        plan.dirs@[i + 1]@ == joined_path(
            plan.local_root@,
            crate::text::joined(
                pieces(tree.dirs@[i]@, '/'),
                crate::files::separator(plan.local_root@),
            ),
        ),
        plan.dirs@.len() == 1 + tree.dirs@.len(),
{
    crate::files::a_copied_folder_keeps_its_shape(plan.local_root@, tree.dirs@[i]@);
    assert(plan.dirs@[i + 1]@ == below(plan.local_root@, pieces(tree.dirs@[i]@, '/')));
}

} // verus!
