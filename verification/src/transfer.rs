//! What the host makes of a file request, and where the bytes that follow an
//! announcement go.
use std::collections::HashMap;
use vstd::prelude::*;

use crate::proto::{FileOp, FileReply, FileRequest, StreamKind, MAX_FILE_BYTES};
use crate::robot_files::{resolve, resolved};
use crate::text::{decimal, push_decimal};

verus! {

broadcast use vstd::std_specs::hash::group_hash_axioms;

/// Uploads announced on the control stream whose bytes have not arrived. The
/// announcement carries the destination, the stream that follows only an id, so that a
/// stream nobody announced is rejected.
pub struct PendingUploads {
    announced: HashMap<u64, String>,
}

/// No upload is announced.
pub fn pending() -> (r: PendingUploads)
    ensures
        r@ == Map::<u64, String>::empty(),
{
    PendingUploads { announced: HashMap::new() }
}

impl View for PendingUploads {
    type V = Map<u64, String>;

    closed spec fn view(&self) -> Map<u64, String> {
        self.announced@
    }
}

/// Work on the disk that a request asks for. Paths are absolute.
#[derive(Debug)]
pub enum FileWork {
    List { id: u64, dir: String },
    MakeDir { id: u64, dir: String },
    MakeDirAll { id: u64, dir: String },
    Remove { id: u64, target: String },
    Send { id: u64, target: String },
    Tree { id: u64, dir: String },
    /// Read a text; `path` is how the viewer spelled it.
    ReadText { id: u64, target: String, path: String },
    WriteText { id: u64, target: String, text: String },
    /// Answer at once.
    Reply { reply: FileReply },
    /// An upload was announced; its bytes come on a stream of their own.
    Wait,
}

/// What is said of an announced file that is too large.
pub open spec fn past_the_limit(len: u64) -> Seq<char> {
    decimal(len as nat) + " bytes is past this build's "@ + decimal(MAX_FILE_BYTES as nat)
        + " byte transfer limit"@
}

/// Act on one file request.
pub fn handle(uploads: &mut PendingUploads, request: FileRequest, home: &str) -> (r: FileWork)
    ensures
        ({
            let id = request.id;
            &&& !(request.op is Put && request.op->Put_len <= MAX_FILE_BYTES) ==> final(uploads)@
                == old(uploads)@
            &&& match request.op {
                FileOp::List { path } => r matches FileWork::List { id: i, dir } && i == id && dir@
                    == resolved(path@, home@),
                FileOp::MakeDir { path } => r matches FileWork::MakeDir { id: i, dir } && i == id
                    && dir@ == resolved(path@, home@),
                FileOp::MakeDirAll { path } => r matches FileWork::MakeDirAll { id: i, dir } && i
                    == id && dir@ == resolved(path@, home@),
                FileOp::Remove { path } => r matches FileWork::Remove { id: i, target } && i == id
                    && target@ == resolved(path@, home@),
                FileOp::Get { path } => r matches FileWork::Send { id: i, target } && i == id
                    && target@ == resolved(path@, home@),
                FileOp::Tree { path } => r matches FileWork::Tree { id: i, dir } && i == id && dir@
                    == resolved(path@, home@),
                FileOp::ReadText { path } => r matches FileWork::ReadText { id: i, target, path: p }
                    && i == id && target@ == resolved(path@, home@) && p == path,
                FileOp::WriteText { path, text } => r matches FileWork::WriteText {
                    id: i,
                    target,
                    text: t,
                } && i == id && target@ == resolved(path@, home@) && t == text,
                FileOp::Put { path, len } => if len > MAX_FILE_BYTES {
                    r matches FileWork::Reply { reply: FileReply::Failed { id: i, reason } } && i
                        == id && reason@ == past_the_limit(len)
                } else {
                    r is Wait && final(uploads)@.dom() == old(uploads)@.dom().insert(id)
                        && final(uploads)@[id]@ == resolved(path@, home@) && forall|k: u64|
                        k != id && old(uploads)@.contains_key(k) ==> #[trigger] final(uploads)@[k]
                            == old(uploads)@[k]
                },
            }
        }),
{
    let id: u64 = request.id;
    match request.op {
        FileOp::List { path } => FileWork::List { id, dir: resolve(&path, home) },
        FileOp::MakeDir { path } => FileWork::MakeDir { id, dir: resolve(&path, home) },
        FileOp::MakeDirAll { path } => FileWork::MakeDirAll { id, dir: resolve(&path, home) },
        FileOp::Remove { path } => FileWork::Remove { id, target: resolve(&path, home) },
        FileOp::Get { path } => FileWork::Send { id, target: resolve(&path, home) },
        FileOp::Tree { path } => FileWork::Tree { id, dir: resolve(&path, home) },
        FileOp::ReadText { path } => FileWork::ReadText { id, target: resolve(&path, home), path },
        FileOp::WriteText { path, text } => FileWork::WriteText {
            id,
            target: resolve(&path, home),
            text,
        },
        FileOp::Put { path, len } => {
            if len > MAX_FILE_BYTES {
                let mut reason = String::new();
                push_decimal(&mut reason, len);
                reason.push_str(" bytes is past this build's ");
                push_decimal(&mut reason, MAX_FILE_BYTES);
                reason.push_str(" byte transfer limit");
                assert(reason@ =~= past_the_limit(len));
                return FileWork::Reply { reply: FileReply::Failed { id, reason } };
            }
            let target = resolve(&path, home);
            uploads.announced.insert(id, target);
            assert(uploads@.dom() =~= old(uploads)@.dom().insert(id));
            FileWork::Wait
        },
    }
}

/// The answer to a request that failed.
pub fn failed(id: u64, reason: String) -> (r: FileReply)
    ensures
        r == (FileReply::Failed { id, reason }),
{
    FileReply::Failed { id, reason }
}

/// The answer to a request that gives nothing back.
pub fn done_or_failed(id: u64, result: Result<(), String>) -> (r: FileReply)
    ensures
        r == match result {
            Ok(_) => FileReply::Done { id },
            Err(reason) => FileReply::Failed { id, reason },
        },
{
    match result {
        Ok(_) => FileReply::Done { id },
        Err(reason) => failed(id, reason),
    }
}

/// An upload that went wrong, and the transfer it belonged to when known.
#[derive(Debug)]
pub struct Failure {
    pub id: Option<u64>,
    pub error: String,
}

/// A failure before it is known which transfer it belongs to.
pub fn anon(error: String) -> (r: Failure)
    ensures
        r == (Failure { id: None, error }),
{
    Failure { id: None, error }
}

/// A failure of a transfer.
pub fn during(id: u64, error: String) -> (r: Failure)
    ensures
        r == (Failure { id: Some(id), error }),
{
    Failure { id: Some(id), error }
}

/// What is answered to an upload that went wrong: without a transfer to attach it to,
/// nothing.
pub fn answer_failure(failure: Failure) -> (r: Option<FileReply>)
    ensures
        r == match failure.id {
            Some(id) => Some(FileReply::Failed { id, reason: failure.error }),
            None => None,
        },
{
    match failure.id {
        Some(id) => Some(failed(id, failure.error)),
        None => None,
    }
}

/// Whether a viewer may open a stream of this kind: only files come from a viewer.
pub fn check_kind(kind: StreamKind) -> (r: Result<(), Failure>)
    ensures
        r is Ok <==> kind == StreamKind::File,
        r matches Err(f) ==> f.id is None && f.error@
            == "a viewer opened a Video stream, which only the host may send"@,
{
    match kind {
        StreamKind::File => Ok(()),
        StreamKind::Video => Err(
            anon("a viewer opened a Video stream, which only the host may send".to_owned()),
        ),
    }
}

impl PendingUploads {
    /// Takes out where an announced upload goes. A stream that nobody announced is
    /// rejected, and an announcement serves for one stream.
    pub fn claim(&mut self, id: u64) -> (r: Result<String, Failure>)
        ensures
            final(self)@ == old(self)@.remove(id),
            match r {
                Ok(path) => old(self)@.contains_key(id) && path == old(self)@[id],
                Err(f) => !old(self)@.contains_key(id) && f.id == Some(id) && f.error@
                    == "no upload was announced for this stream"@,
            },
    {
        match self.announced.remove(&id) {
            Some(path) => Ok(path),
            None => Err(during(id, "no upload was announced for this stream".to_owned())),
        }
    }
}

/// How much of an upload was written.
#[derive(Debug)]
pub struct Receipt {
    pub written: u64,
}

impl Receipt {
    /// Nothing yet.
    pub fn new() -> (r: Self)
        ensures
            r.written == 0,
    {
        Receipt { written: 0 }
    }

    /// Counts in `n` more bytes. An upload that runs past the limit is given up.
    pub fn take(&mut self, n: usize) -> (r: Result<(), String>)
        requires
            old(self).written <= MAX_FILE_BYTES,
        ensures
            r is Ok <==> old(self).written + n <= MAX_FILE_BYTES,
            r is Ok ==> final(self).written == old(self).written + n,
            r matches Err(e) ==> e@ == "upload ran past the transfer limit"@ && final(self).written
                == old(self).written,
            final(self).written <= MAX_FILE_BYTES,
    {
        if n as u64 > MAX_FILE_BYTES - self.written {
            return Err("upload ran past the transfer limit".to_owned());
        }
        self.written = self.written + n as u64;
        Ok(())
    }
}

} // verus!
