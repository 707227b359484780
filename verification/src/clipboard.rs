//! Clipboard sharing with the host's session: what is reported to the viewer, and what
//! other applications of the session are told.
//!
//! On X11 the clipboard is no buffer but an ownership protocol: whoever copied last owns
//! the selection and answers whoever pastes. Setting it means becoming its owner. On
//! Windows it is a buffer with a sequence number.
use vstd::prelude::*;

use crate::text::same;

verus! {

/// How often to re-read the clipboard when it belongs to another application, in
/// milliseconds.
pub const POLL: u64 = 400;

/// What is reported of a text that was read from the clipboard: nothing where there is
/// none, or where it is the text last seen.
pub open spec fn news(last_seen: Seq<char>, read: Option<String>) -> bool {
    read matches Some(text) && text@ != last_seen
}

/// The answer to another application that asks for the clipboard.
#[derive(Debug, Clone, Copy, PartialEq, Eq, Structural)]
pub enum Answer {
    /// There is nothing to give in that form.
    Refuse,
    /// These are the forms that can be had: the list itself, and the text in two
    /// encodings.
    Targets { targets: u32, utf8: u32, latin1: u32 },
    /// The text itself.
    Text,
}

/// The clipboard of an X11 session.
#[derive(Debug)]
pub struct Selection {
    /// What is published while the selection is owned.
    pub owned: Option<String>,
    /// The text last seen on the clipboard, whoever put it there.
    pub last_seen: String,
}

impl Selection {
    /// Nothing published, nothing seen.
    pub fn new() -> (r: Self)
        ensures
            r.owned is None,
            r.last_seen@.len() == 0,
    {
        Selection { owned: None, last_seen: String::new() }
    }

    /// The selection was taken to publish `text`.
    pub fn publish(&mut self, text: String)
        ensures
            final(self).owned == Some(text),
            final(self).last_seen == text,
    {
        self.last_seen = text.clone();
        self.owned = Some(text);
    }

    /// Another application copied something.
    pub fn lost(&mut self)
        ensures
            *final(self) == (Selection { owned: None, ..*old(self) }),
    {
        self.owned = None;
    }

    /// Whether the clipboard is to be read now. Times are in milliseconds.
    pub fn reads(&self, now: u64, next_poll: u64) -> (r: bool)
        ensures
            r == (self.owned is None && now >= next_poll),
    {
        self.owned.is_none() && now >= next_poll
    }

    /// Takes in what was read from the clipboard. What is returned goes to the viewer.
    pub fn seen(&mut self, read: Option<String>) -> (r: Option<String>)
        ensures
            final(self).owned == old(self).owned,
            news(old(self).last_seen@, read) ==> r == read && Some(final(self).last_seen) == read,
            !news(old(self).last_seen@, read) ==> r is None && *final(self) == *old(self),
            read is None ==> r is None,
            read matches Some(text) ==> (r is Some <==> text@ != old(self).last_seen@),
            read matches Some(text) ==> final(self).last_seen@ == text@,
    {
        match read {
            Some(text) => {
                if same(&text, &self.last_seen) {
                    return None;
                }
                self.last_seen = text.clone();
                Some(text)
            },
            None => None,
        }
    }

    /// What an application is told that asks for the clipboard in the form `target`.
    /// `targets`, `utf8` and `latin1` are the names of the forms that can be had: the list
    /// itself and the text in two encodings.
    pub fn serve(&self, target: u32, targets: u32, utf8: u32, latin1: u32) -> (r: Answer)
        ensures
            r == if self.owned is None {
                Answer::Refuse
            } else if target == targets {
                Answer::Targets { targets, utf8, latin1 }
            } else if target == utf8 || target == latin1 {
                Answer::Text
            } else {
                Answer::Refuse
            },
    {
        if self.owned.is_none() {
            Answer::Refuse
        } else if target == targets {
            Answer::Targets { targets, utf8, latin1 }
        } else if target == utf8 || target == latin1 {
            Answer::Text
        } else {
            Answer::Refuse
        }
    }
}

/// The clipboard of a Windows session.
#[derive(Debug)]
pub struct Buffer {
    /// The sequence number of the last change that was looked at.
    pub last_sequence: u32,
    /// The text last seen on the clipboard, whoever put it there.
    pub last_seen: String,
}

impl Buffer {
    /// Nothing seen.
    pub fn new() -> (r: Self)
        ensures
            r.last_sequence == 0,
            r.last_seen@.len() == 0,
    {
        Buffer { last_sequence: 0, last_seen: String::new() }
    }

    /// `text` was written, which made the sequence number `sequence`. It is adopted, so
    /// that the change is not reported straight back to the viewer.
    pub fn wrote(&mut self, text: String, sequence: u32)
        ensures
            *final(self) == (Buffer { last_sequence: sequence, last_seen: text }),
    {
        self.last_seen = text;
        self.last_sequence = sequence;
    }

    /// Whether the clipboard is to be read, now that the sequence number is `sequence`.
    pub fn changed(&mut self, sequence: u32) -> (r: bool)
        ensures
            r == (sequence != old(self).last_sequence),
            *final(self) == (Buffer { last_sequence: sequence, ..*old(self) }),
    {
        let r: bool = sequence != self.last_sequence;
        self.last_sequence = sequence;
        r
    }

    /// Takes in what was read from the clipboard. What is returned goes to the viewer.
    pub fn seen(&mut self, read: Option<String>) -> (r: Option<String>)
        ensures
            final(self).last_sequence == old(self).last_sequence,
            news(old(self).last_seen@, read) ==> r == read && Some(final(self).last_seen) == read,
            !news(old(self).last_seen@, read) ==> r is None && *final(self) == *old(self),
            read is None ==> r is None,
            read matches Some(text) ==> (r is Some <==> text@ != old(self).last_seen@),
            read matches Some(text) ==> final(self).last_seen@ == text@,
    {
        match read {
            Some(text) => {
                if same(&text, &self.last_seen) {
                    return None;
                }
                self.last_seen = text.clone();
                Some(text)
            },
            None => None,
        }
    }
}

/// What the viewer sent is not echoed: a text that was published, and found on the
/// clipboard again after the selection was lost, is not reported.
pub proof fn a_paste_is_not_echoed(published: Selection, lost: Selection, text: String)
    requires
        published.owned == Some(text),
        published.last_seen == text,
        lost == (Selection { owned: None, ..published }),
    ensures
        !news(lost.last_seen@, Some(text)),
{
}

} // verus!
