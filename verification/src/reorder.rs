//! Frames arrive on independent streams, so they can complete out of order, but
//! video must be decoded in order. A small buffer puts them back in order, and
//! skips past frames that never show up rather than stalling behind them.
use vstd::prelude::*;

use crate::proto::FrameHeader;

verus! {

/// How many frames wait for a missing one before it is given up. Beyond this,
/// waiting costs more latency than the skip costs quality.
pub const REORDER_WINDOW: usize = 8;

/// One frame as it came off its stream.
pub struct Arrived {
    pub header: FrameHeader,
    pub data: Vec<u8>,
}

impl Arrived {
    /// The number of the frame.
    pub open spec fn id(self) -> u64 {
        self.header.frame_id
    }
}

/// Whether the frames are in order, none twice.
pub open spec fn ascending(frames: Seq<Arrived>) -> bool {
    forall|i: int, j: int| 0 <= i < j < frames.len() ==> (#[trigger] frames[i]).id() < (#[trigger] frames[j]).id()
}

/// Whether every frame is numbered `from` or later, and before `to`.
pub open spec fn between(frames: Seq<Arrived>, from: int, to: int) -> bool {
    forall|i: int| 0 <= i < frames.len() ==> from <= (#[trigger] frames[i]).id() < to
}

/// `frames` with `f` in its place, instead of one with the same number if there is
/// one.
pub open spec fn placed(frames: Seq<Arrived>, f: Arrived) -> Seq<Arrived>
    decreases frames.len(),
{
    if frames.len() == 0 || frames.last().id() < f.id() {
        frames.push(f)
    } else if frames.last().id() == f.id() {
        frames.drop_last().push(f)
    } else {
        placed(frames.drop_last(), f).push(frames.last())
    }
}

/// What leaves the buffer: the frames released, those kept, the number expected
/// next, and how many gaps were skipped.
pub struct Drained {
    pub out: Seq<Arrived>,
    pub rest: Seq<Arrived>,
    pub next: int,
    pub skips: int,
}

/// Release everything contiguous from `next` on; at a gap, wait while the window
/// has room, and skip to the oldest frame there is when it has none.
pub open spec fn drained(frames: Seq<Arrived>, next: int) -> Drained
    decreases frames.len(), (if frames.len() > 0 && frames[0].id() == next { 0int } else { 1int }),
{
    if frames.len() > 0 && frames[0].id() == next {
        let d = drained(frames.drop_first(), next + 1);
        Drained { out: seq![frames[0]] + d.out, ..d }
    } else if frames.len() <= REORDER_WINDOW {
        Drained { out: Seq::empty(), rest: frames, next, skips: 0 }
    } else {
        let d = drained(frames, frames[0].id() as int);
        Drained { skips: d.skips + 1, ..d }
    }
}

proof fn lemma_placed(frames: Seq<Arrived>, f: Arrived)
    requires
        ascending(frames),
    ensures
        ascending(placed(frames, f)),
        forall|i: int|
            0 <= i < placed(frames, f).len() ==> (#[trigger] placed(frames, f)[i]) == f || (
            frames.contains(placed(frames, f)[i]) && placed(frames, f)[i].id() != f.id()),
        placed(frames, f).contains(f),
        forall|i: int|
            0 <= i < frames.len() && (#[trigger] frames[i]).id() != f.id() ==> placed(
                frames,
                f,
            ).contains(frames[i]),
        placed(frames, f).len() <= frames.len() + 1,
        frames.len() <= placed(frames, f).len(),
    decreases frames.len(),
{
    let p = placed(frames, f);
    if frames.len() == 0 || frames.last().id() < f.id() {
        assert(p[p.len() - 1] == f);
        assert forall|i: int| 0 <= i < p.len() implies (#[trigger] p[i]) == f || (frames.contains(
            p[i],
        ) && p[i].id() != f.id()) by {
            if i < frames.len() {
                assert(frames[i] == p[i]);
                if i < frames.len() - 1 {
                    assert(frames[i].id() < frames[frames.len() - 1].id());
                }
            }
        }
        assert forall|i: int| 0 <= i < frames.len() && (#[trigger] frames[i]).id() != f.id() implies p.contains(
            frames[i],
        ) by {
            assert(p[i] == frames[i]);
        }
        assert forall|i: int, j: int| 0 <= i < j < p.len() implies (#[trigger] p[i]).id() < (
        #[trigger] p[j]).id() by {
            if j == frames.len() && i < frames.len() - 1 {
                assert(frames[i].id() < frames[frames.len() - 1].id());
            }
        }
    } else if frames.last().id() == f.id() {
        assert(p[p.len() - 1] == f);
        assert forall|i: int| 0 <= i < p.len() implies (#[trigger] p[i]) == f || (frames.contains(
            p[i],
        ) && p[i].id() != f.id()) by {
            if i < frames.len() - 1 {
                assert(frames[i] == p[i]);
                assert(frames[i].id() < frames[frames.len() - 1].id());
            }
        }
        assert forall|i: int| 0 <= i < frames.len() && (#[trigger] frames[i]).id() != f.id() implies p.contains(
            frames[i],
        ) by {
            assert(i < frames.len() - 1);
            assert(p[i] == frames[i]);
        }
        assert forall|i: int, j: int| 0 <= i < j < p.len() implies (#[trigger] p[i]).id() < (
        #[trigger] p[j]).id() by {
            if j == frames.len() - 1 {
                assert(frames[i].id() < frames[frames.len() - 1].id());
            }
        }
    } else {
        let rest = frames.drop_last();
        let q = placed(rest, f);
        lemma_placed(rest, f);
        assert(p =~= q.push(frames.last()));
        assert forall|i: int| 0 <= i < q.len() implies (#[trigger] q[i]).id() < frames.last().id() by {
            if q[i] != f {
                assert(rest.contains(q[i]));
                let k = choose|k: int| 0 <= k < rest.len() && rest[k] == q[i];
                assert(frames[k].id() < frames[frames.len() - 1].id());
            }
        }
        assert forall|i: int| 0 <= i < p.len() implies (#[trigger] p[i]) == f || (frames.contains(
            p[i],
        ) && p[i].id() != f.id()) by {
            if i < q.len() {
                assert(p[i] == q[i]);
                if q[i] != f {
                    assert(rest.contains(q[i]));
                    let k = choose|k: int| 0 <= k < rest.len() && rest[k] == q[i];
                    assert(frames[k] == p[i]);
                }
            } else {
                assert(p[i] == frames[frames.len() - 1]);
            }
        }
        let k = choose|k: int| 0 <= k < q.len() && q[k] == f;
        assert(p[k] == f);
        assert forall|i: int| 0 <= i < frames.len() && (#[trigger] frames[i]).id() != f.id() implies p.contains(
            frames[i],
        ) by {
            if i < rest.len() {
                assert(rest[i] == frames[i]);
                assert(q.contains(rest[i]));
                let k = choose|k: int| 0 <= k < q.len() && q[k] == rest[i];
                assert(p[k] == frames[i]);
            } else {
                assert(p[q.len() as int] == frames[i]);
            }
        }
        assert(ascending(p));
    }
}

proof fn lemma_drained(frames: Seq<Arrived>, next: int)
    requires
        ascending(frames),
        between(frames, next, u64::MAX as int),
    ensures
        ({
            let d = drained(frames, next);
            &&& d.out + d.rest == frames
            &&& d.rest.len() <= REORDER_WINDOW
            &&& next <= d.next
            &&& between(d.out, next, d.next)
            &&& between(d.rest, d.next + 1, u64::MAX as int)
            &&& 0 <= d.skips <= d.out.len()
            &&& d.next <= u64::MAX || d.out.len() == 0
        }),
    decreases frames.len(), (if frames.len() > 0 && frames[0].id() == next { 0int } else { 1int }),
{
    let d = drained(frames, next);
    if frames.len() > 0 && frames[0].id() == next {
        let rest = frames.drop_first();
        assert forall|i: int, j: int| 0 <= i < j < rest.len() implies (#[trigger] rest[i]).id() < (
        #[trigger] rest[j]).id() by {
            assert(frames[i + 1].id() < frames[j + 1].id());
        }
        assert forall|i: int| 0 <= i < rest.len() implies next + 1 <= (#[trigger] rest[i]).id()
            < u64::MAX by {
            assert(frames[0].id() < frames[i + 1].id());
        }
        lemma_drained(rest, next + 1);
        let e = drained(rest, next + 1);
        assert(d.out + d.rest =~= frames) by {
            assert(seq![frames[0]] + e.out + e.rest =~= seq![frames[0]] + (e.out + e.rest));
            assert(seq![frames[0]] + rest =~= frames);
        }
        assert forall|i: int| 0 <= i < d.out.len() implies next <= (#[trigger] d.out[i]).id()
            < d.next by {
            if i > 0 {
                assert(d.out[i] == e.out[i - 1]);
            }
        }
    } else if frames.len() <= REORDER_WINDOW {
        assert(d.out + d.rest =~= frames);
        assert forall|i: int| 0 <= i < d.rest.len() implies d.next + 1 <= (#[trigger] d.rest[i]).id()
            < u64::MAX by {
            assert(next <= frames[0].id());
            if i > 0 {
                assert(frames[0].id() < frames[i].id());
            }
        }
    } else {
        assert forall|i: int| 0 <= i < frames.len() implies frames[0].id() <= (#[trigger] frames[i]).id()
            < u64::MAX by {
            if i > 0 {
                assert(frames[0].id() < frames[i].id());
            }
        }
        assert(next <= frames[0].id());
        lemma_drained(frames, frames[0].id() as int);
        let e = drained(frames, frames[0].id() as int);
        assert(e.out.len() > 0);
        lemma_skips(frames, frames[0].id() as int);
    }
}

/// Each skip is followed by a frame, so there is one more frame than skips where
/// the first frame is the one expected.
proof fn lemma_skips(frames: Seq<Arrived>, next: int)
    requires
        ascending(frames),
        between(frames, next, u64::MAX as int),
        frames.len() > 0,
        frames[0].id() == next,
    ensures
        drained(frames, next).skips < drained(frames, next).out.len(),
    decreases frames.len(),
{
    let rest = frames.drop_first();
    assert forall|i: int, j: int| 0 <= i < j < rest.len() implies (#[trigger] rest[i]).id() < (
    #[trigger] rest[j]).id() by {
        assert(frames[i + 1].id() < frames[j + 1].id());
    }
    assert forall|i: int| 0 <= i < rest.len() implies next + 1 <= (#[trigger] rest[i]).id()
        < u64::MAX by {
        assert(frames[0].id() < frames[i + 1].id());
    }
    let e = drained(rest, next + 1);
    if rest.len() > 0 && rest[0].id() == next + 1 {
        lemma_skips(rest, next + 1);
    } else if rest.len() > REORDER_WINDOW {
        assert forall|i: int| 0 <= i < rest.len() implies rest[0].id() <= (#[trigger] rest[i]).id()
            < u64::MAX by {
            if i > 0 {
                assert(rest[0].id() < rest[i].id());
            }
        }
        lemma_skips(rest, rest[0].id() as int);
    }
}

/// How many times the numbers of frames, counted on from an expected one, break off: a frame
/// is not the next after the one before it, or the first is not the expected one.
pub open spec fn gaps(frames: Seq<Arrived>, expected: int) -> int
    decreases frames.len(),
{
    if frames.len() == 0 {
        0
    } else {
        gaps(frames.drop_last(), expected) + if breaks_off(frames, expected, frames.len() - 1) {
            1int
        } else {
            0
        }
    }
}

/// Whether the frame at a place is not the one that comes next there.
pub open spec fn breaks_off(frames: Seq<Arrived>, expected: int, at: int) -> bool {
    frames[at].id() != if at == 0 {
        expected
    } else {
        frames[at - 1].id() + 1
    }
}

proof fn lemma_gaps_in_front(first: Arrived, rest: Seq<Arrived>, expected: int)
    ensures
        gaps(seq![first] + rest, expected) == (if first.id() == expected {
            0int
        } else {
            1
        }) + gaps(rest, first.id() + 1),
    decreases rest.len(),
{
    let all = seq![first] + rest;
    if rest.len() == 0 {
        assert(all.drop_last() =~= Seq::<Arrived>::empty());
        assert(gaps(all.drop_last(), expected) == 0);
    } else {
        assert(all.drop_last() =~= seq![first] + rest.drop_last());
        lemma_gaps_in_front(first, rest.drop_last(), expected);
        assert(all[all.len() - 1] == rest[rest.len() - 1]);
        if rest.len() > 1 {
            assert(all[all.len() - 2] == rest[rest.len() - 2]);
        }
    }
}

/// No numbers break off exactly where they count on without a gap.
pub proof fn no_gaps_is_counting_on(frames: Seq<Arrived>, expected: int)
    ensures
        gaps(frames, expected) >= 0,
        gaps(frames, expected) == 0 <==> forall|i: int|
            0 <= i < frames.len() ==> (#[trigger] frames[i]).id() == expected + i,
        gaps(frames, expected) <= frames.len(),
    decreases frames.len(),
{
    if frames.len() > 0 {
        let front = frames.drop_last();
        no_gaps_is_counting_on(front, expected);
        let n = front.len() as int;
        if gaps(frames, expected) == 0 {
            assert forall|i: int| 0 <= i < frames.len() implies (#[trigger] frames[i]).id()
                == expected + i by {
                if i < n {
                    assert(front[i] == frames[i]);
                } else if n > 0 {
                    assert(front[n - 1].id() == expected + n - 1);
                }
            }
        }
        if forall|i: int|
            0 <= i < frames.len() ==> (#[trigger] frames[i]).id() == expected + i {
            assert forall|i: int| 0 <= i < n implies (#[trigger] front[i]).id() == expected + i by {
                assert(front[i] == frames[i]);
            }
            assert(frames[n].id() == expected + n);
            if n > 0 {
                assert(frames[n - 1].id() == expected + n - 1);
            }
        }
    }
}

/// Whether frames were let out rightly, those in `rest` being kept: in the order of their
/// numbers, everything that counts on, past a gap only because more than the window waited
/// behind it, and with a keyframe asked for at every gap.
pub open spec fn let_out_rightly(
    expected: int,
    out: Seq<Arrived>,
    rest: Seq<Arrived>,
    next: int,
    requests: int,
) -> bool {
    &&& ascending(out + rest)
    &&& rest.len() <= REORDER_WINDOW
    &&& next == if out.len() == 0 {
        expected
    } else {
        out.last().id() + 1
    }
    &&& rest.len() > 0 ==> rest[0].id() > next
    &&& out.len() > 0 ==> out[0].id() >= expected
    &&& forall|i: int|
        0 <= i < out.len() && #[trigger] breaks_off(out, expected, i) ==> out.len() - i + rest.len()
            > REORDER_WINDOW
    &&& requests == gaps(out, expected)
}

proof fn lemma_drained_rightly(frames: Seq<Arrived>, next: int)
    requires
        ascending(frames),
        between(frames, next, u64::MAX as int),
    ensures
        ({
            let d = drained(frames, next);
            let_out_rightly(next, d.out, d.rest, d.next, d.skips)
        }),
    decreases frames.len(), (if frames.len() > 0 && frames[0].id() == next { 0int } else { 1int }),
{
    let d = drained(frames, next);
    lemma_drained(frames, next);
    assert(d.out + d.rest == frames);
    if frames.len() > 0 && frames[0].id() == next {
        let rest = frames.drop_first();
        assert forall|i: int, j: int| 0 <= i < j < rest.len() implies (#[trigger] rest[i]).id() < (
        #[trigger] rest[j]).id() by {
            assert(frames[i + 1].id() < frames[j + 1].id());
        }
        assert forall|i: int| 0 <= i < rest.len() implies next + 1 <= (#[trigger] rest[i]).id()
            < u64::MAX by {
            assert(frames[0].id() < frames[i + 1].id());
        }
        lemma_drained_rightly(rest, next + 1);
        let e = drained(rest, next + 1);
        lemma_gaps_in_front(frames[0], e.out, next);
        assert forall|i: int| 0 <= i < d.out.len() && #[trigger] breaks_off(d.out, next, i) implies d.out.len()
            - i + d.rest.len() > REORDER_WINDOW by {
            assert(i > 0);
            assert(d.out[i] == e.out[i - 1]);
            if i > 1 {
                assert(d.out[i - 1] == e.out[i - 2]);
            }
            assert(breaks_off(e.out, next + 1, i - 1));
        }
        if e.out.len() > 0 {
            assert(d.out.last() == e.out.last());
        }
        if d.rest.len() > 0 {
            assert(e.rest[0].id() > e.next);
        }
    } else if frames.len() <= REORDER_WINDOW {
        assert(gaps(d.out, next) == 0);
    } else {
        assert forall|i: int| 0 <= i < frames.len() implies frames[0].id() <= (#[trigger] frames[i]).id()
            < u64::MAX by {
            if i > 0 {
                assert(frames[0].id() < frames[i].id());
            }
        }
        let to = frames[0].id() as int;
        lemma_drained(frames, to);
        lemma_drained_rightly(frames, to);
        let e = drained(frames, to);
        assert(e.out.len() > 0);
        assert(e.out[0] == (e.out + e.rest)[0]);
        assert(e.out[0] == frames[0]);
        let tail = e.out.drop_first();
        assert(e.out =~= seq![frames[0]] + tail);
        lemma_gaps_in_front(frames[0], tail, next);
        lemma_gaps_in_front(frames[0], tail, to);
        assert forall|i: int| 0 <= i < d.out.len() && #[trigger] breaks_off(d.out, next, i) implies d.out.len()
            - i + d.rest.len() > REORDER_WINDOW by {
            if i > 0 {
                assert(breaks_off(e.out, to, i));
            } else {
                assert(d.out.len() + d.rest.len() == frames.len());
            }
        }
    }
}

/// The frames that wait, the number expected next once there was a first frame, and how many
/// streams are still to begin since a new one was first asked for.
pub struct Reorder {
    pending: Vec<Arrived>,
    next: Option<u64>,
    asked: u64,
}

/// What came of one frame: the frames released, in order, and how many keyframes
/// to ask for, because decoding after a gap produces garbage until the next one.
pub struct Released {
    pub frames: Vec<Arrived>,
    pub keyframe_requests: usize,
}

impl Reorder {
    /// The frames that wait.
    pub closed spec fn pending(&self) -> Seq<Arrived> {
        self.pending@
    }

    /// The number expected next.
    pub closed spec fn next(&self) -> Option<u64> {
        self.next
    }

    /// How many streams are still to begin since a new one was first asked for.
    pub closed spec fn asked(&self) -> u64 {
        self.asked
    }

    /// What waits is in order, later than what is expected, and fits the window.
    pub open spec fn wf(&self) -> bool {
        &&& ascending(self.pending())
        &&& self.pending().len() <= REORDER_WINDOW
        &&& match self.next() {
            Some(n) => between(self.pending(), n + 1, u64::MAX as int),
            None => self.pending().len() == 0,
        }
    }

    /// A buffer that has seen nothing.
    pub fn new() -> (r: Self)
        ensures
            r.wf(),
            r.pending().len() == 0,
            r.next() is None,
            r.asked() == 0,
    {
        Reorder { pending: Vec::new(), next: None, asked: 0 }
    }

    /// A new stream was asked for on the same connection. Its frames are numbered from 0
    /// again; those of the stream before go on until the first of them is there. Where no
    /// frame has come yet, the stream before has still to begin too.
    pub fn restart(&mut self)
        requires
            old(self).wf(),
        ensures
            final(self).wf(),
            final(self).flow() == restarted(old(self).flow()),
    {
        if self.next.is_none() && self.asked == 0 {
            self.asked = 2;
        } else if self.asked < u64::MAX {
            self.asked = self.asked + 1;
        }
    }

    fn place(&mut self, frame: Arrived)
        ensures
            final(self).pending() == placed(old(self).pending(), frame),
            final(self).next() == old(self).next(),
            final(self).asked() == old(self).asked(),
    {
        let mut at: usize = self.pending.len();
        let ghost all = self.pending@;
        assert(all.take(at as int) =~= all);
        assert(all.skip(at as int) =~= Seq::<Arrived>::empty());
        assert(placed(all, frame) =~= placed(all.take(at as int), frame) + all.skip(at as int));
        while at > 0 && self.pending[at - 1].header.frame_id > frame.header.frame_id
            invariant
                all == self.pending@,
                *self == *old(self),
                at <= all.len(),
                placed(all, frame) == placed(all.take(at as int), frame) + all.skip(at as int),
            decreases at,
        {
            proof {
                let t = all.take(at as int);
                assert(t.drop_last() =~= all.take(at - 1));
                assert(placed(t, frame) == placed(all.take(at - 1), frame).push(all[at - 1]));
                assert(placed(t, frame) + all.skip(at as int) =~= placed(all.take(at - 1), frame)
                    + all.skip(at - 1));
            }
            at = at - 1;
        }
        if at > 0 && self.pending[at - 1].header.frame_id == frame.header.frame_id {
            proof {
                let t = all.take(at as int);
                assert(t.drop_last() =~= all.take(at - 1));
                assert(placed(all, frame) =~= all.update(at - 1, frame));
            }
            self.pending.set(at - 1, frame);
        } else {
            proof {
                assert(placed(all, frame) =~= all.insert(at as int, frame));
            }
            self.pending.insert(at, frame);
        }
    }

    /// Takes in one frame and lets out what can be decoded now.
    ///
    /// Where a stream is still to begin, the frame numbered 0 is its first: it is let out at
    /// once, and what still waited for the stream before is given up. Otherwise a frame
    /// older than what was already let out is useless.
    pub fn receive(&mut self, frame: Arrived) -> (r: Released)
        requires
            old(self).wf(),
            frame.id() < u64::MAX,
        ensures
            final(self).wf(),
            ({
                let expected = match old(self).next() {
                    Some(n) => n,
                    None => frame.id(),
                };
                if begins_stream(old(self).asked(), frame) {
                    &&& final(self).pending().len() == 0
                    &&& final(self).next() == Some(1u64)
                    &&& final(self).asked() == old(self).asked() - 1
                    &&& r.frames@ == seq![frame]
                    &&& r.keyframe_requests == 0
                } else if frame.id() < expected {
                    &&& final(self).pending() == old(self).pending()
                    &&& final(self).next() == Some(expected)
                    &&& final(self).asked() == old(self).asked()
                    &&& r.frames@.len() == 0
                    &&& r.keyframe_requests == 0
                } else {
                    let d = drained(placed(old(self).pending(), frame), expected as int);
                    &&& final(self).pending() == d.rest
                    &&& final(self).next() == Some(d.next as u64)
                    &&& final(self).asked() == old(self).asked()
                    &&& d.next <= u64::MAX
                    &&& r.frames@ == d.out
                    &&& r.keyframe_requests == d.skips
                }
            }),
            (final(self).flow(), r.frames@) == taken_in(old(self).flow(), frame),
            !(old(self).asked() > 0 && frame.id() == 0) && (old(self).next() matches Some(n) ==> n
                <= frame.id()) ==> {
                let expected = match old(self).next() {
                    Some(n) => n as int,
                    None => frame.id() as int,
                };
                let out = r.frames@;
                let rest = final(self).pending();
                // Everything that was there comes out or stays, unless the new frame takes its
                // number, and nothing else does.
                &&& forall|f: Arrived| #[trigger]
                    (out + rest).contains(f) <==> f == frame || (old(self).pending().contains(f)
                        && f.id() != frame.id())
                &&& final(self).next() matches Some(n) && let_out_rightly(
                    expected,
                    out,
                    rest,
                    n as int,
                    r.keyframe_requests as int,
                )
                // Without a keyframe asked for, what comes out counts on from what was expected.
                &&& r.keyframe_requests == 0 <==> forall|i: int|
                    0 <= i < out.len() ==> (#[trigger] out[i]).id() == expected + i
            },
    {
        let mut frames: Vec<Arrived> = Vec::new();
        if self.asked > 0 && frame.header.frame_id == 0 {
            self.asked = self.asked - 1;
            self.pending = Vec::new();
            self.next = Some(1);
            frames.push(frame);
            assert(frames@ =~= seq![frame]);
            return Released { frames, keyframe_requests: 0 };
        }
        let expected: u64 = match self.next {
            Some(n) => n,
            None => frame.header.frame_id,
        };
        self.next = Some(expected);
        let mut skips: usize = 0;
        if frame.header.frame_id < expected {
            return Released { frames, keyframe_requests: skips };
        }
        let ghost before = self.pending@;
        let ghost whole = placed(before, frame);
        proof {
            lemma_placed(before, frame);
            assert forall|i: int| 0 <= i < whole.len() implies expected <= (#[trigger] whole[i]).id()
                < u64::MAX by {
                if whole[i] != frame {
                    assert(before.contains(whole[i]));
                    let k = choose|k: int| 0 <= k < before.len() && before[k] == whole[i];
                    assert(before[k].id() >= expected + 1);
                }
            }
            lemma_drained(whole, expected as int);
            lemma_drained_rightly(whole, expected as int);
            no_gaps_is_counting_on(drained(whole, expected as int).out, expected as int);
            assert forall|f: Arrived| #[trigger] whole.contains(f) <==> f == frame || (
            before.contains(f) && f.id() != frame.id()) by {
                if whole.contains(f) {
                    let k = choose|k: int| 0 <= k < whole.len() && whole[k] == f;
                    assert(whole[k] == frame || before.contains(whole[k]));
                }
                if before.contains(f) && f.id() != frame.id() {
                    let k = choose|k: int| 0 <= k < before.len() && before[k] == f;
                    assert(whole.contains(before[k]));
                }
            }
        }
        self.place(frame);
        let mut next: u64 = expected;
        let ghost goal = drained(whole, expected as int);
        assert(frames@ + goal.out =~= goal.out);
        loop
            invariant
                self.asked == old(self).asked,
                ascending(self.pending@),
                between(self.pending@, next as int, u64::MAX as int),
                self.pending@.len() <= REORDER_WINDOW + 1,
                frames@.len() + self.pending@.len() <= REORDER_WINDOW + 1,
                ({
                    let d = drained(self.pending@, next as int);
                    &&& goal.out == frames@ + d.out
                    &&& goal.rest == d.rest
                    &&& goal.next == d.next
                    &&& goal.skips == skips + d.skips
                }),
                goal.skips <= goal.out.len() <= REORDER_WINDOW + 1,
            ensures
                self.asked == old(self).asked,
                goal.out == frames@,
                goal.rest == self.pending@,
                goal.next == next,
                goal.skips == skips,
            decreases self.pending@.len(), (if self.pending@.len() > 0 && self.pending@[0].id() == next { 0int } else { 1int }),
        {
            let ghost d = drained(self.pending@, next as int);
            proof {
                lemma_drained(self.pending@, next as int);
            }
            if self.pending.len() > 0 && self.pending[0].header.frame_id == next {
                let ghost old_pending = self.pending@;
                let ghost old_frames = frames@;
                assert(old_pending[0].id() < u64::MAX);
                let f = self.pending.remove(0);
                frames.push(f);
                proof {
                    assert(self.pending@ =~= old_pending.drop_first());
                    let e = drained(self.pending@, next + 1);
                    assert(d.out == seq![old_pending[0]] + e.out);
                    assert(old_frames + d.out =~= frames@ + e.out);
                    assert forall|i: int, j: int|
                        0 <= i < j < self.pending@.len() implies (#[trigger] self.pending@[i]).id()
                        < (#[trigger] self.pending@[j]).id() by {
                        assert(old_pending[i + 1].id() < old_pending[j + 1].id());
                    }
                    assert forall|i: int| 0 <= i < self.pending@.len() implies next + 1 <= (
                    #[trigger] self.pending@[i]).id() < u64::MAX by {
                        assert(old_pending[0].id() < old_pending[i + 1].id());
                    }
                }
                next = next + 1;
            } else if self.pending.len() <= REORDER_WINDOW {
                assert(frames@ + d.out =~= frames@);
                break;
            } else {
                proof {
                    assert forall|i: int| 0 <= i < self.pending@.len() implies self.pending@[0].id()
                        <= (#[trigger] self.pending@[i]).id() < u64::MAX by {
                        if i > 0 {
                            assert(self.pending@[0].id() < self.pending@[i].id());
                        }
                    }
                    lemma_drained(self.pending@, self.pending@[0].id() as int);
                }
                next = self.pending[0].header.frame_id;
                skips = skips + 1;
            }
        }
        self.next = Some(next);
        Released { frames, keyframe_requests: skips }
    }

    /// Lets out whatever is left, so that the last picture still lands.
    pub fn flush(self) -> (r: Vec<Arrived>)
        ensures
            r@ == self.pending(),
    {
        self.pending
    }
}

/// What a buffer holds once a new stream was asked for.
pub open spec fn restarted(f: Flow) -> Flow {
    Flow {
        asked: if f.next is None && f.asked == 0 {
            2
        } else if f.asked < u64::MAX {
            (f.asked + 1) as u64
        } else {
            f.asked
        },
        ..f
    }
}

/// Whether a frame is the first of a stream that is still to begin.
pub open spec fn begins_stream(asked: u64, frame: Arrived) -> bool {
    asked > 0 && frame.id() == 0
}

/// What a buffer holds, and what a frame makes of it.
pub struct Flow {
    pub pending: Seq<Arrived>,
    pub next: Option<u64>,
    pub asked: u64,
}

impl Reorder {
    /// What the buffer holds.
    pub open spec fn flow(&self) -> Flow {
        Flow { pending: self.pending(), next: self.next(), asked: self.asked() }
    }
}

/// What a buffer holds and what it lets out once a frame was taken in.
pub open spec fn taken_in(f: Flow, frame: Arrived) -> (Flow, Seq<Arrived>) {
    let expected = match f.next {
        Some(n) => n,
        None => frame.id(),
    };
    if begins_stream(f.asked, frame) {
        (
            Flow { pending: Seq::empty(), next: Some(1u64), asked: (f.asked - 1) as u64 },
            seq![frame],
        )
    } else if frame.id() < expected {
        (Flow { next: Some(expected), ..f }, Seq::empty())
    } else {
        let d = drained(placed(f.pending, frame), expected as int);
        (Flow { pending: d.rest, next: Some(d.next as u64), ..f }, d.out)
    }
}

/// What a buffer holds and what it has let out once frames were taken in one after the other.
pub open spec fn all_taken_in(f: Flow, frames: Seq<Arrived>) -> (Flow, Seq<Arrived>)
    decreases frames.len(),
{
    if frames.len() == 0 {
        (f, Seq::empty())
    } else {
        let before = all_taken_in(f, frames.drop_last());
        let step = taken_in(before.0, frames.last());
        (step.0, before.1 + step.1)
    }
}

/// A stream that was asked for while another ran is let out from its first frame on: whatever
/// number the other had come to, frames 0, 1, 2 and so on leave as they arrive.
pub proof fn a_new_stream_is_let_out_from_its_start(f: Flow, frames: Seq<Arrived>)
    requires
        f.asked > 0,
        frames.len() < u64::MAX,
        forall|i: int| 0 <= i < frames.len() ==> (#[trigger] frames[i]).id() == i,
    ensures
        all_taken_in(f, frames).1 == frames,
        frames.len() > 0 ==> all_taken_in(f, frames).0 == (Flow {
            pending: Seq::empty(),
            next: Some(frames.len() as u64),
            asked: (f.asked - 1) as u64,
        }),
    decreases frames.len(),
{
    if frames.len() > 0 {
        let front = frames.drop_last();
        assert forall|i: int| 0 <= i < front.len() implies (#[trigger] front[i]).id() == i by {
            assert(front[i] == frames[i]);
        }
        a_new_stream_is_let_out_from_its_start(f, front);
        let last = frames.last();
        assert(last == frames[frames.len() - 1]);
        let before = all_taken_in(f, front);
        let step = taken_in(before.0, last);
        if front.len() > 0 {
            let one = placed(Seq::empty(), last);
            assert(one =~= seq![last]);
            assert(one.drop_first() =~= Seq::empty());
            let rest = drained(one.drop_first(), last.id() + 1);
            assert(rest.out.len() == 0 && rest.rest.len() == 0);
            assert(step.1 =~= seq![last]);
            assert(step.0.pending =~= Seq::empty());
        }
        assert(before.1 + step.1 =~= frames);
    } else {
        assert(all_taken_in(f, frames).1 =~= frames);
    }
}

proof fn lemma_one_after_the_other(f: Flow, a: Seq<Arrived>, b: Seq<Arrived>)
    ensures
        all_taken_in(f, a + b).0 == all_taken_in(all_taken_in(f, a).0, b).0,
        all_taken_in(f, a + b).1 == all_taken_in(f, a).1 + all_taken_in(all_taken_in(f, a).0, b).1,
    decreases b.len(),
{
    let mid = all_taken_in(f, a);
    if b.len() == 0 {
        assert(a + b =~= a);
        assert(mid.1 + all_taken_in(mid.0, b).1 =~= mid.1);
    } else {
        let front = b.drop_last();
        lemma_one_after_the_other(f, a, front);
        assert((a + b).drop_last() =~= a + front);
        assert((a + b).last() == b.last());
        let x = all_taken_in(mid.0, front);
        let step = taken_in(x.0, b.last());
        assert(mid.1 + x.1 + step.1 =~= mid.1 + (x.1 + step.1));
    }
}

proof fn lemma_only_a_first_frame_begins(f: Flow, frames: Seq<Arrived>)
    requires
        forall|i: int| 0 <= i < frames.len() ==> (#[trigger] frames[i]).id() != 0,
    ensures
        all_taken_in(f, frames).0.asked == f.asked,
    decreases frames.len(),
{
    if frames.len() > 0 {
        let front = frames.drop_last();
        assert forall|i: int| 0 <= i < front.len() implies (#[trigger] front[i]).id() != 0 by {
            assert(front[i] == frames[i]);
        }
        lemma_only_a_first_frame_begins(f, front);
        assert(frames[frames.len() - 1].id() != 0);
    }
}

/// Whatever a buffer held when a new stream was asked for, and whatever the stream before
/// still sends, the new stream is let out from its first frame on.
pub proof fn a_restarted_stream_is_let_out_from_its_start(
    f: Flow,
    late: Seq<Arrived>,
    frames: Seq<Arrived>,
)
    requires
        forall|i: int| 0 <= i < late.len() ==> (#[trigger] late[i]).id() != 0,
        frames.len() < u64::MAX,
        forall|i: int| 0 <= i < frames.len() ==> (#[trigger] frames[i]).id() == i,
    ensures
        all_taken_in(restarted(f), late + frames).1 == all_taken_in(restarted(f), late).1 + frames,
{
    let g = restarted(f);
    lemma_only_a_first_frame_begins(g, late);
    lemma_one_after_the_other(g, late, frames);
    a_new_stream_is_let_out_from_its_start(all_taken_in(g, late).0, frames);
}

/// A stream that is asked for before any frame has come takes nothing from the first: the
/// first is let out from its start, and so is the new one after it, however far the first
/// came and whatever it still sends.
pub proof fn a_restart_before_any_frame_counts(
    f: Flow,
    first: Seq<Arrived>,
    late: Seq<Arrived>,
    frames: Seq<Arrived>,
)
    requires
        f.next is None,
        f.asked == 0,
        first.len() < u64::MAX,
        forall|i: int| 0 <= i < first.len() ==> (#[trigger] first[i]).id() == i,
        forall|i: int| 0 <= i < late.len() ==> (#[trigger] late[i]).id() != 0,
        frames.len() < u64::MAX,
        forall|i: int| 0 <= i < frames.len() ==> (#[trigger] frames[i]).id() == i,
    ensures
        all_taken_in(restarted(f), first).1 == first,
        all_taken_in(restarted(f), first + (late + frames)).1 == all_taken_in(
            restarted(f),
            first + late,
        ).1 + frames,
{
    let g = restarted(f);
    a_new_stream_is_let_out_from_its_start(g, first);
    let h = all_taken_in(g, first).0;
    lemma_only_a_first_frame_begins(h, late);
    lemma_one_after_the_other(g, first, late + frames);
    lemma_one_after_the_other(h, late, frames);
    lemma_one_after_the_other(g, first, late);
    a_new_stream_is_let_out_from_its_start(all_taken_in(h, late).0, frames);
    let x = all_taken_in(h, late).1;
    assert(first + (x + frames) =~= (first + x) + frames);
}

/// A keyframe is asked for at every gap and at no other time: there are as many requests as
/// places where the numbers let out are not consecutive, counted on from the expected one. So
/// without one, everything let out is numbered without a gap.
pub proof fn a_keyframe_is_asked_for_at_every_gap(pending: Seq<Arrived>, frame: Arrived, next: u64)
    requires
        ascending(pending),
        between(pending, next + 1, u64::MAX as int),
        next <= frame.id() < u64::MAX,
    ensures
        ({
            let d = drained(placed(pending, frame), next as int);
            &&& d.skips == gaps(d.out, next as int)
            &&& d.skips == 0 <==> forall|i: int|
                0 <= i < d.out.len() ==> (#[trigger] d.out[i]).id() == next + i
            &&& let_out_rightly(next as int, d.out, d.rest, d.next, d.skips)
        }),
{
    lemma_whole(pending, frame, next);
    lemma_drained_rightly(placed(pending, frame), next as int);
    no_gaps_is_counting_on(drained(placed(pending, frame), next as int).out, next as int);
}

/// Frames come out in order and none comes out twice: everything that leaves the
/// buffer is numbered from what was expected before up to what is expected after,
/// and everything that stays comes later still.
pub proof fn frames_leave_in_order(pending: Seq<Arrived>, frame: Arrived, next: u64)
    requires
        ascending(pending),
        between(pending, next + 1, u64::MAX as int),
        next <= frame.id() < u64::MAX,
    ensures
        ({
            let d = drained(placed(pending, frame), next as int);
            &&& ascending(d.out)
            &&& between(d.out, next as int, d.next)
            &&& ascending(d.rest)
            &&& between(d.rest, d.next + 1, u64::MAX as int)
            &&& next <= d.next
        }),
{
    let whole = placed(pending, frame);
    lemma_whole(pending, frame, next);
    let d = drained(whole, next as int);
    assert forall|i: int, j: int| 0 <= i < j < d.out.len() implies (#[trigger] d.out[i]).id() < (
    #[trigger] d.out[j]).id() by {
        assert(whole[i] == d.out[i] && whole[j] == d.out[j]);
    }
    assert forall|i: int, j: int| 0 <= i < j < d.rest.len() implies (#[trigger] d.rest[i]).id() < (
    #[trigger] d.rest[j]).id() by {
        let n = d.out.len() as int;
        assert(whole[n + i] == d.rest[i] && whole[n + j] == d.rest[j]);
    }
}

proof fn lemma_whole(pending: Seq<Arrived>, frame: Arrived, next: u64)
    requires
        ascending(pending),
        between(pending, next + 1, u64::MAX as int),
        next <= frame.id() < u64::MAX,
    ensures
        ascending(placed(pending, frame)),
        between(placed(pending, frame), next as int, u64::MAX as int),
        ({
            let d = drained(placed(pending, frame), next as int);
            &&& d.out + d.rest == placed(pending, frame)
            &&& d.rest.len() <= REORDER_WINDOW
            &&& next <= d.next
            &&& between(d.out, next as int, d.next)
            &&& between(d.rest, d.next + 1, u64::MAX as int)
        }),
{
    let whole = placed(pending, frame);
    lemma_placed(pending, frame);
    assert forall|i: int| 0 <= i < whole.len() implies next <= (#[trigger] whole[i]).id()
        < u64::MAX by {
        if whole[i] != frame {
            assert(pending.contains(whole[i]));
            let k = choose|k: int| 0 <= k < pending.len() && pending[k] == whole[i];
            assert(pending[k].id() >= next + 1);
        }
    }
    lemma_drained(whole, next as int);
}

/// Within a stream only frames older than what was already released are thrown away: a
/// frame that is not comes out at once or waits, and so does every frame that waited, unless
/// the new one takes its number.
pub proof fn no_frame_is_lost(pending: Seq<Arrived>, frame: Arrived, next: u64, f: Arrived)
    requires
        ascending(pending),
        between(pending, next + 1, u64::MAX as int),
        next <= frame.id() < u64::MAX,
        f == frame || (pending.contains(f) && f.id() != frame.id()),
    ensures
        ({
            let d = drained(placed(pending, frame), next as int);
            d.out.contains(f) || d.rest.contains(f)
        }),
{
    let whole = placed(pending, frame);
    lemma_whole(pending, frame, next);
    lemma_placed(pending, frame);
    let d = drained(whole, next as int);
    if f != frame {
        let k = choose|k: int| 0 <= k < pending.len() && pending[k] == f;
        assert(whole.contains(pending[k]));
    }
    let i = choose|i: int| 0 <= i < whole.len() && whole[i] == f;
    if i < d.out.len() {
        assert(d.out[i] == f);
    } else {
        assert(d.rest[i - d.out.len()] == f);
    }
}

/// A keyframe is asked for only when a frame was given up: while the window has
/// room, and as long as the expected frame is the one that comes, there is none.
pub proof fn no_keyframe_without_a_full_window(pending: Seq<Arrived>, frame: Arrived, next: u64)
    requires
        ascending(pending),
        between(pending, next + 1, u64::MAX as int),
        next <= frame.id() < u64::MAX,
        pending.len() < REORDER_WINDOW || (pending.len() <= REORDER_WINDOW && frame.id() == next),
    ensures
        drained(placed(pending, frame), next as int).skips == 0,
{
    let whole = placed(pending, frame);
    lemma_whole(pending, frame, next);
    lemma_placed(pending, frame);
    if frame.id() == next {
        assert(whole[0].id() == next) by {
            let k = choose|k: int| 0 <= k < whole.len() && whole[k] == frame;
            if k > 0 {
                assert(whole[0].id() < whole[k].id());
            }
        }
        lemma_few(whole.drop_first(), next + 1);
    } else {
        lemma_few(whole, next as int);
    }
}

proof fn lemma_few(frames: Seq<Arrived>, next: int)
    requires
        frames.len() <= REORDER_WINDOW,
    ensures
        drained(frames, next).skips == 0,
    decreases frames.len(),
{
    if frames.len() > 0 && frames[0].id() == next {
        lemma_few(frames.drop_first(), next + 1);
    }
}

} // verus!
