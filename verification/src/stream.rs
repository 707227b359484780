//! The host's capture, encode and send pipeline: which frame goes out, at what size, and
//! how long the pipeline rests after it. Times are in nanoseconds.
use vstd::prelude::*;

use crate::codec::{
    clamped, encoding, even, evened, has_idr, EncodeError, EncodedFrame, H264Encoder, VideoEncoder,
};
use crate::pixels::{downscale_bgra, reaches, shrunk_byte};
use crate::proto::{Codec, FrameHeader};
use crate::rounding::nearest;
use crate::session::StreamConfig;

verus! {

/// An unchanged screen is sent again after this long. A viewer that joins gets a keyframe
/// anyway and one that loses frames asks for one, so this is deliberately long.
pub const IDLE_REFRESH: u64 = 10_000_000_000;

/// The longest that one frame can hold up the pipeline.
pub const MAX_STRETCH: u64 = 2_000_000_000;

/// What the control stream asks of a stream that runs.
#[derive(Debug)]
pub struct StreamHandle {
    pub stopped: bool,
    pub keyframe_wanted: bool,
}

impl StreamHandle {
    /// Nothing is asked for.
    pub fn new() -> (r: Self)
        ensures
            !r.stopped,
            !r.keyframe_wanted,
    {
        StreamHandle { stopped: false, keyframe_wanted: false }
    }

    /// Stop for good.
    pub fn stop(&mut self)
        ensures
            final(self).stopped,
            final(self).keyframe_wanted == old(self).keyframe_wanted,
    {
        self.stopped = true;
    }

    /// Make the next frame a keyframe.
    pub fn request_keyframe(&mut self)
        ensures
            final(self).keyframe_wanted,
            final(self).stopped == old(self).stopped,
    {
        self.keyframe_wanted = true;
    }

    /// Whether a keyframe is wanted. Asked once: the wish is granted.
    pub fn take_keyframe(&mut self) -> (r: bool)
        ensures
            r == old(self).keyframe_wanted,
            !final(self).keyframe_wanted,
            final(self).stopped == old(self).stopped,
    {
        let r: bool = self.keyframe_wanted;
        self.keyframe_wanted = false;
        r
    }
}

/// Which frame goes out.
#[derive(Debug, Clone, Copy, PartialEq, Eq, Structural)]
pub enum Source {
    /// The screen changed.
    Fresh,
    /// It did not, but the last frame is due again, as a keyframe.
    Last,
    Nothing,
}

/// Which frame goes out: a fresh one, or the last one again when nothing was sent for
/// long.
pub fn choose_frame(fresh: bool, since_sent: u64) -> (r: Source)
    ensures
        r == if fresh {
            Source::Fresh
        } else if since_sent >= IDLE_REFRESH {
            Source::Last
        } else {
            Source::Nothing
        },
{
    if fresh {
        Source::Fresh
    } else if since_sent >= IDLE_REFRESH {
        Source::Last
    } else {
        Source::Nothing
    }
}

/// The time of one frame at a frame rate, to the nearest nanosecond. A time halfway between
/// two goes to the even one.
pub fn frame_budget(max_fps: u16) -> (r: u64)
    requires
        max_fps > 0,
    ensures
        r == nearest(1_000_000_000, max_fps as nat),
        2_000_000_000 - max_fps <= 2 * (r * max_fps) <= 2_000_000_000 + max_fps,
{
    proof {
        crate::rounding::lemma_nearest_is_near(1_000_000_000, max_fps as nat);
    }
    let q: u64 = 1_000_000_000 / max_fps as u64;
    let rest: u64 = 1_000_000_000 % max_fps as u64;
    if 2 * rest > max_fps as u64 || (2 * rest == max_fps as u64 && q % 2 == 1) {
        q + 1
    } else {
        q
    }
}

/// The share of one core that the pipeline may use, in percent, from what was asked for.
pub fn ceiling(cap: u8) -> (r: u8)
    ensures
        r == clamped(cap as int, 1, 100),
        1 <= r <= 100,
        1 <= cap <= 100 ==> r == cap,
        cap > 100 ==> r == 100,
{
    if cap < 1 {
        1
    } else if cap > 100 {
        100
    } else {
        cap
    }
}

/// How long a frame has to take, from the time of one frame at the frame rate and the time
/// that the frame has to occupy under the ceiling: the processor time that it cost, divided by
/// the ceiling. Where there is no ceiling or no measure, the frame rate alone paces.
pub open spec fn pacing_of(budget: u64, needed: Option<u64>) -> int {
    match needed {
        Some(n) => {
            let capped = if n < MAX_STRETCH {
                n as int
            } else {
                MAX_STRETCH as int
            };
            if capped > budget {
                capped
            } else {
                budget as int
            }
        },
        None => budget as int,
    }
}

/// How long a frame has to take. One expensive frame cannot stall the pipeline for long: the
/// ceiling is then met across frames rather than within one.
pub fn pacing(budget: u64, needed: Option<u64>) -> (r: u64)
    ensures
        r == pacing_of(budget, needed),
        r >= budget,
        needed matches Some(n) ==> r >= n || r >= MAX_STRETCH,
        r > budget ==> r <= MAX_STRETCH && needed == Some(r) || r == MAX_STRETCH && (
        needed matches Some(n) && n >= MAX_STRETCH),
{
    match needed {
        Some(n) => {
            let capped: u64 = if n < MAX_STRETCH {
                n
            } else {
                MAX_STRETCH
            };
            if capped > budget {
                capped
            } else {
                budget
            }
        },
        None => budget,
    }
}

/// The ceiling is kept: over the time that a frame takes, no more processor time is used
/// than the ceiling allows, given that the time it has to occupy covers what was used, unless
/// the frame is so expensive that its rest is cut short.
pub proof fn the_ceiling_is_kept(budget: u64, cap: u8, used: u64, needed: u64)
    requires
        1 <= cap <= 100,
        used * 100 <= needed * cap,
        needed <= MAX_STRETCH,
    ensures
        used * 100 <= pacing_of(budget, Some(needed)) * cap,
        pacing_of(budget, Some(needed)) >= budget,
{
    let p = pacing_of(budget, Some(needed));
    assert(needed * cap <= p * cap) by (nonlinear_arith)
        requires
            needed <= p,
            cap > 0,
    ;
}

/// What is left of a frame's time.
pub fn rest_of(budget: u64, elapsed: u64) -> (r: u64)
    ensures
        r == if elapsed < budget {
            budget - elapsed
        } else {
            0
        },
{
    if elapsed < budget {
        budget - elapsed
    } else {
        0
    }
}

/// A dimension at a percentage of its size, at least 2.
pub open spec fn scaled(n: u32, percent: u8) -> int {
    if percent == 100 {
        n as int
    } else {
        let s = n * percent / 100;
        if s < 2 {
            2
        } else {
            s
        }
    }
}

/// A dimension is scaled to the share that the percentage is of a hundred, rounded down, but
/// not below 2; the whole is left as it is, and more percent never give less.
pub proof fn scaling_takes_the_share(n: u32, percent: u8, more: u8)
    requires
        percent <= more <= 100,
    ensures
        scaled(n, 100) == n,
        percent < 100 ==> scaled(n, percent) >= 2,
        percent < 100 && scaled(n, percent) > 2 ==> scaled(n, percent) * 100 <= n * percent,
        n * percent < (scaled(n, percent) + 1) * 100,
        n >= 2 ==> 2 <= scaled(n, percent) <= scaled(n, more) <= n,
{
    assert(n * percent <= n * more <= n * 100) by (nonlinear_arith)
        requires
            0 <= n,
            0 <= percent <= more <= 100,
    ;
}

/// The dimensions at a percentage of their size.
pub fn scaled_size(width: u32, height: u32, percent: u8) -> (r: (u32, u32))
    requires
        percent <= 100,
    ensures
        r.0 == scaled(width, percent),
        r.1 == scaled(height, percent),
        percent < 100 ==> r.0 >= 2 && r.1 >= 2,
{
    if percent == 100 {
        return (width, height);
    }
    assert(width * percent <= width * 100 && height * percent <= height * 100 && 0 <= width
        * percent && 0 <= height * percent) by (nonlinear_arith)
        requires
            0 <= percent <= 100,
            0 <= width,
            0 <= height,
    ;
    let w: u64 = width as u64 * percent as u64 / 100;
    let h: u64 = height as u64 * percent as u64 / 100;
    (
        if w < 2 {
            2
        } else {
            w as u32
        },
        if h < 2 {
            2
        } else {
            h as u32
        },
    )
}

/// A picture at a percentage of its size.
pub open spec fn scaled_picture(src: Seq<u8>, width: u32, height: u32, percent: u8) -> Seq<u8> {
    if percent == 100 {
        src
    } else {
        let (dw, dh) = (scaled(width, percent), scaled(height, percent));
        Seq::new(
            (dw * dh * 4) as nat,
            |i: int| shrunk_byte(src, width as int, height as int, dw, dh, i) as u8,
        )
    }
}

/// A scaled picture is the picture shrunk to the scaled dimensions, each pixel from the block
/// that it stands for; at the whole of its size it is left alone.
pub proof fn a_scaled_picture_is_the_picture_shrunk(
    src: Seq<u8>,
    width: u32,
    height: u32,
    percent: u8,
    x: int,
    y: int,
    c: int,
)
    requires
        0 <= x < scaled(width, percent),
        0 <= y < scaled(height, percent),
        0 <= c < 4,
        percent <= 100,
    ensures
        percent == 100 ==> scaled_picture(src, width, height, percent) == src,
        percent < 100 ==> ({
            let (dw, dh) = (scaled(width, percent), scaled(height, percent));
            let small = scaled_picture(src, width, height, percent);
            let at = (y * dw + x) * 4 + c;
            &&& small.len() == dw * dh * 4
            &&& 0 <= at < small.len()
            &&& small[at] == shrunk_byte(src, width as int, height as int, dw, dh, at) as u8
        }),
{
    if percent < 100 {
        let (dw, dh) = (scaled(width, percent), scaled(height, percent));
        assert(0 <= y * dw && (y + 1) * dw <= dw * dh && (y + 1) * dw == y * dw + dw)
            by (nonlinear_arith)
            requires
                0 <= y < dh,
                0 <= dw,
        ;
    }
}

/// One frame on its way out.
pub struct Encoded {
    pub header: FrameHeader,
    pub data: Vec<u8>,
}

/// What waits between the encoder and the network: one frame at most, and the newest. Showing
/// the current screen late is useless.
pub struct Outbox {
    queued: Option<Encoded>,
}

impl Outbox {
    /// The frame that waits.
    pub closed spec fn queued(&self) -> Option<Encoded> {
        self.queued
    }

    /// Nothing waits.
    pub fn new() -> (r: Self)
        ensures
            r.queued() is None,
    {
        Outbox { queued: None }
    }

    /// Puts a frame in, in the place of the one that waits, if one does: that one is handed
    /// back and never sent.
    pub fn put(&mut self, frame: Encoded) -> (r: Option<Encoded>)
        ensures
            final(self).queued() == Some(frame),
            r == old(self).queued(),
    {
        let mut frame: Option<Encoded> = Some(frame);
        core::mem::swap(&mut frame, &mut self.queued);
        frame
    }

    /// Takes the frame that waits out.
    pub fn take(&mut self) -> (r: Option<Encoded>)
        ensures
            final(self).queued() is None,
            r == old(self).queued(),
    {
        let mut frame: Option<Encoded> = None;
        core::mem::swap(&mut frame, &mut self.queued);
        frame
    }
}

/// What is done with an outbox.
pub enum Move {
    Put { frame: Encoded },
    Take,
}

/// What waits in an outbox, and what has left it, once moves were made one after the other.
pub open spec fn moved(queued: Option<Encoded>, moves: Seq<Move>) -> (Option<Encoded>, Seq<Encoded>)
    decreases moves.len(),
{
    if moves.len() == 0 {
        (queued, Seq::empty())
    } else {
        let before = moved(queued, moves.drop_last());
        match moves.last() {
            Move::Put { frame } => (Some(frame), before.1),
            Move::Take => (
                None,
                match before.0 {
                    Some(frame) => before.1.push(frame),
                    None => before.1,
                },
            ),
        }
    }
}

/// Frames put in one after the other.
pub open spec fn puts(frames: Seq<Encoded>) -> Seq<Move> {
    frames.map_values(|frame: Encoded| Move::Put { frame })
}

/// Only the newest frame leaves: of what is put in between two takes, the second gets the last
/// and nothing else ever comes out.
pub proof fn only_the_newest_leaves(
    queued: Option<Encoded>,
    moves: Seq<Move>,
    frames: Seq<Encoded>,
)
    requires
        frames.len() > 0,
    ensures
        moved(queued, moves + puts(frames)) == (Some(frames.last()), moved(queued, moves).1),
        moved(queued, (moves + puts(frames)).push(Move::Take)) == (
            None::<Encoded>,
            moved(queued, moves).1.push(frames.last()),
        ),
    decreases frames.len(),
{
    let all = moves + puts(frames);
    let front = frames.drop_last();
    assert(all.drop_last() =~= moves + puts(front));
    assert(all.last() == puts(frames).last());
    if front.len() > 0 {
        only_the_newest_leaves(queued, moves, front);
    } else {
        assert(moves + puts(front) =~= moves);
    }
    assert(all.push(Move::Take).drop_last() =~= all);
}

/// What was taken out is gone: taking again gets nothing.
pub proof fn a_frame_leaves_once(queued: Option<Encoded>, moves: Seq<Move>)
    ensures
        moved(queued, moves.push(Move::Take).push(Move::Take)) == moved(
            queued,
            moves.push(Move::Take),
        ),
{
    let once = moves.push(Move::Take);
    assert(once.drop_last() =~= moves);
    assert(once.push(Move::Take).drop_last() =~= once);
}

/// A stream that runs.
pub struct Pipeline {
    /// Percentage of the captured size to encode.
    pub scale_percent: u8,
    /// The number of the next frame.
    pub frame_id: u64,
}

/// Whether pictures of this size can be shrunk on this machine.
pub open spec fn can_shrink(width: u32, height: u32) -> bool {
    let (w, h) = (width as int, height as int);
    &&& 0 < width <= i32::MAX
    &&& 0 < height <= i32::MAX
    &&& (w + 2) * w <= usize::MAX
    &&& (h + 2) * h <= usize::MAX
    &&& (w + 2) * (h + 2) * 4 <= usize::MAX
}

impl Pipeline {
    /// A stream as it was asked for. A scale outside 25 to 100 percent is brought into it.
    pub fn new(config: &StreamConfig) -> (r: Self)
        ensures
            r.frame_id == 0,
            r.scale_percent == clamped(config.scale_percent as int, 25, 100),
            25 <= r.scale_percent <= 100,
            25 <= config.scale_percent <= 100 ==> r.scale_percent == config.scale_percent,
    {
        let p: u8 = config.scale_percent;
        Pipeline {
            scale_percent: if p < 25 {
                25
            } else if p > 100 {
                100
            } else {
                p
            },
            frame_id: 0,
        }
    }

    /// Numbers what an encoder made of a picture of these dimensions. A picture that it skipped
    /// uses up no number.
    pub fn number(
        &mut self,
        made: Option<EncodedFrame>,
        width: u32,
        height: u32,
        timestamp_us: u64,
    ) -> (r: Option<Encoded>)
        requires
            old(self).frame_id < u64::MAX,
        ensures
            numbered(*old(self), made, width, height, timestamp_us, *final(self), r),
            r is Some <==> made is Some,
            final(self).scale_percent == old(self).scale_percent,
            final(self).frame_id == old(self).frame_id + if made is Some {
                1int
            } else {
                0
            },
            made matches Some(f) ==> (r matches Some(e) && {
                &&& e.data == f.data
                &&& e.header.keyframe == f.keyframe
                &&& e.header.frame_id == old(self).frame_id
                &&& e.header.timestamp_us == timestamp_us
                &&& e.header.width == width - width % 2
                &&& e.header.height == height - height % 2
            }),
    {
        match made {
            None => None,
            Some(f) => {
                let header = FrameHeader {
                    frame_id: self.frame_id,
                    codec: Codec::H264,
                    width: even(width),
                    height: even(height),
                    keyframe: f.keyframe,
                    timestamp_us,
                };
                self.frame_id = self.frame_id + 1;
                Some(Encoded { header, data: f.data })
            },
        }
    }

    /// Puts a frame that was just numbered into the outbox. Where it replaces one that waited,
    /// it takes that one's number, so that what leaves is numbered without a gap; the picture
    /// that was lost is one that the next builds on, so a keyframe is due, as is said.
    pub fn post(&mut self, outbox: &mut Outbox, frame: Encoded) -> (r: bool)
        requires
            frame.header.frame_id + 1 == old(self).frame_id,
            old(outbox).queued() matches Some(q) ==> q.header.frame_id + 1
                == frame.header.frame_id,
        ensures
            r == (old(outbox).queued() is Some),
            match old(outbox).queued() {
                None => final(outbox).queued() == Some(frame) && *final(self) == *old(self),
                Some(q) => {
                    &&& final(outbox).queued() == Some(
                        Encoded {
                            header: FrameHeader {
                                frame_id: q.header.frame_id,
                                ..frame.header
                            },
                            ..frame
                        },
                    )
                    &&& *final(self) == (Pipeline {
                        frame_id: (old(self).frame_id - 1) as u64,
                        ..*old(self)
                    })
                },
            },
            final(outbox).queued() matches Some(e) && e.header.frame_id + 1
                == final(self).frame_id,
    {
        let mut frame = frame;
        match outbox.take() {
            None => {
                outbox.put(frame);
                false
            },
            Some(q) => {
                frame.header.frame_id = q.header.frame_id;
                self.frame_id = self.frame_id - 1;
                outbox.put(frame);
                true
            },
        }
    }

    /// Shrinks, encodes and numbers one frame. `None` where the encoder skipped it.
    ///
    /// What OpenH264 answers is on the encoder's record; [`Self::number`] says what is sent for
    /// each answer.
    pub fn produce(
        &mut self,
        encoder: &mut H264Encoder,
        width: u32,
        height: u32,
        bgra: &[u8],
        force_keyframe: bool,
        timestamp_us: u64,
    ) -> (r: Result<Option<Encoded>, EncodeError>)
        requires
            25 <= old(self).scale_percent <= 100,
            can_shrink(width, height),
            width * height * 4 <= bgra@.len(),
            old(self).frame_id < u64::MAX,
        ensures
            ({
                let percent = old(self).scale_percent;
                let (w, h) = (scaled(width, percent) as u32, scaled(height, percent) as u32);
                &&& (r matches Err(EncodeError::EmptyFrame)) == (scaled(width, percent) < 2 || scaled(
                    height,
                    percent,
                ) < 2)
                &&& exists|made: Result<Option<EncodedFrame>, EncodeError>|
                    {
                        &&& #[trigger] sent_for(
                            *old(self),
                            made,
                            w,
                            h,
                            timestamp_us,
                            *final(self),
                            r,
                        )
                        &&& encoding(
                            *old(encoder),
                            force_keyframe || old(encoder).pending(),
                            *final(encoder),
                            scaled_picture(bgra@, width, height, percent),
                            w,
                            h,
                            made,
                        )
                    }
                &&& match r {
                    Ok(Some(e)) => {
                        &&& final(encoder).device().given().last().answer == Ok::<Seq<u8>, String>(e.data@)
                        &&& e.data@.len() > 0
                        &&& e.header == (FrameHeader {
                            frame_id: old(self).frame_id,
                            codec: Codec::H264,
                            width: evened(w) as u32,
                            height: evened(h) as u32,
                            keyframe: has_idr(e.data@),
                            timestamp_us,
                        })
                        &&& *final(self) == (Pipeline {
                            frame_id: (old(self).frame_id + 1) as u64,
                            ..*old(self)
                        })
                    },
                    _ => *final(self) == *old(self),
                }
            }),
    {
        let ghost before = *encoder;
        if force_keyframe {
            encoder.force_keyframe();
        }
        let percent: u8 = self.scale_percent;
        let (w, h) = scaled_size(width, height, percent);
        proof {
            lemma_scaled(width, percent);
            lemma_scaled(height, percent);
            assert(width * height >= 0) by (nonlinear_arith)
                requires
                    0 <= width,
                    0 <= height,
            ;
        }
        let ghost due = *encoder;
        let ghost picture = scaled_picture(bgra@, width, height, percent);
        let made = if percent == 100 {
            proof {
                lemma_reaches(bgra@.len() as int, w as int, h as int, evened(w), evened(h));
            }
            encoder.encode_bgra(w, h, bgra)
        } else {
            proof {
                lemma_product(w as int, width + 2, width as int, width as int);
                lemma_product(h as int, height + 2, height as int, height as int);
                lemma_product(w as int, width + 2, h as int, height + 2);
            }
            let small = downscale_bgra(
                bgra,
                width as usize,
                height as usize,
                w as usize,
                h as usize,
            );
            proof {
                lemma_reaches(small@.len() as int, w as int, h as int, evened(w), evened(h));
                assert(small@ =~= picture);
            }
            encoder.encode_bgra(w, h, &small)
        };
        let ghost pending = force_keyframe || before.pending();
        assert(encoding(due, due.pending(), *encoder, picture, w, h, made));
        assert(encoding(before, pending, *encoder, picture, w, h, made));
        let ghost found = made;
        let r = match made {
            Err(e) => Err(e),
            Ok(m) => Ok(self.number(m, w, h, timestamp_us)),
        };
        assert(sent_for(*old(self), found, w, h, timestamp_us, *self, r));
        r
    }
}

/// What is sent for what an encoder made of a picture, or for its failure.
pub open spec fn sent_for(
    before: Pipeline,
    made: Result<Option<EncodedFrame>, EncodeError>,
    width: u32,
    height: u32,
    timestamp_us: u64,
    after: Pipeline,
    r: Result<Option<Encoded>, EncodeError>,
) -> bool {
    match made {
        Err(e) => r == Err::<Option<Encoded>, EncodeError>(e) && after == before,
        Ok(m) => r matches Ok(x) && numbered(before, m, width, height, timestamp_us, after, x),
    }
}

/// Whether what an encoder made of a picture was numbered: nothing where it made nothing, and
/// otherwise its bitstream under the next number.
pub open spec fn numbered(
    before: Pipeline,
    made: Option<EncodedFrame>,
    width: u32,
    height: u32,
    timestamp_us: u64,
    after: Pipeline,
    r: Option<Encoded>,
) -> bool {
    match made {
        None => r is None && after == before,
        Some(f) => {
            &&& r matches Some(e) && e.data == f.data && e.header == (FrameHeader {
                frame_id: before.frame_id,
                codec: Codec::H264,
                width: evened(width) as u32,
                height: evened(height) as u32,
                keyframe: f.keyframe,
                timestamp_us,
            })
            &&& after == (Pipeline { frame_id: (before.frame_id + 1) as u64, ..before })
        },
    }
}

proof fn lemma_scaled(n: u32, percent: u8)
    requires
        0 < n <= i32::MAX,
        25 <= percent <= 100,
    ensures
        0 < scaled(n, percent) <= n + 2,
        scaled(n, percent) <= i32::MAX,
{
    assert(n * percent <= n * 100) by (nonlinear_arith)
        requires
            percent <= 100,
            0 <= n,
    ;
}

proof fn lemma_product(a: int, b: int, c: int, d: int)
    requires
        0 <= a <= b,
        0 <= c <= d,
    ensures
        a * c <= b * d,
        0 <= a * c,
{
    assert(a * c <= b * d && 0 <= a * c) by (nonlinear_arith)
        requires
            0 <= a <= b,
            0 <= c <= d,
    ;
}

proof fn lemma_reaches(len: int, src_w: int, src_h: int, w: int, h: int)
    requires
        0 <= w <= src_w,
        0 <= h <= src_h,
        src_w * src_h * 4 <= len,
    ensures
        reaches(len, src_w, w, h),
{
    if w > 0 && h > 0 {
        assert((h - 1) * src_w + w <= src_w * src_h) by (nonlinear_arith)
            requires
                0 < w <= src_w,
                0 < h <= src_h,
        ;
    }
}

} // verus!
