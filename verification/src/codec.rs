//! Video codec layer: one picture in, one bitstream out, and back.
//!
//! The baseline implementation is OpenH264 in software. What OpenH264 makes of a
//! picture, and whether it skips it, is its own affair; what it is given, when it
//! starts afresh and what is read out of its answer is decided here.
use vstd::prelude::*;

use crate::device::{
    make_decoder, DecoderDevice, EncoderDevice, Found, Making, RateControl,
    Usage,
};
use crate::pixels::{reaches, I420Buffer};
use crate::text::{chars_of, parse_u64, same};

verus! {

/// Whether a setting asks for speed over compression.
pub open spec fn asks_for_low_cpu(s: Seq<char>) -> bool {
    s == "1"@ || s == "true"@ || s == "yes"@
}

/// Whether to bias the encoder towards speed over compression, from the setting
/// that says so.
pub fn low_cpu(setting: Option<&str>) -> (r: bool)
    ensures
        r == (setting matches Some(s) && asks_for_low_cpu(s@)),
        setting is None ==> !r,
        setting matches Some(s) ==> (r <==> s@ == "1"@ || s@ == "true"@ || s@ == "yes"@),
{
    match setting {
        Some(s) => same(s, "1") || same(s, "true") || same(s, "yes"),
        None => false,
    }
}

/// `v` brought into `lo..=hi`.
pub open spec fn clamped(v: int, lo: int, hi: int) -> int {
    if v < lo {
        lo
    } else if v > hi {
        hi
    } else {
        v
    }
}

/// What is brought into a range lies in it, is left alone where it was in it, and is
/// otherwise the end that is nearer.
pub proof fn clamping_goes_to_the_nearest(v: int, lo: int, hi: int, other: int)
    requires
        lo <= other <= hi,
    ensures
        lo <= clamped(v, lo, hi) <= hi,
        lo <= v <= hi ==> clamped(v, lo, hi) == v,
        v < lo ==> clamped(v, lo, hi) <= other,
        v > hi ==> clamped(v, lo, hi) >= other,
{
}

/// The thread count that a setting asks for, where it is a number of 16 bits.
pub open spec fn asked_threads(setting: Option<&str>) -> Option<nat> {
    match setting {
        Some(s) => match crate::text::number_of(s@) {
            Some(n) => if n <= u16::MAX {
                Some(n)
            } else {
                None
            },
            None => None,
        },
        None => None,
    }
}

/// Slice count and thread count for the encoder.
///
/// More slices encode faster but cost a little compression, and past a handful
/// the returns flatten out, so without a setting this is half the cores, at least
/// 2 and at most 8. Where the number of cores is not known, 4 are taken.
pub fn encoder_threads(setting: Option<&str>, cores: Option<usize>) -> (r: u16)
    ensures
        r == match asked_threads(setting) {
            Some(n) => clamped(n as int, 1, 16),
            None => clamped(
                (match cores {
                    Some(c) => c as int,
                    None => 4int,
                }) / 2,
                2,
                8,
            ),
        },
        1 <= r <= 16,
        setting matches Some(s) ==> (crate::text::number_of(s@) matches Some(n) ==> 1 <= n <= 16
            ==> r == n),
        setting is None ==> 2 <= r <= 8,
        setting is None ==> (cores matches Some(c) ==> 4 <= c < 18 ==> r == c / 2),
{
    if let Some(s) = setting {
        if let Some(n) = parse_u64(&chars_of(s)) {
            if n <= 65535 {
                return if n < 1 {
                    1
                } else if n > 16 {
                    16
                } else {
                    n as u16
                };
            }
        }
    }
    let half: usize = match cores {
        Some(c) => c / 2,
        None => 2,
    };
    if half < 2 {
        2
    } else if half > 8 {
        8
    } else {
        half as u16
    }
}

/// One encoded picture.
pub struct EncodedFrame {
    pub data: Vec<u8>,
    pub keyframe: bool,
}

/// Why a picture could not be encoded, in OpenH264's words where it failed.
#[derive(Debug, PartialEq, Eq)]
pub enum EncodeError {
    /// Less than two columns or two rows.
    EmptyFrame,
    /// OpenH264 gave no encoder.
    NoEncoder { reason: String },
    /// The first picture, which is thrown away, failed.
    WarmUp { reason: String },
    Encode { reason: String },
}

/// Why a bitstream could not be decoded, in OpenH264's words.
#[derive(Debug, PartialEq, Eq)]
pub enum DecodeError {
    NoDecoder { reason: String },
    Decode { reason: String },
}

fn because(what: &str, reason: &str) -> (r: String)
    ensures
        r@ == what@ + ": "@ + reason@,
{
    let mut out = what.to_owned();
    out.push_str(": ");
    out.push_str(reason);
    out
}

impl EncodeError {
    /// What is said of it.
    pub fn message(&self) -> (r: String)
        ensures
            r@ == match self {
                EncodeError::EmptyFrame => "empty frame"@,
                EncodeError::NoEncoder { reason } => "failed to create OpenH264 encoder"@ + ": "@
                    + reason@,
                EncodeError::WarmUp { reason } => "encoder warm-up failed"@ + ": "@ + reason@,
                EncodeError::Encode { reason } => "encode failed"@ + ": "@ + reason@,
            },
    {
        match self {
            EncodeError::EmptyFrame => "empty frame".to_owned(),
            EncodeError::NoEncoder { reason } => because(
                "failed to create OpenH264 encoder",
                reason,
            ),
            EncodeError::WarmUp { reason } => because("encoder warm-up failed", reason),
            EncodeError::Encode { reason } => because("encode failed", reason),
        }
    }
}

impl DecodeError {
    /// What is said of it.
    pub fn message(&self) -> (r: String)
        ensures
            r@ == match self {
                DecodeError::NoDecoder { reason } => "failed to create OpenH264 decoder"@ + ": "@
                    + reason@,
                DecodeError::Decode { reason } => "decode failed"@ + ": "@ + reason@,
            },
    {
        match self {
            DecodeError::NoDecoder { reason } => because(
                "failed to create OpenH264 decoder",
                reason,
            ),
            DecodeError::Decode { reason } => because("decode failed", reason),
        }
    }
}

/// Whether an IDR unit, preceded by its start code, stands at `i`.
pub open spec fn idr_at(data: Seq<u8>, i: int) -> bool {
    0 <= i && i + 3 < data.len() && data[i] == 0 && data[i + 1] == 0 && data[i + 2] == 1 && data[i
        + 3] % 32 == 5
}

/// Whether an Annex-B bitstream holds an IDR unit (type 5).
pub open spec fn has_idr(data: Seq<u8>) -> bool {
    exists|i: int| idr_at(data, i)
}

/// An IDR unit is found wherever it stands, and only one of type 5 counts: the start code and
/// a unit of another type make no keyframe where there was none.
pub proof fn an_idr_is_found_anywhere(front: Seq<u8>, unit: u8, rest: Seq<u8>)
    ensures
        unit & 0x1f == 5 ==> has_idr(front + seq![0u8, 0u8, 1u8, unit] + rest),
        unit & 0x1f == 5 ==> has_idr(front + seq![0u8, 0u8, 0u8, 1u8, unit] + rest),
        unit & 0x1f != 5 ==> !has_idr(seq![0u8, 0u8, 1u8, unit]),
        unit & 0x1f != 5 ==> !has_idr(seq![0u8, 0u8, 0u8, 1u8, unit]),
        has_idr(front) ==> has_idr(front + rest),
        has_idr(rest) ==> has_idr(front + rest),
{
    assert(unit & 0x1f == unit % 32) by (bit_vector);
    if unit % 32 == 5 {
        let a = front + seq![0u8, 0u8, 1u8, unit] + rest;
        let b = front + seq![0u8, 0u8, 0u8, 1u8, unit] + rest;
        assert(idr_at(a, front.len() as int));
        assert(idr_at(b, front.len() as int + 1));
    }
    if has_idr(front) {
        let i = choose|i: int| idr_at(front, i);
        assert(idr_at(front + rest, i));
    }
    if has_idr(rest) {
        let i = choose|i: int| idr_at(rest, i);
        assert(idr_at(front + rest, front.len() + i));
    }
}

/// Scan an Annex-B bitstream for an IDR NAL unit (type 5).
pub fn contains_idr(data: &[u8]) -> (r: bool)
    ensures
        r == has_idr(data@),
{
    let len: usize = data.len();
    let mut i: usize = 0;
    while i < len && 3 < len - i
        invariant
            len == data@.len(),
            i <= len,
            forall|j: int| 0 <= j < i ==> !idr_at(data@, j),
        decreases len - i,
    {
        if data[i] == 0 && data[i + 1] == 0 {
            if data[i + 2] == 1 {
                if data[i + 3] % 32 == 5 {
                    assert(idr_at(data@, i as int));
                    return true;
                }
                i = i + 3;
            } else if 4 < len - i && data[i + 2] == 0 && data[i + 3] == 1 {
                if data[i + 4] % 32 == 5 {
                    assert(idr_at(data@, i + 1));
                    return true;
                }
                i = i + 4;
            } else {
                i = i + 1;
            }
        } else {
            i = i + 1;
        }
    }
    false
}

/// What a bitstream amounts to: nothing where it is empty, because the rate
/// controller skipped the picture, and otherwise a frame that knows whether it can
/// be decoded on its own.
pub fn delivered(data: Vec<u8>) -> (r: Option<EncodedFrame>)
    ensures
        match r {
            None => data@.len() == 0,
            Some(f) => data@.len() > 0 && f.data == data && f.keyframe == has_idr(data@),
        },
{
    if data.len() == 0 {
        return None;
    }
    let keyframe = contains_idr(&data);
    Some(EncodedFrame { data, keyframe })
}

/// `n` without its lowest bit.
pub open spec fn evened(n: u32) -> int {
    n - n % 2
}

/// Drops the lowest bit: 4:2:0 wants even dimensions.
pub fn even(n: u32) -> (r: u32)
    ensures
        r == evened(n),
        r % 2 == 0,
        n - 1 <= r <= n,
{
    n - n % 2
}

/// `a * 1000`, or the largest number there is.
pub open spec fn kilo(a: u32) -> int {
    if a * 1000 > u32::MAX {
        u32::MAX as int
    } else {
        a * 1000
    }
}

/// What an encoder is made with, for pictures of a desktop at a bitrate in kbit/s: desktops are
/// mostly flat colour and sharp text, and a picture may be skipped to hold the rate.
pub open spec fn making(bitrate_kbps: u32, max_fps: u16, threads: u16) -> Making {
    Making {
        usage: Usage::ScreenRealTime,
        rate: RateControl::Bitrate,
        bps: kilo(bitrate_kbps) as u32,
        fps: max_fps,
        skip: true,
        threads,
    }
}

fn desktop_making(bitrate_kbps: u32, max_fps: u16, threads: u16) -> (r: Making)
    ensures
        r == making(bitrate_kbps, max_fps, threads),
{
    let v: u64 = bitrate_kbps as u64 * 1000;
    let bps: u32 = if v > 0xFFFF_FFFF {
        0xFFFF_FFFF
    } else {
        v as u32
    };
    Making {
        usage: Usage::ScreenRealTime,
        rate: RateControl::Bitrate,
        bps,
        fps: max_fps,
        skip: true,
        threads,
    }
}

/// An H.264 encoder for a desktop.
pub struct H264Encoder {
    device: EncoderDevice,
    bitrate_kbps: u32,
    max_fps: u16,
    threads: u16,
    yuv: I420Buffer,
    dims: (u32, u32),
    pending_keyframe: bool,
}

impl H264Encoder {
    /// The dimensions that the encoder runs at, `(0, 0)` before the first picture.
    pub closed spec fn dims(&self) -> (u32, u32) {
        self.dims
    }

    /// The OpenH264 encoder that it runs, with its record.
    pub closed spec fn device(&self) -> EncoderDevice {
        self.device
    }

    /// Whether the next picture is to be a keyframe.
    pub closed spec fn pending(&self) -> bool {
        self.pending_keyframe
    }

    /// The picture last handed to OpenH264.
    pub closed spec fn picture(&self) -> I420Buffer {
        self.yuv
    }

    /// Bitrate in kbit/s, frames per second and threads that encoders are made
    /// with.
    pub closed spec fn settings(&self) -> (u32, u16, u16) {
        (self.bitrate_kbps, self.max_fps, self.threads)
    }

    /// An encoder around one that OpenH264 gave, if it did.
    pub fn around(
        made: Result<EncoderDevice, String>,
        bitrate_kbps: u32,
        max_fps: u16,
        threads: u16,
    ) -> (r: Result<Self, EncodeError>)
        ensures
            match made {
                Ok(d) => {
                    &&& r matches Ok(e) && e.device() == d && e.dims() == (0u32, 0u32)
                        && !e.pending() && e.settings() == (bitrate_kbps, max_fps, threads)
                },
                Err(reason) => r == Err::<Self, EncodeError>(EncodeError::NoEncoder { reason }),
            },
    {
        match made {
            Ok(device) => Ok(
                H264Encoder {
                    device,
                    bitrate_kbps,
                    max_fps,
                    threads,
                    yuv: I420Buffer::default(),
                    dims: (0, 0),
                    pending_keyframe: false,
                },
            ),
            Err(reason) => Err(EncodeError::NoEncoder { reason }),
        }
    }

    /// An encoder at a bitrate and frame rate, with as many threads as this. Whether there is
    /// one is for OpenH264 to say; [`Self::around`] says what comes of its answer.
    pub fn new(bitrate_kbps: u32, max_fps: u16, threads: u16) -> (r: Result<Self, EncodeError>)
        ensures
            match r {
                Ok(e) => {
                    &&& e.dims() == (0u32, 0u32)
                    &&& !e.pending()
                    &&& e.settings() == (bitrate_kbps, max_fps, threads)
                    &&& e.device().made() == making(bitrate_kbps, max_fps, threads)
                    &&& e.device().made().fps == max_fps
                    &&& e.device().made().threads == threads
                    &&& bitrate_kbps * 1000 <= u32::MAX ==> e.device().made().bps == bitrate_kbps
                        * 1000
                    &&& bitrate_kbps * 1000 > u32::MAX ==> e.device().made().bps == u32::MAX
                    &&& e.device().given().len() == 0
                    &&& !e.device().forced()
                },
                Err(e) => e is NoEncoder,
            },
    {
        let made = EncoderDevice::make(desktop_making(bitrate_kbps, max_fps, threads));
        Self::around(made, bitrate_kbps, max_fps, threads)
    }

    /// The OpenH264 encoder itself, for settings that this type does not have. What is done
    /// to it is done to the one that encodes from then on, and nothing else changes.
    pub fn raw(&mut self) -> (r: &mut openh264::encoder::Encoder)
        ensures
            *r == old(self).device().inner(),
            final(self).device().inner() == *final(r),
            final(self).device().made() == old(self).device().made(),
            final(self).device().forced() == old(self).device().forced(),
            final(self).device().given() == old(self).device().given(),
            final(self).dims() == old(self).dims(),
            final(self).pending() == old(self).pending(),
            final(self).picture() == old(self).picture(),
            final(self).settings() == old(self).settings(),
    {
        self.device.raw()
    }

    /// Brings the encoder to the dimensions of a picture. Says whether it had to
    /// be replaced.
    ///
    /// Where the resolution changed, the encoder starts afresh, so that the stream
    /// begins with new parameters and a keyframe. OpenH264 initializes on its
    /// first picture only, so one is encoded and thrown away; it uses up the
    /// automatic keyframe, so another is due.
    pub fn prepare(&mut self, width: u32, height: u32, bgra: &[u8]) -> (r: Result<
        bool,
        EncodeError,
    >)
        requires
            width <= i32::MAX,
            height <= i32::MAX,
            reaches(bgra@.len() as int, width as int, evened(width), evened(height)),
        ensures
            r matches Err(EncodeError::EmptyFrame) <==> width < 2 || height < 2,
            match r {
                Ok(false) => *final(self) == *old(self) && old(self).dims() == even_size(
                    width,
                    height,
                ),
                Ok(true) => begun_afresh(*old(self), *final(self), bgra@, width, height)
                    && final(self).device().given()[0].answer is Ok && final(self).pending(),
                Err(EncodeError::EmptyFrame) => *final(self) == *old(self),
                Err(EncodeError::NoEncoder { .. }) => *final(self) == *old(self) && old(self).dims()
                    != even_size(width, height),
                Err(EncodeError::WarmUp { reason }) => begun_afresh(
                    *old(self),
                    *final(self),
                    bgra@,
                    width,
                    height,
                ) && final(self).device().given()[0].answer == Err::<Seq<u8>, String>(reason)
                    && final(self).pending() == old(self).pending(),
                Err(EncodeError::Encode { .. }) => false,
            },
    {
        let (w, h): (u32, u32) = (even(width), even(height));
        if w == 0 || h == 0 {
            return Err(EncodeError::EmptyFrame);
        }
        if self.dims.0 == w && self.dims.1 == h {
            return Ok(false);
        }
        let m = desktop_making(self.bitrate_kbps, self.max_fps, self.threads);
        match EncoderDevice::make(m) {
            Ok(device) => {
                self.device = device;
            },
            Err(reason) => {
                return Err(EncodeError::NoEncoder { reason });
            },
        }
        self.dims = (w, h);
        self.yuv.fill_from_bgra(width, height, w, h, bgra);
        if let Err(reason) = self.device.encode(&self.yuv) {
            return Err(EncodeError::WarmUp { reason });
        }
        self.pending_keyframe = true;
        Ok(true)
    }
}

/// The dimensions at which a picture is encoded.
pub open spec fn even_size(width: u32, height: u32) -> (u32, u32) {
    (evened(width) as u32, evened(height) as u32)
}

/// Whether an encoder was replaced by one made with the same settings, which was given one
/// picture, this one.
pub open spec fn begun_afresh(
    before: H264Encoder,
    after: H264Encoder,
    bgra: Seq<u8>,
    width: u32,
    height: u32,
) -> bool {
    &&& before.dims() != even_size(width, height)
    &&& after.dims() == even_size(width, height)
    &&& after.settings() == before.settings()
    &&& after.picture().shows(bgra, width as int, evened(width), evened(height))
    &&& after.device().made() == making(
        before.settings().0,
        before.settings().1,
        before.settings().2,
    )
    &&& !after.device().forced()
    &&& after.device().given().len() == 1
    &&& after.device().given()[0].picture == after.picture()
    &&& !after.device().given()[0].forced
}

/// What a bitstream amounts to, or its absence.
pub open spec fn comes_to(
    answer: Result<Seq<u8>, String>,
    r: Result<Option<EncodedFrame>, EncodeError>,
) -> bool {
    match answer {
        Err(reason) => r == Err::<Option<EncodedFrame>, EncodeError>(
            EncodeError::Encode { reason },
        ),
        Ok(data) => match r {
            Ok(None) => data.len() == 0,
            Ok(Some(f)) => data.len() > 0 && f.data@ == data && f.keyframe == has_idr(data),
            Err(_) => false,
        },
    }
}

/// Whether an encoder is as it was but for a keyframe that is due.
pub open spec fn only_due(before: H264Encoder, pending: bool, after: H264Encoder) -> bool {
    &&& after.device() == before.device()
    &&& after.dims() == before.dims()
    &&& after.picture() == before.picture()
    &&& after.settings() == before.settings()
    &&& after.pending() == pending
}

/// What encoding a picture does to an encoder for which a keyframe is due or not, and what
/// comes back.
///
/// A picture without pixels changes nothing. Where the resolution changed, the encoder starts
/// afresh with the settings it has, and is given the picture once to throw the answer away; a
/// keyframe is due then. Then the picture is given, a keyframe having been asked for if one was
/// due, and the answer is what comes back.
pub open spec fn encoding(
    before: H264Encoder,
    pending: bool,
    after: H264Encoder,
    bgra: Seq<u8>,
    width: u32,
    height: u32,
    r: Result<Option<EncodedFrame>, EncodeError>,
) -> bool {
    let changed = before.dims() != even_size(width, height);
    let given = after.device().given();
    &&& (r matches Err(EncodeError::EmptyFrame)) == (width < 2 || height < 2)
    &&& match r {
        Err(EncodeError::EmptyFrame) => only_due(before, pending, after),
        Err(EncodeError::NoEncoder { .. }) => changed && only_due(before, pending, after),
        Err(EncodeError::WarmUp { reason }) => {
            &&& begun_afresh(before, after, bgra, width, height)
            &&& given[0].answer == Err::<Seq<u8>, String>(reason)
            &&& after.pending() == pending
        },
        _ => {
            &&& after.dims() == even_size(width, height)
            &&& after.settings() == before.settings()
            &&& !after.pending()
            &&& !after.device().forced()
            &&& after.picture().shows(bgra, width as int, evened(width), evened(height))
            &&& given.len() > 0
            &&& given.last().picture == after.picture()
            &&& given.last().forced == (pending || changed || before.device().forced())
            &&& comes_to(given.last().answer, r)
            &&& if changed {
                &&& after.device().made() == making(
                    before.settings().0,
                    before.settings().1,
                    before.settings().2,
                )
                &&& given.len() == 2
                &&& given[0].picture.shows(bgra, width as int, evened(width), evened(height))
                &&& !given[0].forced
                &&& given[0].answer is Ok
            } else {
                &&& after.device().made() == before.device().made()
                &&& given.drop_last() == before.device().given()
            }
        },
    }
}

/// An encoder of BGRA pictures.
pub trait VideoEncoder {
    /// Whether a buffer of this many bytes can hold a picture of these dimensions.
    spec fn accepts(width: u32, height: u32, len: int) -> bool;

    /// Encode one BGRA frame. `None` where the rate controller decided to skip it.
    fn encode_bgra(&mut self, width: u32, height: u32, bgra: &[u8]) -> (r: Result<
        Option<EncodedFrame>,
        EncodeError,
    >)
        requires
            Self::accepts(width, height, bgra@.len() as int),
    ;

    /// Make the next frame a keyframe.
    fn force_keyframe(&mut self);
}

impl VideoEncoder for H264Encoder {
    open spec fn accepts(width: u32, height: u32, len: int) -> bool {
        &&& width <= i32::MAX
        &&& height <= i32::MAX
        &&& reaches(len, width as int, evened(width), evened(height))
    }

    fn encode_bgra(&mut self, width: u32, height: u32, bgra: &[u8]) -> (r: Result<
        Option<EncodedFrame>,
        EncodeError,
    >)
        ensures
            encoding(
                *old(self),
                old(self).pending(),
                *final(self),
                bgra@,
                width,
                height,
                r,
            ),
            r is Ok ==> evened(width) <= 3840 && evened(height) <= 3840,
            r is Ok ==> ({
                let given = final(self).device().given();
                let (w, h) = (width - width % 2, height - height % 2);
                &&& width >= 2 && height >= 2
                &&& final(self).dims() == (w as u32, h as u32)
                &&& !final(self).pending()
                &&& given.len() > 0
                &&& given.last().picture.shows(bgra@, width as int, w as int, h as int)
                // A keyframe that was asked for is made, and so is one for a new size.
                &&& old(self).pending() || old(self).dims() != (w as u32, h as u32)
                    ==> given.last().forced
                &&& given.last().answer matches Ok(data) && match r {
                    Ok(Some(f)) => f.data@ == data && f.keyframe == has_idr(data),
                    _ => data.len() == 0,
                }
            }),
    {
        match self.prepare(width, height, bgra) {
            Ok(_) => {},
            Err(e) => {
                return Err(e);
            },
        }
        let (w, h): (u32, u32) = (even(width), even(height));
        if self.pending_keyframe {
            self.device.force_intra_frame();
            self.pending_keyframe = false;
        }
        self.yuv.fill_from_bgra(width, height, w, h, bgra);
        let ghost earlier = self.device.given();
        let answer = self.device.encode(&self.yuv);
        assert(self.device.given().drop_last() =~= earlier);
        match answer {
            Ok(data) => Ok(delivered(data)),
            Err(reason) => Err(EncodeError::Encode { reason }),
        }
    }

    fn force_keyframe(&mut self)
        ensures
            only_due(*old(self), true, *final(self)),
            final(self).pending(),
            final(self).device() == old(self).device(),
            final(self).dims() == old(self).dims(),
    {
        self.pending_keyframe = true;
    }
}

/// A decoder into pictures of four bytes per pixel.
pub trait VideoDecoder {
    /// Feed one encoded frame. On success `out` holds BGRA pixels and the
    /// dimensions come back; `None` where more data is needed.
    fn decode_to_bgra(&mut self, data: &[u8], out: &mut Vec<u8>) -> (r: Result<
        Option<(u32, u32)>,
        DecodeError,
    >)
        requires
            data@.len() <= i32::MAX,
    ;

    /// The same, with the channels in RGBA order.
    fn decode_to_rgba(&mut self, data: &[u8], out: &mut Vec<u8>) -> (r: Result<
        Option<(u32, u32)>,
        DecodeError,
    >)
        requires
            data@.len() <= i32::MAX,
    ;
}

/// An H.264 decoder.
pub struct H264Decoder {
    device: DecoderDevice,
}

impl H264Decoder {
    /// The OpenH264 decoder that it runs, with its record.
    pub closed spec fn device(&self) -> DecoderDevice {
        self.device
    }

    /// A decoder around one that OpenH264 gave, if it did.
    pub fn around(made: Result<openh264::decoder::Decoder, String>) -> (r: Result<
        Self,
        DecodeError,
    >)
        ensures
            match made {
                Ok(decoder) => r matches Ok(d) && d.device().inner() == decoder
                    && d.device().fed().len() == 0,
                Err(reason) => r == Err::<Self, DecodeError>(DecodeError::NoDecoder { reason }),
            },
    {
        match made {
            Ok(decoder) => Ok(H264Decoder { device: DecoderDevice::fresh(decoder) }),
            Err(reason) => Err(DecodeError::NoDecoder { reason }),
        }
    }

    /// A decoder that has seen nothing yet. Whether there is one is for OpenH264 to say;
    /// [`Self::around`] says what comes of its answer.
    pub fn new() -> (r: Result<Self, DecodeError>)
        ensures
            match r {
                Ok(d) => d.device().fed().len() == 0,
                Err(e) => e is NoDecoder,
            },
    {
        Self::around(make_decoder())
    }
}

/// `px` with red and blue exchanged in every pixel. A rest of less than a pixel
/// stays.
pub open spec fn red_blue_swapped(px: Seq<u8>) -> Seq<u8> {
    Seq::new(
        px.len(),
        |i: int|
            if i / 4 * 4 + 4 > px.len() {
                px[i]
            } else if i % 4 == 0 {
                px[i + 2]
            } else if i % 4 == 2 {
                px[i - 2]
            } else {
                px[i]
            },
    )
}

/// Exchanges red and blue in every pixel.
pub fn swap_red_blue(px: &mut Vec<u8>)
    ensures
        final(px)@ == red_blue_swapped(old(px)@),
        final(px)@.len() == old(px)@.len(),
        forall|k: int|
            0 <= k && 4 * k + 4 <= old(px)@.len() ==> {
                &&& #[trigger] final(px)@[4 * k] == old(px)@[4 * k + 2]
                &&& final(px)@[4 * k + 1] == old(px)@[4 * k + 1]
                &&& final(px)@[4 * k + 2] == old(px)@[4 * k]
                &&& final(px)@[4 * k + 3] == old(px)@[4 * k + 3]
            },
{
    let mut i: usize = 0;
    while i < px.len() && 4 <= px.len() - i
        invariant
            i % 4 == 0,
            i <= px.len(),
            px.len() == old(px)@.len(),
            forall|j: int| 0 <= j < i ==> px@[j] == red_blue_swapped(old(px)@)[j],
            forall|j: int| i <= j < px.len() ==> px@[j] == old(px)@[j],
        decreases px.len() - i,
    {
        let blue: u8 = px[i];
        let red: u8 = px[i + 2];
        px.set(i, red);
        px.set(i + 2, blue);
        i = i + 4;
    }
    assert(px@ =~= red_blue_swapped(old(px)@));
}

/// The first and the third byte of every pixel change places, and no other byte moves.
pub proof fn red_and_blue_change_places(px: Seq<u8>, k: int)
    requires
        0 <= k,
        4 * k + 4 <= px.len(),
    ensures
        red_blue_swapped(px).len() == px.len(),
        red_blue_swapped(px).subrange(4 * k, 4 * k + 4) == seq![
            px[4 * k + 2],
            px[4 * k + 1],
            px[4 * k],
            px[4 * k + 3],
        ],
{
    assert(red_blue_swapped(px).subrange(4 * k, 4 * k + 4) =~= seq![
        px[4 * k + 2],
        px[4 * k + 1],
        px[4 * k],
        px[4 * k + 3],
    ]);
}

/// Exchanging red and blue twice changes nothing.
pub proof fn swapping_twice_changes_nothing(px: Seq<u8>)
    ensures
        red_blue_swapped(red_blue_swapped(px)) == px,
{
    assert(red_blue_swapped(red_blue_swapped(px)) =~= px);
}

/// What comes of a bitstream that a decoder was given last: a picture replaces what there was,
/// with its channels as they are or with red and blue exchanged, and anything else leaves it.
pub open spec fn decoding(
    before: H264Decoder,
    after: H264Decoder,
    data: Seq<u8>,
    swapped: bool,
    old_out: Seq<u8>,
    out: Seq<u8>,
    r: Result<Option<(u32, u32)>, DecodeError>,
) -> bool {
    let fed = after.device().fed();
    &&& fed.len() == before.device().fed().len() + 1
    &&& fed.drop_last() == before.device().fed()
    &&& fed.last().data == data
    &&& taking(fed.last().answer, swapped, old_out, out, r)
}

/// What comes of what was found in a bitstream.
pub open spec fn taking(
    answer: Found,
    swapped: bool,
    old_out: Seq<u8>,
    out: Seq<u8>,
    r: Result<Option<(u32, u32)>, DecodeError>,
) -> bool {
    match answer {
        Ok(Some(p)) => {
            &&& r == Ok::<Option<(u32, u32)>, DecodeError>(Some((p.0, p.1)))
            &&& out == if swapped {
                red_blue_swapped(p.2@)
            } else {
                p.2@
            }
        },
        Ok(None) => r == Ok::<Option<(u32, u32)>, DecodeError>(None) && out == old_out,
        Err(reason) => {
            &&& r == Err::<Option<(u32, u32)>, DecodeError>(DecodeError::Decode { reason })
            &&& out == old_out
        },
    }
}

/// Takes over what OpenH264 found: a picture replaces `out`, and anything else leaves it.
pub fn take_rgba(found: Found, out: &mut Vec<u8>) -> (r: Result<Option<(u32, u32)>, DecodeError>)
    ensures
        taking(found, false, old(out)@, final(out)@, r),
        match found {
            Ok(Some(p)) => final(out)@ == p.2@ && r == Ok::<Option<(u32, u32)>, DecodeError>(
                Some((p.0, p.1)),
            ),
            _ => final(out)@ == old(out)@ && !(r matches Ok(Some(_))),
        },
{
    match found {
        Ok(Some(p)) => {
            *out = p.2;
            Ok(Some((p.0, p.1)))
        },
        Ok(None) => Ok(None),
        Err(reason) => Err(DecodeError::Decode { reason }),
    }
}

/// The same, with the picture in BGRA order.
pub fn take_bgra(found: Found, out: &mut Vec<u8>) -> (r: Result<Option<(u32, u32)>, DecodeError>)
    ensures
        taking(found, true, old(out)@, final(out)@, r),
        match found {
            Ok(Some(p)) => {
                &&& r == Ok::<Option<(u32, u32)>, DecodeError>(Some((p.0, p.1)))
                &&& final(out)@.len() == p.2@.len()
                &&& forall|k: int|
                    0 <= k && 4 * k + 4 <= p.2@.len() ==> {
                        &&& #[trigger] final(out)@[4 * k] == p.2@[4 * k + 2]
                        &&& final(out)@[4 * k + 1] == p.2@[4 * k + 1]
                        &&& final(out)@[4 * k + 2] == p.2@[4 * k]
                        &&& final(out)@[4 * k + 3] == p.2@[4 * k + 3]
                    }
            },
            _ => final(out)@ == old(out)@ && !(r matches Ok(Some(_))),
        },
{
    let taken = take_rgba(found, out);
    if let Ok(Some(_)) = taken {
        swap_red_blue(out);
    }
    taken
}

impl VideoDecoder for H264Decoder {
    fn decode_to_bgra(&mut self, data: &[u8], out: &mut Vec<u8>) -> (r: Result<
        Option<(u32, u32)>,
        DecodeError,
    >)
        ensures
            decoding(*old(self), *final(self), data@, true, old(out)@, final(out)@, r),
            r matches Ok(Some(dims)) ==> final(out)@.len() == dims.0 * dims.1 * 4,
    {
        let ghost earlier = self.device.fed();
        let found = self.device.decode(data);
        assert(self.device.fed().drop_last() =~= earlier);
        take_bgra(found, out)
    }

    fn decode_to_rgba(&mut self, data: &[u8], out: &mut Vec<u8>) -> (r: Result<
        Option<(u32, u32)>,
        DecodeError,
    >)
        ensures
            decoding(*old(self), *final(self), data@, false, old(out)@, final(out)@, r),
            r matches Ok(Some(dims)) ==> final(out)@.len() == dims.0 * dims.1 * 4,
    {
        let ghost earlier = self.device.fed();
        let found = self.device.decode(data);
        assert(self.device.fed().drop_last() =~= earlier);
        take_rgba(found, out)
    }
}

} // verus!
