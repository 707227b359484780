//! OpenH264 itself, with a record of what it was given and what it answered.
//!
//! What OpenH264 makes of a picture or a bitstream is its own affair and depends on everything
//! it was given before. The record, which exists in proofs only, says what that was: nothing
//! but the calls below adds to it.
use openh264::encoder::{EncoderConfig, RateControlMode, UsageType};
use openh264::formats::YUVSource;
use openh264::OpenH264API;
use vstd::prelude::*;

use crate::pixels::I420Buffer;

verus! {

/// An OpenH264 encoder.
#[verifier::external_type_specification]
#[verifier::external_body]
pub struct ExEncoder(openh264::encoder::Encoder);

/// An OpenH264 decoder.
#[verifier::external_type_specification]
#[verifier::external_body]
pub struct ExDecoder(openh264::decoder::Decoder);

/// What kind of pictures an encoder is tuned for.
#[derive(Debug, Clone, Copy, PartialEq, Eq, Structural)]
pub enum Usage {
    CameraRealTime,
    ScreenRealTime,
}

/// What an encoder holds its rate to.
#[derive(Debug, Clone, Copy, PartialEq, Eq, Structural)]
pub enum RateControl {
    Quality,
    Bitrate,
}

/// What an encoder is made with: bits and frames per second among it, whether it may skip
/// pictures, and how many threads it may use.
#[derive(Debug, Clone, Copy, PartialEq, Eq, Structural)]
pub struct Making {
    pub usage: Usage,
    pub rate: RateControl,
    pub bps: u32,
    pub fps: u16,
    pub skip: bool,
    pub threads: u16,
}

/// One picture that an encoder was given, whether a keyframe had been asked for since the
/// picture before, and the bitstream that came back, or why none did.
pub struct Handed {
    pub picture: I420Buffer,
    pub forced: bool,
    pub answer: Result<Seq<u8>, String>,
}

/// An OpenH264 encoder and its record.
pub struct EncoderDevice {
    inner: openh264::encoder::Encoder,
    made: Ghost<Making>,
    forced: Ghost<bool>,
    given: Ghost<Seq<Handed>>,
}

impl EncoderDevice {
    /// The encoder itself.
    pub closed spec fn inner(&self) -> openh264::encoder::Encoder {
        self.inner
    }

    /// What it was made with.
    pub closed spec fn made(&self) -> Making {
        self.made@
    }

    /// Whether a keyframe was asked for since the last picture.
    pub closed spec fn forced(&self) -> bool {
        self.forced@
    }

    /// Every picture that it was given, in order.
    pub closed spec fn given(&self) -> Seq<Handed> {
        self.given@
    }

    /// `Encoder::with_api_config` on the built-in OpenH264. What comes back is an encoder made
    /// with these settings, which was given nothing yet, or what OpenH264 says of its failure.
    #[verifier::external_body]
    pub(crate) fn make(m: Making) -> (r: Result<EncoderDevice, String>)
        ensures
            r matches Ok(d) ==> d.made() == m && !d.forced() && d.given().len() == 0,
    {
        let usage = match m.usage {
            Usage::CameraRealTime => UsageType::CameraVideoRealTime,
            Usage::ScreenRealTime => UsageType::ScreenContentRealTime,
        };
        let rate = match m.rate {
            RateControl::Quality => RateControlMode::Quality,
            RateControl::Bitrate => RateControlMode::Bitrate,
        };
        let config = EncoderConfig::new().usage_type(usage).rate_control_mode(rate)
            .set_bitrate_bps(m.bps).max_frame_rate(m.fps.into())
            .enable_skip_frame(m.skip).set_multiple_thread_idc(m.threads);
        match openh264::encoder::Encoder::with_api_config(OpenH264API::from_source(), config) {
            Ok(inner) => Ok(EncoderDevice { inner, made: Ghost(m), forced: Ghost(false), given: Ghost(Seq::empty()) }),
            Err(e) => Err(e.to_string()),
        }
    }

    /// `Encoder::force_intra_frame`: the next picture is to be a keyframe. What is claimed is
    /// that it was asked for; what OpenH264 makes of it is not.
    #[verifier::external_body]
    pub(crate) fn force_intra_frame(&mut self)
        ensures
            final(self).forced(),
            final(self).made() == old(self).made(),
            final(self).given() == old(self).given(),
    {
        self.inner.force_intra_frame()
    }

    /// `Encoder::encode`, with the bitstream copied out. What is claimed is which picture was
    /// given and what came back; the bitstream depends on everything that was given before, so
    /// nothing is claimed of its bytes. OpenH264 refuses pictures larger than 3840 by 2160,
    /// either way round.
    #[verifier::external_body]
    pub(crate) fn encode(&mut self, yuv: &I420Buffer) -> (r: Result<Vec<u8>, String>)
        requires
            yuv.wf(),
            yuv.width <= i32::MAX,
            yuv.height <= i32::MAX,
        ensures
            !final(self).forced(),
            final(self).made() == old(self).made(),
            final(self).given() == old(self).given().push(
                Handed {
                    picture: *yuv,
                    forced: old(self).forced(),
                    answer: match r {
                        Ok(data) => Ok(data@),
                        Err(reason) => Err(reason),
                    },
                },
            ),
            r is Ok ==> yuv.width <= 3840 && yuv.height <= 3840 && (yuv.width <= 2160 || yuv.height
                <= 2160),
    {
        let planes = (yuv.y.as_slice(), yuv.u.as_slice(), yuv.v.as_slice());
        let picture = openh264::formats::YUVSlices::new(planes, yuv.dimensions(), yuv.strides());
        match self.inner.encode(&picture) {
            Ok(bitstream) => Ok(bitstream.to_vec()),
            Err(e) => Err(e.to_string()),
        }
    }

    /// The encoder itself, for settings that this type does not have.
    pub(crate) fn raw(&mut self) -> (r: &mut openh264::encoder::Encoder)
        ensures
            *r == old(self).inner(),
            final(self).inner() == *final(r),
            final(self).made() == old(self).made(),
            final(self).forced() == old(self).forced(),
            final(self).given() == old(self).given(),
    {
        &mut self.inner
    }
}

/// What OpenH264 found in a bitstream: columns, rows and RGBA bytes of a picture, nothing
/// yet, or why it failed.
pub type Found = Result<Option<(u32, u32, Vec<u8>)>, String>;

/// One bitstream that a decoder was given, and what it found there.
pub struct Fed {
    pub data: Seq<u8>,
    pub answer: Found,
}

/// An OpenH264 decoder and its record.
pub struct DecoderDevice {
    inner: openh264::decoder::Decoder,
    fed: Ghost<Seq<Fed>>,
}

/// `Decoder::with_api_config` on the built-in OpenH264, with default settings: a decoder, or
/// what OpenH264 says of its failure. Nothing is claimed of either.
#[verifier::external_body]
pub(crate) fn make_decoder() -> (r: Result<openh264::decoder::Decoder, String>) {
    let config = openh264::decoder::DecoderConfig::new();
    match openh264::decoder::Decoder::with_api_config(OpenH264API::from_source(), config) {
        Ok(decoder) => Ok(decoder),
        Err(e) => Err(e.to_string()),
    }
}

impl DecoderDevice {
    /// The decoder itself.
    pub closed spec fn inner(&self) -> openh264::decoder::Decoder {
        self.inner
    }

    /// Every bitstream that it was given, in order.
    pub closed spec fn fed(&self) -> Seq<Fed> {
        self.fed@
    }

    /// A decoder that was given nothing yet.
    pub(crate) fn fresh(inner: openh264::decoder::Decoder) -> (r: Self)
        ensures
            r.inner() == inner,
            r.fed().len() == 0,
    {
        DecoderDevice { inner, fed: Ghost(Seq::empty()) }
    }

    /// `Decoder::decode` and `DecodedYUV::write_rgba8`: columns, rows and RGBA bytes of the
    /// latest picture, if there is one. What is claimed is which bitstream was given, what came
    /// back, and that a picture has four bytes for each pixel; the picture depends on everything
    /// that was given before.
    #[verifier::external_body]
    pub(crate) fn decode(&mut self, data: &[u8]) -> (r: Found)
        requires
            data.len() <= i32::MAX,
        ensures
            final(self).fed() == old(self).fed().push(Fed { data: data@, answer: r }),
            r matches Ok(Some(p)) ==> p.2@.len() == p.0 * p.1 * 4,
    {
        match self.inner.decode(data) {
            Err(e) => Err(e.to_string()),
            Ok(None) => Ok(None),
            Ok(Some(yuv)) => {
                let mut rgba = vec![0u8; yuv.estimate_rgba_u8_size()];
                yuv.write_rgba8(&mut rgba);
                let (w, h) = yuv.dimensions();
                Ok(Some((w as u32, h as u32, rgba)))
            },
        }
    }
}

} // verus!
