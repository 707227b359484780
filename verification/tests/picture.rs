//! Pictures: shrinking, colour conversion, the codec, and frames that arrive out of order.
use telekin::codec::{
    contains_idr, delivered, encoder_threads, even, low_cpu, swap_red_blue, take_bgra, take_rgba,
    EncodeError, EncodedFrame, H264Decoder, H264Encoder, VideoDecoder, VideoEncoder,
};
use telekin::pixels::{chroma, downscale_bgra, luma, I420Buffer};
use telekin::proto::{Codec, FrameHeader};
use telekin::reorder::{Arrived, Reorder, REORDER_WINDOW};
use telekin::session::StreamConfig;
use telekin::stream::{Outbox, Pipeline};

/// Four solid quadrants: red, green, blue, white. Colour errors show up immediately as
/// swapped or washed-out corners.
fn test_pattern(w: u32, h: u32) -> Vec<u8> {
    let mut buf = vec![0u8; (w * h * 4) as usize];
    for y in 0..h {
        for x in 0..w {
            let (b, g, r) = match (x < w / 2, y < h / 2) {
                (true, true) => (0, 0, 255),
                (false, true) => (0, 255, 0),
                (true, false) => (255, 0, 0),
                (false, false) => (255, 255, 255),
            };
            let p = ((y * w + x) * 4) as usize;
            buf[p] = b;
            buf[p + 1] = g;
            buf[p + 2] = r;
            buf[p + 3] = 255;
        }
    }
    buf
}

fn sample(pixels: &[u8], w: u32, x: u32, y: u32) -> (u8, u8, u8) {
    let p = ((y * w + x) * 4) as usize;
    (pixels[p], pixels[p + 1], pixels[p + 2]) // B, G, R
}

#[test]
fn encode_decode_roundtrip_preserves_colours() {
    const W: u32 = 320;
    const H: u32 = 240;

    let mut encoder = H264Encoder::new(8_000, 30, 1).unwrap();
    let mut decoder = H264Decoder::new().unwrap();
    let source = test_pattern(W, H);

    let encoded = encoder
        .encode_bgra(W, H, &source)
        .unwrap()
        .expect("first frame must produce a bitstream");
    assert!(encoded.keyframe, "the first frame must be an IDR");

    let mut out = Vec::new();
    let (dw, dh) = decoder
        .decode_to_bgra(&encoded.data, &mut out)
        .unwrap()
        .expect("keyframe must decode to a picture");
    assert_eq!((dw, dh), (W, H));
    assert_eq!(out.len(), (W * H * 4) as usize);

    // Sample well inside each quadrant, away from block edges. H.264 is lossy, so assert
    // the dominant channel rather than exact values.
    let (b, g, r) = sample(&out, W, W / 4, H / 4);
    assert!(r > 150 && g < 100 && b < 100, "top-left should be red, got {r},{g},{b}");

    let (b, g, r) = sample(&out, W, 3 * W / 4, H / 4);
    assert!(g > 150 && r < 120 && b < 120, "top-right should be green, got {r},{g},{b}");

    let (b, g, r) = sample(&out, W, W / 4, 3 * H / 4);
    assert!(b > 150 && r < 100 && g < 100, "bottom-left should be blue, got {r},{g},{b}");

    let (b, g, r) = sample(&out, W, 3 * W / 4, 3 * H / 4);
    assert!(r > 245 && g > 245 && b > 245, "bottom-right should be white, got {r},{g},{b}");
}

/// A solid frame of one colour, BGRA.
fn solid(w: u32, h: u32, (r, g, b): (u8, u8, u8)) -> Vec<u8> {
    [b, g, r, 255].repeat((w * h) as usize)
}

/// Encode one solid frame and return the decoded colour at the centre.
fn roundtrip_solid(rgb: (u8, u8, u8)) -> (u8, u8, u8) {
    const W: u32 = 160;
    const H: u32 = 120;
    let mut encoder = H264Encoder::new(8_000, 30, 1).unwrap();
    let mut decoder = H264Decoder::new().unwrap();
    let encoded = encoder.encode_bgra(W, H, &solid(W, H, rgb)).unwrap().unwrap();
    let mut out = Vec::new();
    decoder.decode_to_bgra(&encoded.data, &mut out).unwrap().unwrap();
    let (b, g, r) = sample(&out, W, W / 2, H / 2);
    (r, g, b)
}

#[test]
fn white_stays_white_and_black_stays_black() {
    let (r, g, b) = roundtrip_solid((255, 255, 255));
    assert!(r >= 250 && g >= 250 && b >= 250, "white decoded as {r},{g},{b}");
    let (r, g, b) = roundtrip_solid((0, 0, 0));
    assert!(r <= 5 && g <= 5 && b <= 5, "black decoded as {r},{g},{b}");
    // A mid grey should land near itself, not be stretched or squeezed.
    let (r, g, b) = roundtrip_solid((128, 128, 128));
    assert!(
        (120..=136).contains(&r) && (120..=136).contains(&g) && (120..=136).contains(&b),
        "grey 128 decoded as {r},{g},{b}"
    );
}

#[test]
fn primaries_keep_their_saturation() {
    let (r, g, b) = roundtrip_solid((255, 0, 0));
    assert!(r >= 240 && g <= 15 && b <= 15, "red decoded as {r},{g},{b}");
    let (r, g, b) = roundtrip_solid((0, 0, 255));
    assert!(b >= 240 && r <= 15 && g <= 15, "blue decoded as {r},{g},{b}");
}

#[test]
fn odd_dimensions_are_cropped_to_even() {
    let mut encoder = H264Encoder::new(4_000, 30, 1).unwrap();
    let source = test_pattern(101, 51);
    let encoded = encoder.encode_bgra(101, 51, &source).unwrap().unwrap();

    let mut decoder = H264Decoder::new().unwrap();
    let mut out = Vec::new();
    let (w, h) = decoder.decode_to_bgra(&encoded.data, &mut out).unwrap().unwrap();
    assert_eq!((w, h), (100, 50));
}

#[test]
fn keyframe_is_requested_on_demand() {
    const W: u32 = 160;
    const H: u32 = 120;
    let mut encoder = H264Encoder::new(4_000, 30, 1).unwrap();
    let source = test_pattern(W, H);

    // Frame 0 is always an IDR.
    assert!(encoder.encode_bgra(W, H, &source).unwrap().unwrap().keyframe);
    // An identical frame right after should not need one...
    let second = encoder.encode_bgra(W, H, &source).unwrap();
    assert!(second.is_none_or(|f| !f.keyframe));
    // ...until we ask.
    encoder.force_keyframe();
    let forced =
        encoder.encode_bgra(W, H, &source).unwrap().expect("a forced keyframe is never skipped");
    assert!(forced.keyframe);
}

#[test]
fn red_and_blue_change_places_for_the_window() {
    const W: u32 = 160;
    const H: u32 = 120;
    let mut encoder = H264Encoder::new(8_000, 30, 1).unwrap();
    let mut decoder = H264Decoder::new().unwrap();
    let encoded = encoder.encode_bgra(W, H, &solid(W, H, (255, 0, 0))).unwrap().unwrap();
    let mut out = Vec::new();
    decoder.decode_to_rgba(&encoded.data, &mut out).unwrap().unwrap();
    let (first, _, third) = sample(&out, W, W / 2, H / 2);
    assert!(first >= 240 && third <= 15, "red comes first, got {first} and {third}");

    let mut px = vec![1, 2, 3, 4, 5, 6, 7, 8];
    swap_red_blue(&mut px);
    assert_eq!(px, [3, 2, 1, 4, 7, 6, 5, 8]);
    swap_red_blue(&mut px);
    assert_eq!(px, [1, 2, 3, 4, 5, 6, 7, 8]);
}

#[test]
fn pictures_that_cannot_be_encoded_are_refused() {
    let mut encoder = H264Encoder::new(4_000, 30, 1).unwrap();
    assert_eq!(encoder.encode_bgra(1, 10, &[0; 40]).err(), Some(EncodeError::EmptyFrame));
    assert_eq!(encoder.encode_bgra(10, 0, &[]).err(), Some(EncodeError::EmptyFrame));
}

#[test]
fn threads_and_the_low_cpu_setting() {
    assert!(low_cpu(Some("1")));
    assert!(!low_cpu(None));
    assert_eq!(encoder_threads(Some("3"), Some(8)), 3);
    assert_eq!(encoder_threads(Some("99"), Some(8)), 16);
    assert_eq!(encoder_threads(None, Some(8)), 4);
    assert_eq!(encoder_threads(Some("many"), None), 2);
    assert_eq!(even(7), 6);
    assert!(contains_idr(&[0, 0, 1, 0x65]));
    assert!(!contains_idr(&[0, 0, 1, 0x41]));
    assert!(delivered(vec![]).is_none());
    assert!(delivered(vec![0, 0, 1, 0x65]).expect("a frame").keyframe);
}

#[test]
fn a_picture_shrinks_to_averages() {
    let src = [
        10, 20, 30, 0, 20, 40, 60, 0, //
        30, 60, 90, 0, 40, 80, 120, 0,
    ];
    assert_eq!(downscale_bgra(&src, 2, 2, 1, 1), [25, 50, 75, 255]);
    let same = downscale_bgra(&src, 2, 2, 2, 2);
    assert_eq!(&same[..4], &[10, 20, 30, 255]);
}

#[test]
fn planes_hold_brightness_and_colour() {
    assert_eq!(luma((0, 0, 0)), 0);
    assert_eq!(luma((255, 255, 255)), 255);
    assert_eq!(chroma(128, 128, 128), (128, 128));
    let mut yuv = I420Buffer::default();
    let grey = solid(4, 2, (77, 77, 77));
    yuv.fill_from_bgra(4, 2, 4, 2, &grey);
    assert_eq!(yuv.dimensions(), (4, 2));
    assert_eq!(yuv.strides(), (4, 2, 2));
    assert!(yuv.y.iter().all(|p| *p == 77));
    assert!(yuv.u.iter().chain(yuv.v.iter()).all(|p| *p == 128));
}

fn arrived(frame_id: u64, keyframe: bool) -> Arrived {
    Arrived {
        header: FrameHeader {
            frame_id,
            codec: Codec::H264,
            width: 2,
            height: 2,
            keyframe,
            timestamp_us: 0,
        },
        data: vec![frame_id as u8],
    }
}

#[test]
fn frames_leave_in_order() {
    let mut r = Reorder::new();
    let ids = |frames: &Vec<Arrived>| frames.iter().map(|f| f.header.frame_id).collect::<Vec<_>>();
    assert_eq!(ids(&r.receive(arrived(0, true)).frames), [0]);
    assert!(r.receive(arrived(2, false)).frames.is_empty());
    let released = r.receive(arrived(1, false));
    assert_eq!(ids(&released.frames), [1, 2]);
    assert_eq!(released.keyframe_requests, 0);
}

#[test]
fn a_lost_frame_is_given_up_on_once_the_window_is_full() {
    let mut r = Reorder::new();
    r.receive(arrived(0, true));
    let mut requests = 0;
    let mut out = Vec::new();
    for id in 2..(2 + REORDER_WINDOW as u64 + 1) {
        let released = r.receive(arrived(id, false));
        requests += released.keyframe_requests;
        out.extend(released.frames.iter().map(|f| f.header.frame_id));
    }
    assert_eq!(requests, 1);
    assert_eq!(out.first(), Some(&2));
    let mut r = Reorder::new();
    r.receive(arrived(0, true));
    r.receive(arrived(5, false));
    assert_eq!(r.flush().len(), 1);
}

/// Diagnostic, not an assertion: splits the encode path into colour conversion and H.264.
#[test]
fn where_time_goes() {
    const W: u32 = 1920;
    const H: u32 = 1080;
    const N: u32 = 30;

    let source = test_pattern(W, H);
    let mut yuv = I420Buffer::default();

    let t = std::time::Instant::now();
    for _ in 0..N {
        yuv.fill_from_bgra(W, H, W, H, &source);
    }
    let convert_ms = t.elapsed().as_secs_f32() * 1000.0 / N as f32;

    let threads = encoder_threads(None, None);
    let mut encoder = H264Encoder::new(20_000, 60, threads).unwrap();
    // The first encode initializes OpenH264.
    encoder.encode_bgra(W, H, &source).unwrap();
    let t = std::time::Instant::now();
    for _ in 0..N {
        encoder.encode_bgra(W, H, &source).unwrap();
    }
    let total_ms = t.elapsed().as_secs_f32() * 1000.0 / N as f32;

    println!(
        "1080p: convert {convert_ms:.1} ms + h264 {:.1} ms = {total_ms:.1} ms/frame ({} threads)",
        total_ms - convert_ms,
        threads
    );
}

#[test]
fn a_decoded_picture_replaces_the_last_one() {
    let mut out = vec![7u8; 3];
    assert_eq!(take_rgba(Ok(None), &mut out), Ok(None));
    assert_eq!(out, [7, 7, 7]);
    assert_eq!(take_rgba(Ok(Some((1, 1, vec![1, 2, 3, 4]))), &mut out), Ok(Some((1, 1))));
    assert_eq!(out, [1, 2, 3, 4]);
    assert_eq!(take_bgra(Ok(Some((1, 1, vec![1, 2, 3, 4]))), &mut out), Ok(Some((1, 1))));
    assert_eq!(out, [3, 2, 1, 4]);

    let made = openh264::decoder::Decoder::new().map_err(|e| e.to_string());
    let mut decoder = H264Decoder::around(made).expect("a decoder");
    assert_eq!(decoder.decode_to_rgba(&[], &mut out).ok().flatten(), None);
    assert_eq!(out, [3, 2, 1, 4]);
}

#[test]
fn a_restarted_stream_is_shown_from_its_first_frame() {
    let ids = |frames: &Vec<Arrived>| frames.iter().map(|f| f.header.frame_id).collect::<Vec<_>>();
    let mut r = Reorder::new();
    for id in 0..=99 {
        assert_eq!(ids(&r.receive(arrived(id, id == 0)).frames), [id]);
    }
    assert!(r.receive(arrived(0, true)).frames.is_empty(), "nobody asked for a new stream");
    r.restart();
    // What the old stream still sends goes on until the new one is there.
    assert_eq!(ids(&r.receive(arrived(100, false)).frames), [100]);
    for id in 0..20 {
        let released = r.receive(arrived(id, id == 0));
        assert_eq!(ids(&released.frames), [id]);
        assert_eq!(released.keyframe_requests, 0);
    }
    assert!(r.receive(arrived(3, false)).frames.is_empty());
}

#[test]
fn what_the_encoder_made_is_numbered() {
    let config = StreamConfig {
        monitor: 0,
        max_fps: 20,
        bitrate_kbps: 20_000,
        max_cpu_percent: None,
        scale_percent: 50,
    };
    let mut pipeline = Pipeline::new(&config);
    assert!(pipeline.number(None, 9, 7, 1).is_none());
    assert_eq!(pipeline.frame_id, 0);
    let made = EncodedFrame { data: vec![1, 2, 3], keyframe: true };
    let sent = pipeline.number(Some(made), 9, 7, 42).expect("a frame");
    assert_eq!(sent.data, [1, 2, 3]);
    assert_eq!((sent.header.frame_id, sent.header.width, sent.header.height), (0, 8, 6));
    assert!(sent.header.keyframe);
    assert_eq!(sent.header.timestamp_us, 42);
    assert_eq!(pipeline.frame_id, 1);

    // A whole frame, through the encoder: half the size, and a keyframe first.
    let mut encoder = H264Encoder::new(4_000, 30, 2).expect("an encoder");
    let source = test_pattern(160, 120);
    let sent = pipeline.produce(&mut encoder, 160, 120, &source, false, 7).expect("encoded");
    let sent = sent.expect("the first frame is never skipped");
    assert_eq!((sent.header.frame_id, sent.header.width, sent.header.height), (1, 80, 60));
    assert!(sent.header.keyframe && contains_idr(&sent.data));
    let forced = pipeline.produce(&mut encoder, 160, 120, &source, true, 8).expect("encoded");
    assert!(forced.expect("a forced keyframe is never skipped").header.keyframe);
    let empty = Pipeline::new(&StreamConfig { scale_percent: 100, ..config })
        .produce(&mut encoder, 1, 1, &[0; 4], false, 9);
    assert_eq!(empty.err(), Some(EncodeError::EmptyFrame));
}

#[test]
fn a_stream_asked_for_before_any_frame_is_shown_from_its_start() {
    let ids = |frames: &Vec<Arrived>| frames.iter().map(|f| f.header.frame_id).collect::<Vec<_>>();
    let mut r = Reorder::new();
    r.restart();
    for id in [0, 1, 2, 0, 1, 2, 3] {
        assert_eq!(ids(&r.receive(arrived(id, id == 0)).frames), [id]);
    }
    r.restart();
    r.restart();
    assert_eq!(ids(&r.receive(arrived(4, false)).frames), [4]);
    for id in [0, 1, 0, 1, 2] {
        assert_eq!(ids(&r.receive(arrived(id, id == 0)).frames), [id]);
    }
}

#[test]
fn only_the_newest_frame_waits() {
    let config = StreamConfig {
        monitor: 0,
        max_fps: 20,
        bitrate_kbps: 20_000,
        max_cpu_percent: None,
        scale_percent: 100,
    };
    let mut pipeline = Pipeline::new(&config);
    let mut outbox = Outbox::new();
    assert!(outbox.take().is_none());
    let mut next = |p: &mut Pipeline, b: u8| {
        p.number(Some(EncodedFrame { data: vec![b], keyframe: false }), 2, 2, 0).expect("a frame")
    };
    let first = next(&mut pipeline, 1);
    assert!(!pipeline.post(&mut outbox, first));
    let second = next(&mut pipeline, 2);
    assert!(pipeline.post(&mut outbox, second), "the first is lost");
    let sent = outbox.take().expect("the newest");
    assert_eq!((sent.header.frame_id, sent.data), (0, vec![2]));
    assert!(outbox.take().is_none());
    let third = next(&mut pipeline, 3);
    assert!(!pipeline.post(&mut outbox, third));
    assert_eq!(outbox.take().expect("a frame").header.frame_id, 1, "no number is missing");
    let fourth = next(&mut pipeline, 4);
    assert!(outbox.put(fourth).is_none());
    let fifth = next(&mut pipeline, 5);
    assert_eq!(outbox.put(fifth).expect("the one that waited").data, [4]);
}

#[test]
fn a_failure_is_told_in_the_codec_s_own_words() {
    let because = || "no memory".to_string();
    let said = |e: EncodeError| e.message();
    assert_eq!(said(EncodeError::EmptyFrame), "empty frame");
    assert_eq!(
        said(EncodeError::NoEncoder { reason: because() }),
        "failed to create OpenH264 encoder: no memory"
    );
    assert_eq!(said(EncodeError::WarmUp { reason: because() }), "encoder warm-up failed: no memory");
    assert_eq!(said(EncodeError::Encode { reason: because() }), "encode failed: no memory");
    let made = H264Decoder::around(Err(because())).err().expect("no decoder");
    assert_eq!(made.message(), "failed to create OpenH264 decoder: no memory");
    let mut out = Vec::new();
    let found = take_rgba(Err(because()), &mut out).expect_err("failed");
    assert_eq!(found.message(), "decode failed: no memory");
    let mut decoder = H264Decoder::new().expect("a decoder");
    let garbage = decoder.decode_to_rgba(&[0, 0, 0, 1, 0x65, 9, 9, 9], &mut out);
    assert!(garbage.expect_err("no picture").message().starts_with("decode failed: "));
}
