//! TK/1: what host and viewer say to each other, and how messages are framed.
//!
//! The control stream is reliable and ordered and carries length-prefixed
//! messages. Each unidirectional stream starts with one byte that says what it
//! carries: one video frame, or one file. All framing integers are
//! little-endian.
use vstd::prelude::*;

verus! {

/// Protocol version. Bump on incompatible changes.
pub const PROTO_VERSION: u16 = 8;

/// Hard cap for a single control message.
pub const MAX_CONTROL_MSG: u32 = 16777216;

/// Hard cap for one encoded video frame.
pub const MAX_FRAME_BYTES: u32 = 67108864;

/// Largest clipboard transfer accepted in either direction.
pub const MAX_CLIPBOARD_BYTES: usize = 1048576;

/// Largest single file that is moved, in either direction. A bound that turns
/// a corrupt length into an error instead of a full disk.
pub const MAX_FILE_BYTES: u64 = 17179869184;

/// Largest file that the in-place editor opens or saves.
pub const MAX_TEXT_BYTES: u64 = 1048576;

/// Most files and folders that one answer to [`FileOp::Tree`] lists.
pub const MAX_TREE_ENTRIES: usize = 20000;

/// Bytes per read or write while copying.
pub const FILE_CHUNK: usize = 131072;

/// From the viewer to the host, on the control stream.
#[derive(Debug)]
pub enum ClientMsg {
    /// First message on the control stream.
    Hello { proto_version: u16, username: String, password: String, client_name: String },
    /// Ask the host to start streaming a monitor.
    StartStream {
        monitor: u32,
        max_fps: u16,
        bitrate_kbps: u32,
        /// Percentage of the monitor's own resolution to encode.
        scale_percent: u8,
        /// Ceiling on the share of one host core that the pipeline may use.
        /// `None` leaves the host's own default in place.
        max_cpu_percent: Option<u8>,
    },
    StopStream,
    /// Ask the encoder for an immediate keyframe.
    RequestKeyframe,
    Input(InputEvent),
    Pong { nonce: u64 },
    /// Text copied on the viewer, to be placed on the host's clipboard.
    Clipboard { text: String },
    /// Browse or transfer files on the host.
    Files(FileRequest),
}

/// From the host to the viewer, on the control stream.
#[derive(Debug)]
pub enum HostMsg {
    HelloOk { host_name: String, monitors: Vec<MonitorInfo> },
    HelloErr { reason: String },
    Ping { nonce: u64 },
    /// Periodic host-side figures, for display in the viewer. All but the bitrate are
    /// the bit patterns of single-precision numbers, carried through unread.
    Stats { fps: u32, bitrate_kbps: u32, capture_ms: u32, encode_ms: u32, rtt_ms: u32 },
    /// The host's clipboard changed; mirror it locally.
    Clipboard { text: String },
    /// Answer to a [`ClientMsg::Files`], matched by its id.
    Files(FileReply),
}

/// A monitor of the host.
#[derive(Debug)]
pub struct MonitorInfo {
    pub id: u32,
    pub width: u32,
    pub height: u32,
    pub name: String,
}

/// What the operator does. Positions and scroll distances are the bit patterns
/// of single-precision numbers, carried through unread.
#[derive(Debug)]
pub enum InputEvent {
    /// Absolute position, normalized to the streamed monitor.
    MouseMove { x: u32, y: u32 },
    MouseButton { button: MouseButton, down: bool },
    /// Scroll in lines; positive `dy` scrolls up.
    MouseWheel { dx: u32, dy: u32 },
    /// Physical-key event for keys that matter as press and release.
    Key { key: KeyCode, down: bool },
    /// Unicode text that does not map to a physical [`KeyCode`].
    Text { text: String },
}

#[derive(Debug, Clone, Copy, PartialEq, Eq, Hash, Structural)]
pub enum MouseButton {
    Left,
    Right,
    Middle,
    Back,
    Forward,
}

/// Portable physical-key identifiers. The viewer maps its windowing system's
/// keys into these; the host maps them into injection calls.
#[derive(Debug, Clone, Copy, PartialEq, Eq, Hash, Structural)]
pub enum KeyCode {
    A, B, C, D, E, F, G, H, I, J, K, L, M,
    N, O, P, Q, R, S, T, U, V, W, X, Y, Z,
    Digit0, Digit1, Digit2, Digit3, Digit4,
    Digit5, Digit6, Digit7, Digit8, Digit9,
    F1, F2, F3, F4, F5, F6, F7, F8, F9, F10, F11, F12,
    ShiftLeft, ShiftRight, ControlLeft, ControlRight,
    AltLeft, AltRight, MetaLeft, MetaRight,
    Escape, Tab, CapsLock, Space, Enter, Backspace, Delete, Insert,
    Home, End, PageUp, PageDown,
    ArrowUp, ArrowDown, ArrowLeft, ArrowRight,
    Minus, Equal, BracketLeft, BracketRight, Backslash,
    Semicolon, Quote, Backquote, Comma, Period, Slash,
}

#[derive(Debug, Clone, Copy, PartialEq, Eq, Hash, Structural)]
pub enum Codec {
    H264,
}

/// Header at the start of each per-frame stream, followed by the encoded
/// bitstream.
#[derive(Debug, Clone, Copy, PartialEq, Eq, Structural)]
pub struct FrameHeader {
    pub frame_id: u64,
    pub codec: Codec,
    pub width: u32,
    pub height: u32,
    pub keyframe: bool,
    /// Host-side capture timestamp, microseconds since stream start.
    pub timestamp_us: u64,
}

/// A request to look at or change the host's files.
#[derive(Debug)]
pub struct FileRequest {
    /// Matches the reply to the request. Chosen by the viewer.
    pub id: u64,
    pub op: FileOp,
}

#[derive(Debug)]
pub enum FileOp {
    /// List a directory. An empty path means the account's home directory.
    List { path: String },
    MakeDir { path: String },
    /// Create a directory and every missing one above it.
    MakeDirAll { path: String },
    /// Delete a file, or an empty directory.
    Remove { path: String },
    /// Ask for a file. The host answers [`FileReply::Sending`] and then opens a
    /// file stream.
    Get { path: String },
    /// Announce a file that the viewer is about to send.
    Put { path: String, len: u64 },
    /// Fetch a small text file to edit in place.
    ReadText { path: String },
    /// Write an edited file back.
    WriteText { path: String, text: String },
    /// Everything under a directory, for copying it whole.
    Tree { path: String },
}

#[derive(Debug)]
pub enum FileReply {
    Listing { id: u64, listing: DirListing },
    /// The contents of a file asked for with [`FileOp::ReadText`]. Carries the
    /// path back so that a late reply cannot be shown against another file.
    Text { id: u64, path: String, text: String },
    /// A file stream carrying `id` follows.
    Sending { id: u64, len: u64 },
    Tree { id: u64, tree: FileTree },
    Done { id: u64 },
    Failed { id: u64, reason: String },
}

#[derive(Debug)]
pub struct DirListing {
    /// The directory listed, absolute and cleaned up.
    pub path: String,
    /// Its parent, or `None` at the root.
    pub parent: Option<String>,
    pub entries: Vec<DirEntry>,
}

#[derive(Debug)]
pub struct DirEntry {
    pub name: String,
    pub is_dir: bool,
    /// Size in bytes. Directories report 0.
    pub len: u64,
    /// Seconds since the Unix epoch, when the host could tell.
    pub modified: Option<u64>,
    /// A symlink. Followed for its metadata, but worth showing.
    pub is_link: bool,
}

/// What lies under a directory. Paths are relative to `root`, with `/` between
/// their parts, parents before what they hold. Symlinks are left out.
#[derive(Debug)]
pub struct FileTree {
    pub root: String,
    pub dirs: Vec<String>,
    pub files: Vec<TreeFile>,
    /// Set when there was more than [`MAX_TREE_ENTRIES`].
    pub truncated: bool,
}

#[derive(Debug)]
pub struct TreeFile {
    pub rel: String,
    pub len: u64,
}

/// Header at the start of a file stream, followed by the file's bytes until the
/// stream ends.
#[derive(Debug, Clone, Copy, PartialEq, Eq, Structural)]
pub struct FileHeader {
    /// The [`FileRequest::id`] that this transfer belongs to.
    pub id: u64,
}

/// What a unidirectional stream carries, written as its first byte.
#[derive(Debug, Clone, Copy, PartialEq, Eq, Structural)]
pub enum StreamKind {
    Video,
    File,
}

/// The first byte was none that a stream may start with.
#[derive(Debug, Clone, Copy, PartialEq, Eq, Structural)]
pub struct UnknownKind {
    pub byte: u8,
}

impl StreamKind {
    /// The byte that stands for this kind.
    pub open spec fn byte(self) -> u8 {
        match self {
            StreamKind::Video => 0,
            StreamKind::File => 1,
        }
    }

    /// The kind that a byte stands for.
    pub fn from_byte(b: u8) -> (r: Result<Self, UnknownKind>)
        ensures
            match r {
                Ok(kind) => kind.byte() == b,
                Err(e) => e.byte == b && forall|k: StreamKind| (#[trigger] k.byte()) != b,
            },
    {
        match b {
            0 => Ok(Self::Video),
            1 => Ok(Self::File),
            other => Err(UnknownKind { byte: other }),
        }
    }

    /// The byte to tag a stream with.
    pub fn to_byte(self) -> (r: u8)
        ensures
            r == self.byte(),
            self is Video ==> r == 0,
            self is File ==> r == 1,
    {
        match self {
            StreamKind::Video => 0,
            StreamKind::File => 1,
        }
    }
}

/// A tag that was written is read back as the kind it was written for.
pub proof fn stream_kinds_have_distinct_bytes(a: StreamKind, b: StreamKind)
    ensures
        a.byte() == b.byte() ==> a == b,
{
}

/// Why a message cannot be framed or read.
#[derive(Debug, Clone, Copy, PartialEq, Eq, Structural)]
pub enum FrameError {
    /// The length does not fit the prefix.
    LengthOverflow,
    /// The message is over [`MAX_CONTROL_MSG`].
    TooLarge { len: u32 },
}

/// The number that four bytes stand for, lowest byte first.
pub open spec fn le_value(b: Seq<u8>) -> int {
    b[0] + b[1] * 0x100 + b[2] * 0x10000 + b[3] * 0x1000000
}

/// Whether `out` is `body` with its length in front.
pub open spec fn framed(body: Seq<u8>, out: Seq<u8>) -> bool {
    &&& out.len() == 4 + body.len()
    &&& le_value(out.take(4)) == body.len()
    &&& out.skip(4) == body
}

/// Puts the length in front of a message: a little-endian `u32`, then the bytes.
pub fn frame(body: &Vec<u8>) -> (r: Result<Vec<u8>, FrameError>)
    ensures
        match r {
            Ok(out) => body.len() <= MAX_CONTROL_MSG && framed(body@, out@),
            Err(FrameError::LengthOverflow) => body.len() > u32::MAX,
            Err(FrameError::TooLarge { len }) => len == body.len() && len > MAX_CONTROL_MSG,
        },
        r matches Ok(out) ==> {
            &&& out@[0] == body.len() % 0x100
            &&& out@[1] == body.len() / 0x100 % 0x100
            &&& out@[2] == body.len() / 0x10000 % 0x100
            &&& out@[3] == body.len() / 0x1000000
        },
{
    if body.len() > 0xFFFF_FFFFusize {
        return Err(FrameError::LengthOverflow);
    }
    let len: u32 = body.len() as u32;
    if len > MAX_CONTROL_MSG {
        return Err(FrameError::TooLarge { len });
    }
    let mut out: Vec<u8> = Vec::new();
    out.push((len % 0x100) as u8);
    out.push((len / 0x100 % 0x100) as u8);
    out.push((len / 0x10000 % 0x100) as u8);
    out.push((len / 0x1000000) as u8);
    let mut i: usize = 0;
    while i < body.len()
        invariant
            i <= body.len(),
            out.len() == 4 + i,
            out@.skip(4) == body@.take(i as int),
            out[0] == len % 0x100,
            out[1] == len / 0x100 % 0x100,
            out[2] == len / 0x10000 % 0x100,
            out[3] == len / 0x1000000,
        decreases body.len() - i,
    {
        let ghost before = out@;
        out.push(body[i]);
        assert(out@.skip(4) =~= before.skip(4).push(body[i as int]));
        assert(body@.take(i + 1) =~= body@.take(i as int).push(body[i as int]));
        i = i + 1;
    }
    assert(body@.take(i as int) =~= body@);
    Ok(out)
}

/// The length of the message that follows a four-byte prefix.
pub fn frame_len(prefix: &[u8; 4]) -> (r: Result<usize, FrameError>)
    ensures
        match r {
            Ok(n) => n == le_value(prefix@) && n <= MAX_CONTROL_MSG,
            Err(FrameError::TooLarge { len }) => len == le_value(prefix@) && len
                > MAX_CONTROL_MSG,
            Err(FrameError::LengthOverflow) => false,
        },
{
    let len: u32 = prefix[0] as u32 + prefix[1] as u32 * 0x100 + prefix[2] as u32 * 0x10000
        + prefix[3] as u32 * 0x1000000;
    if len > MAX_CONTROL_MSG {
        return Err(FrameError::TooLarge { len });
    }
    Ok(len as usize)
}

/// Messages written one after another are read back one after another: the
/// prefix of a framed message says exactly where its body ends, whatever
/// follows it on the stream.
pub proof fn a_framed_message_reads_back(body: Seq<u8>, out: Seq<u8>, rest: Seq<u8>)
    requires
        framed(body, out),
    ensures
        le_value((out + rest).take(4)) == body.len(),
        (out + rest).skip(4).take(body.len() as int) == body,
        (out + rest).skip(4).skip(body.len() as int) == rest,
{
    let s = out + rest;
    assert(s.take(4) =~= out.take(4));
    assert(s.skip(4).take(body.len() as int) =~= out.skip(4));
    assert(s.skip(4).skip(body.len() as int) =~= rest);
}

} // verus!
