//! The viewer's side of a session: what it asks of a host, and what it shows of the
//! answers.
use vstd::prelude::*;

use crate::codec::clamped;
use crate::proto::{ClientMsg, FileReply, HostMsg, InputEvent, MonitorInfo, PROTO_VERSION};
use crate::text::{decimal, push_decimal};

verus! {

/// The most recently decoded frame.
#[derive(Debug)]
pub struct FrameSlot {
    pub width: u32,
    pub height: u32,
    /// RGBA, `width * height * 4` bytes.
    pub pixels: Vec<u8>,
    /// Counts the frames, so that the window knows when to redraw.
    pub generation: u64,
}

impl Default for FrameSlot {
    /// No frame yet.
    fn default() -> (r: Self)
        ensures
            r.width == 0,
            r.height == 0,
            r.pixels@.len() == 0,
            r.generation == 0,
    {
        FrameSlot { width: 0, height: 0, pixels: Vec::new(), generation: 0 }
    }
}

impl FrameSlot {
    /// Puts a decoded frame in, and gives the pixels of the one before back for reuse.
    pub fn show(&mut self, width: u32, height: u32, pixels: Vec<u8>) -> (r: Vec<u8>)
        requires
            old(self).generation < u64::MAX,
        ensures
            final(self).width == width,
            final(self).height == height,
            final(self).pixels == pixels,
            final(self).generation == old(self).generation + 1,
            r == old(self).pixels,
    {
        let mut other = pixels;
        core::mem::swap(&mut other, &mut self.pixels);
        self.width = width;
        self.height = height;
        self.generation = self.generation + 1;
        other
    }
}

/// How the screen is to be streamed. A change of any of these asks for a new stream, which
/// the host takes as an end of the old one.
#[derive(Debug, Clone, Copy, PartialEq, Eq, Structural)]
pub struct StreamSettings {
    pub monitor: u32,
    pub max_fps: u16,
    pub bitrate_kbps: u32,
    pub scale_percent: u8,
    pub max_cpu_percent: Option<u8>,
}

impl Default for StreamSettings {
    /// The first monitor at full size, 20 frames a second.
    fn default() -> (r: Self)
        ensures
            r == (StreamSettings {
                monitor: 0,
                max_fps: 20,
                bitrate_kbps: 20_000,
                scale_percent: 100,
                max_cpu_percent: None,
            }),
    {
        StreamSettings {
            monitor: 0,
            max_fps: 20,
            bitrate_kbps: 20_000,
            scale_percent: 100,
            max_cpu_percent: None,
        }
    }
}

impl StreamSettings {
    /// The request for a stream.
    pub open spec fn request(self) -> ClientMsg {
        ClientMsg::StartStream {
            monitor: self.monitor,
            max_fps: clamped(self.max_fps as int, 1, 240) as u16,
            bitrate_kbps: self.bitrate_kbps,
            scale_percent: clamped(self.scale_percent as int, 25, 100) as u8,
            max_cpu_percent: self.max_cpu_percent,
        }
    }

    /// The request for a stream.
    pub fn to_msg(self) -> (r: ClientMsg)
        ensures
            r == self.request(),
            r matches ClientMsg::StartStream {
                monitor,
                max_fps,
                bitrate_kbps,
                scale_percent,
                max_cpu_percent,
            } && {
                &&& monitor == self.monitor
                &&& bitrate_kbps == self.bitrate_kbps
                &&& max_cpu_percent == self.max_cpu_percent
                &&& 1 <= max_fps <= 240 && (1 <= self.max_fps <= 240 ==> max_fps == self.max_fps)
                &&& self.max_fps > 240 ==> max_fps == 240
                &&& 25 <= scale_percent <= 100 && (25 <= self.scale_percent <= 100 ==> scale_percent
                    == self.scale_percent)
                &&& self.scale_percent > 100 ==> scale_percent == 100
            },
    {
        ClientMsg::StartStream {
            monitor: self.monitor,
            max_fps: if self.max_fps < 1 {
                1
            } else if self.max_fps > 240 {
                240
            } else {
                self.max_fps
            },
            bitrate_kbps: self.bitrate_kbps,
            scale_percent: if self.scale_percent < 25 {
                25
            } else if self.scale_percent > 100 {
                100
            } else {
                self.scale_percent
            },
            max_cpu_percent: self.max_cpu_percent,
        }
    }

    /// These settings for a host with these monitors.
    pub open spec fn fitted(self, monitors: Seq<MonitorInfo>) -> StreamSettings {
        StreamSettings {
            monitor: if exists|i: int|
                0 <= i < monitors.len() && (#[trigger] monitors[i]).id == self.monitor {
                self.monitor
            } else if monitors.len() > 0 {
                monitors[0].id
            } else {
                0
            },
            ..self
        }
    }

    /// These settings for a host with these monitors: a monitor that it does not have is
    /// replaced by its first, rather than refusing to connect.
    pub fn for_host(self, monitors: &Vec<MonitorInfo>) -> (r: Self)
        ensures
            r == self.fitted(monitors@),
            r == (StreamSettings { monitor: r.monitor, ..self }),
            monitors@.len() > 0 ==> exists|i: int|
                0 <= i < monitors@.len() && (#[trigger] monitors@[i]).id == r.monitor,
            (forall|i: int|
                0 <= i < monitors@.len() ==> (#[trigger] monitors@[i]).id != self.monitor)
                && monitors@.len() > 0 ==> r.monitor == monitors@[0].id,
            (exists|i: int|
                0 <= i < monitors@.len() && (#[trigger] monitors@[i]).id == self.monitor)
                ==> r.monitor == self.monitor,
    {
        let mut i: usize = 0;
        while i < monitors.len()
            invariant
                i <= monitors.len(),
                forall|j: int| 0 <= j < i ==> (#[trigger] monitors@[j]).id != self.monitor,
            decreases monitors.len() - i,
        {
            if monitors[i].id == self.monitor {
                assert(monitors@[i as int].id == self.monitor);
                return self;
            }
            i = i + 1;
        }
        let monitor: u32 = if monitors.len() > 0 {
            monitors[0].id
        } else {
            0
        };
        StreamSettings { monitor, ..self }
    }
}

/// What the viewer wants the host's encoder to be doing. A session does not have to be
/// watching anything.
#[derive(Debug, Clone, Copy, PartialEq, Eq, Structural)]
pub enum StreamControl {
    Start(StreamSettings),
    Stop,
}

impl StreamControl {
    /// The message that asks for it.
    pub fn to_msg(self) -> (r: ClientMsg)
        ensures
            r == match self {
                StreamControl::Start(s) => s.request(),
                StreamControl::Stop => ClientMsg::StopStream,
            },
    {
        match self {
            StreamControl::Start(s) => s.to_msg(),
            StreamControl::Stop => ClientMsg::StopStream,
        }
    }
}

/// Whatever a viewer's settings are, the host takes the frame rate and the scale of its
/// request as they are: nothing is brought into range a second time.
pub proof fn the_host_takes_what_is_asked(s: StreamSettings)
    ensures
        ({
            let asked = s.request();
            &&& asked->StartStream_max_fps == clamped(asked->StartStream_max_fps as int, 1, 240)
            &&& asked->StartStream_scale_percent == clamped(
                asked->StartStream_scale_percent as int,
                25,
                100,
            )
        }),
{
}

/// What is shown about the session. Rates and times are the bit patterns of
/// single-precision numbers, carried through unread.
#[derive(Debug)]
pub struct Status {
    pub connected: bool,
    pub message: String,
    pub host_name: String,
    pub monitors: Vec<MonitorInfo>,
    pub host_fps: u32,
    pub bitrate_kbps: u32,
    pub capture_ms: u32,
    pub encode_ms: u32,
    pub rtt_ms: u32,
    /// Text the host copied that has not yet been mirrored locally.
    pub incoming_clipboard: Option<String>,
}

impl Default for Status {
    /// Not connected.
    fn default() -> (r: Self)
        ensures
            !r.connected,
            r.message@.len() == 0,
            r.host_name@.len() == 0,
            r.monitors@.len() == 0,
            r.host_fps == 0,
            r.bitrate_kbps == 0,
            r.capture_ms == 0,
            r.encode_ms == 0,
            r.rtt_ms == 0,
            r.incoming_clipboard is None,
    {
        Status {
            connected: false,
            message: String::new(),
            host_name: String::new(),
            monitors: Vec::new(),
            host_fps: 0,
            bitrate_kbps: 0,
            capture_ms: 0,
            encode_ms: 0,
            rtt_ms: 0,
            incoming_clipboard: None,
        }
    }
}

/// The first message to a host.
pub fn hello(username: String, password: String, client_name: String) -> (r: ClientMsg)
    ensures
        r == (ClientMsg::Hello { proto_version: PROTO_VERSION, username, password, client_name }),
{
    ClientMsg::Hello { proto_version: PROTO_VERSION, username, password, client_name }
}

/// Takes in the answer to the first message, which reads `shown` when it is printed. What is
/// said otherwise gives the host's reason, or the answer that was not expected.
pub fn welcome(status: &mut Status, reply: HostMsg, shown: &str) -> (r: Result<(), String>)
    ensures
        match reply {
            HostMsg::HelloOk { host_name, monitors } => {
                &&& r is Ok
                &&& final(status).message@ == "Connected to "@ + host_name@
                &&& *final(status) == (Status {
                    connected: true,
                    message: final(status).message,
                    host_name,
                    monitors,
                    ..*old(status)
                })
            },
            HostMsg::HelloErr { reason } => {
                &&& r matches Err(e) && e@ == "host rejected the connection: "@ + reason@
                &&& *final(status) == *old(status)
            },
            _ => {
                &&& r matches Err(e) && e@ == "unexpected handshake reply: "@ + shown@
                &&& *final(status) == *old(status)
            },
        },
{
    match reply {
        HostMsg::HelloOk { host_name, monitors } => {
            let mut message = "Connected to ".to_owned();
            message.push_str(&host_name);
            status.connected = true;
            status.message = message;
            status.host_name = host_name;
            status.monitors = monitors;
            Ok(())
        },
        HostMsg::HelloErr { reason } => {
            let mut e = "host rejected the connection: ".to_owned();
            e.push_str(&reason);
            Err(e)
        },
        _ => {
            let mut e = "unexpected handshake reply: ".to_owned();
            e.push_str(shown);
            Err(e)
        },
    }
}

/// The messages that open a session once the host has answered: a request for a stream
/// only if the operator asked to watch. A session for files alone never sends one.
pub fn opening(settings: StreamSettings, monitors: &Vec<MonitorInfo>, watch: bool) -> (r: Option<
    ClientMsg,
>)
    ensures
        r == if watch {
            Some(settings.fitted(monitors@).request())
        } else {
            None
        },
{
    if watch {
        Some(settings.for_host(monitors).to_msg())
    } else {
        None
    }
}

/// What a message of the host comes to.
pub enum ViewerAction {
    Nothing,
    /// Answer a ping at once: the host times the round trip.
    Pong { nonce: u64 },
    /// Take a reply into the file panes.
    Files { reply: FileReply },
}

/// Takes in a message of the host.
pub fn receive(status: &mut Status, msg: HostMsg) -> (r: ViewerAction)
    ensures
        match msg {
            HostMsg::Ping { nonce } => r == (ViewerAction::Pong { nonce }) && *final(status)
                == *old(status),
            HostMsg::Stats { fps, bitrate_kbps, capture_ms, encode_ms, rtt_ms } => r is Nothing
                && *final(status) == (Status {
                host_fps: fps,
                bitrate_kbps,
                capture_ms,
                encode_ms,
                rtt_ms,
                ..*old(status)
            }),
            HostMsg::Clipboard { text } => r is Nothing && *final(status) == (Status {
                incoming_clipboard: Some(text),
                ..*old(status)
            }),
            HostMsg::Files(reply) => r == (ViewerAction::Files { reply }) && *final(status)
                == *old(status),
            _ => r is Nothing && *final(status) == *old(status),
        },
{
    match msg {
        HostMsg::Ping { nonce } => ViewerAction::Pong { nonce },
        HostMsg::Stats { fps, bitrate_kbps, capture_ms, encode_ms, rtt_ms } => {
            status.host_fps = fps;
            status.bitrate_kbps = bitrate_kbps;
            status.capture_ms = capture_ms;
            status.encode_ms = encode_ms;
            status.rtt_ms = rtt_ms;
            ViewerAction::Nothing
        },
        HostMsg::Clipboard { text } => {
            status.incoming_clipboard = Some(text);
            ViewerAction::Nothing
        },
        HostMsg::Files(reply) => ViewerAction::Files { reply },
        _ => ViewerAction::Nothing,
    }
}

/// What wants to be said to the host.
pub enum Wish {
    Input { event: InputEvent },
    Keyframe,
    Pong { nonce: u64 },
    Settings { control: StreamControl },
    Clipboard { text: String },
}

/// The message for a wish.
pub fn outgoing(wish: Wish) -> (r: ClientMsg)
    ensures
        r == match wish {
            Wish::Input { event } => ClientMsg::Input(event),
            Wish::Keyframe => ClientMsg::RequestKeyframe,
            Wish::Pong { nonce } => ClientMsg::Pong { nonce },
            Wish::Settings { control: StreamControl::Start(s) } => s.request(),
            Wish::Settings { control: StreamControl::Stop } => ClientMsg::StopStream,
            Wish::Clipboard { text } => ClientMsg::Clipboard { text },
        },
{
    match wish {
        Wish::Input { event } => ClientMsg::Input(event),
        Wish::Keyframe => ClientMsg::RequestKeyframe,
        Wish::Pong { nonce } => ClientMsg::Pong { nonce },
        Wish::Settings { control } => control.to_msg(),
        Wish::Clipboard { text } => ClientMsg::Clipboard { text },
    }
}

/// What is said when no address of a host answered.
pub fn unreachable_text(tried: usize, last: &str) -> (r: String)
    ensures
        r@ == if tried > 1 {
            "none of the "@ + decimal(tried as nat) + " advertised addresses answered (last: "@
                + last@.push(')')
        } else {
            "could not reach "@ + last@
        },
{
    if tried > 1 {
        let mut out = "none of the ".to_owned();
        push_decimal(&mut out, tried as u64);
        out.push_str(" advertised addresses answered (last: ");
        out.push_str(last);
        out.push(')');
        assert(out@ =~= "none of the "@ + decimal(tried as nat)
            + " advertised addresses answered (last: "@ + last@.push(')'));
        out
    } else {
        let mut out = "could not reach ".to_owned();
        out.push_str(last);
        out
    }
}

/// The name that a viewer gives for itself.
pub fn whoami(username: Option<String>, user: Option<String>) -> (r: String)
    ensures
        match (username, user) {
            (Some(u), _) => r == u,
            (None, Some(u)) => r == u,
            (None, None) => r@ == "telekin"@,
        },
{
    match username {
        Some(u) => u,
        None => match user {
            Some(u) => u,
            None => "telekin".to_owned(),
        },
    }
}

} // verus!
