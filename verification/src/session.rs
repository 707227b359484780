//! The host's side of a session: who is let in, what a viewer's messages come to, and
//! what is measured meanwhile.
use vstd::prelude::*;
use vstd::utf8::encode_utf8;

use crate::proto::{
    ClientMsg, FileRequest, HostMsg, InputEvent, MonitorInfo, MAX_CLIPBOARD_BYTES, PROTO_VERSION,
};
use crate::text::{decimal, push_decimal};

verus! {

/// What the first message of a viewer comes to.
pub enum HelloStep {
    /// It was no greeting: the session is over.
    NotHello,
    /// Refuse, for this reason, and end the session.
    Refuse { reason: String },
    /// Check these credentials.
    Check { username: String, password: String, client_name: String },
}

/// What is said to a viewer of another version.
pub open spec fn version_mismatch(client: u16) -> Seq<char> {
    "protocol version mismatch: host "@ + decimal(PROTO_VERSION as nat) + ", client "@ + decimal(
        client as nat,
    )
}

/// What the first message of a viewer comes to. The version is looked at before the
/// credentials.
pub fn greet(msg: ClientMsg) -> (r: HelloStep)
    ensures
        match msg {
            ClientMsg::Hello { proto_version, username, password, client_name } => if proto_version
                != PROTO_VERSION {
                r matches HelloStep::Refuse { reason } && reason@ == version_mismatch(proto_version)
            } else {
                r == (HelloStep::Check { username, password, client_name })
            },
            _ => r is NotHello,
        },
{
    match msg {
        ClientMsg::Hello { proto_version, username, password, client_name } => {
            if proto_version != PROTO_VERSION {
                let mut reason = "protocol version mismatch: host ".to_owned();
                push_decimal(&mut reason, PROTO_VERSION as u64);
                reason.push_str(", client ");
                push_decimal(&mut reason, proto_version as u64);
                return HelloStep::Refuse { reason };
            }
            HelloStep::Check { username, password, client_name }
        },
        _ => HelloStep::NotHello,
    }
}

/// What is said to anyone whose credentials are not accepted, whichever of them was
/// wrong.
pub const REFUSED: &'static str = "wrong username or password";

/// The answer to a greeting once the credentials were checked.
pub fn answer_hello(accepted: bool, host_name: String, monitors: Vec<MonitorInfo>) -> (r: HostMsg)
    ensures
        if accepted {
            r == (HostMsg::HelloOk { host_name, monitors })
        } else {
            r matches HostMsg::HelloErr { reason } && reason@ == REFUSED@
        },
{
    if accepted {
        HostMsg::HelloOk { host_name, monitors }
    } else {
        HostMsg::HelloErr { reason: REFUSED.to_owned() }
    }
}

/// How the screen is to be streamed.
#[derive(Debug, Clone, Copy, PartialEq, Eq, Structural)]
pub struct StreamConfig {
    pub monitor: u32,
    pub max_fps: u16,
    pub bitrate_kbps: u32,
    pub max_cpu_percent: Option<u8>,
    pub scale_percent: u8,
}

/// What a message of a viewer comes to.
pub enum HostAction {
    /// Nothing to do.
    Nothing,
    /// The session is over: a second greeting.
    DuplicateHello,
    /// A stream was asked for that cannot be: of a monitor that is not there, or with no
    /// desktop to capture.
    NoSuchMonitor { monitor: u32, no_desktop: bool },
    /// Stop the stream that runs, if `stop_old`, then start this one and aim input at
    /// its monitor.
    Start { config: StreamConfig, stop_old: bool, width: u32, height: u32 },
    Stop,
    Keyframe,
    Inject { event: InputEvent },
    SetClipboard { text: String },
    Files { request: FileRequest },
    /// A ping was answered: the round trip ends now.
    RoundTrip,
}

/// The first monitor with an id.
pub open spec fn monitor_at(monitors: Seq<MonitorInfo>, id: u32, from: int) -> Option<int>
    decreases monitors.len() - from,
{
    if from < 0 || from >= monitors.len() {
        None
    } else if monitors[from].id == id {
        Some(from)
    } else {
        monitor_at(monitors, id, from + 1)
    }
}

/// What the host remembers of a session.
pub struct HostSession {
    /// What can be streamed. Empty where there is no desktop: files still work.
    pub monitors: Vec<MonitorInfo>,
    /// Whether a stream runs.
    pub streaming: bool,
    /// Ceiling on processor use for viewers that do not ask for one.
    pub max_cpu_percent: Option<u8>,
    /// Whether there is a clipboard to share.
    pub clipboard: bool,
    /// The last ping, and whether it is still to be answered.
    pub nonce: u64,
    pub outstanding: bool,
}

impl HostSession {
    /// A session in which nothing streams and nothing was measured.
    pub fn new(monitors: Vec<MonitorInfo>, max_cpu_percent: Option<u8>, clipboard: bool) -> (r: Self)
        ensures
            r == (HostSession {
                monitors,
                streaming: false,
                max_cpu_percent,
                clipboard,
                nonce: 0,
                outstanding: false,
            }),
    {
        HostSession {
            monitors,
            streaming: false,
            max_cpu_percent,
            clipboard,
            nonce: 0,
            outstanding: false,
        }
    }

    fn find_monitor(&self, id: u32) -> (r: Option<usize>)
        ensures
            match r {
                Some(i) => monitor_at(self.monitors@, id, 0) == Some(i as int) && i
                    < self.monitors@.len(),
                None => monitor_at(self.monitors@, id, 0) is None,
            },
    {
        let mut i: usize = 0;
        while i < self.monitors.len()
            invariant
                i <= self.monitors.len(),
                monitor_at(self.monitors@, id, 0) == monitor_at(self.monitors@, id, i as int),
            decreases self.monitors.len() - i,
        {
            if self.monitors[i].id == id {
                return Some(i);
            }
            i = i + 1;
        }
        None
    }

    /// What a message comes to, and what is remembered of it. A stream that cannot start
    /// does not take the session down: the files on the other side still work. There is
    /// never more than one stream, whatever a viewer asks for.
    pub fn receive(&mut self, msg: ClientMsg) -> (r: HostAction)
        ensures
            streams_after(stream_count(old(self).streaming), r) == stream_count(
                final(self).streaming,
            ),
            match msg {
                ClientMsg::Hello { .. } => r is DuplicateHello && *final(self) == *old(self),
                ClientMsg::StartStream {
                    monitor,
                    max_fps,
                    bitrate_kbps,
                    scale_percent,
                    max_cpu_percent,
                } => match monitor_at(old(self).monitors@, monitor, 0) {
                    None => r == (HostAction::NoSuchMonitor {
                        monitor,
                        no_desktop: old(self).monitors@.len() == 0,
                    }) && *final(self) == *old(self),
                    Some(i) => r == (HostAction::Start {
                        config: StreamConfig {
                            monitor,
                            max_fps: crate::codec::clamped(max_fps as int, 1, 240) as u16,
                            bitrate_kbps: crate::codec::clamped(
                                bitrate_kbps as int,
                                200,
                                200_000,
                            ) as u32,
                            max_cpu_percent: if max_cpu_percent is Some {
                                max_cpu_percent
                            } else {
                                old(self).max_cpu_percent
                            },
                            scale_percent,
                        },
                        stop_old: old(self).streaming,
                        width: old(self).monitors@[i].width,
                        height: old(self).monitors@[i].height,
                    }) && *final(self) == (HostSession { streaming: true, ..*old(self) }),
                },
                ClientMsg::StopStream => {
                    &&& r == (if old(self).streaming {
                        HostAction::Stop
                    } else {
                        HostAction::Nothing
                    })
                    &&& *final(self) == (HostSession { streaming: false, ..*old(self) })
                },
                ClientMsg::RequestKeyframe => {
                    &&& r == (if old(self).streaming {
                        HostAction::Keyframe
                    } else {
                        HostAction::Nothing
                    })
                    &&& *final(self) == *old(self)
                },
                ClientMsg::Input(event) => r == (HostAction::Inject { event }) && *final(self)
                    == *old(self),
                ClientMsg::Clipboard { text } => {
                    &&& r == (if encode_utf8(text@).len() <= MAX_CLIPBOARD_BYTES && old(
                        self,
                    ).clipboard {
                        HostAction::SetClipboard { text }
                    } else {
                        HostAction::Nothing
                    })
                    &&& *final(self) == *old(self)
                },
                ClientMsg::Files(request) => r == (HostAction::Files { request }) && *final(self)
                    == *old(self),
                ClientMsg::Pong { nonce } => {
                    &&& r == (if nonce == old(self).nonce && old(self).outstanding {
                        HostAction::RoundTrip
                    } else {
                        HostAction::Nothing
                    })
                    &&& *final(self) == (HostSession {
                        outstanding: old(self).outstanding && nonce != old(self).nonce,
                        ..*old(self)
                    })
                },
            },
    {
        match msg {
            ClientMsg::Hello { .. } => HostAction::DuplicateHello,
            ClientMsg::StartStream {
                monitor,
                max_fps,
                bitrate_kbps,
                scale_percent,
                max_cpu_percent,
            } => {
                match self.find_monitor(monitor) {
                    None => HostAction::NoSuchMonitor {
                        monitor,
                        no_desktop: self.monitors.len() == 0,
                    },
                    Some(i) => {
                        let stop_old: bool = self.streaming;
                        self.streaming = true;
                        let config = StreamConfig {
                            monitor,
                            max_fps: if max_fps < 1 {
                                1
                            } else if max_fps > 240 {
                                240
                            } else {
                                max_fps
                            },
                            bitrate_kbps: if bitrate_kbps < 200 {
                                200
                            } else if bitrate_kbps > 200_000 {
                                200_000
                            } else {
                                bitrate_kbps
                            },
                            max_cpu_percent: if max_cpu_percent.is_some() {
                                max_cpu_percent
                            } else {
                                self.max_cpu_percent
                            },
                            scale_percent,
                        };
                        HostAction::Start {
                            config,
                            stop_old,
                            width: self.monitors[i].width,
                            height: self.monitors[i].height,
                        }
                    },
                }
            },
            ClientMsg::StopStream => {
                if self.streaming {
                    self.streaming = false;
                    HostAction::Stop
                } else {
                    HostAction::Nothing
                }
            },
            ClientMsg::RequestKeyframe => {
                if self.streaming {
                    HostAction::Keyframe
                } else {
                    HostAction::Nothing
                }
            },
            ClientMsg::Input(event) => HostAction::Inject { event },
            ClientMsg::Clipboard { text } => {
                if text.as_str().as_bytes().len() <= MAX_CLIPBOARD_BYTES && self.clipboard {
                    HostAction::SetClipboard { text }
                } else {
                    HostAction::Nothing
                }
            },
            ClientMsg::Files(request) => HostAction::Files { request },
            ClientMsg::Pong { nonce } => {
                if nonce == self.nonce && self.outstanding {
                    self.outstanding = false;
                    HostAction::RoundTrip
                } else {
                    HostAction::Nothing
                }
            },
        }
    }

    /// Sends a ping: its nonce, one more than the last. One that was never answered is
    /// forgotten.
    pub fn ping(&mut self) -> (r: HostMsg)
        requires
            old(self).nonce < u64::MAX,
        ensures
            *final(self) == (HostSession {
                nonce: (old(self).nonce + 1) as u64,
                outstanding: true,
                ..*old(self)
            }),
            r == (HostMsg::Ping { nonce: final(self).nonce }),
    {
        self.nonce = self.nonce + 1;
        self.outstanding = true;
        HostMsg::Ping { nonce: self.nonce }
    }

    /// Ends the session. Says whether a stream is to be stopped.
    pub fn end(&mut self) -> (r: bool)
        ensures
            r == old(self).streaming,
            *final(self) == (HostSession { streaming: false, ..*old(self) }),
    {
        let r: bool = self.streaming;
        self.streaming = false;
        r
    }
}

/// What happens on the host's side of the control stream.
pub enum ReportEvent {
    /// The host's clipboard changed.
    Copied { text: String },
    /// The clipboard is not watched any more.
    ClipboardStopped,
    /// File work, or anything else, has an answer.
    Reply { msg: HostMsg },
    /// Nobody is left to answer: the session is over.
    RepliesStopped,
    /// It is time to ping the viewer and to report what the pipeline costs.
    Tick,
}

/// What is written to the control stream then.
pub enum ReportStep {
    Send { msg: HostMsg },
    /// A ping, then the figures.
    Measure,
    /// Nothing, but the clipboard is listened to no more.
    Deafen,
    /// Nothing any more.
    End,
}

/// What is written for an event. Sharing the clipboard is a convenience: that it stopped ends
/// neither replies nor pings nor figures.
pub fn report(event: ReportEvent) -> (r: ReportStep)
    ensures
        r == match event {
            ReportEvent::Copied { text } => ReportStep::Send { msg: HostMsg::Clipboard { text } },
            ReportEvent::ClipboardStopped => ReportStep::Deafen,
            ReportEvent::Reply { msg } => ReportStep::Send { msg },
            ReportEvent::RepliesStopped => ReportStep::End,
            ReportEvent::Tick => ReportStep::Measure,
        },
        r is End <==> event is RepliesStopped,
{
    match event {
        ReportEvent::Copied { text } => ReportStep::Send { msg: HostMsg::Clipboard { text } },
        ReportEvent::ClipboardStopped => ReportStep::Deafen,
        ReportEvent::Reply { msg } => ReportStep::Send { msg },
        ReportEvent::RepliesStopped => ReportStep::End,
        ReportEvent::Tick => ReportStep::Measure,
    }
}

/// Whether the host's clipboard may be shared with the viewer.
pub fn shares_clipboard(text: &str) -> (r: bool)
    ensures
        r == (encode_utf8(text@).len() <= MAX_CLIPBOARD_BYTES),
{
    text.as_bytes().len() <= MAX_CLIPBOARD_BYTES
}

/// How many streams run after an action, from how many ran before.
pub open spec fn streams_after(running: int, action: HostAction) -> int {
    match action {
        HostAction::Start { stop_old, .. } => running - (if stop_old {
            1int
        } else {
            0
        }) + 1,
        HostAction::Stop => running - 1,
        _ => running,
    }
}

/// How many streams run.
pub open spec fn stream_count(streaming: bool) -> int {
    if streaming {
        1
    } else {
        0
    }
}

/// What an input thread does.
pub enum InputStep {
    /// Let go of everything held, then aim at this monitor.
    Retarget { release: bool },
    /// There is nothing to inject into yet.
    Drop,
    Inject,
}

/// Events before the first stream have nowhere to go; a new stream lets go of what is
/// held on the old monitor.
pub fn input_step(has_injector: bool, retarget: bool) -> (r: InputStep)
    ensures
        r == if retarget {
            InputStep::Retarget { release: has_injector }
        } else if has_injector {
            InputStep::Inject
        } else {
            InputStep::Drop
        },
{
    if retarget {
        InputStep::Retarget { release: has_injector }
    } else if has_injector {
        InputStep::Inject
    } else {
        InputStep::Drop
    }
}

/// What is said of a host that cannot check a password at all.
pub const NO_SIGN_IN: &'static str = "no way to check a password on this host. Either run it as the user who should be able to log in, or create an account with: chassis --add-user <name>";

/// Whether a host can check a password at all: against the machine's own accounts, or
/// against an account file with something in it.
pub fn can_authenticate(system: bool, accounts: usize) -> (r: bool)
    ensures
        r == (system || accounts > 0),
{
    system || accounts > 0
}

/// The name that a host goes by: what it was told, or its hostname, without white space
/// around it, and the account where that leaves nothing.
pub fn advertised_name(told: Option<String>, hostname: &str, account: &str) -> (r: String)
    ensures
        ({
            let name = crate::text::trimmed(
                match told {
                    Some(t) => t@,
                    None => hostname@,
                },
            );
            r@ == if name.len() == 0 {
                account@
            } else {
                name
            }
        }),
{
    let chosen: String = match told {
        Some(t) => t,
        None => hostname.to_owned(),
    };
    let name = crate::text::trim(&crate::text::chars_of(&chosen));
    if name.len() == 0 {
        account.to_owned()
    } else {
        crate::text::string_of(&name)
    }
}

/// The hostname, from what the system says and what is set.
pub fn machine_hostname(
    system: Option<String>,
    computer_name: Option<String>,
    setting: Option<String>,
) -> (r: String)
    ensures
        ({
            let said = match system {
                Some(s) => crate::text::trimmed(s@),
                None => Seq::empty(),
            };
            r@ == if said.len() > 0 {
                said
            } else {
                match (computer_name, setting) {
                    (Some(c), _) => c@,
                    (None, Some(h)) => h@,
                    (None, None) => "unknown"@,
                }
            }
        }),
{
    if let Some(s) = system {
        let said = crate::text::trim(&crate::text::chars_of(&s));
        if said.len() > 0 {
            return crate::text::string_of(&said);
        }
    }
    match computer_name {
        Some(c) => c,
        None => match setting {
            Some(h) => h,
            None => "unknown".to_owned(),
        },
    }
}

/// A text cut to 60 characters.
pub open spec fn truncated(s: Seq<char>) -> Seq<char> {
    if s.len() > 60 {
        s.take(60).push('…')
    } else {
        s
    }
}

/// Cuts a long text short.
pub fn truncate(s: &str) -> (r: String)
    ensures
        r@ == truncated(s@),
{
    let v = crate::text::chars_of(s);
    if v.len() > 60 {
        let head = crate::text::subrange(&v, 0, 60);
        assert(head@ =~= v@.take(60));
        let mut out = crate::text::string_of(&head);
        out.push('…');
        out
    } else {
        s.to_owned()
    }
}

/// A stream shows the monitor that was asked for: the first with the id, and there is none
/// only where no monitor has it.
pub proof fn a_monitor_is_found_by_its_id(monitors: Seq<MonitorInfo>, id: u32, from: int)
    requires
        0 <= from,
    ensures
        match monitor_at(monitors, id, from) {
            Some(i) => {
                &&& from <= i < monitors.len()
                &&& monitors[i].id == id
                &&& forall|j: int| from <= j < i ==> (#[trigger] monitors[j]).id != id
            },
            None => forall|j: int| from <= j < monitors.len() ==> (#[trigger] monitors[j]).id != id,
        },
    decreases monitors.len() - from,
{
    if from < monitors.len() && monitors[from].id != id {
        a_monitor_is_found_by_its_id(monitors, id, from + 1);
    }
}

/// A text that is cut keeps its first 60 characters and says that it was cut; one that is not
/// longer is left alone.
pub proof fn a_cut_text_keeps_its_start(s: Seq<char>)
    ensures
        s.len() <= 60 ==> truncated(s) == s,
        s.len() > 60 ==> truncated(s).len() == 61 && truncated(s).last() == '…'
            && truncated(s).drop_last() == s.subrange(0, 60),
{
    if s.len() > 60 {
        assert(truncated(s).drop_last() =~= s.subrange(0, 60));
    }
}

} // verus!
