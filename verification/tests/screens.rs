//! The viewer's screens, its session, the file panes and the clipboard.
use telekin::clipboard::{Answer, Buffer, Selection};
use telekin::discovery::{Address, Discovered, Ip};
use telekin::files::{Batch, BatchProgress, Command, Direction, State};
use telekin::panes::{
    batch_shown, can_save, remote_dir, save_editor, transfer_text, BatchShown, FilePanes,
    CLOSE_WARNING,
};
use telekin::proto::{
    ClientMsg, DirEntry, DirListing, HostMsg, MonitorInfo, PROTO_VERSION,
};
use telekin::theme::{icon_rgba, spaced, track, ACCENT, MARK_DOT_R, MARK_RING_R};
use telekin::ui::{
    address_summary, files_switch_enabled, meta_columns, mode_switch, monitor_label, named,
    page_label, page_shown, resolve, rows_per_page, selected_monitor, shown_machine,
    version_status, Mode, Options, Target, VersionAction, ViewerApp, NO_ADDRESS, NO_ANSWER,
    NO_CREDENTIALS,
};
use telekin::update::{Outcome, CURRENT};
use telekin::viewer::{
    hello, opening, outgoing, receive, unreachable_text, welcome, whoami, FrameSlot, Status,
    StreamControl, StreamSettings, ViewerAction, Wish,
};

fn addr(s: &str) -> Address {
    let (host, _) = s.rsplit_once(':').expect("port");
    let host = host.trim_start_matches('[').trim_end_matches(']').to_string();
    let parts: Vec<u8> = host.split('.').filter_map(|p| p.parse().ok()).collect();
    let ip = if parts.len() == 4 {
        Ip::V4 { a: parts[0], b: parts[1], c: parts[2], d: parts[3] }
    } else {
        Ip::V6 { loopback: host == "::1" }
    };
    Address { ip, host, text: s.to_string() }
}

fn a_robot() -> Discovered {
    Discovered {
        name: "tangox".into(),
        addrs: vec![addr("192.168.1.118:9631"), addr("192.168.2.100:9631")],
        fingerprint: Some("aa:bb".into()),
        proto_version: Some(PROTO_VERSION),
        hostname: Some("tango-desktop".into()),
        account: Some("tangox".into()),
    }
}

fn options() -> Options {
    Options {
        host: None,
        name: None,
        user: None,
        password: None,
        fingerprint: None,
        fps: 20,
        bitrate_kbps: 20_000,
        scale: 100,
        max_cpu_percent: None,
        monitor: 0,
        view_only: false,
    }
}

fn app_with(hosts: Vec<Discovered>) -> ViewerApp {
    let mut app = ViewerApp::new(options());
    app.hosts = hosts;
    app
}

#[test]
fn the_mark_has_a_ring_a_dot_and_a_break() {
    let px = 64u32;
    let rgba = icon_rgba(px);
    assert_eq!(rgba.len() as u32, px * px * 4);

    let ring_r = MARK_RING_R as f32 / 100.0;
    let dot_r = MARK_DOT_R as f32 / 100.0;
    let alpha = |x: u32, y: u32| rgba[((y * px + x) * 4 + 3) as usize];
    let c = px / 2;
    let ring = (px as f32 * ring_r).round() as u32;

    assert_eq!(alpha(c, c), 255, "no dot in the middle");
    assert_eq!(alpha(c + ring, c), 255, "no ring on the right");
    assert_eq!(alpha(c, c - ring), 255, "no ring on top");
    // The break, which is what makes it mean anything.
    assert_eq!(alpha(c - ring, c), 0, "the ring closed up; the gap is gone");
    // Between dot and ring there is nothing, or the two have merged.
    let between = (px as f32 * (dot_r + ring_r) * 0.5) as u32;
    assert_eq!(alpha(c + between, c), 0, "dot and ring have run together");
}

/// The mark worked out with floating-point numbers.
fn icon_in_floats(px: u32) -> Vec<u8> {
    let half_gap = 62.0f32.to_radians() * 0.5;
    let mut out = Vec::new();
    for y in 0..px {
        for x in 0..px {
            let mut hits = 0;
            for sy in 0..3 {
                for sx in 0..3 {
                    let u = (x as f32 + (sx as f32 + 0.5) / 3.0) / px as f32 - 0.5;
                    let v = (y as f32 + (sy as f32 + 0.5) / 3.0) / px as f32 - 0.5;
                    let d = u.hypot(v);
                    let in_gap = v.atan2(u).abs() > std::f32::consts::PI - half_gap;
                    let on_ring = (d - 0.36).abs() <= 0.09 * 0.5 && !in_gap;
                    if on_ring || d <= 0.11 {
                        hits += 1;
                    }
                }
            }
            out.extend_from_slice(&[ACCENT[0], ACCENT[1], ACCENT[2], (255 * hits / 9) as u8]);
        }
    }
    out
}

#[test]
fn the_mark_agrees_with_floating_point() {
    for px in [1, 2, 3, 16, 32, 48, 64, 100, 128] {
        assert!(icon_rgba(px) == icon_in_floats(px), "{px}");
    }
}

#[test]
fn headings_are_tracked_capitals() {
    assert_eq!(track("Robot"), "R\u{2009}O\u{2009}B\u{2009}O\u{2009}T");
    assert_eq!(spaced("ab"), "a\u{2009}b");
    assert_eq!(track(""), "");
}

#[test]
fn the_desktop_switch_is_offered_only_when_there_is_a_desktop() {
    // On files, with a screen: the operator can go and look.
    assert!(files_switch_enabled(true, true));
    // On files, robot sitting at its login screen: nothing to show.
    assert!(!files_switch_enabled(true, false));
    // On the desktop: switching to files is always allowed, and is the way out of a session
    // that cannot render anything.
    assert!(files_switch_enabled(false, false));
    assert!(files_switch_enabled(false, true));
    let s = mode_switch(Mode::Files, 0);
    assert_eq!((s.label, s.enabled), ("Desktop", false));
    assert!(s.hint.contains("No desktop session"), "{}", s.hint);
    assert_eq!(mode_switch(Mode::Desktop, 0).label, "Files");
}

#[test]
fn a_narrow_row_drops_columns_rather_than_overlapping() {
    // Wide enough for everything.
    assert_eq!(meta_columns(500), (true, true));
    // Middle: the date is the first thing to go, being the least useful.
    assert_eq!(meta_columns(250), (false, true));
    // Very narrow: the name is all there is room for.
    assert_eq!(meta_columns(120), (false, false));
}

#[test]
fn a_page_holds_more_robots_on_a_taller_window() {
    // The minimum window still shows a usable handful.
    assert_eq!(rows_per_page(560), 3);
    assert_eq!(rows_per_page(780), 4);
    assert_eq!(rows_per_page(900), 5);
    // And a big screen does not turn into one enormous page.
    assert_eq!(rows_per_page(4000), 8);
    assert_eq!(rows_per_page(0), 3);
}

#[test]
fn a_shorter_scan_result_cannot_strand_the_viewer_on_an_empty_page() {
    let per_page = rows_per_page(780);
    let long = page_shown(20, per_page, 4);
    assert_eq!((long.pages, long.page, long.first, long.end), (5, 4, 16, 20));
    assert_eq!(page_label(long, 20), "17\u{2013}20 of 20");
    // A rescan finds two robots; the old page number points past the end.
    let short = page_shown(2, per_page, long.page);
    assert_eq!(short.page, 0, "the page was not brought back into range");
    assert_eq!((short.first, short.end), (0, 2));
    assert_eq!(page_shown(0, per_page, 3).pages, 0);
}

#[test]
fn picking_a_two_homed_robot_offers_its_networks() {
    let mut app = app_with(vec![a_robot()]);
    app.pick(&a_robot());
    let choices: Vec<String> = app.network_choices().into_iter().map(|a| a.host).collect();
    assert_eq!(choices, ["192.168.1.118", "192.168.2.100"]);
    assert!(app.chosen_addr.is_none(), "the picker did not default to trying every address");
}

#[test]
fn a_single_homed_robot_gets_no_pointless_choice() {
    let mut only_wifi = a_robot();
    only_wifi.addrs = vec![addr("192.168.1.118:9631")];
    let mut app = app_with(vec![]);
    app.pick(&only_wifi);
    assert!(app.network_choices().is_empty(), "offered a choice of one network");
}

#[test]
fn choosing_another_robot_drops_the_pinned_network() {
    let mut app = app_with(vec![a_robot()]);
    app.chosen_addr = Some(addr("192.168.2.100:9631"));
    app.pick(&a_robot());
    assert!(app.chosen_addr.is_none(), "a network pinned on one robot leaked onto the next");
    assert_eq!(app.address, "tangox");
    assert_eq!(app.username, "tangox");
    assert_eq!(app.fingerprint, "aa:bb");
}

#[test]
fn both_networks_are_listed() {
    let summary = address_summary(&a_robot().addrs);
    assert!(summary.contains("192.168.1.118"), "{summary}");
    assert!(summary.contains("192.168.2.100"), "{summary}");
}

#[test]
fn ipv6_is_hidden_behind_ipv4() {
    let addrs = vec![addr("192.168.1.118:9631"), addr("[fe80::1]:9631")];
    assert_eq!(address_summary(&addrs), "192.168.1.118");
}

#[test]
fn an_ipv6_only_robot_still_shows_something() {
    let addrs = vec![addr("[fe80::1]:9631")];
    assert_eq!(address_summary(&addrs), "fe80::1");
    assert_eq!(address_summary(&vec![]), "no address");
}

#[test]
fn a_crowded_robot_is_counted_rather_than_wrapped() {
    let addrs: Vec<Address> = (1..=6).map(|n| addr(&format!("10.0.0.{n}:9631"))).collect();
    let summary = address_summary(&addrs);
    assert!(summary.ends_with("+3 more"), "{summary}");
    assert!(!summary.contains("10.0.0.4"), "{summary}");
    assert_eq!(summary, "10.0.0.1  ·  10.0.0.2  ·  10.0.0.3  ·  +3 more");
}

#[test]
fn a_typed_address_gets_the_usual_port() {
    match resolve(" 10.0.0.2 ", None) {
        Ok(Target::Typed { address, name }) => {
            assert_eq!(address, "10.0.0.2:9631");
            assert_eq!(name, "10.0.0.2");
        }
        other => panic!("{other:?}"),
    }
    match resolve("10.0.0.2:99", None) {
        Ok(Target::Typed { address, .. }) => assert_eq!(address, "10.0.0.2:99"),
        other => panic!("{other:?}"),
    }
    assert_eq!(resolve("  ", None).err(), Some(NO_ADDRESS));
    match resolve("", Some(&a_robot())) {
        Ok(Target::Known { addrs }) => assert_eq!(addrs.len(), 2),
        other => panic!("{other:?}"),
    }
    let hosts = vec![a_robot()];
    assert_eq!(named(&hosts, "TangoX").expect("found").len(), 2);
    let e = named(&hosts, "ro\"bot").expect_err("unknown");
    assert!(e.starts_with("\"ro\\\"bot\" is not an address"), "{e}");
}

#[test]
fn connecting_checks_what_was_filled_in() {
    let mut app = app_with(vec![]);
    assert!(!app.ready());
    assert!(app.connect().is_none());
    assert_eq!(app.connect_error.as_deref(), Some(NO_ADDRESS));
    app.address = "10.0.0.2".into();
    app.fingerprint = "zz".into();
    assert!(app.connect().is_none());
    assert_eq!(
        app.connect_error.as_deref(),
        Some("Fingerprint: fingerprint must be 32 hex bytes")
    );
    app.fingerprint = format!(" {} ", "zz".repeat(32));
    assert!(app.connect().is_none());
    assert_eq!(app.connect_error.as_deref(), Some("Fingerprint: invalid hex in fingerprint"));
    app.fingerprint = "ab".repeat(32);
    let (pin, target) = app.connect().expect("target");
    assert_eq!(pin, Some([0xab; 32]));
    assert!(matches!(target, Target::Typed { .. }));
    assert!(app.dial(Ok(vec![addr("10.0.0.2:9631")]), pin).is_none());
    assert_eq!(app.connect_error.as_deref(), Some(NO_CREDENTIALS));
    assert!(app.dial(Err("no such robot".into()), pin).is_none());
    assert_eq!(app.connect_error.as_deref(), Some("no such robot"));
    app.username = " alice ".into();
    app.password = "pw".into();
    assert!(app.ready());
    app.mode = Mode::Files;
    let dial = app.dial(Ok(vec![addr("10.0.0.2:9631")]), pin).expect("dialled");
    assert_eq!(dial.username, "alice");
    assert!(!dial.start_stream && !app.streaming);
    app.chosen_addr = Some(addr("10.0.0.7:9631"));
    match app.connect() {
        Some((_, Target::Known { addrs })) => assert_eq!(addrs[0].host, "10.0.0.7"),
        other => panic!("{other:?}"),
    }
}

#[test]
fn a_session_parked_on_files_stops_the_encoder() {
    let mut app = app_with(vec![]);
    app.username = "alice".into();
    app.password = "pw".into();
    app.dial(Ok(vec![]), None).expect("dialled");
    assert!(app.streaming);
    assert_eq!(app.set_mode(Mode::Desktop), None);
    assert_eq!(app.set_mode(Mode::Files), Some(StreamControl::Stop));
    assert!(!app.streaming);
    assert_eq!(app.set_mode(Mode::Desktop), Some(StreamControl::Start(app.settings)));
    let faster = StreamSettings { max_fps: 60, ..app.settings };
    assert_eq!(app.change_settings(faster, true), Some(StreamControl::Start(faster)));
    assert_eq!(app.change_settings(faster, true), None);
    assert!(app.set_immersive(true));
    assert!(!app.set_immersive(true));
}

#[test]
fn a_scan_says_what_it_found() {
    let mut app = app_with(vec![]);
    assert!(app.start_scan());
    assert!(!app.start_scan(), "one at a time");
    app.poll_scan(None);
    assert!(app.scanning);
    app.poll_scan(Some(Ok(vec![])));
    assert_eq!(app.connect_error.as_deref(), Some(NO_ANSWER));
    app.page = 3;
    app.poll_scan(Some(Ok(vec![a_robot()])));
    assert_eq!((app.page, app.hosts.len()), (0, 1));
    app.poll_scan(Some(Err("no interface".into())));
    assert_eq!(app.connect_error.as_deref(), Some("Discovery failed: no interface"));
    app.pick(&a_robot());
    app.address_typed();
    assert!(app.picked.is_none());
    assert_eq!(shown_machine(&a_robot()).as_deref(), Some("tango-desktop"));
    let plain = Discovered { hostname: Some("tangox".into()), ..a_robot() };
    assert_eq!(shown_machine(&plain), None);
}

#[test]
fn the_version_is_shown_with_what_is_known_of_it() {
    let s = version_status(None);
    assert_eq!(s.label, format!("v{CURRENT}"));
    assert!(matches!(s.action, VersionAction::Recheck));
    let s = version_status(Some(Outcome::Checking));
    assert_eq!(s.label, format!("v{CURRENT} · checking for updates…"));
    let s = version_status(Some(Outcome::UpToDate));
    assert_eq!(s.label, format!("v{CURRENT} · up to date"));
    let s = version_status(Some(Outcome::Unavailable("offline".into())));
    assert_eq!(
        s.hover.as_deref(),
        Some("Could not check for updates: offline\nClick to try again.")
    );
    let newer =
        Outcome::Available { version: "9.0.0".into(), notes: String::new(), url: "u".into() };
    let s = version_status(Some(newer));
    assert_eq!(s.button.as_deref(), Some("Update to 9.0.0"));
    assert!(matches!(s.action, VersionAction::Open { url } if url == "u"));
}

fn monitor(id: u32) -> MonitorInfo {
    MonitorInfo { id, width: 1920, height: 1080, name: format!("m{id}") }
}

#[test]
fn monitors_have_labels() {
    assert_eq!(monitor_label(&monitor(1)), "m1 (1920x1080)");
    assert_eq!(selected_monitor(&vec![monitor(0), monitor(1)], 1), "m1 (1920x1080)");
    assert_eq!(selected_monitor(&vec![monitor(0)], 1), "-");
}

#[test]
fn a_session_opens_with_what_the_host_has() {
    let mut status = Status::default();
    let ok = HostMsg::HelloOk { host_name: "r".into(), monitors: vec![monitor(3)] };
    welcome(&mut status, ok, "").expect("welcome");
    assert!(status.connected);
    assert_eq!(status.message, "Connected to r");
    let settings = StreamSettings { max_fps: 0, scale_percent: 5, ..StreamSettings::default() };
    match opening(settings, &status.monitors, true) {
        Some(ClientMsg::StartStream { monitor, max_fps, scale_percent, .. }) => {
            assert_eq!((monitor, max_fps, scale_percent), (3, 1, 25));
        }
        other => panic!("{other:?}"),
    }
    assert!(opening(settings, &status.monitors, false).is_none());
    let mut other = Status::default();
    let e = welcome(&mut other, HostMsg::Ping { nonce: 5 }, "Ping { nonce: 5 }");
    assert_eq!(e.expect_err("no answer"), "unexpected handshake reply: Ping { nonce: 5 }");
    assert!(!other.connected);
    let e = welcome(&mut Status::default(), HostMsg::HelloErr { reason: "no".into() }, "");
    assert_eq!(e.expect_err("refused"), "host rejected the connection: no");
    assert!(matches!(hello("a".into(), "b".into(), "c".into()), ClientMsg::Hello { proto_version: PROTO_VERSION, .. }));
    assert!(matches!(receive(&mut status, HostMsg::Ping { nonce: 9 }), ViewerAction::Pong { nonce: 9 }));
    receive(&mut status, HostMsg::Clipboard { text: "t".into() });
    assert_eq!(status.incoming_clipboard.as_deref(), Some("t"));
    assert!(matches!(outgoing(Wish::Keyframe), ClientMsg::RequestKeyframe));
    assert!(matches!(
        outgoing(Wish::Settings { control: StreamControl::Stop }),
        ClientMsg::StopStream
    ));
    assert_eq!(unreachable_text(1, "10.0.0.2"), "could not reach 10.0.0.2");
    assert_eq!(
        unreachable_text(2, "e"),
        "none of the 2 advertised addresses answered (last: e)"
    );
    assert_eq!(whoami(None, Some("u".into())), "u");
    let mut slot = FrameSlot::default();
    assert!(slot.show(2, 1, vec![1; 8]).is_empty());
    assert_eq!(slot.show(2, 1, vec![2; 8]), [1; 8]);
    assert_eq!(slot.generation, 2);
}

fn listing() -> DirListing {
    let e = |name: &str, is_dir: bool| DirEntry {
        name: name.into(),
        is_dir,
        len: 1,
        modified: None,
        is_link: false,
    };
    DirListing {
        path: "/home/r".into(),
        parent: Some("/home".into()),
        entries: vec![e("maps", true), e("a.txt", false)],
    }
}

#[test]
fn the_panes_ask_for_the_right_thing() {
    let mut panes = FilePanes::new("/l".into());
    let mut st = State::default();
    assert!(panes.needs_local());
    assert!(matches!(panes.ensure_remote_listed(&st), Some(Command::List { path }) if path.is_empty()));
    assert!(panes.upload_selected(&st, false).is_none());
    st.listing = Some(listing());
    assert_eq!(remote_dir(&st).as_deref(), Some("/home/r"));
    assert!(panes.ensure_remote_listed(&st).is_none());
    panes.local_pick = Some("x".into());
    assert!(panes.can_send(&st));
    match panes.upload_selected(&st, false) {
        Some(Command::Upload { local, remote, .. }) => {
            assert_eq!((local.as_str(), remote.as_str()), ("/l/x", "/home/r/x"));
        }
        other => panic!("{other:?}"),
    }
    assert!(matches!(panes.upload_selected(&st, true), Some(Command::UploadTree { .. })));
    panes.remote_pick = Some("maps".into());
    assert!(panes.can_get());
    match panes.download_selected(&st) {
        Some(Command::DownloadTree { remote, local_parent }) => {
            assert_eq!((remote.as_str(), local_parent.as_str()), ("/home/r/maps", "/l"));
        }
        other => panic!("{other:?}"),
    }
    panes.remote_pick = Some("a.txt".into());
    assert!(matches!(panes.download_selected(&st), Some(Command::Download { local, .. }) if local == "/l/a.txt"));
    match panes.remove_selected(&st) {
        Some((Command::Remove { path }, Command::List { path: again })) => {
            assert_eq!((path.as_str(), again.as_str()), ("/home/r/a.txt", "/home/r"));
        }
        other => panic!("{other:?}"),
    }
    assert!(panes.remote_pick.is_none());
    assert!(panes.remove_selected(&st).is_none());
    panes.new_folder = "  ".into();
    assert!(panes.make_remote_folder(&st).is_none());
    panes.new_folder = " new ".into();
    assert!(matches!(panes.make_remote_folder(&st), Some((Command::MakeDir { path }, _)) if path == "/home/r/new"));
    assert!(panes.new_folder.is_empty());
    assert!(matches!(panes.open_remote(&listing(), "maps"), Command::List { path } if path == "/home/r/maps"));
    assert!(matches!(panes.open_remote(&listing(), "a.txt"), Command::Open { path } if path == "/home/r/a.txt"));
    assert!(matches!(panes.list_remote("/".into()), Command::List { path } if path == "/"));
    // Above the root of a drive lie the drives, and while they are listed nothing is copied.
    assert_eq!(panes.above(None, true).as_deref(), Some(""));
    assert_eq!(panes.above(None, false), None);
    panes.go_local(String::new());
    panes.local_pick = Some("C:\\".into());
    assert!(!panes.can_send(&st));
    assert_eq!(panes.above(None, true), None);
    panes.type_local(" /tmp ");
    panes.open_local("sub");
    assert_eq!(panes.local_dir, "/tmp/sub");
    panes.reload_local(Err("gone".into()));
    assert_eq!(panes.local_error.as_deref(), Some("/tmp/sub: gone"));
    panes.reload_local(Ok(listing()));
    assert_eq!(panes.local_dir, "/home/r");
}

#[test]
fn closing_an_edited_file_takes_two_presses() {
    let mut panes = FilePanes::new("/l".into());
    let mut st = State::default();
    assert!(save_editor(&st).is_none());
    st.begin_open("/etc/hosts".into());
    st.opened("/etc/hosts", "one".into());
    st.editor.as_mut().expect("editor").text = "two".into();
    assert!(can_save(st.editor.as_ref().expect("editor")));
    assert!(matches!(save_editor(&st), Some(Command::Save { text, .. }) if text == "two"));
    panes.close_editor(&mut st);
    assert_eq!(st.editor.as_ref().expect("kept").error.as_deref(), Some(CLOSE_WARNING));
    assert_eq!(st.editor.as_ref().expect("kept").text, "two");
    panes.close_editor(&mut st);
    assert!(st.editor.is_none());
    assert!(!panes.close_confirmed);
}

#[test]
fn panes_refresh_once_everything_has_landed() {
    let mut panes = FilePanes::new("/l".into());
    let mut st = State::default();
    st.listing = Some(listing());
    let id = st.next_id();
    st.begin(id, "x".into(), Direction::ToRobot, 10);
    let p = panes.pump_transfers(&mut st);
    assert!(!p.refresh && p.commands.is_empty());
    assert_eq!(transfer_text(&st.transfers[0]), "0 B / 10 B");
    st.finish(id, Ok(()));
    let p = panes.pump_transfers(&mut st);
    assert!(p.refresh);
    assert!(matches!(&p.commands[0], Command::List { path } if path == "/home/r"));
    assert!(!panes.pump_transfers(&mut st).refresh, "only once");
    assert_eq!(transfer_text(&st.transfers[0]), "100%");
    let b = Batch {
        id: 1,
        name: "maps".into(),
        direction: Direction::ToRobot,
        truncated: false,
        error: None,
        queued: 0,
    };
    let p = BatchProgress { files_done: 1, files_failed: 1, files_total: 2, bytes_done: 5, bytes_total: 9 };
    assert!(matches!(batch_shown(&b, &p), BatchShown::Failed { files: 1 }));
    let p = BatchProgress { files_failed: 0, files_done: 2, ..p };
    assert!(matches!(batch_shown(&b, &p), BatchShown::Done));
    let p = BatchProgress { files_done: 1, ..p };
    assert!(matches!(batch_shown(&b, &p), BatchShown::Moving { done: 5, total: 9 }));
    let failed = Batch { error: Some("no".into()), ..b };
    assert!(matches!(batch_shown(&failed, &p), BatchShown::Error { reason } if reason == "no"));
}

#[test]
fn the_clipboard_does_not_echo() {
    let mut s = Selection::new();
    assert!(s.reads(400, 400));
    assert!(!s.reads(399, 400));
    assert_eq!(s.seen(Some("a".into())).as_deref(), Some("a"));
    assert_eq!(s.seen(Some("a".into())), None);
    s.publish("b".into());
    assert!(!s.reads(400, 400), "it is ours");
    assert_eq!(s.serve(1, 1, 2, 3), Answer::Targets { targets: 1, utf8: 2, latin1: 3 });
    assert_eq!(s.serve(3, 1, 2, 3), Answer::Text);
    assert_eq!(s.serve(4, 1, 2, 3), Answer::Refuse);
    s.lost();
    assert_eq!(s.serve(3, 1, 2, 3), Answer::Refuse);
    assert_eq!(s.seen(Some("b".into())), None);
    assert_eq!(s.seen(None), None);

    let mut w = Buffer::new();
    w.wrote("x".into(), 7);
    assert!(!w.changed(7));
    assert!(w.changed(8));
    assert_eq!(w.seen(Some("x".into())), None);
    assert_eq!(w.seen(Some("y".into())).as_deref(), Some("y"));
}
