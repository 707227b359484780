//! The host's side: files, accounts, sessions, transfers, the stream and the capture.
use telekin::capture::{
    clamp_rect, consider, cookie_candidates, display_hint, explain, has_prefix, list_monitors,
    local_displays, next_grab, no_desktop, real_uid, repack_rows, run_dir, wait_time, Damage, DamageInbox,
    Grab, Picture, Rect, FULL_RESYNC, HINT_CHECK, HINT_NO_DISPLAY, HINT_WAYLAND,
};
use telekin::cli;
use telekin::cpu::{filetime_nanos, process_time, to_u64};
use telekin::listing::{dir_entry, EntryKind, TreeWalk, WalkEntry};
use telekin::proto::{
    frame, frame_len, ClientMsg, DirEntry, FileOp, FileReply, FileRequest, FrameError, HostMsg,
    MonitorInfo, StreamKind, MAX_CONTROL_MSG, MAX_FILE_BYTES, MAX_TEXT_BYTES, MAX_TREE_ENTRIES,
    PROTO_VERSION,
};
use telekin::robot_files::{
    check_edit, check_make_dir, check_remove, check_send, check_write, check_write_text, clean,
    file_text, home, join, name_of, parent_of, plan_write, resolve, robot_listing,
};
use telekin::session::{
    advertised_name, answer_hello, can_authenticate, greet, input_step, machine_hostname,
    report, shares_clipboard, truncate, HelloStep, HostAction, HostSession, InputStep, ReportEvent,
    ReportStep,
};
use telekin::stream::{
    ceiling, choose_frame, frame_budget, pacing, rest_of, scaled_size, Source, StreamHandle, IDLE_REFRESH,
    MAX_STRETCH,
};
use telekin::transfer::{
    anon, answer_failure, check_kind, done_or_failed, during, handle, pending, FileWork, Receipt,
};
use telekin::users::{
    account_noted, add, admitted, authenticate, check_account, enter, hash_to_check, load, not_an_account, render, system_auth_accepts,
    system_auth_input, verdict, verify, AddError, Users, DUMMY, HEADER,
};

fn entry(name: &str, is_dir: bool, len: u64) -> DirEntry {
    DirEntry { name: name.into(), is_dir, len, modified: None, is_link: false }
}

#[test]
fn lists_directories_before_files_and_reports_sizes() {
    let listing = robot_listing(
        "/tmp/x".into(),
        vec![entry("aaa.txt", false, 5), entry("zzz-folder", true, 0)],
    );
    assert_eq!(listing.entries.len(), 2);
    assert_eq!(listing.entries[0].name, "zzz-folder", "folders come first");
    assert!(listing.entries[0].is_dir);
    assert_eq!(listing.entries[1].name, "aaa.txt");
    assert_eq!(listing.entries[1].len, 5);
    assert!(listing.parent.is_some());
    assert_eq!(listing.parent.as_deref(), Some("/tmp"));
    assert!(robot_listing("/".into(), vec![]).parent.is_none());
}

#[test]
fn dot_dot_is_resolved_without_the_path_existing() {
    // An upload destination does not exist yet, which is the whole reason this is textual.
    let p = resolve("/tmp/a/b/../c/new-file.txt", "/home/r");
    assert!(p.ends_with("c/new-file.txt"), "{p:?}");
    assert!(!p.contains(".."), "{p:?}");
    assert_eq!(p, "/tmp/a/c/new-file.txt");
}

#[test]
fn a_relative_path_lands_in_home_not_the_working_directory() {
    let p = resolve("notes.txt", "/home/r");
    assert!(p.starts_with('/'), "{p:?}");
    assert!(p.starts_with("/home/r"), "{p:?}");
    assert_eq!(p, "/home/r/notes.txt");
}

#[test]
fn home_is_where_the_settings_say() {
    assert_eq!(home(Some("/home/r".into()), Some("C:\\r".into())), "/home/r");
    assert_eq!(home(None, Some("C:\\r".into())), "C:\\r");
    assert_eq!(home(None, None), "/");
    assert_eq!(resolve("", "/home/r"), "/home/r");
    assert_eq!(resolve("  ", "/home/r"), "/home/r");
}

#[test]
fn cleaning_never_climbs_past_the_root() {
    assert_eq!(clean("/../../etc"), "/etc");
    assert_eq!(clean("/a/./b//c/"), "/a/b/c");
    assert_eq!(clean(&clean("/a/../b")), clean("/a/../b"));
    assert_eq!(join("/home", "a"), "/home/a");
    assert_eq!(join("/home", "/a"), "/a");
    assert_eq!(parent_of("/a/b").as_deref(), Some("/a"));
    assert_eq!(parent_of("/"), None);
    assert_eq!(name_of("/a/b").as_deref(), Some("b"));
    assert_eq!(name_of("/"), None);
}

#[test]
fn refuses_to_delete_a_directory_with_anything_in_it() {
    let err = check_remove("/tmp/full", true, false).expect_err("should refuse");
    assert!(err.contains("not empty"), "{err}");
    // An empty one is fine.
    check_remove("/tmp/empty", true, true).expect("remove empty");
    check_remove("/tmp/file", false, false).expect("remove a file");
}

#[test]
fn an_upload_is_invisible_until_it_finishes() {
    let incoming = plan_write("/tmp/put/map.yaml").expect("begin");
    assert_eq!(incoming.final_path, "/tmp/put/map.yaml");
    assert_ne!(incoming.temp, incoming.final_path);
    assert_eq!(incoming.temp, "/tmp/put/.map.yaml.telekin-part");
    assert_eq!(incoming.parent, "/tmp/put");
    check_write(&incoming, true, false).expect("writable");
    assert!(check_write(&incoming, false, false).is_err());
    let err = check_write(&incoming, true, true).expect_err("a folder");
    assert!(err.contains("is a folder here"), "{err}");
    assert_eq!(plan_write("/").expect_err("root"), "cannot write to a filesystem root");
    assert_eq!(plan_write("/tmp/..").expect_err("name"), "that name has no file part");
}

#[test]
fn text_survives_a_round_trip_through_the_editor() {
    check_edit("/tmp/params.yaml", false, 11).expect("editable");
    let text = file_text("/tmp/params.yaml", b"speed: 0.5\n".to_vec()).expect("read");
    assert_eq!(text, "speed: 0.5\n");
    let edited = "speed: 1.25\nturn: 0.4\n";
    check_write_text(edited).expect("write");
    let again = file_text("/tmp/params.yaml", edited.as_bytes().to_vec()).expect("read back");
    assert_eq!(again, edited);
}

#[test]
fn a_binary_file_is_refused_rather_than_mangled() {
    // Invalid UTF-8: a lone continuation byte.
    let err =
        file_text("/tmp/firmware.bin", vec![0x00, 0xFF, 0xFE, 0x80]).expect_err("should refuse");
    assert!(err.contains("not text"), "{err}");
}

#[test]
fn a_failed_save_leaves_the_original_alone() {
    // Past the editor's limit, so the write is refused outright.
    let huge = "x".repeat(MAX_TEXT_BYTES as usize + 1);
    let err = check_write_text(&huge).expect_err("should refuse");
    assert!(err.contains("past the"), "{err}");
    check_write_text(&huge[1..]).expect("at the limit");
}

#[test]
fn a_folder_is_not_sent_as_a_file() {
    let err = check_send("/tmp/getdir", true, 0).expect_err("should refuse");
    assert!(err.contains("folder"), "{err}");
    assert!(check_send("/tmp/big", false, MAX_FILE_BYTES + 1).is_err());
    check_send("/tmp/big", false, MAX_FILE_BYTES).expect("at the limit");
    assert!(check_edit("/tmp/getdir", true, 0).is_err());
    assert!(check_edit("/tmp/big", false, MAX_TEXT_BYTES + 1).is_err());
    assert_eq!(check_make_dir("/tmp/x", true).expect_err("exists"), "/tmp/x already exists");
    check_make_dir("/tmp/x", false).expect("free");
}

#[test]
fn round_trip_and_reject() {
    let mut users = Users::new();
    assert_eq!(add(&mut users, "alice", "correct-horse"), Ok(false));
    let mut users = load(&render(&users)).unwrap();

    assert!(verify(&users, "alice", "correct-horse"));
    assert!(!verify(&users, "alice", "wrong"));
    assert!(!verify(&users, "bob", "correct-horse"));
    // An unknown user must not be accepted by the dummy-hash path.
    assert!(!verify(&users, "nobody", ""));

    // Adding a second account keeps the first.
    assert_eq!(add(&mut users, "bob", "another-password"), Ok(false));
    let users = load(&render(&users)).unwrap();
    assert!(verify(&users, "alice", "correct-horse"));
    assert!(verify(&users, "bob", "another-password"));
}

#[test]
fn rejects_bad_input() {
    let mut users = Users::new();
    assert!(add(&mut users, "has:colon", "long-enough-password").is_err());
    assert!(add(&mut users, "alice", "short").is_err());
    assert!(users.is_empty());
    assert_eq!(check_account("has:colon", "long-enough-password"), Err(AddError::BadName));
    assert_eq!(check_account("", "long-enough-password"), Err(AddError::BadName));
    assert_eq!(check_account("alice", "short"), Err(AddError::ShortPassword));
    assert_eq!(check_account("alice", "eight888"), Ok(()));
}

#[test]
fn an_account_file_is_read_line_by_line() {
    let users = load("# comment\n\nbob:h2\nalice:h1\n").unwrap();
    assert_eq!(users.names(), ["alice", "bob"]);
    assert_eq!(users.get("bob").as_deref(), Some("h2"));
    assert_eq!(users.get("carol"), None);
    assert_eq!(render(&users), format!("{HEADER}alice:h1\nbob:h2\n"));
    assert_eq!(load("ok:1\nno-colon\n").err(), Some(2));
    let mut users = users;
    assert!(users.insert("bob".into(), "h3".into()), "bob was there");
    assert_eq!(users.len(), 2);
    assert_eq!(users.get("alice").as_deref(), Some("h1"));
}

#[test]
fn only_a_good_check_lets_anyone_in() {
    assert!(verdict(true, Some(true)));
    assert!(!verdict(false, Some(true)));
    assert!(!verdict(true, Some(false)));
    assert!(!verdict(true, None));
    assert!(authenticate(true, &Users::new(), "anyone", "x"));
    assert!(system_auth_accepts("alice"));
    assert!(!system_auth_accepts(""));
    assert!(!system_auth_accepts("a\nb"));
    assert_eq!(system_auth_input("pw"), b"pw\0");
}

fn monitors() -> Vec<MonitorInfo> {
    list_monitors(&vec![(1920, 1080), (800, 600)])
}

#[test]
fn a_viewer_is_greeted_by_its_version() {
    let hello = |v: u16| ClientMsg::Hello {
        proto_version: v,
        username: "alice".into(),
        password: "pw".into(),
        client_name: "desk".into(),
    };
    assert!(matches!(greet(hello(PROTO_VERSION)), HelloStep::Check { .. }));
    assert!(matches!(greet(hello(PROTO_VERSION - 1)), HelloStep::Refuse { .. }));
    assert!(!matches!(greet(ClientMsg::StopStream), HelloStep::Check { .. }));
    match answer_hello(false, "robot".into(), monitors()) {
        HostMsg::HelloErr { reason } => assert_eq!(reason, "wrong username or password"),
        other => panic!("{other:?}"),
    }
    match answer_hello(true, "robot".into(), monitors()) {
        HostMsg::HelloOk { host_name, monitors } => {
            assert_eq!(host_name, "robot");
            assert_eq!(monitors.len(), 2);
        }
        other => panic!("{other:?}"),
    }
}

#[test]
fn a_second_stream_replaces_the_first() {
    let mut s = HostSession::new(monitors(), Some(50), true);
    let start = |scale: u8| ClientMsg::StartStream {
        monitor: 1,
        max_fps: 0,
        bitrate_kbps: 4000,
        scale_percent: scale,
        max_cpu_percent: Some(80),
    };
    match s.receive(start(10)) {
        HostAction::Start { stop_old, config, .. } => {
            assert!(!stop_old);
            assert_eq!(config.max_fps, 1);
            assert_eq!(config.bitrate_kbps, 4000);
            assert_eq!(config.max_cpu_percent, Some(80), "the viewer's request wins");
        }
        _ => panic!("a stream was asked for"),
    }
    match s.receive(start(100)) {
        HostAction::Start { stop_old, .. } => assert!(stop_old),
        _ => panic!("a stream was asked for"),
    }
    assert!(matches!(s.receive(ClientMsg::StopStream), HostAction::Stop));
    assert!(!s.streaming);
    assert!(!s.end());
}

#[test]
fn small_rules_of_a_session() {
    assert!(shares_clipboard("hello"));
    assert!(!shares_clipboard(&"x".repeat(1_048_577)));
    assert!(can_authenticate(false, 1));
    assert!(can_authenticate(true, 0));
    assert!(!can_authenticate(false, 0));
    assert!(matches!(input_step(true, false), InputStep::Inject));
    assert!(!matches!(input_step(false, false), InputStep::Inject));
    assert_eq!(advertised_name(Some("r2".into()), "host", "acct"), "r2");
    assert_eq!(advertised_name(None, "host", "acct"), "host");
    assert_eq!(advertised_name(None, "", "acct"), "acct");
    assert_eq!(machine_hostname(Some("robot\n".into()), None, None), "robot");
    assert_eq!(truncate("short"), "short");
    assert_ne!(truncate(&"y".repeat(500)), "y".repeat(500));
}

#[test]
fn uploads_are_claimed_once() {
    let mut uploads = pending();
    let put = FileRequest { id: 7, op: FileOp::Put { path: "a.txt".into(), len: 3 } };
    let work = handle(&mut uploads, put, "/home/r");
    assert!(!matches!(work, FileWork::List { .. }));
    assert_eq!(uploads.claim(7).expect("claimed"), "/home/r/a.txt");
    assert!(uploads.claim(7).is_err());
    assert!(matches!(
        answer_failure(during(7, "disk full".into())),
        Some(FileReply::Failed { id: 7, .. })
    ));
    assert!(answer_failure(anon("nothing".into())).is_none());
    assert!(check_kind(StreamKind::File).is_ok());
    assert!(check_kind(StreamKind::Video).is_err());
    assert!(matches!(done_or_failed(3, Ok(())), FileReply::Done { id: 3 }));
    assert!(matches!(done_or_failed(3, Err("no".into())), FileReply::Failed { id: 3, .. }));
    let mut receipt = Receipt::new();
    receipt.take(10).expect("small");
    assert_eq!(receipt.written, 10);
    receipt.written = MAX_FILE_BYTES;
    assert!(receipt.take(1).is_err());
}

#[test]
fn a_walk_goes_down_and_stops_at_the_limit() {
    let mut walk = TreeWalk::new();
    assert_eq!(walk.next_dir().as_deref(), Some(""));
    let e = |name: &str, kind: EntryKind, len: u64| WalkEntry { name: name.into(), kind, len };
    walk.visit(
        "",
        &vec![
            e("a.txt", EntryKind::File, 3),
            e("link", EntryKind::Link, 0),
            e("sub", EntryKind::Dir, 0),
        ],
    );
    assert_eq!(walk.next_dir().as_deref(), Some("sub"));
    walk.visit("sub", &vec![e("b.txt", EntryKind::File, 4)]);
    assert_eq!(walk.next_dir(), None);
    let (dirs, files, truncated) = walk.finish();
    assert_eq!(dirs, ["sub"]);
    assert_eq!(files.len(), 2);
    assert_eq!(files[1].rel, "sub/b.txt");
    assert!(!truncated);

    let mut walk = TreeWalk::new();
    walk.next_dir();
    let many: Vec<WalkEntry> =
        (0..MAX_TREE_ENTRIES + 5).map(|n| e(&format!("{n}"), EntryKind::File, 1)).collect();
    walk.visit("", &many);
    let (_, files, truncated) = walk.finish();
    assert_eq!(files.len(), MAX_TREE_ENTRIES);
    assert!(truncated);
}

#[test]
fn roundtrip_control_msg() {
    let body: Vec<u8> = (0..300u32).map(|n| n as u8).collect();
    let out = frame(&body).unwrap();
    assert_eq!(&out[..4], &300u32.to_le_bytes());
    let prefix: [u8; 4] = [out[0], out[1], out[2], out[3]];
    let len = frame_len(&prefix).unwrap();
    assert_eq!(&out[4..4 + len], &body[..]);
    let too_long = (MAX_CONTROL_MSG + 1).to_le_bytes();
    assert!(matches!(frame_len(&too_long), Err(FrameError::TooLarge { .. })));
}

#[test]
fn stream_kinds_read_back() {
    for b in 0..=255u8 {
        if let Ok(kind) = StreamKind::from_byte(b) {
            assert_eq!(kind.to_byte(), b);
        }
    }
    assert!(StreamKind::from_byte(250).is_err());
    assert_ne!(StreamKind::Video.to_byte(), StreamKind::File.to_byte());
}

#[test]
fn frames_are_paced_and_capped() {
    assert_eq!(frame_budget(20), 50_000_000);
    assert_eq!(rest_of(50, 20), 30);
    assert_eq!(rest_of(50, 80), 0);
    // A tenth of one core, and a frame that took ten milliseconds of it.
    assert_eq!(frame_budget(60), 16_666_667);
    assert_eq!(frame_budget(1024), 976_562, "halfway goes to the even one");
    assert_eq!((ceiling(0), ceiling(25), ceiling(255)), (1, 25, 100));
    assert_eq!(pacing(50_000_000, Some(100_000_000)), 100_000_000);
    assert_eq!(pacing(50_000_000, Some(10_000_000_000)), MAX_STRETCH);
    assert_eq!(pacing(50_000_000, Some(10_000_000)), 50_000_000);
    assert_eq!(pacing(50_000_000, None), 50_000_000);
    assert!(matches!(choose_frame(true, 0), Source::Fresh));
    assert!(matches!(choose_frame(false, 0), Source::Nothing));
    assert!(matches!(choose_frame(false, IDLE_REFRESH), Source::Last));
    assert_eq!(scaled_size(1920, 1080, 50), (960, 540));
    assert_eq!(scaled_size(1920, 1080, 100), (1920, 1080));
    let mut h = StreamHandle::new();
    h.request_keyframe();
    assert!(h.take_keyframe());
    assert!(!h.take_keyframe());
    h.stop();
    assert!(h.stopped);
}

#[test]
fn damage_is_clamped_batched_and_patched() {
    let r = clamp_rect(Rect { x: -5, y: 2, width: 20, height: 200 }, 10, 10);
    assert_eq!((r.x, r.y, r.width, r.height), (0, 2, 10, 8));
    let mut batch = Vec::new();
    assert!(!consider(&mut batch, Rect { x: 0, y: 0, width: 2, height: 2 }, 10, 10));
    assert_eq!(batch.len(), 1);
    let mut inbox = DamageInbox::new();
    inbox.deliver(batch, false);
    assert_eq!(inbox.take().map(|v| v.len()), Some(1));
    assert_eq!(inbox.take().map(|v| v.len()), Some(0));
    inbox.deliver(Vec::new(), true);
    assert!(inbox.take().is_none(), "an overflow means everything changed");

    let mut p = Picture::new(2, 2);
    assert!(p.last_frame().is_none());
    assert!(p.replace(vec![0u8; 16]));
    assert!(!p.replace(vec![0u8; 16]), "nothing changed");
    p.patch(Rect { x: 1, y: 1, width: 1, height: 1 }, &vec![9, 8, 7, 6]);
    let frame = p.last_frame().expect("a frame");
    assert_eq!(&frame.bgra[12..15], &[9, 8, 7]);
    assert_eq!(&frame.bgra[..4], &[0, 0, 0, 255]);
    assert_eq!(p.dimensions(), (2, 2));

    assert!(matches!(next_grab(false, Damage::Unknown, false, 4, 4), Grab::Full));
    assert_eq!(wait_time(50_000_000, FULL_RESYNC), 1_000_000);
    assert_eq!(wait_time(50_000_000, 0), 50_000_000);
    assert_eq!(repack_rows(&[1, 2, 3, 4, 0, 0, 5, 6, 7, 8, 0, 0], 6, 1, 2), [1, 2, 3, 4, 5, 6, 7, 8]);
}

#[test]
fn displays_and_their_cookies_are_found() {
    let names: Vec<String> = ["X10", "X0", "README", "Xabc"].map(String::from).to_vec();
    assert_eq!(local_displays(&names), [":0", ":10"]);
    assert_eq!(run_dir(1000), "/run/user/1000");
    assert!(has_prefix(".mutter-Xwaylandauth.ABC", ".mutter-Xwaylandauth"));
    assert!(!has_prefix("x", "xy"));
    assert_eq!(real_uid("Name:\tx\nUid:\t1000\t1001\t1002\t1003\n"), 1000);
    assert_eq!(display_hint(false, false), HINT_NO_DISPLAY);
    assert_eq!(display_hint(true, true), HINT_WAYLAND);
    assert_eq!(display_hint(true, false), HINT_CHECK);
    let text = explain(":0", "refused", false);
    assert!(text.contains(":0") && text.contains("refused"), "{text}");
    let m = monitors();
    assert_eq!((m[1].id, m[1].width, m[1].height), (1, 800, 600));
    let candidates = cookie_candidates(None, 1000, Some("/home/r".into()), &Vec::new());
    assert_eq!(candidates[0].as_deref(), Some("/run/user/1000/gdm/Xauthority"));
    assert_eq!(candidates[1].as_deref(), Some("/home/r/.Xauthority"));
    assert_eq!(candidates[2], None);
}

#[test]
fn processor_time_is_read_from_its_line() {
    let stat = "42 (a (b) c) S 1 2 3 4 5 6 7 8 9 10 150 50 0 0 20 0 1 0 0 0 0";
    assert_eq!(process_time(stat, 100), Some(2_000_000_000));
    assert_eq!(process_time("42 no parenthesis", 100), None);
    assert_eq!(to_u64(1, 2), (1u64 << 32) + 2);
    assert_eq!(filetime_nanos((0, 10), (0, 5)), 1500);
    assert_eq!(filetime_nanos((u32::MAX, 0), (0, 5)), u64::MAX);
    // As a division in double precision, rounded to the nearest nanosecond, gives it.
    let times = |ticks: u64| format!("1 (x) R 1 1 1 0 -1 0 0 0 0 0 {ticks} 0 0 0 20 0 1 0 1 0 0");
    for (ticks, rate) in [
        (2u64, 3i64),
        (1, 1024),
        (7, 300),
        (123_456_789_012, 977),
        (4_503_599_627_370_497, 100),
        (9_007_199_254_740_993, 1),
        (18_446_744_073_709_549_567, 100),
        (5, i64::MAX),
        (200, 0),
    ] {
        let hz = if rate > 0 { rate as f64 } else { 100.0 };
        let exact = std::time::Duration::from_secs_f64(ticks as f64 / hz);
        assert_eq!(process_time(&times(ticks), rate), Some(exact.as_nanos()), "{ticks} {rate}");
    }
}

#[test]
fn reading_the_changes_again_gives_the_whole_screen() {
    let (w, h) = (4usize, 3usize);
    let mut screen = vec![0u8; w * h * 4];
    for (i, b) in screen.iter_mut().enumerate() {
        *b = if i % 4 == 3 { 255 } else { i as u8 };
    }
    let mut p = Picture::new(w as u32, h as u32);
    // The screen as it was: blank where the two rectangles are.
    let rects = [
        Rect { x: 1, y: 0, width: 2, height: 2 },
        Rect { x: 2, y: 1, width: 2, height: 2 },
    ];
    let inside = |r: &Rect, x: usize, y: usize| {
        let (x, y) = (x as i32, y as i32);
        x >= r.x as i32
            && x < r.x as i32 + r.width as i32
            && y >= r.y as i32
            && y < r.y as i32 + r.height as i32
    };
    let mut before = screen.clone();
    for y in 0..h {
        for x in 0..w {
            if rects.iter().any(|r| inside(r, x, y)) {
                for c in 0..3 {
                    before[(y * w + x) * 4 + c] = 0;
                }
            }
        }
    }
    assert!(p.replace(before));
    for r in rects {
        let mut tile = Vec::new();
        for y in 0..r.height as usize {
            for x in 0..r.width as usize {
                let at = ((r.y as usize + y) * w + r.x as usize + x) * 4;
                tile.extend_from_slice(&screen[at..at + 4]);
            }
        }
        p.patch(r, &tile);
    }
    assert_eq!(p.last_frame().expect("a frame").bgra, &screen[..]);
}

#[test]
fn a_folder_is_looked_through_by_name() {
    let found = |name: &str, kind: EntryKind| WalkEntry { name: name.into(), kind, len: 1 };
    let mut walk = TreeWalk::new();
    let start = walk.next_dir().expect("the start");
    walk.look_through(
        &start,
        vec![
            found("b.txt", EntryKind::File),
            found("sub", EntryKind::Dir),
            found("a.txt", EntryKind::File),
            found("link", EntryKind::Link),
        ],
    );
    assert_eq!(walk.next_dir().as_deref(), Some("sub"));
    let (dirs, files, truncated) = walk.finish();
    assert_eq!(dirs, ["sub"]);
    assert_eq!(files.iter().map(|f| f.rel.as_str()).collect::<Vec<_>>(), ["a.txt", "b.txt"]);
    assert!(!truncated);
}

#[test]
fn the_host_answers_on_the_command_line() {
    assert_eq!(
        cli::list_users(&Users::new()),
        ["No accounts yet. Add one with: chassis --add-user <name>"]
    );
    let users = load("zoe:h1\nann:h2\n").expect("accounts");
    assert_eq!(cli::list_users(&users), ["ann", "zoe"]);
    assert_eq!(cli::list_monitors(&Vec::new()).len(), 0);
    let m = MonitorInfo { id: 1, width: 1920, height: 1080, name: "HDMI".into() };
    assert_eq!(cli::list_monitors(&vec![m]), ["1: HDMI (1920x1080)"]);
    assert_eq!(not_an_account("/etc/users", 3), "/etc/users:3 is not `user:hash`");
    assert_eq!(account_noted(false, "bob", "/f"), "Added account \"bob\" in /f");
    assert_eq!(account_noted(true, "bob", "/f"), "Updated account \"bob\" in /f");
    assert!(AddError::BadName.message().contains("username"));
    assert!(AddError::ShortPassword.message().contains("8 characters"));
    let failed = AddError::Hashing { reason: "out of memory".into() };
    assert_eq!(failed.message(), "hashing failed: out of memory");
    let mut users = load("ann:h2\n").expect("accounts");
    assert_eq!(enter(&mut users, "ann", Err("out of memory".into())), Err(failed));
    assert_eq!(users.get("ann").as_deref(), Some("h2"));
    assert_eq!(enter(&mut users, "ann", Ok("h3".into())), Ok(true));
    assert_eq!(users.get("ann").as_deref(), Some("h3"));
}

#[test]
fn what_was_tried_is_said() {
    let none = no_desktop(&Vec::new(), None);
    assert!(none.contains("(no X server is running on this machine)"), "{none}");
    assert!(none.ends_with("Last error: none"), "{none}");
    let two = no_desktop(&vec![":0".to_string(), ":1".to_string()], Some("refused".into()));
    assert!(two.contains("(tried :0, :1)"), "{two}");
    assert!(two.ends_with("Last error: refused"), "{two}");
}

#[test]
fn advances_when_busy() {
    // The process's own line before and after a burst of work.
    let line = |user: u64, system: u64| {
        format!("42 (chassis) R 1 42 42 0 -1 4194304 90 0 0 0 {user} {system} 0 0 20 0 9 0 77 0 0")
    };
    let before = process_time(&line(150, 50), 100).expect("supported");
    let after = process_time(&line(163, 50), 100).expect("still supported");
    assert!(after > before, "process CPU time did not advance: {before:?} -> {after:?}");
    assert_eq!(after - before, 130_000_000);
}

#[test]
fn an_unknown_user_is_checked_against_the_dummy() {
    let users = load("ann:h2\n").expect("accounts");
    assert_eq!(hash_to_check(&users, "ann"), ("h2".to_string(), true));
    assert_eq!(hash_to_check(&users, "bob"), (DUMMY.to_string(), false));
    assert!(admitted(true, false, None));
    assert!(admitted(false, true, Some(true)));
    assert!(!admitted(false, true, Some(false)));
    assert!(!admitted(false, true, None));
    assert!(!admitted(false, false, Some(true)), "the dummy lets nobody in");
}

#[test]
fn a_name_that_could_read_as_a_comment_is_kept() {
    let mut users = load("#old:h0\nann:h1\n").expect("accounts");
    assert_eq!(users.names(), ["ann"], "a comment is no account");
    assert_eq!(add(&mut users, "#bob", "long-enough-password"), Ok(false));
    assert_eq!(add(&mut users, "b#ob", "long-enough-password"), Ok(false));
    let again = load(&render(&users)).expect("reads back");
    assert_eq!(again.names(), ["#bob", "ann", "b#ob"]);
    assert_eq!(again.get("#bob"), users.get("#bob"));
    assert!(verify(&again, "#bob", "long-enough-password"));
    assert!(!verify(&again, "#bob", "another-password"));
    // Odd lines of a file that was edited by hand survive an addition.
    let mut odd = load("a b : x y\n:empty\n").expect("accounts");
    assert_eq!(add(&mut odd, "zoe", "long-enough-password"), Ok(false));
    let again = load(&render(&odd)).expect("reads back");
    assert_eq!(again.names(), odd.names());
    assert_eq!(again.get("a b ").as_deref(), Some(" x y"));
}

#[test]
fn a_folder_has_no_size() {
    let folder = dir_entry("sub".into(), true, 4096, Some(7), false);
    assert_eq!((folder.len, folder.is_dir, folder.modified), (0, true, Some(7)));
    let file = dir_entry("a.txt".into(), false, 5, None, true);
    assert_eq!((file.name.as_str(), file.len, file.is_dir, file.is_link), ("a.txt", 5, false, true));
}

#[test]
fn a_stopped_clipboard_ends_nothing() {
    let text = "copied".to_string();
    let step = report(ReportEvent::Copied { text });
    assert!(matches!(step, ReportStep::Send { msg: HostMsg::Clipboard { text } } if text == "copied"));
    assert!(matches!(report(ReportEvent::ClipboardStopped), ReportStep::Deafen));
    assert!(matches!(report(ReportEvent::Tick), ReportStep::Measure));
    let step = report(ReportEvent::Reply { msg: HostMsg::Ping { nonce: 3 } });
    assert!(matches!(step, ReportStep::Send { msg: HostMsg::Ping { nonce: 3 } }));
    assert!(matches!(report(ReportEvent::RepliesStopped), ReportStep::End));
}
