//! The viewer's side of file transfer.
use telekin::file_session::{apply_file_reply, file_request, tree_planted, tree_walked, FileStep};
use telekin::files::{
    civil_date, display_path, drive_listing, human_size, local_listing, local_start,
    rel_to_local, remote_file_name, remote_join, remote_join_rel, short_date, Command, Direction,
    State, VERBATIM_PREFIX,
};
use telekin::panes::{address_hint, FilePanes};
use telekin::proto::{DirEntry, FileOp, FileReply, FileTree, TreeFile};

fn entry(name: &str, is_dir: bool, len: u64) -> DirEntry {
    DirEntry { name: name.into(), is_dir, len, modified: None, is_link: false }
}

#[test]
fn dates_match_known_instants() {
    assert_eq!(short_date(0), "1970-01-01 00:00");
    assert_eq!(short_date(946_684_800), "2000-01-01 00:00");
    // A leap day, which is where hand-rolled date maths usually breaks.
    assert_eq!(short_date(1_709_164_800), "2024-02-29 00:00");
    assert_eq!(short_date(1_709_164_800 + 3_661), "2024-02-29 01:01");
}

#[test]
fn the_local_pane_can_list_a_real_directory() {
    let listing = local_listing(
        "\\\\?\\C:\\work",
        Some("\\\\?\\C:\\"),
        vec![entry("a.txt", false, 4), entry("sub", true, 0)],
    );
    assert_eq!(listing.entries.len(), 2);
    assert!(listing.entries[0].is_dir, "folders first");
    assert_eq!(listing.entries[1].len, 4);
    assert!(
        !listing.path.starts_with(VERBATIM_PREFIX),
        "the address box would show a verbatim path: {}",
        listing.path
    );
    assert!(!listing.path.starts_with(r"\?\"), "{}", listing.path);
    assert_eq!(listing.path, "C:\\work");
    assert_eq!(listing.parent.as_deref(), Some("C:\\"));
}

#[test]
fn an_edit_is_only_dirty_against_what_the_robot_has() {
    let mut state = State::default();
    state.begin_open("/etc/hosts".into());
    assert!(state.editor.as_ref().expect("editor").loading);

    state.opened("/etc/hosts", "127.0.0.1 localhost\n".into());
    let editor = state.editor.as_ref().expect("editor");
    assert!(!editor.loading);
    assert!(!editor.dirty(), "a freshly opened file is not changed");

    state.editor.as_mut().expect("editor").text = "changed\n".into();
    assert!(state.editor.as_ref().expect("editor").dirty());

    // Typing it back to the original counts as clean, which a keystroke counter would get
    // wrong.
    state.editor.as_mut().expect("editor").text = "127.0.0.1 localhost\n".into();
    assert!(!state.editor.as_ref().expect("editor").dirty());
}

#[test]
fn a_late_read_cannot_overwrite_what_is_being_typed() {
    let mut state = State::default();
    state.begin_open("/etc/hosts".into());
    state.opened("/etc/hosts", "first".into());
    state.editor.as_mut().expect("editor").text = "my edit".into();

    // A read of some other file finally comes back.
    state.opened("/etc/fstab", "somebody else's file".into());
    assert_eq!(state.editor.as_ref().expect("editor").text, "my edit");
}

#[test]
fn a_successful_save_clears_the_changed_mark() {
    let mut state = State::default();
    state.begin_open("/tmp/a".into());
    state.opened("/tmp/a", "one".into());
    state.editor.as_mut().expect("editor").text = "two".into();
    state.editor.as_mut().expect("editor").saving = true;

    state.finish_save(Ok(()));
    let editor = state.editor.as_ref().expect("editor");
    assert!(!editor.saving);
    assert!(!editor.dirty());

    // A failed save keeps the mark, so nobody closes thinking it landed.
    state.editor.as_mut().expect("editor").text = "three".into();
    state.finish_save(Err("read-only file system".into()));
    let editor = state.editor.as_ref().expect("editor");
    assert!(editor.dirty(), "a failed save pretended to succeed");
    assert_eq!(editor.error.as_deref(), Some("read-only file system"));
}

#[test]
fn sizes_read_the_way_a_person_would_say_them() {
    assert_eq!(human_size(0), "0 B");
    assert_eq!(human_size(999), "999 B");
    assert_eq!(human_size(1024), "1.0 KiB");
    assert_eq!(human_size(1024 * 1024 * 3 / 2), "1.5 MiB");
    // Past three digits the decimal is noise.
    assert_eq!(human_size(1024 * 512), "512 KiB");
}

/// The same size worked out with floating-point numbers.
fn size_in_floats(bytes: u64) -> String {
    const UNITS: [&str; 5] = ["B", "KiB", "MiB", "GiB", "TiB"];
    let mut value = bytes as f64;
    let mut unit = 0;
    while value >= 1024.0 && unit + 1 < UNITS.len() {
        value /= 1024.0;
        unit += 1;
    }
    if unit == 0 {
        format!("{bytes} B")
    } else if value >= 100.0 {
        format!("{value:.0} {}", UNITS[unit])
    } else {
        format!("{value:.1} {}", UNITS[unit])
    }
}

#[test]
fn sizes_agree_with_floating_point() {
    let mut n: u64 = 1;
    for step in 0..4000u64 {
        let bytes = n.wrapping_add(step * 7919);
        assert_eq!(human_size(bytes), size_in_floats(bytes), "{bytes}");
        n = n.wrapping_mul(6364136223846793005).wrapping_add(1442695040888963407) >> (step % 50);
    }
    for bytes in [u64::MAX, u64::MAX - 1, 1 << 53, (1 << 53) + 1, 102_400, 102_399, 1023] {
        assert_eq!(human_size(bytes), size_in_floats(bytes), "{bytes}");
    }
}

#[test]
fn remote_paths_keep_the_hosts_own_separator() {
    assert_eq!(remote_join("/home/tangox", "map.yaml"), "/home/tangox/map.yaml");
    assert_eq!(remote_join("/", "etc"), "/etc");
    // A Windows robot, browsed from anywhere.
    assert_eq!(remote_join(r"C:\Users\t", "a.txt"), r"C:\Users\t\a.txt");
    assert_eq!(remote_join(r"C:\", "a.txt"), r"C:\a.txt");
}

#[test]
fn a_download_is_named_after_the_file_not_the_path() {
    assert_eq!(remote_file_name("/home/tangox/bag/run3.bag"), "run3.bag");
    assert_eq!(remote_file_name(r"C:\logs\today.txt"), "today.txt");
    // A trailing separator should not produce an empty name.
    assert_eq!(remote_file_name("/home/tangox/"), "tangox");
}

#[test]
fn a_finished_transfer_shows_a_full_bar() {
    let mut state = State::default();
    let id = state.next_id();
    state.begin(id, "run3.bag".into(), Direction::FromRobot, 1000);
    state.advance(id, 993);
    state.finish(id, Ok(()));
    let t = &state.transfers[0];
    assert_eq!(t.done, 1000, "stopped short of the end it reached");
    let (done, total) = t.fraction().expect("fraction");
    assert_eq!(done as f32 / total as f32, 1.0);
    assert!(!t.running());
}

#[test]
fn an_unknown_failure_becomes_a_visible_error() {
    // Deletes and mkdirs have ids too, and no progress row to fail on.
    let mut state = State::default();
    state.finish(42, Err("permission denied".into()));
    assert_eq!(state.error.as_deref(), Some("permission denied"));
}

#[test]
fn a_download_of_unknown_size_does_not_pretend() {
    let mut state = State::default();
    let id = state.next_id();
    state.begin(id, "x".into(), Direction::FromRobot, 0);
    assert_eq!(state.transfers[0].fraction(), None);
    state.set_total(id, 2048);
    state.advance(id, 512);
    let (done, total) = state.transfers[0].fraction().expect("fraction");
    assert_eq!(done as f32 / total as f32, 0.25);
}

#[test]
fn clearing_keeps_what_is_still_moving() {
    let mut state = State::default();
    let a = state.next_id();
    let b = state.next_id();
    state.begin(a, "done.bin".into(), Direction::ToRobot, 10);
    state.begin(b, "busy.bin".into(), Direction::ToRobot, 10);
    state.finish(a, Ok(()));
    state.clear_finished();
    assert_eq!(state.transfers.len(), 1);
    assert_eq!(state.transfers[0].name, "busy.bin");
    assert_eq!(state.running(), 1);
}

#[test]
fn ids_are_unique_within_a_session() {
    let mut state = State::default();
    let ids: Vec<u64> = (0..5).map(|_| state.next_id()).collect();
    let mut sorted = ids.clone();
    sorted.dedup();
    assert_eq!(ids.len(), sorted.len(), "{ids:?}");
}

#[test]
fn a_relative_path_cannot_climb() {
    assert_eq!(remote_join_rel("/home/r/maps", "a/b.txt"), "/home/r/maps/a/b.txt");
    assert_eq!(remote_join_rel("/home/r/maps", "../../etc/passwd"), "/home/r/maps/etc/passwd");
    assert_eq!(remote_join_rel("/home/r/maps", "./a//b"), "/home/r/maps/a/b");
    assert_eq!(rel_to_local("C:\\work", "a/b.txt"), "C:\\work\\a\\b.txt");
}

#[test]
fn a_calendar_day_is_found_far_from_today() {
    assert_eq!(civil_date(0), (1970, 1, 1));
    assert_eq!(civil_date(11_016), (2000, 2, 29));
    assert_eq!(civil_date(47_540), (2100, 2, 28));
    assert_eq!(civil_date(47_541), (2100, 3, 1));
    assert_eq!(short_date(253_402_300_799), "9999-12-31 23:59");
}

#[test]
fn display_paths_lose_only_the_verbatim_prefix() {
    assert_eq!(display_path("\\\\?\\D:\\x"), "D:\\x");
    assert_eq!(display_path("/home/r"), "/home/r");
    assert_eq!(display_path("\\\\?"), "\\\\?");
}

#[test]
fn panes_open_at_home() {
    assert_eq!(local_start(Some("/home/r".into())), "/home/r");
    assert_eq!(local_start(None), ".");
}

#[test]
fn the_local_pane_lists_drives_above_the_drive_root() {
    let mut panes = FilePanes::new("C:\\".into());
    let up = panes.above(None, true).expect("something above the drive root");
    panes.go_local(up);
    panes.reload_local(Ok(drive_listing(&vec!['C', 'D'])));
    let shown = panes.local.as_ref().expect("drive list");
    assert!(shown.entries.iter().any(|e| e.name.eq_ignore_ascii_case("C:\\")));
    assert!(address_hint(true).contains("Pick a drive"));
    assert_eq!(address_hint(false), "");

    let l = drive_listing(&vec!['C', 'D']);
    assert_eq!(l.path, "");
    assert!(l.parent.is_none());
    let names: Vec<&str> = l.entries.iter().map(|e| e.name.as_str()).collect();
    assert_eq!(names, ["C:\\", "D:\\"]);
    assert!(l.entries.iter().all(|e| e.is_dir));
}

#[test]
fn no_more_than_four_files_move_at_once() {
    let mut state = State::default();
    let batch = state.new_batch("maps".into(), Direction::FromRobot);
    for n in 0..6 {
        state.enqueue(Command::Download {
            remote: format!("/m/{n}"),
            local: format!("/l/{n}"),
            batch: Some(batch),
        });
    }
    assert_eq!(state.batches[0].queued, 6);
    let ready = state.take_ready(4);
    assert_eq!(ready.len(), 4);
    assert_eq!(state.queued(), 2);
    assert!(state.busy());
    // Nothing more goes out until one of them has ended.
    assert!(state.take_ready(4).is_empty());
    let mut sent = Vec::new();
    for command in ready {
        match file_request(&mut state, command, Ok(0)) {
            FileStep::Send { request } => sent.push(request.id),
            _ => panic!("a download is a request"),
        }
    }
    assert_eq!(state.running(), 4);
    assert!(state.take_ready(4).is_empty());
    state.finish(sent[0], Ok(()));
    assert_eq!(state.take_ready(4).len(), 1);
    let p = state.batch_progress(batch);
    assert_eq!(p.files_done, 1);
    assert!(!p.finished());
}

#[test]
fn a_listing_request_is_remembered_as_loading() {
    let mut state = State::default();
    match file_request(&mut state, Command::List { path: "/tmp".into() }, Ok(0)) {
        FileStep::Send { request } => {
            assert!(matches!(request.op, FileOp::List { ref path } if path == "/tmp"));
        }
        _ => panic!("a listing is a request"),
    }
    assert!(state.loading);
    let listing = local_listing("/tmp", Some("/"), vec![entry("b", false, 1), entry("A", false, 2)]);
    assert!(apply_file_reply(&mut state, FileReply::Listing { id: 1, listing }).is_none());
    assert!(!state.loading);
    let shown = state.listing.as_ref().expect("listing");
    // Names are compared without regard to case.
    assert_eq!(shown.entries[0].name, "A");
}

#[test]
fn a_folder_from_the_robot_is_planted_and_queued() {
    let mut state = State::default();
    let step = file_request(
        &mut state,
        Command::DownloadTree { remote: "/home/r/maps".into(), local_parent: "/l".into() },
        Ok(0),
    );
    let id = match step {
        FileStep::Send { request } => request.id,
        _ => panic!("a folder is asked for"),
    };
    let tree = FileTree {
        root: "/home/r/maps".into(),
        dirs: vec!["sub".into()],
        files: vec![
            TreeFile { rel: "a.yaml".into(), len: 3 },
            TreeFile { rel: "sub/b.yaml".into(), len: 4 },
        ],
        truncated: true,
    };
    let plan = apply_file_reply(&mut state, FileReply::Tree { id, tree }).expect("a plan");
    assert_eq!(plan.local_root, "/l/maps");
    assert_eq!(plan.dirs, ["/l/maps", "/l/maps/sub"]);
    tree_planted(&mut state, &plan, None);
    assert_eq!(state.queued(), 2);
    assert_eq!(state.batches[0].queued, 2);
    assert!(state.batches[0].truncated);
    let ready = state.take_ready(4);
    match &ready[1] {
        Command::Download { remote, local, .. } => {
            assert_eq!(remote, "/home/r/maps/sub/b.yaml");
            assert_eq!(local, "/l/maps/sub/b.yaml");
        }
        other => panic!("{other:?}"),
    }
}

#[test]
fn a_folder_to_the_robot_is_made_before_its_files() {
    let mut state = State::default();
    let batch = state.new_batch("maps".into(), Direction::ToRobot);
    tree_walked(
        &mut state,
        "/l/maps",
        "/home/r/maps",
        batch,
        &vec!["sub".to_string()],
        &vec![TreeFile { rel: "sub/b.yaml".into(), len: 4 }],
        false,
    );
    let ready = state.take_ready(4);
    assert_eq!(ready.len(), 3);
    assert!(matches!(&ready[0], Command::MakeDirAll { path } if path == "/home/r/maps"));
    assert!(matches!(&ready[1], Command::MakeDirAll { path } if path == "/home/r/maps/sub"));
    match &ready[2] {
        Command::Upload { local, remote, .. } => {
            assert_eq!(local, "/l/maps/sub/b.yaml");
            assert_eq!(remote, "/home/r/maps/sub/b.yaml");
        }
        other => panic!("{other:?}"),
    }
}

#[test]
fn an_upload_that_cannot_be_measured_is_reported() {
    let mut state = State::default();
    let step = file_request(
        &mut state,
        Command::Upload { local: "/nope".into(), remote: "/r/nope".into(), batch: None },
        Err("no such file".into()),
    );
    assert!(!matches!(step, FileStep::Send { .. }));
    assert!(state.error.as_ref().expect("error").contains("no such file"));
}

#[test]
fn a_copied_folder_keeps_its_shape() {
    assert_eq!(remote_join_rel("/home/robot/map", "a/b/c.pgm"), "/home/robot/map/a/b/c.pgm");
    assert_eq!(rel_to_local("C:\\work", "a/b/c.pgm"), "C:\\work\\a\\b\\c.pgm");
    assert_ne!(remote_join_rel("/home", "a/bc"), remote_join_rel("/home", "ab/c"));
}

fn saving(path: &str, text: &str) -> (State, u64) {
    let mut st = State::default();
    st.begin_open(path.into());
    st.opened(path, "old".into());
    st.editor.as_mut().expect("editor").text = text.into();
    let save = Command::Save { path: path.into(), text: text.into() };
    match file_request(&mut st, save, Ok(0)) {
        FileStep::Send { request } => (st, request.id),
        _ => panic!("a save is sent"),
    }
}

#[test]
fn what_was_typed_since_a_save_stays_unsaved() {
    let (mut st, id) = saving("/tmp/a", "A");
    assert!(st.editor.as_ref().expect("editor").saving);
    st.editor.as_mut().expect("editor").text = "B".into();
    assert!(apply_file_reply(&mut st, FileReply::Done { id }).is_none());
    let e = st.editor.as_ref().expect("editor");
    assert_eq!((e.saved.as_str(), e.text.as_str()), ("A", "B"));
    assert!(e.dirty() && !e.saving && e.error.is_none());
}

#[test]
fn a_save_does_not_touch_a_file_opened_since() {
    let (mut st, id) = saving("/tmp/a", "A");
    st.begin_open("/tmp/b".into());
    st.opened("/tmp/b", "two".into());
    st.editor.as_mut().expect("editor").text = "two and more".into();
    apply_file_reply(&mut st, FileReply::Done { id });
    let e = st.editor.as_ref().expect("editor");
    assert!(e.dirty());
    assert_eq!(e.saved, "two");

    let (mut st, id) = saving("/tmp/a", "A");
    apply_file_reply(&mut st, FileReply::Failed { id, reason: "disk full".into() });
    let e = st.editor.as_ref().expect("editor");
    assert!(e.dirty() && !e.saving);
    assert_eq!(e.error.as_deref(), Some("disk full"));

    let mut st = State::default();
    st.remember_save(7, "/tmp/a".into(), "A".into());
    assert_eq!(st.take_save(7), Some(("/tmp/a".to_string(), "A".to_string())));
    st.remember_save(8, "/tmp/a".into(), "A".into());
    assert!(st.was_save(8));
    assert!(!st.was_save(8), "asked once");
}

#[test]
fn dates_compare_as_text() {
    let instants = [0u64, 59, 60, 86_399, 86_400, 951_782_400, 253_402_300_799];
    for w in instants.windows(2) {
        let (a, b) = (short_date(w[0]), short_date(w[1]));
        assert_eq!(a.len(), 16);
        assert!(a <= b, "{a} {b}");
        assert_eq!(a == b, w[0] / 60 == w[1] / 60);
    }
    assert_eq!(short_date(253_402_300_799), "9999-12-31 23:59");
}
