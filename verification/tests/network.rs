//! Identities, discovery, updates and text.
use telekin::cli::{list_hosts, report_update};
use telekin::discovery::{
    address_rank, identity, sanitize, Address, Answer, Discovered, Found, Ip,
};
use telekin::text::{
    is_white, parse_u64, push_decimal, same, split_on, split_words, string_up, trim,
};
use telekin::transport::{
    cannot_listen, carry_identity_over, check_pin, config_base, fingerprint, hex, identity_dirs,
    identity_for, newly_made, parse_fingerprint, FingerprintError, Identity,
};
use telekin::update::{
    decide, download_for_this_platform, manifest_url, parse, short, Downloads, Manifest, Outcome,
    Platform, CURRENT, DEFAULT_MANIFEST, RELEASE_PAGE,
};

fn addr(s: &str) -> Address {
    let (host, _) = s.rsplit_once(':').expect("port");
    let host = host.trim_start_matches('[').trim_end_matches(']').to_string();
    let parts: Vec<u8> = host.split('.').filter_map(|p| p.parse().ok()).collect();
    let ip = if parts.len() == 4 {
        Ip::V4 { a: parts[0], b: parts[1], c: parts[2], d: parts[3] }
    } else {
        Ip::V6 { loopback: host == "::1" }
    };
    Address { ip, host, text: s.to_string() }
}

#[test]
fn robots_sharing_a_name_stay_separate() {
    // A fleet imaged from one card advertises the same name, and keying by name would
    // collapse all of them into one.
    let a = identity("tangox", Some("79:20:bd"), &vec![addr("192.168.1.10:9631")]);
    let b = identity("tangox", Some("3f:a1:88"), &vec![addr("192.168.1.11:9631")]);
    assert_ne!(a, b);
}

#[test]
fn one_robot_on_two_networks_is_one_row() {
    // A robot with a wireless network and a cable answers twice with the same key.
    let wifi = identity("tangox", Some("79:20:bd"), &vec![addr("192.168.1.10:9631")]);
    let wired = identity("tangox", Some("79:20:bd"), &vec![addr("192.168.2.10:9631")]);
    assert_eq!(wifi, wired);
}

#[test]
fn a_host_without_a_fingerprint_still_gets_told_apart() {
    // Older hosts publish no fingerprint; the address has to carry it.
    let a = identity("robot", None, &vec![addr("192.168.1.10:9631")]);
    let b = identity("robot", None, &vec![addr("192.168.1.11:9631")]);
    assert_ne!(a, b);
    let again = identity("robot", None, &vec![addr("192.168.1.10:9631")]);
    assert_eq!(a, again);
}

#[test]
fn a_fingerprint_beats_an_address() {
    // The same robot after its address moved: still one robot.
    let before = identity("robot", Some("79:20:bd"), &vec![addr("192.168.1.10:9631")]);
    let after = identity("robot", Some("79:20:bd"), &vec![addr("192.168.1.99:9631")]);
    assert_eq!(before, after);
    assert_eq!(before, "fp:79:20:bd");
    assert_eq!(identity("robot", None, &vec![]), "name:robot");
}

fn answer(name: &str, fp: Option<&str>, addrs: &[&str]) -> Answer {
    Answer {
        fullname: format!("{name}._telekin._udp.local."),
        addrs: addrs.iter().map(|a| addr(a)).collect(),
        fingerprint: fp.map(String::from),
        version: Some("8".into()),
        hostname: Some("tango".into()),
        account: None,
    }
}

#[test]
fn answers_become_one_row_each() {
    let mut found = Found::new();
    found.record(answer("beta", Some("aa"), &["[fe80::1]:9631", "8.8.8.8:9631", "10.0.0.2:9631"]));
    found.record(answer("alpha", None, &["10.0.0.3:9631"]));
    found.record(answer("beta", Some("aa"), &["10.0.0.9:9631"]));
    found.record(answer("gone", None, &[]));
    let hosts = found.finish();
    let names: Vec<&str> = hosts.iter().map(|h| h.name.as_str()).collect();
    assert_eq!(names, ["alpha", "beta"]);
    assert_eq!(hosts[1].addrs[0].text, "10.0.0.9:9631");
    assert_eq!(hosts[0].proto_version, Some(8));
}

#[test]
fn private_addresses_are_tried_first() {
    let rank = |s: &str| address_rank(addr(s).ip);
    assert_eq!(rank("10.1.2.3:1"), 0);
    assert_eq!(rank("172.16.0.1:1"), 0);
    assert_eq!(rank("172.32.0.1:1"), 1);
    assert_eq!(rank("192.168.0.1:1"), 0);
    assert_eq!(rank("169.254.0.1:1"), 2);
    assert_eq!(rank("[fe80::1]:1"), 3);
    assert_eq!(rank("[::1]:1"), 4);
    assert_eq!(sanitize("robot.local"), "robot-local");
}

#[test]
fn a_fingerprint_is_a_hash_that_reads_back() {
    // The SHA-256 of "abc".
    let text = fingerprint(b"abc");
    assert!(text.starts_with("ba:78:16:bf:8f:01:cf:ea"), "{text}");
    assert_eq!(text.len(), 95);
    let bytes = parse_fingerprint(&text).unwrap();
    assert_eq!(bytes[..4], [0xba, 0x78, 0x16, 0xbf]);
    assert_eq!(hex(&bytes.to_vec()), text);
    assert_eq!(parse_fingerprint("ba:78"), Err(FingerprintError::WrongLength));
    assert_eq!(parse_fingerprint(&"zz".repeat(32)), Err(FingerprintError::NotHex));
    assert_eq!(FingerprintError::WrongLength.message(), "fingerprint must be 32 hex bytes");
    assert!(check_pin(None, b"abc").is_ok());
    assert!(check_pin(Some(bytes), b"abc").is_ok());
    let e = check_pin(Some(bytes), b"abd").expect_err("another certificate");
    assert!(e.contains(&fingerprint(b"abd")), "{e}");
}

#[test]
fn identities_have_a_place() {
    assert_eq!(config_base(Some("/cfg".into()), Some("/home/r".into()), None), "/cfg");
    assert_eq!(config_base(None, Some("/home/r".into()), None), "/home/r/.config");
    let (dir, old) = identity_dirs("/cfg");
    assert!(dir.starts_with("/cfg/"), "{dir}");
    assert_ne!(dir, old);
    assert!(carry_identity_over(false, true));
    assert!(!carry_identity_over(true, true));
    assert!(!carry_identity_over(false, false));
}

fn manifest(version: &str) -> Manifest {
    Manifest {
        version: version.into(),
        notes: String::new(),
        downloads: Downloads::default(),
        page: Some("https://example.invalid/releases".into()),
    }
}

#[test]
fn versions_parse_the_way_tags_are_written() {
    assert_eq!(parse("1.0.0"), Some((1, 0, 0)));
    assert_eq!(parse("v1.2.3"), Some((1, 2, 3)));
    assert_eq!(parse(" 10.0.1 "), Some((10, 0, 1)));
    assert_eq!(parse("1.0"), None, "two parts is not a version we ship");
    assert_eq!(parse("1.0.0-beta"), None, "pre-releases are refused, not guessed");
    assert_eq!(parse("1.0.0.0"), None);
}

#[test]
fn a_newer_manifest_is_offered_and_an_older_one_is_not() {
    let decide = |c: &str, m: &Manifest| decide(c, m, Platform::LinuxX86);
    assert!(matches!(decide("1.0.0", &manifest("1.0.1")), Outcome::Available { .. }));
    assert!(matches!(decide("1.0.0", &manifest("2.0.0")), Outcome::Available { .. }));
    assert!(matches!(decide("1.0.0", &manifest("1.0.0")), Outcome::UpToDate));
    // Running a dev build newer than the release is not "an update".
    assert!(matches!(decide("1.1.0", &manifest("1.0.9")), Outcome::UpToDate));
}

#[test]
fn numeric_not_lexical() {
    // "1.10.0" > "1.9.0", which a string comparison gets backwards.
    assert!(matches!(
        decide("1.9.0", &manifest("1.10.0"), Platform::LinuxX86),
        Outcome::Available { .. }
    ));
}

#[test]
fn a_broken_manifest_does_not_pretend_to_be_an_update() {
    assert!(matches!(
        decide("1.0.0", &manifest("soon"), Platform::LinuxX86),
        Outcome::Unavailable(_)
    ));
}

#[test]
fn the_download_falls_back_to_the_release_page() {
    let m = manifest("9.9.9");
    match decide("1.0.0", &m, Platform::LinuxX86) {
        Outcome::Available { url, .. } => assert_eq!(url, "https://example.invalid/releases"),
        other => panic!("{other:?}"),
    }
    let nothing = Manifest { page: None, ..manifest("9.9.9") };
    assert_eq!(download_for_this_platform(&nothing, Platform::LinuxX86), RELEASE_PAGE);
}

#[test]
fn the_built_version_is_a_real_version() {
    // A bad version would ship a viewer that can never see an update.
    assert!(parse(CURRENT).is_some(), "{CURRENT:?}");
}

#[test]
fn the_manifest_can_be_elsewhere() {
    assert_eq!(manifest_url(Some("a".into()), Some("b".into())), "a");
    assert_eq!(manifest_url(None, Some("b".into())), "b");
    assert_eq!(manifest_url(None, None), DEFAULT_MANIFEST);
    assert_eq!(short(" refused \ncaused by: x"), "refused");
}

#[test]
fn questions_on_the_command_line_are_answered() {
    let none = list_hosts(&vec![]);
    assert_eq!(none[0], "No Telekin hosts answered on this network.");
    let hosts = vec![Discovered {
        name: "tangox".into(),
        addrs: vec![addr("10.0.0.2:9631"), addr("10.0.1.2:9631")],
        fingerprint: None,
        proto_version: Some(8),
        hostname: Some("tango".into()),
        account: None,
    }];
    let lines = list_hosts(&hosts);
    assert_eq!(lines[0], format!("{:<18} {:<20} {:<22} FINGERPRINT", "NAME", "COMPUTER", "ADDRESS"));
    assert_eq!(
        lines[1],
        format!("{:<18} {:<20} {:<22} {}", "tangox", "tango", "10.0.0.2:9631, 10.0.1.2:9631", "(not advertised)")
    );
    assert!(report_update(Outcome::Checking, false).is_none());
    assert!(report_update(Outcome::Checking, true).expect("late").is_err());
    let lines = report_update(Outcome::UpToDate, false).expect("done").expect("fine");
    assert_eq!(lines, [format!("telekin {CURRENT} is the newest version")]);
    let newer = Outcome::Available { version: "9.0.0".into(), notes: "n".into(), url: "u".into() };
    let lines = report_update(newer, false).expect("done").expect("fine");
    assert_eq!(lines, [format!("telekin 9.0.0 is available (this is {CURRENT})"), "  n".into(), "  u".into()]);
    let why = Outcome::Unavailable("offline".into());
    assert_eq!(
        report_update(why, false).expect("done").expect_err("no check"),
        "could not check for updates: offline"
    );
}

fn chars(s: &str) -> Vec<char> {
    s.chars().collect()
}

#[test]
fn white_space_is_what_the_standard_says() {
    for n in 0..0x11_0000u32 {
        if let Some(c) = char::from_u32(n) {
            assert_eq!(is_white(c), c.is_whitespace(), "{n:#x}");
        }
    }
}

#[test]
fn text_is_taken_apart_and_put_together() {
    assert_eq!(trim(&chars(" \u{2003}a b\n")), chars("a b"));
    assert_eq!(split_on(&chars("a,,b"), ','), [chars("a"), chars(""), chars("b")]);
    assert_eq!(split_words(&chars("  a  bc "), 0), [chars("a"), chars("bc")]);
    assert_eq!(parse_u64(&chars("18446744073709551615")), Some(u64::MAX));
    assert_eq!(parse_u64(&chars("18446744073709551616")), None);
    assert_eq!(parse_u64(&chars("+7")), Some(7));
    assert_eq!(parse_u64(&chars("")), None);
    let mut out = String::from("n=");
    push_decimal(&mut out, 9050);
    assert_eq!(out, "n=9050");
    assert!(same("é", "é") && !same("é", "e"));
    assert_eq!(string_up(&vec!["a".into(), "b".into(), "c".into()], ", "), "a, b, c");
}

#[test]
fn a_port_clash_is_explained() {
    let said = "Address already in use (os error 98)";
    assert_eq!(
        cannot_listen(said, true),
        "Address already in use (os error 98) (another chassis is running)"
    );
    assert_eq!(cannot_listen("Permission denied", false), "Permission denied");
}

#[test]
fn only_hexadecimal_digits_make_a_fingerprint() {
    assert_eq!(parse_fingerprint(&"+f".repeat(32)), Err(FingerprintError::NotHex));
    assert_eq!(parse_fingerprint(&"-1".repeat(32)), Err(FingerprintError::NotHex));
    let printed = fingerprint(b"certificate");
    let read = parse_fingerprint(&printed).expect("reads back");
    assert_eq!(parse_fingerprint(&printed.to_uppercase()), Ok(read));
    assert_eq!(parse_fingerprint(&printed.replace(':', "")), Ok(read));
}

#[test]
fn tags_and_white_space_around_a_version_do_not_matter() {
    let largest = format!("{0}.{0}.{0}", u64::MAX);
    assert_eq!(parse(&largest), Some((u64::MAX, u64::MAX, u64::MAX)));
    assert_eq!(parse(&format!("\t v{largest}\n")), Some((u64::MAX, u64::MAX, u64::MAX)));
    for suffix in [".", ".4", "-", "-rc.1", "- ", ". "] {
        assert_eq!(parse(&format!("1.2.3{suffix}")), None, "{suffix:?}");
    }
}

#[test]
fn an_identity_is_made_once() {
    let made = identity_for(None).expect("an identity");
    assert!(made.fresh);
    assert!(!made.identity.cert.is_empty() && !made.identity.key.is_empty());
    let other = identity_for(None).expect("another");
    assert_ne!(fingerprint(&made.identity.cert), fingerprint(&other.identity.cert));
    let kept = identity_for(Some(Identity { cert: vec![1, 2], key: vec![3] })).expect("kept");
    assert!(!kept.fresh);
    assert_eq!((kept.identity.cert, kept.identity.key), (vec![1, 2], vec![3]));
    assert_eq!(newly_made(Err("no entropy".into())).err().as_deref(), Some("no entropy"));
}
