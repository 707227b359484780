//! The viewer's screens: what the connection screen asks for before it dials, which robots
//! it shows, and what a session is switched to.
use vstd::prelude::*;

use crate::discovery::{copy_addresses, copy_text, Address, Discovered, Ip};
use crate::proto::MonitorInfo;
use crate::text::{
    chars_of, contents, decimal, holds, push_decimal, quote, quoted, same, string_of, string_up, strung, trim,
    trimmed,
};
use crate::transport::{pair_value, parse_fingerprint, reads_as, without_colons};
use crate::update::{Outcome, CURRENT};
use crate::viewer::{StreamControl, StreamSettings};
use vstd::utf8::encode_utf8;


verus! {

/// What the window calls itself.
pub const NAME: &'static str = "Telekin";

/// The line under it.
pub const TAGLINE: &'static str = "remote desktop for robots";

/// Who made it.
pub const AUTHOR: &'static str = "phuwanat@IRiSH LAB";

/// The port that a host listens on unless it is told otherwise.
pub const DEFAULT_PORT: &'static str = ":9631";

/// What a connected session is showing.
///
/// Files mode is not a lesser desktop: it is a session that never asked the robot to
/// capture anything.
#[derive(Debug, Clone, Copy, PartialEq, Eq, Structural)]
pub enum Mode {
    Desktop,
    Files,
}

/// Vertical space, in points, that the connection screen spends on everything but the
/// rows.
pub const FURNITURE: u32 = 400;

/// How tall one robot's row is, in points, with the gap under it.
pub const ROW_HEIGHT: u32 = 84;

/// How many robots fit on one page of scan results, for a window that is this many whole
/// points tall. Three at least, which keeps the list usable in the smallest window, and
/// eight at most.
pub fn rows_per_page(window_height: u32) -> (r: usize)
    ensures
        r == if window_height < FURNITURE + 3 * ROW_HEIGHT {
            3
        } else if window_height >= FURNITURE + 8 * ROW_HEIGHT {
            8
        } else {
            (window_height - FURNITURE) / (ROW_HEIGHT as int)
        },
{
    if window_height < FURNITURE + 3 * ROW_HEIGHT {
        3
    } else if window_height >= FURNITURE + 8 * ROW_HEIGHT {
        8
    } else {
        ((window_height - FURNITURE) / ROW_HEIGHT) as usize
    }
}

/// Which columns a file row has room for: the date and the size. `room` is the row's
/// width in points, rounded up. The date goes first, being the least often needed and the
/// widest.
pub fn meta_columns(room: u32) -> (r: (bool, bool))
    ensures
        r == (room > 320, room > 190),
{
    (room > 320, room > 190)
}

/// Whether the Desktop/Files switch can be pressed. Going to files is always possible;
/// going to the desktop needs something to look at.
pub fn files_switch_enabled(showing_files: bool, screen_available: bool) -> (r: bool)
    ensures
        r == (!showing_files || screen_available),
{
    !showing_files || screen_available
}

/// The Desktop/Files switch: what stands on it, what it says of itself, and whether it can
/// be pressed.
pub struct ModeSwitch {
    pub label: &'static str,
    pub hint: &'static str,
    pub enabled: bool,
}

/// The switch of a session that shows `mode`, with a robot that has `monitors` monitors.
pub fn mode_switch(mode: Mode, monitors: usize) -> (r: ModeSwitch)
    ensures
        r.label@ == (if mode is Files {
            "Desktop"@
        } else {
            "Files"@
        }),
        r.hint@ == (if mode is Desktop {
            "Copy files to and from the robot. Stops the encoder."@
        } else if monitors == 0 {
            "No desktop session on the robot — sign in there first. Files still work."@
        } else {
            "Watch the robot's screen. This starts its encoder."@
        }),
        r.enabled == (mode is Desktop || monitors > 0),
{
    let files: bool = match mode {
        Mode::Files => true,
        Mode::Desktop => false,
    };
    let available: bool = monitors > 0;
    ModeSwitch {
        label: if files {
            "Desktop"
        } else {
            "Files"
        },
        hint: if files && !available {
            "No desktop session on the robot — sign in there first. Files still work."
        } else if files {
            "Watch the robot's screen. This starts its encoder."
        } else {
            "Copy files to and from the robot. Stops the encoder."
        },
        enabled: files_switch_enabled(files, available),
    }
}

/// Which page of the scan results is shown, and which robots are on it: those from `first`
/// up to, but not including, `end`.
#[derive(Debug, Clone, Copy, PartialEq, Eq, Structural)]
pub struct Page {
    pub pages: usize,
    pub page: usize,
    pub first: usize,
    pub end: usize,
}

/// How many pages it takes to show `hosts` robots.
pub open spec fn page_count(hosts: int, per_page: int) -> int {
    (hosts + per_page - 1) / per_page
}

/// The page that is shown: a page past the end is brought back into range.
pub fn page_shown(hosts: usize, per_page: usize, page: usize) -> (r: Page)
    requires
        per_page > 0,
    ensures
        r.pages == page_count(hosts as int, per_page as int),
        r.page == (if page < r.pages {
            page as int
        } else if r.pages > 0 {
            r.pages - 1
        } else {
            0
        }),
        r.first == r.page * per_page,
        r.end == (if (r.page + 1) * per_page < hosts {
            (r.page + 1) * per_page
        } else {
            hosts as int
        }),
        r.first <= r.end <= hosts,
        hosts > 0 ==> r.first < r.end,
{
    let whole: usize = hosts / per_page;
    let left: usize = hosts % per_page;
    proof {
        vstd::arithmetic::div_mod::lemma_fundamental_div_mod(hosts as int, per_page as int);
        let n = per_page as int;
        assert(n * whole == whole * n) by (nonlinear_arith);
        assert((whole + 1) * n == whole * n + n) by (nonlinear_arith);
        if left == 0 {
            vstd::arithmetic::div_mod::lemma_fundamental_div_mod_converse(
                hosts + n - 1,
                n,
                whole as int,
                n - 1,
            );
        } else {
            vstd::arithmetic::div_mod::lemma_fundamental_div_mod_converse(
                hosts + n - 1,
                n,
                whole + 1,
                left - 1,
            );
        }
        assert(whole + left <= hosts) by (nonlinear_arith)
            requires
                hosts == per_page * whole + left,
                per_page > 0,
                left >= 0,
        ;
    }
    let pages: usize = if left == 0 {
        whole
    } else {
        whole + 1
    };
    let page: usize = if page < pages {
        page
    } else if pages > 0 {
        pages - 1
    } else {
        0
    };
    proof {
        let n = per_page as int;
        assert(page <= whole);
        assert(0 <= page * n <= whole * n) by (nonlinear_arith)
            requires
                0 <= page <= whole,
                n > 0,
        ;
        assert((page + 1) * n == page * n + n) by (nonlinear_arith);
        if page < whole {
            assert((page + 1) * n <= whole * n) by (nonlinear_arith)
                requires
                    page + 1 <= whole,
                    n > 0,
            ;
        }
    }
    let first: usize = page * per_page;
    let end: usize = if hosts - first > per_page {
        first + per_page
    } else {
        hosts
    };
    Page { pages, page, first, end }
}

/// Every robot that a scan found is on exactly one page: the `i`th on page `i / per_page`.
pub proof fn every_robot_is_on_one_page(hosts: int, per_page: int, i: int, page: int)
    requires
        per_page > 0,
        0 <= i < hosts,
        0 <= page < page_count(hosts, per_page),
    ensures
        0 <= i / per_page < page_count(hosts, per_page),
        page * per_page <= i < (page + 1) * per_page <==> page == i / per_page,
{
    vstd::arithmetic::div_mod::lemma_fundamental_div_mod(i, per_page);
    let q = i / per_page;
    let r = i % per_page;
    vstd::arithmetic::div_mod::lemma_mod_bound(i, per_page);
    assert(0 <= q) by (nonlinear_arith)
        requires
            0 <= i,
            per_page > 0,
            q == i / per_page,
    ;
    assert(q + 1 <= (hosts + per_page - 1) / per_page) by (nonlinear_arith)
        requires
            i == per_page * q + r,
            0 <= r < per_page,
            i < hosts,
            per_page > 0,
    ;
    if page == q {
        assert(page * per_page <= i < (page + 1) * per_page) by (nonlinear_arith)
            requires
                i == per_page * q + r,
                0 <= r < per_page,
                page == q,
        ;
    } else if page < q {
        assert((page + 1) * per_page <= i) by (nonlinear_arith)
            requires
                i == per_page * q + r,
                0 <= r,
                page + 1 <= q,
                per_page > 0,
        ;
    } else {
        assert(i < page * per_page) by (nonlinear_arith)
            requires
                i == per_page * q + r,
                r < per_page,
                q + 1 <= page,
                per_page > 0,
        ;
    }
}

/// Which robots are on a page, in words: with twenty of them "7–12 of 20" is the useful
/// fact.
pub fn page_label(page: Page, hosts: usize) -> (r: String)
    requires
        page.first < page.end <= hosts,
    ensures
        r@ == decimal((page.first + 1) as nat).push('\u{2013}') + decimal(page.end as nat)
            + " of "@ + decimal(hosts as nat),
{
    let mut out = String::new();
    push_decimal(&mut out, page.first as u64 + 1);
    out.push('\u{2013}');
    push_decimal(&mut out, page.end as u64);
    out.push_str(" of ");
    push_decimal(&mut out, hosts as u64);
    assert(out@ =~= decimal((page.first + 1) as nat).push('\u{2013}') + decimal(page.end as nat)
        + " of "@ + decimal(hosts as nat));
    out
}

/// The IPv4 addresses among some addresses, in their order.
pub open spec fn ipv4(addrs: Seq<Address>) -> Seq<Address>
    decreases addrs.len(),
{
    if addrs.len() == 0 {
        addrs
    } else if addrs.last().ip is V4 {
        ipv4(addrs.drop_last()).push(addrs.last())
    } else {
        ipv4(addrs.drop_last())
    }
}

/// The IPv4 addresses among some addresses, in their order.
fn ipv4_of(addrs: &Vec<Address>) -> (r: Vec<Address>)
    ensures
        r@ == ipv4(addrs@),
{
    let mut out: Vec<Address> = Vec::new();
    let mut i: usize = 0;
    assert(addrs@.take(0) =~= Seq::<Address>::empty());
    while i < addrs.len()
        invariant
            i <= addrs.len(),
            out@ == ipv4(addrs@.take(i as int)),
        decreases addrs.len() - i,
    {
        assert(addrs@.take(i + 1).drop_last() =~= addrs@.take(i as int));
        match addrs[i].ip {
            Ip::V4 { .. } => {
                out.push(addrs[i].copy());
            },
            Ip::V6 { .. } => {},
        }
        i = i + 1;
    }
    assert(addrs@.take(i as int) =~= addrs@);
    out
}

/// The addresses without their ports.
pub open spec fn hosts_of(addrs: Seq<Address>) -> Seq<Seq<char>> {
    addrs.map_values(|a: Address| a.host@)
}

/// How many addresses are shown of a robot; the rest are counted.
pub const SHOWN: usize = 3;

/// What stands between two addresses.
pub const SEPARATOR: &'static str = "  ·  ";

/// What is shown of a robot's addresses: the IPv4 ones if there are any.
pub open spec fn summary(addrs: Seq<Address>) -> Seq<char> {
    let v4 = hosts_of(ipv4(addrs));
    if v4.len() == 0 {
        if addrs.len() == 0 {
            "no address"@
        } else {
            addrs[0].host@
        }
    } else if v4.len() <= SHOWN {
        strung(v4, SEPARATOR@)
    } else {
        strung(v4.take(SHOWN as int), SEPARATOR@) + SEPARATOR@ + "+"@ + decimal(
            (v4.len() - SHOWN) as nat,
        ) + " more"@
    }
}

/// Every network a robot answered on, for the second line of its row. IPv6 is left out
/// when there is any IPv4: those addresses are long, and never what anyone types.
pub fn address_summary(addrs: &Vec<Address>) -> (r: String)
    ensures
        r@ == summary(addrs@),
{
    let v4 = ipv4_of(addrs);
    let ghost all = hosts_of(v4@);
    if v4.len() == 0 {
        if addrs.len() == 0 {
            return "no address".to_owned();
        }
        return addrs[0].host.clone();
    }
    let mut shown: Vec<String> = Vec::new();
    let mut i: usize = 0;
    while i < v4.len() && i < SHOWN
        invariant
            i <= v4.len(),
            i <= SHOWN,
            all == hosts_of(v4@),
            contents(shown@) == all.take(i as int),
        decreases v4.len() - i,
    {
        let ghost before = contents(shown@);
        shown.push(v4[i].host.clone());
        assert(contents(shown@) =~= before.push(v4@[i as int].host@));
        assert(all.take(i as int).push(all[i as int]) =~= all.take(i + 1));
        i = i + 1;
    }
    let mut out = string_up(&shown, SEPARATOR);
    if v4.len() <= SHOWN {
        assert(all.take(i as int) =~= all);
        return out;
    }
    out.push_str(SEPARATOR);
    out.push_str("+");
    push_decimal(&mut out, (v4.len() - SHOWN) as u64);
    out.push_str(" more");
    out
}

/// The computer's own name, where it tells more than the robot's name does.
pub fn shown_machine(host: &Discovered) -> (r: Option<String>)
    ensures
        r == match host.hostname {
            Some(h) => if h@.len() > 0 && h@ != host.name@ {
                Some(h)
            } else {
                None
            },
            None => None,
        },
{
    match &host.hostname {
        Some(h) => {
            if chars_of(h).len() > 0 && !same(h, &host.name) {
                Some(h.clone())
            } else {
                None
            }
        },
        None => None,
    }
}

/// A monitor, in words.
pub open spec fn monitor_text(m: MonitorInfo) -> Seq<char> {
    m.name@ + " ("@ + decimal(m.width as nat) + "x"@ + decimal(m.height as nat) + ")"@
}

/// A monitor, in words.
pub fn monitor_label(m: &MonitorInfo) -> (r: String)
    ensures
        r@ == monitor_text(*m),
{
    let mut out = m.name.clone();
    out.push_str(" (");
    push_decimal(&mut out, m.width as u64);
    out.push_str("x");
    push_decimal(&mut out, m.height as u64);
    out.push_str(")");
    out
}

/// The first of some monitors with this number, in words; a dash where there is none.
pub fn selected_monitor(monitors: &Vec<MonitorInfo>, id: u32) -> (r: String)
    ensures
        (exists|i: int|
            #![trigger monitors@[i]]
            0 <= i < monitors@.len() && monitors@[i].id == id && r@ == monitor_text(monitors@[i])
                && forall|j: int| 0 <= j < i ==> (#[trigger] monitors@[j]).id != id) || (r@ == "-"@
            && forall|j: int| 0 <= j < monitors@.len() ==> (#[trigger] monitors@[j]).id != id),
{
    let mut i: usize = 0;
    while i < monitors.len()
        invariant
            i <= monitors.len(),
            forall|j: int| 0 <= j < i ==> (#[trigger] monitors@[j]).id != id,
        decreases monitors.len() - i,
    {
        if monitors[i].id == id {
            assert(monitors@[i as int].id == id);
            return monitor_label(&monitors[i]);
        }
        i = i + 1;
    }
    "-".to_owned()
}

/// What a press on the version does.
pub enum VersionAction {
    Nothing,
    /// Open a page.
    Open { url: String },
    /// Look for a newer version again.
    Recheck,
}

/// The version in the corner of the first screen.
pub struct VersionStatus {
    pub label: String,
    /// What stands on the button beside it, where there is one.
    pub button: Option<String>,
    pub hover: Option<String>,
    pub action: VersionAction,
}

/// The version, and whether a newer one exists. A check that could not be made is no
/// error: on a robot's network without a way out it is the normal case.
pub fn version_status(outcome: Option<Outcome>) -> (r: VersionStatus)
    ensures
        ({
            let version = "v"@ + CURRENT@;
            match outcome {
                Some(Outcome::Available { version: newer, notes, url }) => {
                    &&& r.label@ == version
                    &&& r.button matches Some(b) && b@ == "Update to "@ + newer@
                    &&& r.hover matches Some(h) && h@ == if notes@.len() == 0 {
                        "Opens the download. Installing it replaces this version."@
                    } else {
                        notes@
                    }
                    &&& r.action == (VersionAction::Open { url })
                },
                Some(Outcome::Checking) => {
                    &&& r.label@ == version + " · checking for updates…"@
                    &&& r.button is None && r.hover is None && r.action is Nothing
                },
                Some(Outcome::UpToDate) => {
                    &&& r.label@ == version + " · up to date"@
                    &&& r.hover matches Some(h) && h@
                        == "Click to check for a newer version now"@
                    &&& r.button is None && r.action is Recheck
                },
                Some(Outcome::Unavailable(why)) => {
                    &&& r.label@ == version
                    &&& r.hover matches Some(h) && h@ == "Could not check for updates: "@ + why@
                        + "\nClick to try again."@
                    &&& r.button is None && r.action is Recheck
                },
                None => {
                    &&& r.label@ == version
                    &&& r.hover matches Some(h) && h@
                        == "Click to check for a newer version now"@
                    &&& r.button is None && r.action is Recheck
                },
            }
        }),
{
    let mut label = "v".to_owned();
    label.push_str(CURRENT);
    match outcome {
        Some(Outcome::Available { version, notes, url }) => {
            let mut button = "Update to ".to_owned();
            button.push_str(&version);
            let hover = if chars_of(&notes).len() == 0 {
                "Opens the download. Installing it replaces this version.".to_owned()
            } else {
                notes
            };
            VersionStatus {
                label,
                button: Some(button),
                hover: Some(hover),
                action: VersionAction::Open { url },
            }
        },
        Some(Outcome::Checking) => {
            label.push_str(" · checking for updates…");
            VersionStatus { label, button: None, hover: None, action: VersionAction::Nothing }
        },
        Some(Outcome::UpToDate) => {
            label.push_str(" · up to date");
            VersionStatus {
                label,
                button: None,
                hover: Some("Click to check for a newer version now".to_owned()),
                action: VersionAction::Recheck,
            }
        },
        Some(Outcome::Unavailable(why)) => {
            let mut hover = "Could not check for updates: ".to_owned();
            hover.push_str(&why);
            hover.push_str("\nClick to try again.");
            VersionStatus {
                label,
                button: None,
                hover: Some(hover),
                action: VersionAction::Recheck,
            }
        },
        None => VersionStatus {
            label,
            button: None,
            hover: Some("Click to check for a newer version now".to_owned()),
            action: VersionAction::Recheck,
        },
    }
}

/// What the connection screen is started with.
#[derive(Debug)]
pub struct Options {
    pub host: Option<String>,
    pub name: Option<String>,
    pub user: Option<String>,
    pub password: Option<String>,
    pub fingerprint: Option<String>,
    pub fps: u16,
    pub bitrate_kbps: u32,
    pub scale: u8,
    pub max_cpu_percent: Option<u8>,
    pub monitor: u32,
    pub view_only: bool,
}

/// Where to dial.
#[derive(Debug)]
pub enum Target {
    /// These addresses, in turn.
    Known { addrs: Vec<Address> },
    /// `address` if it is one, and otherwise the robot called `name`.
    Typed { address: String, name: String },
}

/// A session that is about to start.
#[derive(Debug)]
pub struct Dial {
    pub hosts: Vec<Address>,
    pub fingerprint: Option<[u8; 32]>,
    pub username: String,
    pub password: String,
    pub settings: StreamSettings,
    /// False for a session that is for files alone.
    pub start_stream: bool,
}

/// Why nothing was dialled.
pub const NO_ADDRESS: &'static str = "enter an address, or scan for a robot";

pub const NO_CREDENTIALS: &'static str = "Enter the username and password for this robot";

pub const NO_ANSWER: &'static str =
    "No robots answered. Check the host is running and that mDNS (UDP 5353) is not blocked between the machines.";

/// What a typed address means: with the usual port unless it names one.
pub open spec fn with_port(text: Seq<char>) -> Seq<char> {
    if text.contains(':') {
        text
    } else {
        text + DEFAULT_PORT@
    }
}

/// What the connection screen was given, as somewhere to dial. A discovered robot is
/// dialled by every address it advertised, and a typed one by exactly what was typed.
pub fn resolve(address: &str, discovered: Option<&Discovered>) -> (r: Result<Target, &'static str>)
    ensures
        match discovered {
            Some(d) => r matches Ok(Target::Known { addrs }) && addrs@ == d.addrs@,
            None => if trimmed(address@).len() == 0 {
                r matches Err(e) && e@ == NO_ADDRESS@
            } else {
                r matches Ok(Target::Typed { address: a, name }) && a@ == with_port(
                    trimmed(address@),
                ) && name@ == trimmed(address@)
            },
        },
{
    if let Some(d) = discovered {
        return Ok(Target::Known { addrs: copy_addresses(&d.addrs) });
    }
    let text = trim(&chars_of(address));
    if text.len() == 0 {
        return Err(NO_ADDRESS);
    }
    let name = string_of(&text);
    let mut full = name.clone();
    if !holds(&text, ':') {
        full.push_str(DEFAULT_PORT);
    }
    Ok(Target::Typed { address: full, name })
}

/// A capital ASCII letter as a small one, any other character as it is.
pub open spec fn ascii_small(c: char) -> char {
    if 'A' <= c <= 'Z' {
        ((c as u32 + 32) as u32) as char
    } else {
        c
    }
}

/// Whether two texts agree but for the case of ASCII letters.
pub open spec fn same_letters(a: Seq<char>, b: Seq<char>) -> bool {
    a.len() == b.len() && forall|i: int|
        0 <= i < a.len() ==> ascii_small(#[trigger] a[i]) == ascii_small(b[i])
}

fn small(c: char) -> (r: u32)
    ensures
        r == ascii_small(c) as u32,
{
    let n: u32 = crate::text::code_point(c);
    if 0x41 <= n && n <= 0x5A {
        n + 32
    } else {
        n
    }
}

fn agree(a: &Vec<char>, b: &Vec<char>) -> (r: bool)
    ensures
        r == same_letters(a@, b@),
{
    if a.len() != b.len() {
        return false;
    }
    let mut i: usize = 0;
    while i < a.len()
        invariant
            i <= a.len() == b.len(),
            forall|j: int| 0 <= j < i ==> ascii_small(#[trigger] a@[j]) == ascii_small(b@[j]),
        decreases a.len() - i,
    {
        if small(a[i]) != small(b[i]) {
            assert(ascii_small(a@[i as int]) != ascii_small(b@[i as int]));
            return false;
        }
        i = i + 1;
    }
    true
}

/// The addresses of the first robot of that name, in any case. This is what makes the name
/// shown by a scan work when it is typed rather than clicked.
pub fn named(hosts: &Vec<Discovered>, name: &str) -> (r: Result<Vec<Address>, String>)
    ensures
        match r {
            Ok(addrs) => exists|i: int|
                #![trigger hosts@[i]]
                0 <= i < hosts@.len() && same_letters(hosts@[i].name@, name@) && addrs@
                    == hosts@[i].addrs@ && forall|j: int|
                    0 <= j < i ==> !same_letters((#[trigger] hosts@[j]).name@, name@),
            Err(e) => (forall|j: int|
                0 <= j < hosts@.len() ==> !same_letters((#[trigger] hosts@[j]).name@, name@)) && e@
                == quoted(name@)
                + " is not an address, and no robot of that name answered on this network"@,
        },
{
    let wanted = chars_of(name);
    let mut i: usize = 0;
    while i < hosts.len()
        invariant
            i <= hosts.len(),
            wanted@ == name@,
            forall|j: int| 0 <= j < i ==> !same_letters((#[trigger] hosts@[j]).name@, name@),
        decreases hosts.len() - i,
    {
        if agree(&chars_of(&hosts[i].name), &wanted) {
            assert(same_letters(hosts@[i as int].name@, name@));
            return Ok(copy_addresses(&hosts[i].addrs));
        }
        i = i + 1;
    }
    let mut e = quote(name);
    e.push_str(" is not an address, and no robot of that name answered on this network");
    Err(e)
}

/// The viewer's state outside a session, and what a session is switched to.
#[derive(Debug)]
pub struct ViewerApp {
    pub address: String,
    pub username: String,
    pub password: String,
    pub fingerprint: String,
    pub settings: StreamSettings,
    pub view_only: bool,
    /// Set when the operator picked a robot from the list.
    pub picked: Option<Discovered>,
    pub connect_error: Option<String>,
    pub scanning: bool,
    pub hosts: Vec<Discovered>,
    pub show_stats: bool,
    /// Full screen, and every key forwarded.
    pub immersive: bool,
    /// The one address to dial, when the operator pinned a network.
    pub chosen_addr: Option<Address>,
    /// Which page of scan results is showing.
    pub page: usize,
    pub mode: Mode,
    /// Whether the robot was asked for video and not yet asked to stop.
    pub streaming: bool,
    /// The connected computer's own name, when discovery told it.
    pub machine: Option<String>,
}

/// A text, or none of it.
fn text_or_empty(text: Option<String>) -> (r: String)
    ensures
        match text {
            Some(t) => r == t,
            None => r@.len() == 0,
        },
{
    match text {
        Some(t) => t,
        None => String::new(),
    }
}

/// What a fingerprint field holds: nothing but white space, or what was typed.
pub open spec fn pins(field: Seq<char>) -> bool {
    trimmed(field).len() > 0
}

/// What is left of a fingerprint that was typed, as bytes.
pub open spec fn pin_digits(field: Seq<char>) -> Seq<u8> {
    encode_utf8(without_colons(trimmed(field)))
}

/// Whether `bytes` is the fingerprint that was typed.
pub open spec fn typed_pin(field: Seq<char>, bytes: Seq<u8>) -> bool {
    pin_digits(field).len() == 64 && bytes.len() == 32 && reads_as(pin_digits(field), bytes)
}

/// Whether what was typed is no fingerprint.
pub open spec fn bad_pin(field: Seq<char>) -> bool {
    pins(field) && forall|bytes: Seq<u8>| !(#[trigger] typed_pin(field, bytes))
}

/// Whether there is nowhere to dial.
pub open spec fn nowhere(app: ViewerApp) -> bool {
    app.chosen_addr is None && app.picked is None && trimmed(app.address@).len() == 0
}

/// What the robot is told when a session is switched to `mode`.
pub open spec fn told_on_switch(app: ViewerApp, mode: Mode) -> Option<StreamControl> {
    if mode == app.mode {
        None
    } else if mode is Desktop {
        Some(StreamControl::Start(app.settings))
    } else if app.streaming {
        Some(StreamControl::Stop)
    } else {
        None
    }
}

/// A session once it is switched to `mode`.
pub open spec fn switched(app: ViewerApp, mode: Mode) -> ViewerApp {
    ViewerApp {
        mode,
        streaming: if mode == app.mode {
            app.streaming
        } else {
            mode is Desktop
        },
        ..app
    }
}

impl ViewerApp {
    /// The first screen.
    pub fn new(args: Options) -> (r: Self)
        ensures
            match (args.host, args.name) {
                (Some(h), _) => r.address == h,
                (None, Some(n)) => r.address == n,
                (None, None) => r.address@.len() == 0,
            },
            args.user matches Some(u) ==> r.username == u,
            args.user is None ==> r.username@.len() == 0,
            args.password matches Some(p) ==> r.password == p,
            args.password is None ==> r.password@.len() == 0,
            args.fingerprint matches Some(f) ==> r.fingerprint == f,
            args.fingerprint is None ==> r.fingerprint@.len() == 0,
            r.settings == (StreamSettings {
                monitor: args.monitor,
                max_fps: args.fps,
                bitrate_kbps: args.bitrate_kbps,
                scale_percent: crate::codec::clamped(args.scale as int, 25, 100) as u8,
                max_cpu_percent: args.max_cpu_percent,
            }),
            r.view_only == args.view_only,
            r.picked is None,
            r.connect_error is None,
            !r.scanning,
            r.hosts@.len() == 0,
            r.show_stats,
            !r.immersive,
            r.chosen_addr is None,
            r.page == 0,
            r.mode is Desktop,
            !r.streaming,
            r.machine is None,
    {
        let address = match args.host {
            Some(h) => h,
            None => text_or_empty(args.name),
        };
        ViewerApp {
            address,
            username: text_or_empty(args.user),
            password: text_or_empty(args.password),
            fingerprint: text_or_empty(args.fingerprint),
            settings: StreamSettings {
                monitor: args.monitor,
                max_fps: args.fps,
                bitrate_kbps: args.bitrate_kbps,
                scale_percent: if args.scale < 25 {
                    25
                } else if args.scale > 100 {
                    100
                } else {
                    args.scale
                },
                max_cpu_percent: args.max_cpu_percent,
            },
            view_only: args.view_only,
            picked: None,
            connect_error: None,
            scanning: false,
            hosts: Vec::new(),
            show_stats: true,
            immersive: false,
            chosen_addr: None,
            page: 0,
            mode: Mode::Desktop,
            streaming: false,
            machine: None,
        }
    }

    /// Whether enough is filled in to connect.
    pub fn ready(&self) -> (r: bool)
        ensures
            r == (trimmed(self.address@).len() > 0 && trimmed(self.username@).len() > 0
                && self.password@.len() > 0),
    {
        trim(&chars_of(&self.address)).len() > 0 && trim(&chars_of(&self.username)).len() > 0
            && chars_of(&self.password).len() > 0
    }

    /// The operator typed an address, so neither the robot picked from the list nor the
    /// network chosen for it is in use any more.
    pub fn address_typed(&mut self)
        ensures
            *final(self) == (ViewerApp { picked: None, chosen_addr: None, ..*old(self) }),
    {
        self.picked = None;
        self.chosen_addr = None;
    }

    /// Whether a scan is to be started: not while one is running.
    pub fn start_scan(&mut self) -> (r: bool)
        ensures
            r == !old(self).scanning,
            *final(self) == (ViewerApp { scanning: true, ..*old(self) }),
    {
        let r: bool = !self.scanning;
        self.scanning = true;
        r
    }

    /// Takes in what a scan found.
    pub fn poll_scan(&mut self, done: Option<Result<Vec<Discovered>, String>>)
        ensures
            match done {
                None => *final(self) == *old(self),
                Some(Ok(hosts)) => {
                    &&& *final(self) == (ViewerApp {
                        scanning: false,
                        page: 0,
                        hosts,
                        connect_error: final(self).connect_error,
                        ..*old(self)
                    })
                    &&& if hosts@.len() == 0 {
                        final(self).connect_error matches Some(e) && e@ == NO_ANSWER@
                    } else {
                        final(self).connect_error == old(self).connect_error
                    }
                },
                Some(Err(e)) => {
                    &&& *final(self) == (ViewerApp {
                        scanning: false,
                        connect_error: final(self).connect_error,
                        ..*old(self)
                    })
                    &&& final(self).connect_error matches Some(t) && t@ == "Discovery failed: "@
                        + e@
                },
            },
    {
        match done {
            None => {},
            Some(Ok(hosts)) => {
                self.scanning = false;
                self.page = 0;
                if hosts.len() == 0 {
                    self.connect_error = Some(NO_ANSWER.to_owned());
                }
                self.hosts = hosts;
            },
            Some(Err(e)) => {
                self.scanning = false;
                let mut text = "Discovery failed: ".to_owned();
                text.push_str(&e);
                self.connect_error = Some(text);
            },
        }
    }

    /// Adopt a discovered robot, leaving only the password to type.
    ///
    /// The username comes from the account that the host advertises, or from its name
    /// where it advertises none, and only if none was typed. The advertised fingerprint is
    /// a convenience, not proof. A network pinned on one robot means nothing on another.
    pub fn pick(&mut self, host: &Discovered)
        ensures
            final(self).address == host.name,
            final(self).username == if trimmed(old(self).username@).len() > 0 {
                old(self).username
            } else {
                match host.account {
                    Some(a) => a,
                    None => host.name,
                }
            },
            final(self).fingerprint == match host.fingerprint {
                Some(f) => f,
                None => old(self).fingerprint,
            },
            final(self).chosen_addr is None,
            final(self).picked matches Some(p) && p.agrees(*host),
            *final(self) == (ViewerApp {
                address: final(self).address,
                username: final(self).username,
                fingerprint: final(self).fingerprint,
                chosen_addr: None,
                picked: final(self).picked,
                ..*old(self)
            }),
    {
        self.address = host.name.clone();
        if trim(&chars_of(&self.username)).len() == 0 {
            self.username = match &host.account {
                Some(a) => a.clone(),
                None => host.name.clone(),
            };
        }
        if let Some(f) = &host.fingerprint {
            self.fingerprint = f.clone();
        }
        self.chosen_addr = None;
        self.picked = Some(host.copy());
    }

    /// The networks to choose from: those of the picked robot, when it answered on more
    /// than one.
    pub fn network_choices(&self) -> (r: Vec<Address>)
        ensures
            r@ == match self.picked {
                Some(p) => if ipv4(p.addrs@).len() < 2 {
                    Seq::empty()
                } else {
                    ipv4(p.addrs@)
                },
                None => Seq::empty(),
            },
    {
        match &self.picked {
            Some(p) => {
                let choices = ipv4_of(&p.addrs);
                if choices.len() < 2 {
                    Vec::new()
                } else {
                    choices
                }
            },
            None => Vec::new(),
        }
    }

    /// The first half of connecting: what certificate to insist on, and where to dial.
    /// `None` if it is not to be: the reason is then on the screen.
    ///
    /// A pinned network is dialled and nothing else, so that a failure names the network
    /// that the operator chose.
    pub fn connect(&mut self) -> (r: Option<(Option<[u8; 32]>, Target)>)
        ensures
            *final(self) == (ViewerApp {
                connect_error: final(self).connect_error,
                ..*old(self)
            }),
            r is Some <==> !bad_pin(old(self).fingerprint@) && !nowhere(*old(self)),
            trimmed(old(self).fingerprint@).len() == 0 ==> (r is Some <==> old(self).chosen_addr
                is Some || old(self).picked is Some || trimmed(old(self).address@).len() > 0),
            trimmed(old(self).fingerprint@).len() == 0 ==> (r matches Some((pin, _)) ==> pin is None),
            match r {
                Some((pin, target)) => {
                    &&& final(self).connect_error is None
                    &&& match pin {
                        Some(bytes) => pins(old(self).fingerprint@) && typed_pin(
                            old(self).fingerprint@,
                            bytes@,
                        ),
                        None => !pins(old(self).fingerprint@),
                    }
                    &&& match old(self).chosen_addr {
                        Some(a) => target matches Target::Known { addrs } && addrs@ == seq![a],
                        None => match old(self).picked {
                            Some(d) => target matches Target::Known { addrs } && addrs@ == d.addrs@,
                            None => target matches Target::Typed { address, name } && name@
                                == trimmed(old(self).address@) && address@ == with_port(name@),
                        },
                    }
                },
                None => final(self).connect_error matches Some(e) && e@ == if !bad_pin(
                    old(self).fingerprint@,
                ) {
                    NO_ADDRESS@
                } else if pin_digits(old(self).fingerprint@).len() != 64 {
                    "Fingerprint: "@ + "fingerprint must be 32 hex bytes"@
                } else {
                    "Fingerprint: "@ + "invalid hex in fingerprint"@
                },
            },
    {
        self.connect_error = None;
        let text = trim(&chars_of(&self.fingerprint));
        let pin: Option<[u8; 32]> = if text.len() == 0 {
            None
        } else {
            match parse_fingerprint(&string_of(&text)) {
                Ok(bytes) => {
                    assert(typed_pin(old(self).fingerprint@, bytes@));
                    Some(bytes)
                },
                Err(e) => {
                    let mut said = "Fingerprint: ".to_owned();
                    said.push_str(e.message());
                    self.connect_error = Some(said);
                    proof {
                        let typed = old(self).fingerprint@;
                        let digits = pin_digits(typed);
                        assert forall|bytes: Seq<u8>| !(#[trigger] typed_pin(typed, bytes)) by {
                            if typed_pin(typed, bytes) {
                                let i = choose|i: int|
                                    0 <= i < 32 && (#[trigger] pair_value(
                                        digits[2 * i],
                                        digits[2 * i + 1],
                                    )) is None;
                                assert(0 <= bytes[i]);
                            }
                        }
                    }
                    return None;
                },
            }
        };
        if let Some(a) = &self.chosen_addr {
            let mut addrs: Vec<Address> = Vec::new();
            addrs.push(a.copy());
            assert(addrs@ =~= seq![old(self).chosen_addr.unwrap()]);
            return Some((pin, Target::Known { addrs }));
        }
        let target = match &self.picked {
            Some(d) => resolve(&self.address, Some(d)),
            None => resolve(&self.address, None),
        };
        match target {
            Ok(t) => Some((pin, t)),
            Err(e) => {
                self.connect_error = Some(e.to_owned());
                None
            },
        }
    }

    /// The second half: the session to start, once it is known where to dial. `None` if it
    /// is not to be: the reason is then on the screen.
    pub fn dial(&mut self, hosts: Result<Vec<Address>, String>, fingerprint: Option<[u8; 32]>) -> (r:
        Option<Dial>)
        ensures
            match hosts {
                Err(e) => {
                    &&& r is None
                    &&& *final(self) == (ViewerApp { connect_error: Some(e), ..*old(self) })
                },
                Ok(addrs) => if trimmed(old(self).username@).len() == 0 || old(self).password@.len()
                    == 0 {
                    &&& r is None
                    &&& final(self).connect_error matches Some(e) && e@ == NO_CREDENTIALS@
                    &&& *final(self) == (ViewerApp {
                        connect_error: final(self).connect_error,
                        ..*old(self)
                    })
                } else {
                    &&& r matches Some(d) && d.hosts == addrs && d.fingerprint == fingerprint
                        && d.username@ == trimmed(old(self).username@) && d.password
                        == old(self).password && d.settings == old(self).settings && d.start_stream
                        == (old(self).mode is Desktop)
                    &&& *final(self) == (ViewerApp {
                        machine: match old(self).picked {
                            Some(p) => p.hostname,
                            None => None,
                        },
                        streaming: old(self).mode is Desktop,
                        ..*old(self)
                    })
                },
            },
    {
        let hosts = match hosts {
            Ok(h) => h,
            Err(e) => {
                self.connect_error = Some(e);
                return None;
            },
        };
        let username = trim(&chars_of(&self.username));
        if username.len() == 0 || chars_of(&self.password).len() == 0 {
            self.connect_error = Some(NO_CREDENTIALS.to_owned());
            return None;
        }
        let watch: bool = match self.mode {
            Mode::Desktop => true,
            Mode::Files => false,
        };
        self.machine = match &self.picked {
            Some(p) => copy_text(&p.hostname),
            None => None,
        };
        self.streaming = watch;
        Some(
            Dial {
                hosts,
                fingerprint,
                username: string_of(&username),
                password: self.password.clone(),
                settings: self.settings,
                start_stream: watch,
            },
        )
    }

    /// Leave the session.
    pub fn disconnect(&mut self)
        ensures
            *final(self) == (ViewerApp { machine: None, ..*old(self) }),
    {
        self.machine = None;
    }

    /// Switch between watching the screen and moving files. What is returned goes to the
    /// robot.
    ///
    /// Entering Desktop is what asks the robot to capture and encode; leaving it stops
    /// that again. A session parked on Files costs the robot nothing but a socket.
    pub fn set_mode(&mut self, mode: Mode) -> (r: Option<StreamControl>)
        ensures
            r == told_on_switch(*old(self), mode),
            *final(self) == switched(*old(self), mode),
    {
        if self.mode == mode {
            return None;
        }
        self.mode = mode;
        match mode {
            Mode::Desktop => {
                self.streaming = true;
                Some(StreamControl::Start(self.settings))
            },
            Mode::Files => {
                if self.streaming {
                    self.streaming = false;
                    Some(StreamControl::Stop)
                } else {
                    None
                }
            },
        }
    }

    /// New settings. What is returned goes to the robot: what is shown is what it was
    /// told.
    pub fn change_settings(&mut self, settings: StreamSettings, live: bool) -> (r: Option<
        StreamControl,
    >)
        ensures
            r == if live && settings != old(self).settings {
                Some(StreamControl::Start(settings))
            } else {
                None
            },
            *final(self) == (ViewerApp { settings, ..*old(self) }),
    {
        let changed: bool = settings != self.settings;
        self.settings = settings;
        if live && changed {
            Some(StreamControl::Start(settings))
        } else {
            None
        }
    }

    /// Enter or leave the full screen. Whether that is a change.
    pub fn set_immersive(&mut self, on: bool) -> (r: bool)
        ensures
            r == (on != old(self).immersive),
            *final(self) == (ViewerApp { immersive: on, ..*old(self) }),
    {
        let r: bool = on != self.immersive;
        self.immersive = on;
        r
    }
}

/// What a robot's encoder does after it was told something, from whether it ran before.
pub open spec fn encoding_after(running: bool, told: Option<StreamControl>) -> bool {
    match told {
        Some(StreamControl::Start(_)) => true,
        Some(StreamControl::Stop) => false,
        None => running,
    }
}

/// A session parked on files costs the robot nothing: where the encoder runs exactly while
/// the desktop is shown, as it does once a session was dialled, it does so after any
/// switch too.
pub proof fn files_cost_the_robot_nothing(app: ViewerApp, running: bool, mode: Mode)
    requires
        running == app.streaming,
        app.streaming == (app.mode is Desktop),
    ensures
        ({
            let after = switched(app, mode);
            &&& encoding_after(running, told_on_switch(app, mode)) == after.streaming
            &&& after.streaming == (after.mode is Desktop)
        }),
{
}

/// There are as many pages as it takes, and no empty one.
pub proof fn no_page_is_empty(hosts: int, per_page: int)
    requires
        per_page > 0,
        0 <= hosts,
    ensures
        (page_count(hosts, per_page) - 1) * per_page < hosts <= page_count(hosts, per_page)
            * per_page || hosts == 0 && page_count(hosts, per_page) == 0,
{
    let pages = page_count(hosts, per_page);
    vstd::arithmetic::div_mod::lemma_fundamental_div_mod(hosts + per_page - 1, per_page);
    assert((pages - 1) * per_page < hosts <= pages * per_page) by (nonlinear_arith)
        requires
            hosts + per_page - 1 == per_page * pages + (hosts + per_page - 1) % per_page,
            0 <= (hosts + per_page - 1) % per_page < per_page,
    ;
}

/// The addresses to choose from are the IPv4 ones, all of them, in their order.
pub proof fn ipv4_addresses_keep_their_order(addrs: Seq<Address>)
    ensures
        ipv4(addrs) == addrs.filter(|a: Address| a.ip is V4),
    decreases addrs.len(),
{
    reveal(Seq::filter);
    if addrs.len() > 0 {
        ipv4_addresses_keep_their_order(addrs.drop_last());
    }
}

/// What is shown of a robot's addresses: all of the IPv4 ones up to three, three and the number
/// of the rest where there are more, and the first of any kind where there is none.
pub proof fn the_summary_counts_what_it_leaves_out(a: Seq<Address>)
    requires
        forall|i: int| 0 <= i < a.len() ==> (#[trigger] a[i]).ip is V4,
    ensures
        a.len() == 0 ==> summary(a) == "no address"@,
        a.len() == 1 ==> summary(a) == a[0].host@,
        a.len() == 2 ==> summary(a) == a[0].host@ + SEPARATOR@ + a[1].host@,
        a.len() == 3 ==> summary(a) == a[0].host@ + SEPARATOR@ + a[1].host@ + SEPARATOR@
            + a[2].host@,
        a.len() > 3 ==> summary(a) == a[0].host@ + SEPARATOR@ + a[1].host@ + SEPARATOR@
            + a[2].host@ + SEPARATOR@ + "+"@ + decimal((a.len() - 3) as nat) + " more"@,
{
    lemma_all_ipv4(a);
    let h = hosts_of(ipv4(a));
    assert(h.len() == a.len());
    let shown = if h.len() <= 3 {
        h
    } else {
        h.take(3)
    };
    assert(h.len() <= 3 ==> h.take(h.len() as int) =~= h);
    reveal_with_fuel(strung, 4);
    if a.len() >= 1 {
        assert(h[0] == a[0].host@);
        assert(strung(seq![h[0]], SEPARATOR@) == h[0]);
    }
    if a.len() >= 2 {
        assert(h[1] == a[1].host@);
    }
    if a.len() >= 3 {
        assert(h[2] == a[2].host@);
        assert(shown.drop_last().drop_last() =~= seq![h[0]]);
    }
}

proof fn lemma_all_ipv4(a: Seq<Address>)
    requires
        forall|i: int| 0 <= i < a.len() ==> (#[trigger] a[i]).ip is V4,
    ensures
        ipv4(a) == a,
    decreases a.len(),
{
    if a.len() > 0 {
        assert(a[a.len() - 1].ip is V4);
        lemma_all_ipv4(a.drop_last());
        assert(a.drop_last().push(a.last()) =~= a);
    }
}

/// Texts agree whatever the case of their ASCII letters, and in nothing else: a capital letter
/// is the small one 32 further on, and any other two characters agree only if they are the same.
pub proof fn only_case_is_overlooked(c: char, d: char)
    ensures
        same_letters(seq![c], seq![d]) <==> c == d || ('A' as int <= c as int <= 'Z' as int && d
            as int == c as int + 32) || ('A' as int <= d as int <= 'Z' as int && c as int == d
            as int + 32),
{
    let (a, b) = (seq![c], seq![d]);
    assert(same_letters(a, b) <==> ascii_small(c) == ascii_small(d)) by {
        assert(a[0] == c && b[0] == d);
    }
}

/// Entering the desktop asks for the stream as it is set, leaving it stops what was asked for,
/// and a switch to what is shown already says nothing.
pub proof fn a_switch_says_what_it_means(app: ViewerApp)
    ensures
        told_on_switch(app, app.mode) is None,
        app.mode is Files ==> told_on_switch(app, Mode::Desktop) == Some(
            StreamControl::Start(app.settings),
        ),
        app.mode is Desktop && app.streaming ==> told_on_switch(app, Mode::Files) == Some(
            StreamControl::Stop,
        ),
        app.mode is Desktop && !app.streaming ==> told_on_switch(app, Mode::Files) is None,
        switched(app, Mode::Desktop).mode is Desktop && switched(app, Mode::Files).mode is Files,
        switched(app, app.mode) == app,
{
}

/// An address that names a port is dialled as it is, and any other at the usual one.
pub proof fn an_address_without_a_port_gets_the_usual_one(text: Seq<char>)
    ensures
        text.contains(':') ==> with_port(text) == text,
        !text.contains(':') ==> with_port(text) == text + ":9631"@,
{
}

/// A fingerprint that a host prints can be typed as it is, with white space around it.
pub proof fn a_printed_fingerprint_can_be_typed(
    before: Seq<char>,
    digest: Seq<u8>,
    after: Seq<char>,
)
    requires
        digest.len() == 32,
        forall|i: int| 0 <= i < before.len() ==> crate::text::white(#[trigger] before[i]),
        forall|i: int| 0 <= i < after.len() ==> crate::text::white(#[trigger] after[i]),
    ensures
        ({
            let field = before + crate::transport::hex_text(digest) + after;
            pins(field) && typed_pin(field, digest) && !bad_pin(field)
        }),
{
    let text = crate::transport::hex_text(digest);
    crate::transport::a_fingerprint_is_written_in_pairs(digest, 0);
    crate::transport::a_fingerprint_is_written_in_pairs(digest, 31);
    reveal_strlit("0123456789abcdef");
    assert(text.last() == text[94]);
    assert(!crate::text::white(text[0]) && !crate::text::white(text[94])) by {
        let (a, b) = (digest[0] as int / 16, digest[31] as int % 16);
        assert(a == 0 || a == 1 || a == 2 || a == 3 || a == 4 || a == 5 || a == 6 || a == 7 || a
            == 8 || a == 9 || a == 10 || a == 11 || a == 12 || a == 13 || a == 14 || a == 15);
        assert(b == 0 || b == 1 || b == 2 || b == 3 || b == 4 || b == 5 || b == 6 || b == 7 || b
            == 8 || b == 9 || b == 10 || b == 11 || b == 12 || b == 13 || b == 14 || b == 15);
    }
    crate::text::trimming_takes_only_white_space(before, text, after);
    crate::transport::a_printed_fingerprint_reads_back(digest);
    assert(typed_pin(before + text + after, digest));
}

} // verus!
