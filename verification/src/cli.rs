//! What the viewer and the host print when they are asked a question on the command line.
use vstd::prelude::*;

use crate::discovery::{Address, Discovered};
use crate::proto::MonitorInfo;
use crate::text::{chars_of, contents, decimal, push_decimal, string_up, strung};
use crate::ui::{monitor_label, monitor_text};
use crate::update::{Outcome, CURRENT};
use crate::users::Users;

verus! {

/// A text filled up with spaces at its end, to so many characters at least.
pub open spec fn padded(s: Seq<char>, width: int) -> Seq<char> {
    if s.len() >= width {
        s
    } else {
        s + Seq::new((width - s.len()) as nat, |i: int| ' ')
    }
}

/// A text filled up with spaces at its end, to so many characters at least.
fn pad(s: &str, width: usize) -> (r: String)
    ensures
        r@ == padded(s@, width as int),
{
    let n: usize = chars_of(s).len();
    let mut out = s.to_owned();
    let mut i: usize = n;
    while i < width
        invariant
            n == s@.len(),
            n <= i,
            i <= width || i == n,
            out@ == s@ + Seq::new((i - n) as nat, |j: int| ' '),
        decreases width - i,
    {
        out.push(' ');
        i = i + 1;
        assert(out@ =~= s@ + Seq::new((i - n) as nat, |j: int| ' '));
    }
    assert(n >= width ==> out@ =~= s@);
    out
}

/// The addresses of a host with their ports, one after the other.
pub open spec fn address_list(addrs: Seq<Address>) -> Seq<char> {
    if addrs.len() == 0 {
        "(no address)"@
    } else {
        strung(addrs.map_values(|a: Address| a.text@), ", "@)
    }
}

/// A line of the table of hosts.
pub open spec fn host_line(h: Discovered) -> Seq<char> {
    let computer = match h.hostname {
        Some(n) => n@,
        None => "-"@,
    };
    let pin = match h.fingerprint {
        Some(f) => f@,
        None => "(not advertised)"@,
    };
    padded(h.name@, 18).push(' ') + padded(computer, 20).push(' ') + padded(
        address_list(h.addrs@),
        22,
    ).push(' ') + pin
}

/// The head of the table of hosts.
pub open spec fn host_head() -> Seq<char> {
    padded("NAME"@, 18).push(' ') + padded("COMPUTER"@, 20).push(' ') + padded("ADDRESS"@, 22).push(
        ' ',
    ) + "FINGERPRINT"@
}

fn print_addresses(addrs: &Vec<Address>) -> (r: String)
    ensures
        r@ == address_list(addrs@),
{
    if addrs.len() == 0 {
        return "(no address)".to_owned();
    }
    let mut texts: Vec<String> = Vec::new();
    let ghost all = addrs@.map_values(|a: Address| a.text@);
    let mut i: usize = 0;
    assert(contents(texts@) =~= all.take(0));
    while i < addrs.len()
        invariant
            i <= addrs.len(),
            all == addrs@.map_values(|a: Address| a.text@),
            contents(texts@) == all.take(i as int),
        decreases addrs.len() - i,
    {
        let ghost before = contents(texts@);
        texts.push(addrs[i].text.clone());
        assert(contents(texts@) =~= before.push(addrs@[i as int].text@));
        assert(all.take(i as int).push(all[i as int]) =~= all.take(i + 1));
        i = i + 1;
    }
    assert(all.take(i as int) =~= all);
    string_up(&texts, ", ")
}

fn line(name: &str, computer: &str, address: &str, pin: &str) -> (r: String)
    ensures
        r@ == padded(name@, 18).push(' ') + padded(computer@, 20).push(' ') + padded(
            address@,
            22,
        ).push(' ') + pin@,
{
    let mut out = pad(name, 18);
    out.push(' ');
    out.push_str(&pad(computer, 20));
    out.push(' ');
    out.push_str(&pad(address, 22));
    out.push(' ');
    out.push_str(pin);
    assert(out@ =~= padded(name@, 18).push(' ') + padded(computer@, 20).push(' ') + padded(
        address@,
        22,
    ).push(' ') + pin@);
    out
}

/// Every host that answered, one on a line below a head, with every address: a robot on
/// both a cable and a wireless network is reachable twice. Where none answered, what to
/// look at.
pub fn list_hosts(hosts: &Vec<Discovered>) -> (r: Vec<String>)
    ensures
        if hosts@.len() == 0 {
            contents(r@) == seq![
                "No Telekin hosts answered on this network."@,
                "Check that the host is running without --no-advertise, and that"@,
                "mDNS (UDP 5353) is not blocked between the two machines."@,
            ]
        } else {
            contents(r@) == seq![host_head()] + hosts@.map_values(|h: Discovered| host_line(h))
        },
{
    let mut out: Vec<String> = Vec::new();
    if hosts.len() == 0 {
        out.push("No Telekin hosts answered on this network.".to_owned());
        out.push("Check that the host is running without --no-advertise, and that".to_owned());
        out.push("mDNS (UDP 5353) is not blocked between the two machines.".to_owned());
        assert(contents(out@) =~= seq![
            "No Telekin hosts answered on this network."@,
            "Check that the host is running without --no-advertise, and that"@,
            "mDNS (UDP 5353) is not blocked between the two machines."@,
        ]);
        return out;
    }
    out.push(line("NAME", "COMPUTER", "ADDRESS", "FINGERPRINT"));
    let ghost lines = hosts@.map_values(|h: Discovered| host_line(h));
    let mut i: usize = 0;
    assert(contents(out@) =~= seq![host_head()] + lines.take(0));
    while i < hosts.len()
        invariant
            i <= hosts.len(),
            lines == hosts@.map_values(|h: Discovered| host_line(h)),
            contents(out@) == seq![host_head()] + lines.take(i as int),
        decreases hosts.len() - i,
    {
        let h = &hosts[i];
        let computer: &str = match &h.hostname {
            Some(n) => n,
            None => "-",
        };
        let pin: &str = match &h.fingerprint {
            Some(f) => f,
            None => "(not advertised)",
        };
        let text = line(&h.name, computer, &print_addresses(&h.addrs), pin);
        let ghost before = contents(out@);
        assert(text@ == host_line(*h));
        out.push(text);
        assert(contents(out@) =~= before.push(host_line(*h)));
        assert(lines.take(i as int).push(lines[i as int]) =~= lines.take(i + 1));
        assert(contents(out@) =~= seq![host_head()] + lines.take(i + 1));
        i = i + 1;
    }
    assert(lines.take(i as int) =~= lines);
    out
}

/// What an update check found, in lines to print. What is said otherwise is an error, so
/// that a script can tell "up to date" from "could not check": `None` while the check is
/// under way and not `late`.
pub fn report_update(outcome: Outcome, late: bool) -> (r: Option<Result<Vec<String>, String>>)
    ensures
        match outcome {
            Outcome::Checking => if late {
                r matches Some(Err(e)) && e@ == "the update check did not finish in time"@
            } else {
                r is None
            },
            Outcome::UpToDate => r matches Some(Ok(lines)) && contents(lines@) == seq![
                "telekin "@ + CURRENT@ + " is the newest version"@,
            ],
            Outcome::Available { version, notes, url } => r matches Some(Ok(lines)) && contents(
                lines@,
            ) == seq!["telekin "@ + version@ + " is available (this is "@ + CURRENT@ + ")"@] + (
            if notes@.len() == 0 {
                Seq::empty()
            } else {
                seq!["  "@ + notes@]
            }) + seq!["  "@ + url@],
            Outcome::Unavailable(why) => r matches Some(Err(e)) && e@
                == "could not check for updates: "@ + why@,
        },
{
    match outcome {
        Outcome::Checking => {
            if late {
                Some(Err("the update check did not finish in time".to_owned()))
            } else {
                None
            }
        },
        Outcome::UpToDate => {
            let mut text = "telekin ".to_owned();
            text.push_str(CURRENT);
            text.push_str(" is the newest version");
            let mut lines: Vec<String> = Vec::new();
            lines.push(text);
            assert(contents(lines@) =~= seq!["telekin "@ + CURRENT@ + " is the newest version"@]);
            Some(Ok(lines))
        },
        Outcome::Available { version, notes, url } => {
            let mut text = "telekin ".to_owned();
            text.push_str(&version);
            text.push_str(" is available (this is ");
            text.push_str(CURRENT);
            text.push_str(")");
            let mut lines: Vec<String> = Vec::new();
            lines.push(text);
            if chars_of(&notes).len() > 0 {
                let mut note = "  ".to_owned();
                note.push_str(&notes);
                lines.push(note);
            }
            let mut link = "  ".to_owned();
            link.push_str(&url);
            lines.push(link);
            assert(contents(lines@) =~= seq![
                "telekin "@ + version@ + " is available (this is "@ + CURRENT@ + ")"@,
            ] + (if notes@.len() == 0 {
                Seq::empty()
            } else {
                seq!["  "@ + notes@]
            }) + seq!["  "@ + url@]);
            Some(Ok(lines))
        },
        Outcome::Unavailable(why) => {
            let mut e = "could not check for updates: ".to_owned();
            e.push_str(&why);
            Some(Err(e))
        },
    }
}

/// The accounts that a host accepts, by name, or how to add one.
pub fn list_users(users: &Users) -> (r: Vec<String>)
    ensures
        contents(r@) == if users@.len() == 0 {
            seq!["No accounts yet. Add one with: chassis --add-user <name>"@]
        } else {
            users@.map_values(|a: (Seq<char>, Seq<char>)| a.0)
        },
{
    if users.is_empty() {
        let mut out: Vec<String> = Vec::new();
        out.push("No accounts yet. Add one with: chassis --add-user <name>".to_owned());
        assert(contents(out@) =~= seq![
            "No accounts yet. Add one with: chassis --add-user <name>"@,
        ]);
        return out;
    }
    let out = users.names();
    assert(contents(out@) =~= users@.map_values(|a: (Seq<char>, Seq<char>)| a.0));
    out
}

/// A monitor of the host on a line.
pub open spec fn monitor_line(m: MonitorInfo) -> Seq<char> {
    decimal(m.id as nat) + ": "@ + monitor_text(m)
}

/// The monitors that a host can stream, one on a line.
pub fn list_monitors(monitors: &Vec<MonitorInfo>) -> (r: Vec<String>)
    ensures
        contents(r@) == monitors@.map_values(|m: MonitorInfo| monitor_line(m)),
{
    let mut out: Vec<String> = Vec::new();
    let ghost lines = monitors@.map_values(|m: MonitorInfo| monitor_line(m));
    let mut i: usize = 0;
    assert(contents(out@) =~= lines.take(0));
    while i < monitors.len()
        invariant
            i <= monitors.len(),
            lines == monitors@.map_values(|m: MonitorInfo| monitor_line(m)),
            contents(out@) == lines.take(i as int),
        decreases monitors.len() - i,
    {
        let m = &monitors[i];
        let ghost before = contents(out@);
        let mut text = String::new();
        push_decimal(&mut text, m.id as u64);
        text.push_str(": ");
        text.push_str(&monitor_label(m));
        assert(text@ =~= monitor_line(*m));
        out.push(text);
        assert(contents(out@) =~= before.push(monitor_line(*m)));
        assert(lines.take(i as int).push(lines[i as int]) =~= lines.take(i + 1));
        i = i + 1;
    }
    assert(lines.take(i as int) =~= lines);
    out
}

/// A padded text is the text and then spaces, as wide as the column, or as the text where that
/// is wider.
pub proof fn padding_comes_behind(s: Seq<char>, width: int)
    ensures
        padded(s, width).len() == if s.len() < width {
            width
        } else {
            s.len() as int
        },
        padded(s, width).take(s.len() as int) == s,
        forall|i: int|
            s.len() <= i < padded(s, width).len() ==> #[trigger] padded(s, width)[i] == ' ',
{
    assert(padded(s, width).take(s.len() as int) =~= s);
}

/// The columns of the table of hosts stand below each other, as long as nothing is wider than
/// its column: the name first, then the computer, the addresses and the fingerprint.
pub proof fn the_columns_line_up(h: Discovered)
    requires
        h.name@.len() <= 18,
        h.hostname matches Some(n) && n@.len() <= 20,
        address_list(h.addrs@).len() <= 22,
        h.fingerprint is Some,
    ensures
        host_line(h).subrange(0, h.name@.len() as int) == h.name@,
        host_line(h).subrange(19, 19 + h.hostname->0@.len() as int) == h.hostname->0@,
        host_line(h).subrange(40, 40 + address_list(h.addrs@).len() as int) == address_list(h.addrs@),
        host_line(h).skip(63) == h.fingerprint->0@,
        host_head().subrange(0, 4) == "NAME"@,
        host_head().subrange(19, 27) == "COMPUTER"@,
        host_head().subrange(40, 47) == "ADDRESS"@,
        host_head().skip(63) == "FINGERPRINT"@,
{
    reveal_strlit("NAME");
    reveal_strlit("COMPUTER");
    reveal_strlit("ADDRESS");
    let line = host_line(h);
    assert(line.subrange(0, h.name@.len() as int) =~= h.name@);
    assert(line.subrange(19, 19 + h.hostname->0@.len() as int) =~= h.hostname->0@);
    assert(line.subrange(40, 40 + address_list(h.addrs@).len() as int) =~= address_list(h.addrs@));
    assert(line.skip(63) =~= h.fingerprint->0@);
    assert(host_head().subrange(0, 4) =~= "NAME"@);
    assert(host_head().subrange(19, 27) =~= "COMPUTER"@);
    assert(host_head().subrange(40, 47) =~= "ADDRESS"@);
    assert(host_head().skip(63) =~= "FINGERPRINT"@);
}

} // verus!
