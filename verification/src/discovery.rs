//! Hosts found on the local network: which answers are the same robot, and in which
//! order its addresses are tried.
//!
//! A fingerprint in an advertisement is a convenience, not an authority: anything on
//! the network can publish one.
use vstd::prelude::*;

use crate::sort::{in_order, stable_sort, Ordered};
use crate::text::{
    chars_of, is_before, number_of, parse_u64, pieces, precedes, precedes_is_asymmetric,
    precedes_is_transitive, same, split_on, string_of, views,
};

verus! {

/// DNS-SD service type.
pub const SERVICE_TYPE: &'static str = "_telekin._udp.local.";

/// Record keys: the certificate fingerprint, the protocol version, the account to
/// sign in with and the machine's hostname.
pub const TXT_FINGERPRINT: &'static str = "fp";

pub const TXT_VERSION: &'static str = "v";

pub const TXT_ACCOUNT: &'static str = "user";

pub const TXT_HOSTNAME: &'static str = "host";

/// What an address says about the network it is on.
#[derive(Debug, Clone, Copy, PartialEq, Eq, Structural)]
pub enum Ip {
    V4 { a: u8, b: u8, c: u8, d: u8 },
    V6 { loopback: bool },
}

/// An address with a port, and how it is written.
#[derive(Debug)]
pub struct Address {
    pub ip: Ip,
    /// The address alone.
    pub host: String,
    /// The address with its port.
    pub text: String,
}

impl Address {
    /// The same address.
    pub fn copy(&self) -> (r: Self)
        ensures
            r == *self,
    {
        Address { ip: self.ip, host: self.host.clone(), text: self.text.clone() }
    }
}

/// The same addresses.
pub fn copy_addresses(addrs: &Vec<Address>) -> (r: Vec<Address>)
    ensures
        r@ == addrs@,
{
    let mut out: Vec<Address> = Vec::new();
    let mut i: usize = 0;
    while i < addrs.len()
        invariant
            i <= addrs.len(),
            out@ == addrs@.take(i as int),
        decreases addrs.len() - i,
    {
        out.push(addrs[i].copy());
        assert(addrs@.take(i as int).push(addrs@[i as int]) =~= addrs@.take(i + 1));
        i = i + 1;
    }
    assert(addrs@.take(i as int) =~= addrs@);
    out
}

/// Whether an address is private: 10/8, 172.16/12 or 192.168/16.
pub open spec fn is_private(ip: Ip) -> bool {
    ip matches Ip::V4 { a, b, .. } && (a == 10 || (a == 172 && 16 <= b <= 31) || (a == 192 && b
        == 168))
}

/// Whether an address is link-local: 169.254/16.
pub open spec fn is_link_local(ip: Ip) -> bool {
    ip matches Ip::V4 { a, b, .. } && a == 169 && b == 254
}

/// Which addresses are tried first: private ones, then other IPv4 ones, link-local
/// ones, IPv6, and the loopback last.
pub open spec fn rank_of(ip: Ip) -> u8 {
    if is_private(ip) {
        0
    } else if is_link_local(ip) {
        2
    } else {
        match ip {
            Ip::V4 { .. } => 1,
            Ip::V6 { loopback } => if loopback {
                4
            } else {
                3
            },
        }
    }
}

/// Ordering preference for advertised addresses, lowest tried first. Hosts commonly
/// listen on IPv4 only, so a private IPv4 address is the most likely to answer.
pub fn address_rank(ip: Ip) -> (r: u8)
    ensures
        r == rank_of(ip),
{
    match ip {
        Ip::V4 { a, b, .. } => {
            if a == 10 || (a == 172 && 16 <= b && b <= 31) || (a == 192 && b == 168) {
                0
            } else if a == 169 && b == 254 {
                2
            } else {
                1
            }
        },
        Ip::V6 { loopback } => if loopback {
            4
        } else {
            3
        },
    }
}

impl Ordered for Address {
    open spec fn before(self, other: Self) -> bool {
        if rank_of(self.ip) != rank_of(other.ip) {
            rank_of(self.ip) < rank_of(other.ip)
        } else {
            precedes(self.text@, other.text@)
        }
    }

    proof fn before_is_an_order(a: Self, b: Self, c: Self) {
        precedes_is_transitive(a.text@, b.text@, c.text@);
        precedes_is_asymmetric(a.text@, b.text@);
    }

    fn goes_before(&self, other: &Self) -> (r: bool) {
        let (x, y): (u8, u8) = (address_rank(self.ip), address_rank(other.ip));
        if x != y {
            x < y
        } else {
            is_before(&chars_of(&self.text), &chars_of(&other.text))
        }
    }
}

/// A host found on the network.
#[derive(Debug)]
pub struct Discovered {
    /// Instance name.
    pub name: String,
    /// Every address the host advertised, best candidate first.
    pub addrs: Vec<Address>,
    /// Advertised fingerprint, unverified.
    pub fingerprint: Option<String>,
    pub proto_version: Option<u16>,
    /// The machine's own hostname, when it advertised one.
    pub hostname: Option<String>,
    /// The account to sign in with, when the host advertised one.
    pub account: Option<String>,
}

impl Discovered {
    /// Whether two hosts agree in all that is known of them.
    pub open spec fn agrees(self, other: Discovered) -> bool {
        &&& self.name == other.name
        &&& self.addrs@ == other.addrs@
        &&& self.fingerprint == other.fingerprint
        &&& self.proto_version == other.proto_version
        &&& self.hostname == other.hostname
        &&& self.account == other.account
    }

    /// The same host.
    pub fn copy(&self) -> (r: Self)
        ensures
            r.agrees(*self),
    {
        Discovered {
            name: self.name.clone(),
            addrs: copy_addresses(&self.addrs),
            fingerprint: copy_text(&self.fingerprint),
            proto_version: self.proto_version,
            hostname: copy_text(&self.hostname),
            account: copy_text(&self.account),
        }
    }
}

/// The same text, if there is any.
pub(crate) fn copy_text(text: &Option<String>) -> (r: Option<String>)
    ensures
        r == *text,
{
    match text {
        Some(t) => Some(t.clone()),
        None => None,
    }
}

impl Ordered for Discovered {
    open spec fn before(self, other: Self) -> bool {
        precedes(self.name@, other.name@)
    }

    proof fn before_is_an_order(a: Self, b: Self, c: Self) {
        precedes_is_transitive(a.name@, b.name@, c.name@);
        precedes_is_asymmetric(a.name@, b.name@);
    }

    fn goes_before(&self, other: &Self) -> (r: bool) {
        is_before(&chars_of(&self.name), &chars_of(&other.name))
    }
}

/// What makes two answers the same robot: the fingerprint when there is one, else
/// the name and the first address.
pub open spec fn identity_text(
    name: Seq<char>,
    fingerprint: Option<Seq<char>>,
    first: Option<Seq<char>>,
) -> Seq<char> {
    match fingerprint {
        Some(fp) => "fp:"@ + fp,
        None => match first {
            Some(addr) => "addr:"@ + name.push('@') + addr,
            None => "name:"@ + name,
        },
    }
}

/// The text of the first address.
pub open spec fn first_text(addrs: Seq<Address>) -> Option<Seq<char>> {
    if addrs.len() > 0 {
        Some(addrs[0].text@)
    } else {
        None
    }
}

/// The characters of a text, where there is one.
pub open spec fn opt_view(s: Option<String>) -> Option<Seq<char>> {
    match s {
        Some(t) => Some(t@),
        None => None,
    }
}

/// What makes two answers the same robot. A robot answering on two networks is one
/// robot; two robots that share a name are two.
pub fn identity(name: &str, fingerprint: Option<&str>, addrs: &Vec<Address>) -> (r: String)
    ensures
        r@ == identity_text(
            name@,
            match fingerprint {
                Some(fp) => Some(fp@),
                None => None,
            },
            first_text(addrs@),
        ),
        fingerprint matches Some(fp) ==> r@ == "fp:"@ + fp@,
        fingerprint is None && addrs@.len() > 0 ==> r@ == "addr:"@ + name@ + seq!['@']
            + addrs@[0].text@,
        fingerprint is None && addrs@.len() == 0 ==> r@ == "name:"@ + name@,
{
    assert(addrs@.len() > 0 ==> "addr:"@ + name@ + seq!['@'] + addrs@[0].text@ =~= "addr:"@
        + name@.push('@') + addrs@[0].text@);
    match fingerprint {
        Some(fp) => {
            let mut out = "fp:".to_owned();
            out.push_str(fp);
            out
        },
        None => {
            if addrs.len() > 0 {
                let mut out = "addr:".to_owned();
                out.push_str(name);
                out.push('@');
                out.push_str(&addrs[0].text);
                assert(out@ =~= "addr:"@ + name@.push('@') + addrs@[0].text@);
                out
            } else {
                let mut out = "name:".to_owned();
                out.push_str(name);
                out
            }
        },
    }
}

/// Robots with different fingerprints stay apart whatever they call themselves, and a
/// robot with one fingerprint is one robot wherever it answers from.
pub proof fn a_fingerprint_is_the_identity(
    name1: Seq<char>,
    name2: Seq<char>,
    fp1: Seq<char>,
    fp2: Seq<char>,
    first1: Option<Seq<char>>,
    first2: Option<Seq<char>>,
)
    ensures
        identity_text(name1, Some(fp1), first1) == identity_text(name2, Some(fp2), first2) <==> fp1
            == fp2,
{
    let a = identity_text(name1, Some(fp1), first1);
    let b = identity_text(name2, Some(fp2), first2);
    if a == b {
        let n = "fp:"@.len() as int;
        assert(a.skip(n) =~= fp1);
        assert(b.skip(n) =~= fp2);
    }
}

/// Of two robots with the same name and no fingerprint, those with different first
/// addresses stay apart.
pub proof fn without_a_fingerprint_the_address_tells(
    name: Seq<char>,
    first1: Seq<char>,
    first2: Seq<char>,
)
    ensures
        identity_text(name, None, Some(first1)) == identity_text(name, None, Some(first2)) <==> first1
            == first2,
{
    let a = identity_text(name, None, Some(first1));
    let b = identity_text(name, None, Some(first2));
    if a == b {
        let n = ("addr:"@ + name.push('@')).len() as int;
        assert(a.skip(n) =~= first1);
        assert(b.skip(n) =~= first2);
    }
}

/// A robot with a fingerprint is never taken for one without.
pub proof fn a_fingerprint_sets_a_robot_apart(
    name1: Seq<char>,
    name2: Seq<char>,
    fp: Seq<char>,
    first1: Option<Seq<char>>,
    first2: Option<Seq<char>>,
)
    ensures
        identity_text(name1, Some(fp), first1) != identity_text(name2, None, first2),
{
    reveal_strlit("fp:");
    reveal_strlit("addr:");
    reveal_strlit("name:");
    let a = identity_text(name1, Some(fp), first1);
    let b = identity_text(name2, None, first2);
    assert(a[0] == 'f');
    assert(b[0] == 'a' || b[0] == 'n');
}

/// `name` with dots replaced.
pub open spec fn sanitized(name: Seq<char>) -> Seq<char> {
    name.map_values(
        |c: char|
            if c == '.' {
                '-'
            } else {
                c
            },
    )
}

/// Instance names cannot contain dots; they split the label.
pub fn sanitize(name: &str) -> (r: String)
    ensures
        r@ == sanitized(name@),
{
    let v = chars_of(name);
    let mut out = String::new();
    let mut i: usize = 0;
    while i < v.len()
        invariant
            i <= v.len(),
            out@ == sanitized(v@.take(i as int)),
        decreases v.len() - i,
    {
        out.push(
            if v[i] == '.' {
                '-'
            } else {
                v[i]
            },
        );
        i = i + 1;
        assert(out@ =~= sanitized(v@.take(i as int)));
    }
    assert(v@.take(i as int) =~= v@);
    out
}

/// A name without dots is one label: reading the first label of it back gives it
/// whole.
pub proof fn a_sanitized_name_is_one_label(name: Seq<char>)
    ensures
        !sanitized(name).contains('.'),
        pieces(sanitized(name), '.') == seq![sanitized(name)],
{
    let s = sanitized(name);
    assert(!s.contains('.')) by {
        if s.contains('.') {
            let k = choose|k: int| 0 <= k < s.len() && s[k] == '.';
            assert(s[k] != '.');
        }
    }
    let empty = Seq::<char>::empty();
    crate::text::pieces_of_plain(empty, s, '.');
    assert(empty + s =~= s);
    assert(pieces(empty, '.') == seq![empty]);
    assert(seq![empty].drop_last().push(empty + s) =~= seq![s]);
}

/// What one answer said.
pub struct Answer {
    /// The full name of the record, whose first label is the instance name.
    pub fullname: String,
    pub addrs: Vec<Address>,
    pub fingerprint: Option<String>,
    pub version: Option<String>,
    pub hostname: Option<String>,
    pub account: Option<String>,
}

/// The version that a record gives, where it is a number of 16 bits.
pub open spec fn version_of(text: Option<Seq<char>>) -> Option<int> {
    match text {
        Some(t) => match number_of(t) {
            Some(n) => if n <= u16::MAX {
                Some(n as int)
            } else {
                None
            },
            None => None,
        },
        None => None,
    }
}

/// Whether a host is what an answer describes.
pub open spec fn describes(answer: Answer, d: Discovered) -> bool {
    &&& d.name@ == pieces(answer.fullname@, '.')[0]
    &&& d.addrs@ == in_order(answer.addrs@)
    &&& d.fingerprint == answer.fingerprint
    &&& d.hostname == answer.hostname
    &&& d.account == answer.account
    &&& match d.proto_version {
        Some(v) => version_of(opt_view(answer.version)) == Some(v as int),
        None => version_of(opt_view(answer.version)) is None,
    }
}

/// The identity of the host that an answer describes.
pub open spec fn answer_identity(answer: Answer) -> Seq<char> {
    identity_text(
        pieces(answer.fullname@, '.')[0],
        opt_view(answer.fingerprint),
        first_text(in_order(answer.addrs@)),
    )
}

/// The hosts found so far, each under its identity.
pub struct Found {
    keys: Vec<String>,
    hosts: Vec<Discovered>,
}

/// Where a key is, if it is there.
pub open spec fn key_at(keys: Seq<Seq<char>>, key: Seq<char>, from: int) -> Option<int>
    decreases keys.len() - from,
{
    if from < 0 || from >= keys.len() {
        None
    } else if keys[from] == key {
        Some(from)
    } else {
        key_at(keys, key, from + 1)
    }
}

impl Found {
    /// The identities of the hosts.
    pub closed spec fn keys(&self) -> Seq<Seq<char>> {
        self.keys@.map_values(|k: String| k@)
    }

    /// The hosts.
    pub closed spec fn hosts(&self) -> Seq<Discovered> {
        self.hosts@
    }

    /// Each host has one identity, and no two have the same.
    pub open spec fn wf(&self) -> bool {
        &&& self.keys().len() == self.hosts().len()
        &&& self.keys().no_duplicates()
    }

    /// Nothing found yet.
    pub fn new() -> (r: Self)
        ensures
            r.wf(),
            r.hosts().len() == 0,
    {
        Found { keys: Vec::new(), hosts: Vec::new() }
    }

    /// Takes in an answer: a host heard of before is replaced, a new one is added, and
    /// an answer without an address is passed over.
    pub fn record(&mut self, answer: Answer)
        requires
            old(self).wf(),
        ensures
            final(self).wf(),
            ({
                let key = answer_identity(answer);
                if answer.addrs@.len() == 0 {
                    &&& final(self).keys() == old(self).keys()
                    &&& final(self).hosts() == old(self).hosts()
                } else {
                    match key_at(old(self).keys(), key, 0) {
                        Some(i) => {
                            &&& final(self).keys() == old(self).keys()
                            &&& final(self).hosts() == old(self).hosts().update(
                                i,
                                final(self).hosts()[i],
                            )
                            &&& describes(answer, final(self).hosts()[i])
                        },
                        None => {
                            &&& final(self).keys() == old(self).keys().push(key)
                            &&& final(self).hosts().len() == old(self).hosts().len() + 1
                            &&& final(self).hosts().drop_last() == old(self).hosts()
                            &&& describes(answer, final(self).hosts().last())
                        },
                    }
                }
            }),
    {
        let ghost given = answer;
        if answer.addrs.len() == 0 {
            return;
        }
        proof {
            crate::sort::sorting_keeps_the_entries(answer.addrs@);
            crate::text::joined_pieces(answer.fullname@, '.');
        }
        let addrs = stable_sort(answer.addrs);
        let labels = split_on(&chars_of(&answer.fullname), '.');
        assert(labels@.len() == views(labels@).len());
        assert(views(labels@)[0] == labels@[0]@);
        let name = string_of(&labels[0]);
        let proto_version: Option<u16> = match &answer.version {
            Some(v) => match parse_u64(&chars_of(v)) {
                Some(n) => if n <= 65535 {
                    Some(n as u16)
                } else {
                    None
                },
                None => None,
            },
            None => None,
        };
        let fingerprint: Option<&str> = match &answer.fingerprint {
            Some(f) => Some(f.as_str()),
            None => None,
        };
        let key = identity(&name, fingerprint, &addrs);
        let host = Discovered {
            name,
            addrs,
            fingerprint: answer.fingerprint,
            proto_version,
            hostname: answer.hostname,
            account: answer.account,
        };
        assert(describes(given, host));
        let mut i: usize = 0;
        #[verifier::loop_isolation(false)]
        while i < self.keys.len()
            invariant
                i <= self.keys.len(),
                *self == *old(self),
                self.wf(),
                key@ == answer_identity(given),
                given.addrs@.len() > 0,
                key_at(self.keys(), key@, 0) == key_at(self.keys(), key@, i as int),
                forall|j: int| 0 <= j < i ==> (#[trigger] self.keys()[j]) != key@,
                describes(given, host),
            decreases self.keys.len() - i,
        {
            assert(self.keys()[i as int] == self.keys@[i as int]@);
            if same(&self.keys[i], &key) {
                self.hosts.set(i, host);
                assert(self.hosts() =~= old(self).hosts().update(i as int, self.hosts()[i as int]));
                return;
            }
            i = i + 1;
        }
        self.keys.push(key);
        self.hosts.push(host);
        assert(self.keys() =~= old(self).keys().push(answer_identity(given)));
        assert(self.hosts().drop_last() =~= old(self).hosts());
        assert(self.keys().no_duplicates());
    }

    /// The hosts found, by name.
    pub fn finish(self) -> (r: Vec<Discovered>)
        ensures
            r@ == in_order(self.hosts()),
    {
        stable_sort(self.hosts)
    }
}

/// Private addresses are tried first, then other IPv4 ones, link-local ones, IPv6, and the
/// loopback last.
pub proof fn likelier_addresses_come_first(a: u8, b: u8, c: u8, d: u8)
    ensures
        ({
            let ip = Ip::V4 { a, b, c, d };
            let (six, loopback) = (Ip::V6 { loopback: false }, Ip::V6 { loopback: true });
            let private = a == 10 || (a == 172 && 16 <= b && b <= 31) || (a == 192 && b == 168);
            let link = a == 169 && b == 254;
            let (first, plain, last) = (
                rank_of(Ip::V4 { a: 10, b, c, d }),
                rank_of(Ip::V4 { a: 8, b, c, d }),
                rank_of(Ip::V4 { a: 169, b: 254, c, d }),
            );
            &&& first < plain < last < rank_of(six) < rank_of(loopback)
            &&& private ==> rank_of(ip) == first
            &&& link ==> rank_of(ip) == last
            &&& !private && !link ==> rank_of(ip) == plain
        }),
{
}

/// Addresses are tried by rank, and within a rank in the order of their texts.
pub proof fn addresses_go_by_rank(addrs: Seq<Address>, i: int, j: int)
    requires
        0 <= i < j < addrs.len(),
    ensures
        in_order(addrs).len() == addrs.len(),
        rank_of(in_order(addrs)[i].ip) <= rank_of(in_order(addrs)[j].ip),
        rank_of(in_order(addrs)[i].ip) == rank_of(in_order(addrs)[j].ip) ==> !precedes(
            in_order(addrs)[j].text@,
            in_order(addrs)[i].text@,
        ),
{
    crate::sort::sorting_keeps_the_entries(addrs);
    let sorted = in_order(addrs);
    assert(!crate::sort::comes_before(sorted[j], sorted[i]));
}

/// A sanitized name is the name with a dash for every dot, and nothing else of it changes.
pub proof fn only_dots_are_replaced(name: Seq<char>, i: int)
    requires
        0 <= i < name.len(),
    ensures
        sanitized(name).len() == name.len(),
        name[i] == '.' ==> sanitized(name)[i] == '-',
        name[i] != '.' ==> sanitized(name)[i] == name[i],
{
}

/// A host heard of before is found under its identity: the key is there exactly if one of the
/// keys is the same.
pub proof fn a_host_is_found_by_its_identity(keys: Seq<Seq<char>>, key: Seq<char>, from: int)
    requires
        0 <= from,
    ensures
        match key_at(keys, key, from) {
            Some(i) => {
                &&& from <= i < keys.len()
                &&& keys[i] == key
                &&& forall|j: int| from <= j < i ==> #[trigger] keys[j] != key
            },
            None => forall|j: int| from <= j < keys.len() ==> #[trigger] keys[j] != key,
        },
    decreases keys.len() - from,
{
    if from < keys.len() && keys[from] != key {
        a_host_is_found_by_its_identity(keys, key, from + 1);
    }
}

proof fn lemma_first_label(name: Seq<char>, rest: Seq<char>)
    requires
        !name.contains('.'),
    ensures
        pieces(name.push('.') + rest, '.').len() >= 2,
        pieces(name.push('.') + rest, '.')[0] == name,
    decreases rest.len(),
{
    let all = name.push('.') + rest;
    if rest.len() == 0 {
        crate::text::pieces_of_plain(Seq::empty(), name, '.');
        assert(Seq::empty() + name =~= name);
        assert(pieces(Seq::<char>::empty(), '.') =~= seq![Seq::<char>::empty()]);
        assert(pieces(name, '.') =~= seq![name]);
        assert(all =~= name.push('.'));
        assert(all.drop_last() =~= name);
    } else {
        lemma_first_label(name, rest.drop_last());
        assert(all.drop_last() =~= name.push('.') + rest.drop_last());
    }
}

/// A host is what its answer says: its name is the first label of the record, its addresses
/// come in the order in which they are tried, its version is the number that was given, and the
/// rest is carried over.
pub proof fn a_host_is_what_its_answer_says(
    answer: Answer,
    d: Discovered,
    name: Seq<char>,
    rest: Seq<char>,
    v: u16,
)
    requires
        describes(answer, d),
        answer.fullname@ == name.push('.') + rest,
        !name.contains('.'),
    ensures
        d.name@ == name,
        d.addrs@.len() == answer.addrs@.len(),
        d.addrs@.to_multiset() == answer.addrs@.to_multiset(),
        d.fingerprint == answer.fingerprint,
        d.hostname == answer.hostname,
        d.account == answer.account,
        answer.version is None ==> d.proto_version is None,
        (answer.version matches Some(t) && t@ == crate::text::decimal(v as nat))
            ==> d.proto_version == Some(v),
{
    lemma_first_label(name, rest);
    crate::sort::sorting_keeps_the_entries(answer.addrs@);
    crate::text::decimal_reads_back(v as nat);
}

} // verus!
