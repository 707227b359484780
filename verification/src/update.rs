//! Finding out whether a newer viewer exists.
//!
//! The check never installs anything: it says that a newer version is available and
//! hands over the download.
use vstd::prelude::*;

use crate::text::{
    all_digits, chars_of, decimal, decimal_reads_back, is_digit, number_of, parse_u64, pieces,
    pieces_of_plain, separators_add_pieces, split_on, string_of, subrange, trim, trimmed,
    trimming_stops_at, trimming_takes_only_white_space, views, white,
};

verus! {

/// The version of this library.
pub const CURRENT: &'static str = "1.0.8";

/// Where the manifest lives by default.
pub const DEFAULT_MANIFEST: &'static str = "https://github.com/phuwanat-vg/telekin/releases/latest/download/latest.json";

/// Where a person goes if nothing matches their platform.
pub const RELEASE_PAGE: &'static str = "https://github.com/phuwanat-vg/telekin/releases/latest";

/// What the manifest holds.
#[derive(Debug)]
pub struct Manifest {
    pub version: String,
    /// Release notes or a one-line summary.
    pub notes: String,
    /// Download addresses per platform.
    pub downloads: Downloads,
    /// Where a person should go if nothing matches their platform.
    pub page: Option<String>,
}

#[derive(Debug)]
pub struct Downloads {
    pub windows: Option<String>,
    pub linux_x86_64: Option<String>,
    pub linux_aarch64: Option<String>,
    pub macos: Option<String>,
}

impl Default for Downloads {
    /// No download for any platform.
    fn default() -> (r: Self)
        ensures
            r == (Downloads { windows: None, linux_x86_64: None, linux_aarch64: None, macos: None }),
    {
        Downloads { windows: None, linux_x86_64: None, linux_aarch64: None, macos: None }
    }
}

/// What a viewer was built for.
#[derive(Debug, Clone, Copy, PartialEq, Eq, Structural)]
pub enum Platform {
    Windows,
    MacOs,
    LinuxAarch64,
    LinuxX86,
}

/// The outcome of a check.
#[derive(Debug)]
pub enum Outcome {
    Checking,
    UpToDate,
    Available {
        version: String,
        notes: String,
        /// The download for this platform, or the release page.
        url: String,
    },
    /// The check could not be made, which is the normal case on a network without a
    /// way out.
    Unavailable(String),
}

/// `s` without the `v`s at its start.
pub open spec fn without_v(s: Seq<char>) -> Seq<char>
    decreases s.len(),
{
    if s.len() > 0 && s[0] == 'v' {
        without_v(s.drop_first())
    } else {
        s
    }
}

/// The number of a part, where it fits in 64 bits.
pub open spec fn part_value(s: Seq<char>) -> Option<u64> {
    match number_of(s) {
        Some(n) => if n <= u64::MAX {
            Some(n as u64)
        } else {
            None
        },
        None => None,
    }
}

/// The version that a text stands for: three numbers with dots between them, after
/// any `v`. Anything else is none, a pre-release suffix among it.
pub open spec fn version_of(text: Seq<char>) -> Option<(u64, u64, u64)> {
    version_of_parts(pieces(without_v(trimmed(text)), '.'))
}

/// The version that three numbers stand for.
pub open spec fn version_of_parts(parts: Seq<Seq<char>>) -> Option<(u64, u64, u64)> {
    if parts.len() != 3 {
        None
    } else {
        match (part_value(parts[0]), part_value(parts[1]), part_value(parts[2])) {
            (Some(a), Some(b), Some(c)) => Some((a, b, c)),
            _ => None,
        }
    }
}

/// `1.2.3` becomes `(1, 2, 3)`. A leading `v` is tolerated because tags have one.
pub fn parse(v: &str) -> (r: Option<(u64, u64, u64)>)
    ensures
        r == version_of(v@),
{
    let t = trim(&chars_of(v));
    let mut from: usize = 0;
    assert(t@.skip(0) =~= t@);
    while from < t.len() && t[from] == 'v'
        invariant
            from <= t.len(),
            without_v(t@) == without_v(t@.skip(from as int)),
        decreases t.len() - from,
    {
        assert(t@.skip(from as int).drop_first() =~= t@.skip(from + 1));
        from = from + 1;
    }
    let rest = subrange(&t, from, t.len());
    assert(rest@ =~= t@.skip(from as int));
    let parts = split_on(&rest, '.');
    let ghost all = views(parts@);
    assert(all.len() == parts@.len());
    if parts.len() != 3 {
        return None;
    }
    assert(all[0] == parts@[0]@ && all[1] == parts@[1]@ && all[2] == parts@[2]@);
    match (parse_u64(&parts[0]), parse_u64(&parts[1]), parse_u64(&parts[2])) {
        (Some(a), Some(b), Some(c)) => Some((a, b, c)),
        _ => None,
    }
}

/// Whether one version comes after another, compared number by number.
pub open spec fn newer(there: (u64, u64, u64), here: (u64, u64, u64)) -> bool {
    there.0 > here.0 || (there.0 == here.0 && (there.1 > here.1 || (there.1 == here.1 && there.2
        > here.2)))
}

/// Versions are in a total order: of two different ones exactly one is newer than the other,
/// and nothing is newer than itself; and what is newer than something newer is newer.
pub proof fn versions_are_in_a_total_order(
    a: (u64, u64, u64),
    b: (u64, u64, u64),
    c: (u64, u64, u64),
)
    ensures
        a != b ==> (newer(a, b) <==> !newer(b, a)),
        !newer(a, a),
        newer(a, b) && newer(b, c) ==> newer(a, c),
{
}

/// The first number counts most: a higher one is newer whatever follows, and so is a higher
/// second one where the first are equal, and a higher third one where both are.
pub proof fn the_first_number_counts_most(there: (u64, u64, u64), here: (u64, u64, u64))
    ensures
        there.0 > here.0 ==> newer(there, here),
        there.0 == here.0 && there.1 > here.1 ==> newer(there, here),
        there.0 == here.0 && there.1 == here.1 && there.2 > here.2 ==> newer(there, here),
        newer(there, here) ==> there.0 >= here.0,
        newer(there, here) && there.0 == here.0 ==> there.1 >= here.1,
{
}

/// A version as it is written: three numbers in decimal with dots between them.
pub open spec fn version_text(a: u64, b: u64, c: u64) -> Seq<char> {
    decimal(a as nat).push('.') + decimal(b as nat).push('.') + decimal(c as nat)
}

proof fn lemma_version_pieces(a: u64, b: u64, c: u64)
    ensures
        ({
            let (x, y, z) = (decimal(a as nat), decimal(b as nat), decimal(c as nat));
            let text = version_text(a, b, c);
            &&& pieces(text, '.') == seq![x, y, z]
            &&& all_digits(z)
            &&& is_digit(text[0])
            &&& is_digit(text.last())
            &&& text.len() > 0
            &&& version_of_parts(seq![x, y, z]) == Some((a, b, c))
        }),
{
    let (x, y, z) = (decimal(a as nat), decimal(b as nat), decimal(c as nat));
    let text = version_text(a, b, c);
    decimal_reads_back(a as nat);
    decimal_reads_back(b as nat);
    decimal_reads_back(c as nat);
    lemma_digits_plain(x);
    lemma_digits_plain(y);
    lemma_digits_plain(z);
    assert(text[0] == x[0] && is_digit(x[0]));
    assert(text.last() == z.last() && is_digit(z[z.len() - 1]));
    let empty = Seq::<char>::empty();
    pieces_of_plain(empty, x, '.');
    assert(empty + x =~= x);
    assert(pieces(empty, '.') == seq![empty]);
    assert(pieces(x, '.') =~= seq![x]);
    assert(x.push('.').drop_last() =~= x);
    assert(pieces(x.push('.'), '.') =~= seq![x, empty]);
    pieces_of_plain(x.push('.'), y, '.');
    assert(pieces(x.push('.') + y, '.') =~= seq![x, y]);
    let xy = (x.push('.') + y).push('.');
    assert(xy.drop_last() =~= x.push('.') + y);
    assert(pieces(xy, '.') =~= seq![x, y, empty]);
    pieces_of_plain(xy, z, '.');
    assert(text =~= xy + z);
    assert(pieces(text, '.') =~= seq![x, y, z]);
}

/// A version compares by its numbers, not its spelling: written in decimal it is read
/// back as the numbers it was written from, behind any number of `v`s and between white
/// space too.
pub proof fn a_version_reads_back(
    a: u64,
    b: u64,
    c: u64,
    before: Seq<char>,
    tag: Seq<char>,
    after: Seq<char>,
)
    requires
        forall|i: int| 0 <= i < before.len() ==> white(#[trigger] before[i]),
        forall|i: int| 0 <= i < tag.len() ==> #[trigger] tag[i] == 'v',
        forall|i: int| 0 <= i < after.len() ==> white(#[trigger] after[i]),
    ensures
        version_of(version_text(a, b, c)) == Some((a, b, c)),
        version_of(before + (tag + version_text(a, b, c)) + after) == Some((a, b, c)),
{
    lemma_version_pieces(a, b, c);
    let text = version_text(a, b, c);
    let none = Seq::<char>::empty();
    trimming_takes_only_white_space(none, text, none);
    assert(none + text + none =~= text);
    assert(without_v(text) == text);
    let tagged = tag + text;
    assert(tagged.last() == text.last());
    if tag.len() > 0 {
        assert(tagged[0] == tag[0]);
    } else {
        assert(tagged[0] == text[0]);
    }
    trimming_takes_only_white_space(before, tagged, after);
    lemma_without_v(tag, text);
}

proof fn lemma_without_v(tag: Seq<char>, text: Seq<char>)
    requires
        forall|i: int| 0 <= i < tag.len() ==> #[trigger] tag[i] == 'v',
        text.len() > 0,
        text[0] != 'v',
    ensures
        without_v(tag + text) == text,
    decreases tag.len(),
{
    if tag.len() > 0 {
        let rest = tag.drop_first();
        assert forall|i: int| 0 <= i < rest.len() implies #[trigger] rest[i] == 'v' by {
            assert(rest[i] == tag[i + 1]);
        }
        assert((tag + text)[0] == tag[0]);
        assert((tag + text).drop_first() =~= rest + text);
        lemma_without_v(rest, text);
    } else {
        assert(tag + text =~= text);
    }
}

/// A version with anything after it that starts with a dot or a dash is none: a fourth part
/// and a pre-release are refused, not guessed at.
pub proof fn a_suffix_is_refused(a: u64, b: u64, c: u64, suffix: Seq<char>)
    requires
        suffix.len() > 0,
        suffix[0] == '.' || suffix[0] == '-',
    ensures
        version_of(version_text(a, b, c) + suffix) is None,
{
    lemma_version_pieces(a, b, c);
    let (x, y, z) = (decimal(a as nat), decimal(b as nat), decimal(c as nat));
    let text = version_text(a, b, c);
    let whole = text + suffix;
    let n = text.len() as int;
    assert(whole[0] == text[0] && whole[n] == suffix[0]);
    trimming_stops_at(whole, n);
    let kept = trimmed(whole);
    let rest = suffix.take(kept.len() - n);
    assert(kept =~= text + rest);
    assert(rest[0] == suffix[0]);
    assert(kept[0] == text[0]);
    assert(without_v(kept) == kept);
    separators_add_pieces(text, rest, '.');
    if rest.contains('.') {
        assert(pieces(kept, '.').len() > 3);
    } else {
        if suffix[0] == '.' {
            assert(rest.contains(rest[0]));
        }
        pieces_of_plain(text, rest, '.');
        let last = z + rest;
        assert(pieces(kept, '.')[2] == last);
        assert(last[0] == z[0] && is_digit(z[0]));
        assert(last[z.len() as int] == '-');
        assert(!all_digits(last));
    }
}

proof fn lemma_digits_plain(s: Seq<char>)
    requires
        all_digits(s),
    ensures
        !s.contains('.'),
{
    if s.contains('.') {
        let k = choose|k: int| 0 <= k < s.len() && s[k] == '.';
        assert(is_digit(s[k]));
    }
}

/// The download for a platform: its own, or the page of the release, or the page of
/// all releases.
pub open spec fn download_of(m: Manifest, platform: Platform) -> Option<String> {
    match platform {
        Platform::Windows => m.downloads.windows,
        Platform::MacOs => m.downloads.macos,
        Platform::LinuxAarch64 => m.downloads.linux_aarch64,
        Platform::LinuxX86 => m.downloads.linux_x86_64,
    }
}

/// Where to send a person on this platform.
pub open spec fn address_for(m: Manifest, platform: Platform) -> Seq<char> {
    match download_of(m, platform) {
        Some(u) => u@,
        None => match m.page {
            Some(p) => p@,
            None => RELEASE_PAGE@,
        },
    }
}

/// The download for the platform this viewer was built for, or where to look for one.
pub fn download_for_this_platform(m: &Manifest, platform: Platform) -> (r: String)
    ensures
        r@ == address_for(*m, platform),
        platform == Platform::Windows ==> (m.downloads.windows matches Some(u) ==> r@ == u@),
        platform == Platform::MacOs ==> (m.downloads.macos matches Some(u) ==> r@ == u@),
        platform == Platform::LinuxAarch64 ==> (m.downloads.linux_aarch64 matches Some(u) ==> r@
            == u@),
        platform == Platform::LinuxX86 ==> (m.downloads.linux_x86_64 matches Some(u) ==> r@ == u@),
        m.downloads.windows is None && m.downloads.macos is None && m.downloads.linux_aarch64 is None
            && m.downloads.linux_x86_64 is None ==> (m.page matches Some(p) ==> r@ == p@),
{
    let specific: &Option<String> = match platform {
        Platform::Windows => &m.downloads.windows,
        Platform::MacOs => &m.downloads.macos,
        Platform::LinuxAarch64 => &m.downloads.linux_aarch64,
        Platform::LinuxX86 => &m.downloads.linux_x86_64,
    };
    match specific {
        Some(u) => u.clone(),
        None => match &m.page {
            Some(p) => p.clone(),
            None => RELEASE_PAGE.to_owned(),
        },
    }
}

/// What is said where two versions cannot be compared.
pub open spec fn not_comparable(current: Seq<char>, offered: Seq<char>) -> Seq<char> {
    "could not compare versions ("@ + current + " vs "@ + offered.push(')')
}

/// Compare what is running with what the manifest offers.
pub fn decide(current: &str, manifest: &Manifest, platform: Platform) -> (r: Outcome)
    ensures
        match (version_of(current@), version_of(manifest.version@)) {
            (Some(here), Some(there)) => if newer(there, here) {
                r matches Outcome::Available { version, notes, url } && version@
                    == manifest.version@ && notes@ == manifest.notes@ && url@ == address_for(
                    *manifest,
                    platform,
                )
            } else {
                r is UpToDate
            },
            _ => r matches Outcome::Unavailable(e) && e@ == not_comparable(
                current@,
                manifest.version@,
            ),
        },
        // The first number that differs decides.
        match (version_of(current@), version_of(manifest.version@)) {
            (Some(here), Some(there)) => {
                &&& r is Available || r is UpToDate
                &&& there.0 > here.0 ==> r is Available
                &&& there.0 < here.0 ==> r is UpToDate
                &&& there.0 == here.0 && there.1 > here.1 ==> r is Available
                &&& there.0 == here.0 && there.1 < here.1 ==> r is UpToDate
                &&& there.0 == here.0 && there.1 == here.1 ==> (r is Available <==> there.2 > here.2)
            },
            _ => r is Unavailable,
        },
        r matches Outcome::Available { version, notes, url } ==> version@ == manifest.version@
            && notes@ == manifest.notes@,
{
    match (parse(current), parse(&manifest.version)) {
        (Some(here), Some(there)) => {
            if there.0 > here.0 || (there.0 == here.0 && (there.1 > here.1 || (there.1 == here.1
                && there.2 > here.2))) {
                Outcome::Available {
                    version: manifest.version.clone(),
                    notes: manifest.notes.clone(),
                    url: download_for_this_platform(manifest, platform),
                }
            } else {
                Outcome::UpToDate
            }
        },
        _ => {
            let mut out = "could not compare versions (".to_owned();
            out.push_str(current);
            out.push_str(" vs ");
            out.push_str(&manifest.version);
            out.push(')');
            assert(out@ =~= not_comparable(current@, manifest.version@));
            Outcome::Unavailable(out)
        },
    }
}

/// The first line of an error, which is the part a person can act on.
pub fn short(e: &str) -> (r: String)
    ensures
        r@ == trimmed(pieces(e@, '\n')[0]),
{
    proof {
        crate::text::joined_pieces(e@, '\n');
    }
    let lines = split_on(&chars_of(e), '\n');
    assert(views(lines@).len() == lines@.len());
    assert(views(lines@)[0] == lines@[0]@);
    string_of(&trim(&lines[0]))
}

/// Where the manifest is fetched from: what was asked for, else what is set, else the
/// default.
pub fn manifest_url(asked: Option<String>, setting: Option<String>) -> (r: String)
    ensures
        match (asked, setting) {
            (Some(u), _) => r == u,
            (None, Some(u)) => r == u,
            (None, None) => r@ == DEFAULT_MANIFEST@,
        },
{
    match asked {
        Some(u) => u,
        None => match setting {
            Some(u) => u,
            None => DEFAULT_MANIFEST.to_owned(),
        },
    }
}

} // verus!
