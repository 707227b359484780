//! Who a host is: the fingerprint of its certificate, and where it keeps its
//! identity.
//!
//! Identity is based on pinning a key, not on an authority: the viewer either pins
//! the expected fingerprint or accepts on first use.
use sha2::Digest;
use vstd::prelude::*;
use vstd::utf8::encode_utf8;

use crate::robot_files::{join, path_join};
use crate::text::chars_of;
use crate::ui::{ascii_small, same_letters};

verus! {

/// The SHA-256 digest of some bytes.
pub uninterp spec fn sha256(data: Seq<u8>) -> Seq<u8>;

/// `Sha256::digest`: 32 bytes, a function of the data alone.
#[verifier::external_body]
fn digest(data: &[u8]) -> (r: Vec<u8>)
    ensures
        r@ == sha256(data@),
        r@.len() == 32,
{
    sha2::Sha256::digest(data).to_vec()
}

/// The character of a hexadecimal digit.
pub open spec fn hex_char(d: int) -> char {
    if d < 10 {
        (0x30 + d) as char
    } else {
        (0x57 + d) as char
    }
}

/// Bytes in hexadecimal, two digits each, with colons between them.
pub open spec fn hex_text(bytes: Seq<u8>) -> Seq<char>
    decreases bytes.len(),
{
    if bytes.len() == 0 {
        Seq::empty()
    } else {
        let b = bytes.last() as int;
        let pair = seq![hex_char(b / 16), hex_char(b % 16)];
        if bytes.len() == 1 {
            pair
        } else {
            hex_text(bytes.drop_last()).push(':') + pair
        }
    }
}

fn hex_digit(d: u8) -> (r: char)
    requires
        d < 16,
    ensures
        r == hex_char(d as int),
{
    if d < 10 {
        (0x30u8 + d) as char
    } else {
        (0x57u8 + d) as char
    }
}

/// Bytes in hexadecimal, like `ab:cd:...`.
pub fn hex(bytes: &Vec<u8>) -> (r: String)
    ensures
        r@ == hex_text(bytes@),
{
    let mut out = String::new();
    let mut i: usize = 0;
    assert(bytes@.take(0) =~= Seq::<u8>::empty());
    assert(out@ =~= hex_text(bytes@.take(0)));
    while i < bytes.len()
        invariant
            i <= bytes.len(),
            out@ == hex_text(bytes@.take(i as int)),
        decreases bytes.len() - i,
    {
        let ghost before = out@;
        assert(bytes@.take(i + 1).drop_last() =~= bytes@.take(i as int));
        if i > 0 {
            out.push(':');
        }
        out.push(hex_digit(bytes[i] / 16));
        out.push(hex_digit(bytes[i] % 16));
        assert(out@ =~= hex_text(bytes@.take(i + 1)));
        i = i + 1;
    }
    assert(bytes@.take(i as int) =~= bytes@);
    out
}

/// Hex fingerprint like `ab:cd:...` of a DER certificate.
pub fn fingerprint(cert_der: &[u8]) -> (r: String)
    ensures
        r@ == hex_text(sha256(cert_der@)),
        sha256(cert_der@).len() == 32,
{
    hex(&digest(cert_der))
}

/// Why a fingerprint could not be read.
#[derive(Debug, Clone, Copy, PartialEq, Eq, Structural)]
pub enum FingerprintError {
    /// There are not 32 pairs of digits.
    WrongLength,
    /// A pair is no hexadecimal number.
    NotHex,
}

impl FingerprintError {
    /// What is said of it.
    pub fn message(&self) -> (r: &'static str)
        ensures
            r@ == match self {
                FingerprintError::WrongLength => "fingerprint must be 32 hex bytes"@,
                FingerprintError::NotHex => "invalid hex in fingerprint"@,
            },
    {
        match self {
            FingerprintError::WrongLength => "fingerprint must be 32 hex bytes",
            FingerprintError::NotHex => "invalid hex in fingerprint",
        }
    }
}

/// `s` without its colons.
pub open spec fn without_colons(s: Seq<char>) -> Seq<char>
    decreases s.len(),
{
    if s.len() == 0 {
        s
    } else if s.last() == ':' {
        without_colons(s.drop_last())
    } else {
        without_colons(s.drop_last()).push(s.last())
    }
}

/// The value of a hexadecimal digit, upper or lower case.
pub open spec fn digit_value(b: u8) -> Option<int> {
    if 0x30 <= b <= 0x39 {
        Some(b - 0x30)
    } else if 0x41 <= b <= 0x46 {
        Some(b - 0x37)
    } else if 0x61 <= b <= 0x66 {
        Some(b - 0x57)
    } else {
        None
    }
}

/// The number that two hexadecimal digits stand for.
pub open spec fn pair_value(a: u8, b: u8) -> Option<int> {
    match (digit_value(a), digit_value(b)) {
        (Some(x), Some(y)) => Some(x * 16 + y),
        _ => None,
    }
}

/// Whether the bytes are the numbers that pairs of characters stand for.
pub open spec fn reads_as(chars: Seq<u8>, bytes: Seq<u8>) -> bool {
    forall|i: int|
        0 <= i < bytes.len() ==> pair_value(chars[2 * i], chars[2 * i + 1]) == Some(
            (#[trigger] bytes[i]) as int,
        )
}

fn digit_of(b: u8) -> (r: Option<u8>)
    ensures
        match r {
            Some(d) => digit_value(b) == Some(d as int) && d < 16,
            None => digit_value(b) is None,
        },
{
    if 0x30 <= b && b <= 0x39 {
        Some(b - 0x30)
    } else if 0x41 <= b && b <= 0x46 {
        Some(b - 0x37)
    } else if 0x61 <= b && b <= 0x66 {
        Some(b - 0x57)
    } else {
        None
    }
}

fn pair_of(a: u8, b: u8) -> (r: Option<u8>)
    ensures
        match r {
            Some(v) => pair_value(a, b) == Some(v as int),
            None => pair_value(a, b) is None,
        },
{
    match (digit_of(a), digit_of(b)) {
        (Some(x), Some(y)) => Some(x * 16 + y),
        _ => None,
    }
}

/// Parse a fingerprint in the format of [`fingerprint`]; colons and case are
/// ignored.
pub fn parse_fingerprint(s: &str) -> (r: Result<[u8; 32], FingerprintError>)
    ensures
        ({
            let text = encode_utf8(without_colons(s@));
            match r {
                Ok(bytes) => text.len() == 64 && reads_as(text, bytes@),
                Err(FingerprintError::WrongLength) => text.len() != 64,
                Err(FingerprintError::NotHex) => text.len() == 64 && exists|i: int|
                    0 <= i < 32 && (#[trigger] pair_value(text[2 * i], text[2 * i + 1])) is None,
            }
        }),
{
    let chars = chars_of(s);
    let mut kept = String::new();
    let mut i: usize = 0;
    assert(chars@.take(0) =~= Seq::<char>::empty());
    while i < chars.len()
        invariant
            i <= chars.len(),
            kept@ == without_colons(chars@.take(i as int)),
        decreases chars.len() - i,
    {
        assert(chars@.take(i + 1).drop_last() =~= chars@.take(i as int));
        if chars[i] != ':' {
            kept.push(chars[i]);
        }
        i = i + 1;
    }
    assert(chars@.take(i as int) =~= chars@);
    let bytes = kept.as_str().as_bytes();
    if bytes.len() != 64 {
        return Err(FingerprintError::WrongLength);
    }
    let mut out: [u8; 32] = [0u8;32];
    let mut k: usize = 0;
    while k < 32
        invariant
            k <= 32,
            bytes@.len() == 64,
            bytes@ == encode_utf8(without_colons(s@)),
            forall|j: int|
                0 <= j < k ==> pair_value(bytes@[2 * j], bytes@[2 * j + 1]) == Some(
                    (#[trigger] out@[j]) as int,
                ),
        decreases 32 - k,
    {
        match pair_of(bytes[2 * k], bytes[2 * k + 1]) {
            Some(v) => {
                out[k] = v;
            },
            None => {
                assert(pair_value(bytes@[2 * (k as int)], bytes@[2 * (k as int) + 1]) is None);
                return Err(FingerprintError::NotHex);
            },
        }
        k = k + 1;
    }
    Ok(out)
}

/// Accepts a certificate unless another fingerprint is pinned. What is said
/// otherwise names the fingerprint that came.
pub fn check_pin(expected: Option<[u8; 32]>, cert_der: &[u8]) -> (r: Result<(), String>)
    ensures
        r is Ok <==> (expected matches Some(e) ==> e@ == sha256(cert_der@)),
        r matches Err(e) ==> e@ == "host certificate fingerprint mismatch (got "@ + hex_text(
            sha256(cert_der@),
        ).push(')'),
{
    if let Some(e) = expected {
        let actual = digest(cert_der);
        let mut i: usize = 0;
        while i < 32
            invariant
                i <= 32,
                actual@.len() == 32,
                actual@ == sha256(cert_der@),
                expected == Some(e),
                forall|j: int| 0 <= j < i ==> actual@[j] == e@[j],
            decreases 32 - i,
        {
            if actual[i] != e[i] {
                assert(actual@[i as int] != e@[i as int]);
                let mut out = "host certificate fingerprint mismatch (got ".to_owned();
                out.push_str(&fingerprint(cert_der));
                out.push(')');
                assert(out@ =~= "host certificate fingerprint mismatch (got "@ + hex_text(
                    sha256(cert_der@),
                ).push(')'));
                return Err(out);
            }
            i = i + 1;
        }
        assert(e@ =~= actual@);
    }
    Ok(())
}

proof fn lemma_hex_pairs(bytes: Seq<u8>)
    ensures
        without_colons(hex_text(bytes)).len() == 2 * bytes.len(),
        forall|i: int|
            0 <= i < bytes.len() ==> without_colons(hex_text(bytes))[2 * i] == hex_char(
                (#[trigger] bytes[i]) as int / 16,
            ) && without_colons(hex_text(bytes))[2 * i + 1] == hex_char(bytes[i] as int % 16),
    decreases bytes.len(),
{
    let text = hex_text(bytes);
    if bytes.len() > 0 {
        let rest = bytes.drop_last();
        lemma_hex_pairs(rest);
        let b = bytes.last() as int;
        let pair = seq![hex_char(b / 16), hex_char(b % 16)];
        let head = if bytes.len() == 1 {
            Seq::<char>::empty()
        } else {
            hex_text(rest).push(':')
        };
        assert(text =~= head.push(pair[0]).push(pair[1]));
        assert(text.drop_last() =~= head.push(pair[0]));
        assert(text.drop_last().drop_last() =~= head);
        assert(pair[0] != ':' && pair[1] != ':');
        if bytes.len() > 1 {
            assert(head.drop_last() =~= hex_text(rest));
        }
        assert(without_colons(head) == without_colons(hex_text(rest)));
        let a = head.push(pair[0]);
        assert(a.drop_last() =~= head);
        assert(without_colons(a) == without_colons(head).push(pair[0]));
        assert(text.drop_last() == a && text.last() == pair[1]);
        assert(without_colons(text) == without_colons(a).push(pair[1]));
        assert(without_colons(text) =~= without_colons(hex_text(rest)) + pair);
        let w = without_colons(hex_text(rest));
        assert forall|i: int| 0 <= i < bytes.len() implies without_colons(text)[2 * i] == hex_char(
            (#[trigger] bytes[i]) as int / 16,
        ) && without_colons(text)[2 * i + 1] == hex_char(bytes[i] as int % 16) by {
            if i < rest.len() {
                assert(bytes[i] == rest[i]);
                assert(without_colons(text)[2 * i] == w[2 * i]);
                assert(without_colons(text)[2 * i + 1] == w[2 * i + 1]);
            }
        }
    } else {
        assert(text =~= Seq::<char>::empty());
    }
}

/// A fingerprint that a host prints is read back as the digest it stands for, so
/// pinning it accepts that host.
pub proof fn a_printed_fingerprint_reads_back(digest: Seq<u8>)
    requires
        digest.len() == 32,
    ensures
        encode_utf8(without_colons(hex_text(digest))).len() == 64,
        reads_as(encode_utf8(without_colons(hex_text(digest))), digest),
{
    colons_and_case_do_not_matter(digest, hex_text(digest));
}

/// However the letters of a printed fingerprint are written, and whether its colons are
/// there or not, it is read back as the digest it stands for.
pub proof fn colons_and_case_do_not_matter(digest: Seq<u8>, typed: Seq<char>)
    requires
        digest.len() == 32,
        same_letters(without_colons(typed), without_colons(hex_text(digest))),
    ensures
        encode_utf8(without_colons(typed)).len() == 64,
        reads_as(encode_utf8(without_colons(typed)), digest),
{
    lemma_hex_pairs(digest);
    let text = without_colons(typed);
    let printed = without_colons(hex_text(digest));
    assert forall|k: int| 0 <= k < text.len() implies '\0' <= #[trigger] text[k] <= '\u{7f}'
        && digit_value(text[k] as u8) == Some(
        if k % 2 == 0 {
            digest[k / 2] as int / 16
        } else {
            digest[k / 2] as int % 16
        },
    ) by {
        let i = k / 2;
        let d = digest[i] as int;
        assert(printed[2 * i] == hex_char(d / 16) && printed[2 * i + 1] == hex_char(d % 16));
        assert(k == 2 * i || k == 2 * i + 1);
        assert(ascii_small(text[k]) == ascii_small(printed[k]));
    }
    assert(vstd::utf8::is_ascii_chars(text));
    vstd::utf8::is_ascii_chars_encode_utf8(text);
    let bytes = encode_utf8(text);
    assert forall|i: int| 0 <= i < digest.len() implies pair_value(
        bytes[2 * i],
        bytes[2 * i + 1],
    ) == Some((#[trigger] digest[i]) as int) by {
        assert(bytes[2 * i] == text[2 * i] as u8);
        assert(bytes[2 * i + 1] == text[2 * i + 1] as u8);
    }
}

/// One digest at most is read from a text.
pub proof fn a_fingerprint_reads_one_way(text: Seq<u8>, a: Seq<u8>, b: Seq<u8>)
    requires
        a.len() == b.len(),
        reads_as(text, a),
        reads_as(text, b),
    ensures
        a == b,
{
    assert forall|i: int| 0 <= i < a.len() implies a[i] == b[i] by {
        assert(pair_value(text[2 * i], text[2 * i + 1]) == Some(a[i] as int));
        assert(pair_value(text[2 * i], text[2 * i + 1]) == Some(b[i] as int));
    }
    assert(a =~= b);
}

/// The directory under which settings are kept.
pub open spec fn config_dir(
    xdg: Option<String>,
    home: Option<String>,
    appdata: Option<String>,
) -> Seq<char> {
    match (xdg, home, appdata) {
        (Some(x), _, _) => x@,
        (None, Some(h), _) => path_join(h@, ".config"@),
        (None, None, Some(a)) => a@,
        (None, None, None) => "."@,
    }
}

/// The directory under which settings are kept, from the settings that can name it.
pub fn config_base(xdg: Option<String>, home: Option<String>, appdata: Option<String>) -> (r: String)
    ensures
        r@ == config_dir(xdg, home, appdata),
        xdg matches Some(x) ==> r@ == x@,
        xdg is None ==> (home matches Some(h) ==> r@ == path_join(h@, ".config"@)),
        xdg is None && home is None ==> (appdata matches Some(a) ==> r@ == a@),
        xdg is None && home is None && appdata is None ==> r@ == "."@,
{
    match xdg {
        Some(x) => x,
        None => match home {
            Some(h) => join(&h, ".config"),
            None => match appdata {
                Some(a) => a,
                None => ".".to_owned(),
            },
        },
    }
}

/// Where a host keeps its identity, and where it was kept under an earlier name.
pub fn identity_dirs(base: &str) -> (r: (String, String))
    ensures
        r.0@ == path_join(base@, "telekin"@),
        r.1@ == path_join(base@, "wasp-remote"@),
{
    (join(base, "telekin"), join(base, "wasp-remote"))
}

/// The certificate of a host and its key, both in DER.
pub struct Identity {
    pub cert: Vec<u8>,
    pub key: Vec<u8>,
}

/// `rcgen::generate_simple_self_signed`: a new certificate for a name, with its key, or what
/// the generator says of its failure. Both are drawn at random, so nothing is claimed of
/// them.
#[verifier::external_body]
fn make_identity(name: &str) -> (r: Result<Identity, String>) {
    match rcgen::generate_simple_self_signed(vec![name.to_owned()]) {
        Ok(made) => Ok(
            Identity { cert: made.cert.der().to_vec(), key: made.key_pair.serialize_der() },
        ),
        Err(e) => Err(e.to_string()),
    }
}

/// What a host goes by, and whether it is new and has to be kept.
pub struct Chosen {
    pub identity: Identity,
    pub fresh: bool,
}

/// What comes of a new identity, if one was made.
pub fn newly_made(made: Result<Identity, String>) -> (r: Result<Chosen, String>)
    ensures
        r == match made {
            Ok(identity) => Ok(Chosen { identity, fresh: true }),
            Err(reason) => Err(reason),
        },
{
    match made {
        Ok(identity) => Ok(Chosen { identity, fresh: true }),
        Err(reason) => Err(reason),
    }
}

/// What a host goes by, from what it kept: that and no other where there is something, so that
/// its fingerprint survives, and a new identity where there is nothing. [`newly_made`] says
/// what comes of that.
pub fn identity_for(found: Option<Identity>) -> (r: Result<Chosen, String>)
    ensures
        found matches Some(identity) ==> r == Ok::<Chosen, String>(
            Chosen { identity, fresh: false },
        ),
        found is None ==> (r matches Ok(c) ==> c.fresh),
{
    match found {
        Some(identity) => Ok(Chosen { identity, fresh: false }),
        None => newly_made(make_identity("chassis")),
    }
}

/// What is said when a host cannot listen, from what the system says of it: an address that
/// is taken is explained, because the system's words alone leave the reader to guess.
pub fn cannot_listen(said: &str, in_use: bool) -> (r: String)
    ensures
        r@ == if in_use {
            said@ + " (another chassis is running)"@
        } else {
            said@
        },
{
    let mut out = said.to_owned();
    if in_use {
        out.push_str(" (another chassis is running)");
    }
    out
}

/// Whether the old identity is carried over: only when there is nothing at the new
/// place to overwrite.
pub fn carry_identity_over(dir_exists: bool, old_is_dir: bool) -> (r: bool)
    ensures
        r == (!dir_exists && old_is_dir),
{
    !dir_exists && old_is_dir
}

/// A printed fingerprint has two digits for each byte, the high half first, in small letters,
/// and a colon between two bytes.
pub proof fn a_fingerprint_is_written_in_pairs(bytes: Seq<u8>, i: int)
    requires
        0 <= i < bytes.len(),
    ensures
        hex_text(bytes).len() == 3 * bytes.len() - 1,
        hex_text(bytes)[3 * i] == "0123456789abcdef"@[bytes[i] as int / 16],
        hex_text(bytes)[3 * i + 1] == "0123456789abcdef"@[bytes[i] as int % 16],
        i + 1 < bytes.len() ==> hex_text(bytes)[3 * i + 2] == ':',
    decreases bytes.len(),
{
    lemma_hex_digits(bytes[i] as int / 16);
    lemma_hex_digits(bytes[i] as int % 16);
    if bytes.len() > 1 {
        let front = bytes.drop_last();
        if i < front.len() {
            a_fingerprint_is_written_in_pairs(front, i);
        } else {
            a_fingerprint_is_written_in_pairs(front, 0);
        }
    }
}

proof fn lemma_hex_digits(d: int)
    requires
        0 <= d < 16,
    ensures
        hex_char(d) == "0123456789abcdef"@[d],
{
    reveal_strlit("0123456789abcdef");
    assert(d == 0 || d == 1 || d == 2 || d == 3 || d == 4 || d == 5 || d == 6 || d == 7 || d == 8
        || d == 9 || d == 10 || d == 11 || d == 12 || d == 13 || d == 14 || d == 15);
}

/// A digit is read as its place among the sixteen, small or capital, and nothing else is a
/// digit.
pub proof fn digits_are_read_by_their_place(b: u8)
    ensures
        match digit_value(b) {
            Some(d) => 0 <= d < 16 && ("0123456789abcdef"@[d] as int == b
                || "0123456789ABCDEF"@[d] as int == b),
            None => !("0123456789abcdefABCDEF"@.contains(b as char)),
        },
{
    reveal_strlit("0123456789abcdef");
    reveal_strlit("0123456789ABCDEF");
    reveal_strlit("0123456789abcdefABCDEF");
    if let Some(d) = digit_value(b) {
        assert(d == 0 || d == 1 || d == 2 || d == 3 || d == 4 || d == 5 || d == 6 || d == 7 || d
            == 8 || d == 9 || d == 10 || d == 11 || d == 12 || d == 13 || d == 14 || d == 15);
    }
}

/// Leaving the colons out leaves everything else, in order.
pub proof fn only_colons_are_left_out(s: Seq<char>)
    ensures
        without_colons(s) == s.filter(|c: char| c != ':'),
    decreases s.len(),
{
    reveal(Seq::filter);
    if s.len() > 0 {
        only_colons_are_left_out(s.drop_last());
    }
}

} // verus!
