//! Text as sequences of characters: building, comparing, splitting, trimming,
//! and decimal numbers.
use vstd::prelude::*;

verus! {

/// `String::push` appends one character.
pub assume_specification[ String::push ](s: &mut String, c: char)
    ensures
        final(s)@ == old(s)@.push(c),
;

/// `String::push_str` appends a string slice.
pub assume_specification[ String::push_str ](s: &mut String, t: &str)
    ensures
        final(s)@ == old(s)@ + t@,
;

/// What `str::to_lowercase` returns for the given characters.
pub uninterp spec fn lowercase(s: Seq<char>) -> Seq<char>;

/// `str::to_lowercase`: the lowercase equivalent, a function of the text alone.
#[verifier::external_body]
pub(crate) fn to_lowercase(s: &str) -> (r: String)
    ensures
        r@ == lowercase(s@),
{
    s.to_lowercase()
}

/// What `str::to_uppercase` returns for the given characters.
pub uninterp spec fn uppercase(s: Seq<char>) -> Seq<char>;

/// `str::to_uppercase`: the uppercase equivalent, a function of the text alone.
#[verifier::external_body]
pub(crate) fn to_uppercase(s: &str) -> (r: String)
    ensures
        r@ == uppercase(s@),
{
    s.to_uppercase()
}

/// What the `Debug` formatting of a string slice writes for the given characters.
pub uninterp spec fn quoted(s: Seq<char>) -> Seq<char>;

/// The `Debug` formatting of a string slice: the text in quotes, with what needs it
/// escaped. It is a function of the text alone.
#[verifier::external_body]
pub(crate) fn quote(s: &str) -> (r: String)
    ensures
        r@ == quoted(s@),
{
    format!("{s:?}")
}

/// The characters of a string, one by one.
pub fn chars_of(s: &str) -> (r: Vec<char>)
    ensures
        r@ == s@,
{
    let mut out: Vec<char> = Vec::new();
    for c in it: s.chars()
        invariant
            it.seq() == s@,
            out@ == s@.take(it.index() as int),
    {
        out.push(c);
        assert(s@.take(it.index() as int).push(c) =~= s@.take(it.index() + 1));
    }
    assert(s@.take(s@.len() as int) =~= s@);
    out
}

/// The string with the given characters.
pub fn string_of(v: &Vec<char>) -> (r: String)
    ensures
        r@ == v@,
{
    let mut out = String::new();
    let mut i: usize = 0;
    while i < v.len()
        invariant
            i <= v.len(),
            out@ == v@.take(i as int),
        decreases v.len() - i,
    {
        out.push(v[i]);
        i = i + 1;
        assert(v@.take(i as int) =~= v@.take(i - 1).push(v@[i - 1]));
    }
    assert(v@.take(i as int) =~= v@);
    out
}

/// Whether two texts have the same characters.
pub fn same(a: &str, b: &str) -> (r: bool)
    ensures
        r == (a@ == b@),
{
    let x = a.to_owned();
    let y = b.to_owned();
    x == y
}

/// The part of a text between two character positions.
pub fn subrange(v: &Vec<char>, from: usize, to: usize) -> (r: Vec<char>)
    requires
        from <= to <= v.len(),
    ensures
        r@ == v@.subrange(from as int, to as int),
{
    let mut out: Vec<char> = Vec::new();
    let mut i: usize = from;
    while i < to
        invariant
            from <= i <= to <= v.len(),
            out@ == v@.subrange(from as int, i as int),
        decreases to - i,
    {
        out.push(v[i]);
        i = i + 1;
        assert(v@.subrange(from as int, i as int) =~= v@.subrange(from as int, i - 1).push(
            v@[i - 1],
        ));
    }
    out
}

/// The number of a character in Unicode.
pub fn code_point(c: char) -> (r: u32)
    ensures
        r == c as int,
        r <= 0x10FFFF,
{
    c as u32
}

/// Whether `c` has the Unicode property White_Space.
pub open spec fn white(c: char) -> bool {
    let n = c as int;
    ||| 0x09 <= n <= 0x0D
    ||| n == 0x20
    ||| n == 0x85
    ||| n == 0xA0
    ||| n == 0x1680
    ||| 0x2000 <= n <= 0x200A
    ||| n == 0x2028
    ||| n == 0x2029
    ||| n == 0x202F
    ||| n == 0x205F
    ||| n == 0x3000
}

/// Whether `c` is white space.
pub fn is_white(c: char) -> (r: bool)
    ensures
        r == white(c),
{
    let n: u32 = code_point(c);
    (0x09 <= n && n <= 0x0D) || n == 0x20 || n == 0x85 || n == 0xA0 || n == 0x1680 || (0x2000 <= n
        && n <= 0x200A) || n == 0x2028 || n == 0x2029 || n == 0x202F || n == 0x205F || n == 0x3000
}

/// `s` without the white space at its start.
pub open spec fn trimmed_start(s: Seq<char>) -> Seq<char>
    decreases s.len(),
{
    if s.len() > 0 && white(s[0]) {
        trimmed_start(s.drop_first())
    } else {
        s
    }
}

/// `s` without the white space at its end.
pub open spec fn trimmed_end(s: Seq<char>) -> Seq<char>
    decreases s.len(),
{
    if s.len() > 0 && white(s.last()) {
        trimmed_end(s.drop_last())
    } else {
        s
    }
}

/// `s` without the white space at either end.
pub open spec fn trimmed(s: Seq<char>) -> Seq<char> {
    trimmed_end(trimmed_start(s))
}

proof fn lemma_trimmed_start(s: Seq<char>)
    ensures
        ({
            let t = trimmed_start(s);
            &&& t.len() <= s.len()
            &&& t == s.skip(s.len() - t.len())
            &&& t.len() > 0 ==> !white(t[0])
        }),
    decreases s.len(),
{
    let t = trimmed_start(s);
    if s.len() > 0 && white(s[0]) {
        let rest = s.drop_first();
        lemma_trimmed_start(rest);
        assert(rest.skip(rest.len() - t.len()) =~= s.skip(s.len() - t.len()));
    } else {
        assert(s.skip(0) =~= s);
    }
}

proof fn lemma_trimmed_end(s: Seq<char>)
    ensures
        ({
            let t = trimmed_end(s);
            &&& t.len() <= s.len()
            &&& t == s.take(t.len() as int)
            &&& t.len() > 0 ==> !white(t.last())
        }),
    decreases s.len(),
{
    let t = trimmed_end(s);
    if s.len() > 0 && white(s.last()) {
        let rest = s.drop_last();
        lemma_trimmed_end(rest);
        assert(rest.take(t.len() as int) =~= s.take(t.len() as int));
    } else {
        assert(s.take(s.len() as int) =~= s);
    }
}

/// What was trimmed has no more to trim, and holds only what was there before.
pub proof fn trimming_twice_changes_nothing(s: Seq<char>)
    ensures
        trimmed(trimmed(s)) == trimmed(s),
        trimmed(s).len() > 0 ==> !white(trimmed(s)[0]) && !white(trimmed(s).last()),
        forall|c: char| #[trigger] trimmed(s).contains(c) ==> s.contains(c),
{
    let t = trimmed_start(s);
    let e = trimmed(s);
    lemma_trimmed_start(s);
    lemma_trimmed_end(t);
    if e.len() > 0 {
        assert(e[0] == t[0]);
        assert(trimmed_start(e) == e);
    }
    assert forall|c: char| #[trigger] e.contains(c) implies s.contains(c) by {
        let k = choose|k: int| 0 <= k < e.len() && e[k] == c;
        assert(s[k + s.len() - t.len()] == c);
    }
}

/// A text that starts with something to keep is cut at its end only, and never before
/// something to keep.
pub proof fn trimming_stops_at(s: Seq<char>, i: int)
    requires
        0 <= i < s.len(),
        !white(s[0]),
        !white(s[i]),
    ensures
        i < trimmed(s).len() <= s.len(),
        trimmed(s) == s.take(trimmed(s).len() as int),
    decreases s.len(),
{
    lemma_trimmed_end(s);
    if i < s.len() - 1 && white(s.last()) {
        let rest = s.drop_last();
        trimming_stops_at(rest, i);
    }
}

/// White space around a text goes, and nothing of the text does.
pub proof fn trimming_takes_only_white_space(before: Seq<char>, s: Seq<char>, after: Seq<char>)
    requires
        forall|i: int| 0 <= i < before.len() ==> white(#[trigger] before[i]),
        forall|i: int| 0 <= i < after.len() ==> white(#[trigger] after[i]),
        s.len() > 0,
        !white(s[0]),
        !white(s.last()),
    ensures
        trimmed(before + s + after) == s,
    decreases before.len() + after.len(),
{
    let all = before + s + after;
    if before.len() > 0 {
        let rest = before.drop_first();
        assert forall|i: int| 0 <= i < rest.len() implies white(#[trigger] rest[i]) by {
            assert(rest[i] == before[i + 1]);
        }
        assert(all[0] == before[0]);
        assert(all.drop_first() =~= rest + s + after);
        trimming_takes_only_white_space(rest, s, after);
    } else {
        assert(all[0] == s[0]);
        assert(trimmed_start(all) == all);
        if after.len() > 0 {
            let rest = after.drop_last();
            assert forall|i: int| 0 <= i < rest.len() implies white(#[trigger] rest[i]) by {
                assert(rest[i] == after[i]);
            }
            assert(all.last() == after.last() && white(after[after.len() - 1]));
            assert(all.drop_last() =~= before + s + rest);
            trimming_takes_only_white_space(before, s, rest);
            assert((before + s + rest)[0] == s[0]);
        } else {
            assert(all =~= s);
        }
    }
}

/// Drops the white space at both ends.
pub fn trim(v: &Vec<char>) -> (r: Vec<char>)
    ensures
        r@ == trimmed(v@),
{
    let mut from: usize = 0;
    assert(v@.skip(0) =~= v@);
    while from < v.len() && is_white(v[from])
        invariant
            from <= v.len(),
            trimmed_start(v@) == trimmed_start(v@.skip(from as int)),
        decreases v.len() - from,
    {
        assert(v@.skip(from as int).drop_first() =~= v@.skip(from + 1));
        from = from + 1;
    }
    let mut to: usize = v.len();
    assert(v@.subrange(from as int, to as int) =~= v@.skip(from as int));
    while from < to && is_white(v[to - 1])
        invariant
            from <= to <= v.len(),
            trimmed(v@) == trimmed_end(v@.subrange(from as int, to as int)),
        decreases to,
    {
        assert(v@.subrange(from as int, to as int).drop_last() =~= v@.subrange(
            from as int,
            to - 1,
        ));
        to = to - 1;
    }
    subrange(v, from, to)
}

/// The character of a decimal digit.
pub open spec fn digit_char(d: int) -> char {
    (0x30 + d) as char
}

/// A number written in decimal, without leading zeros.
pub open spec fn decimal(n: nat) -> Seq<char>
    decreases n,
{
    if n < 10 {
        seq![digit_char(n as int)]
    } else {
        decimal(n / 10).push(digit_char((n % 10) as int))
    }
}

/// Appends a number in decimal.
pub fn push_decimal(out: &mut String, n: u64)
    ensures
        final(out)@ == old(out)@ + decimal(n as nat),
    decreases n,
{
    if n >= 10 {
        push_decimal(out, n / 10);
    }
    let d: u8 = (n % 10) as u8;
    out.push((0x30u8 + d) as char);
    proof {
        if n < 10 {
            assert(old(out)@.push(digit_char(n as int)) =~= old(out)@ + decimal(n as nat));
        } else {
            assert((old(out)@ + decimal((n / 10) as nat)).push(digit_char((n % 10) as int))
                =~= old(out)@ + decimal(n as nat));
        }
    }
}

/// Whether `c` is an ASCII digit.
pub open spec fn is_digit(c: char) -> bool {
    0x30 <= c as int <= 0x39
}

/// The number that a run of digits stands for.
pub open spec fn digits_value(s: Seq<char>) -> nat
    decreases s.len(),
{
    if s.len() == 0 {
        0
    } else {
        digits_value(s.drop_last()) * 10 + ((s.last() as int - 0x30) as nat)
    }
}

/// Whether `s` is one or more digits.
pub open spec fn all_digits(s: Seq<char>) -> bool {
    s.len() > 0 && forall|i: int| 0 <= i < s.len() ==> is_digit(#[trigger] s[i])
}

/// `s` without a `+` in front.
pub open spec fn unsigned(s: Seq<char>) -> Seq<char> {
    if s.len() > 0 && s[0] == '+' {
        s.skip(1)
    } else {
        s
    }
}

/// The number that a text stands for: one or more digits, after at most one `+`.
pub open spec fn number_of(s: Seq<char>) -> Option<nat> {
    let t = unsigned(s);
    if all_digits(t) {
        Some(digits_value(t))
    } else {
        None
    }
}

proof fn lemma_digits_value_prefix(s: Seq<char>, i: int)
    requires
        0 <= i <= s.len(),
    ensures
        digits_value(s.take(i)) <= digits_value(s),
    decreases s.len() - i,
{
    if i == s.len() {
        assert(s.take(i) =~= s);
    } else {
        lemma_digits_value_prefix(s, i + 1);
        assert(s.take(i + 1).drop_last() =~= s.take(i));
    }
}

/// Reads a number that fits in 64 bits.
pub fn parse_u64(v: &Vec<char>) -> (r: Option<u64>)
    ensures
        match number_of(v@) {
            Some(n) => if n <= u64::MAX {
                r == Some(n as u64)
            } else {
                r is None
            },
            None => r is None,
        },
{
    let start: usize = if v.len() > 0 && v[0] == '+' {
        1
    } else {
        0
    };
    let ghost t = unsigned(v@);
    assert(t =~= v@.skip(start as int));
    if start == v.len() {
        return None;
    }
    let mut n: u64 = 0;
    let mut i: usize = start;
    assert(t.take(0) =~= Seq::<char>::empty());
    while i < v.len()
        invariant
            start <= i <= v.len(),
            t == v@.skip(start as int),
            t == unsigned(v@),
            forall|j: int| 0 <= j < i - start ==> is_digit(#[trigger] t[j]),
            n == digits_value(t.take(i - start)),
        decreases v.len() - i,
    {
        let ch: char = v[i];
        let c: u32 = code_point(ch);
        assert(t[i - start] == ch);
        if c < 0x30 || c > 0x39 {
            assert(!is_digit(t[i - start]));
            return None;
        }
        let d: u64 = (c - 0x30) as u64;
        proof {
            lemma_digits_value_prefix(t, i - start + 1);
            assert(t.take(i - start + 1).drop_last() =~= t.take(i - start));
        }
        if n > (u64::MAX - d) / 10 {
            return None;
        }
        n = n * 10 + d;
        i = i + 1;
    }
    assert(t.take(i - start) =~= t);
    assert(all_digits(t));
    Some(n)
}

/// A number written in decimal reads back as that number.
pub proof fn decimal_reads_back(n: nat)
    ensures
        number_of(decimal(n)) == Some(n),
        decimal(n).len() > 0,
        all_digits(decimal(n)),
        digits_value(decimal(n)) == n,
    decreases n,
{
    if n >= 10 {
        decimal_reads_back(n / 10);
        assert(decimal(n).drop_last() =~= decimal(n / 10));
    } else {
        assert(decimal(n).drop_last() =~= Seq::<char>::empty());
        assert(digits_value(Seq::<char>::empty()) == 0);
    }
    assert(is_digit(decimal(n)[0]));
}

/// The texts of a list.
pub open spec fn views(v: Seq<Vec<char>>) -> Seq<Seq<char>> {
    v.map_values(|x: Vec<char>| x@)
}

/// The pieces of `s` between the separators: one more than there are separators.
pub open spec fn pieces(s: Seq<char>, sep: char) -> Seq<Seq<char>>
    decreases s.len(),
{
    if s.len() == 0 {
        seq![Seq::<char>::empty()]
    } else {
        let before = pieces(s.drop_last(), sep);
        if s.last() == sep {
            before.push(Seq::<char>::empty())
        } else {
            before.drop_last().push(before.last().push(s.last()))
        }
    }
}

/// Cuts a text at every separator.
pub fn split_on(v: &Vec<char>, sep: char) -> (r: Vec<Vec<char>>)
    ensures
        views(r@) == pieces(v@, sep),
{
    let mut out: Vec<Vec<char>> = Vec::new();
    let mut cur: Vec<char> = Vec::new();
    let mut i: usize = 0;
    proof {
        assert(v@.take(0) =~= Seq::<char>::empty());
        assert(views(out@).push(cur@) =~= pieces(v@.take(0), sep));
    }
    while i < v.len()
        invariant
            i <= v.len(),
            views(out@).push(cur@) == pieces(v@.take(i as int), sep),
        decreases v.len() - i,
    {
        let ghost before = views(out@).push(cur@);
        assert(v@.take(i + 1).drop_last() =~= v@.take(i as int));
        assert(v@.take(i + 1).last() == v@[i as int]);
        assert(before.drop_last() =~= views(out@));
        if v[i] == sep {
            let ghost old_out = out@;
            let ghost old_cur = cur@;
            out.push(cur);
            cur = Vec::new();
            assert(views(out@) =~= before);
            assert(views(out@).push(cur@) =~= pieces(v@.take(i + 1), sep));
        } else {
            cur.push(v[i]);
            assert(views(out@).push(cur@) =~= pieces(v@.take(i + 1), sep));
        }
        i = i + 1;
    }
    let ghost before = views(out@).push(cur@);
    out.push(cur);
    assert(views(out@) =~= before);
    assert(v@.take(i as int) =~= v@);
    out
}

/// The texts of a list joined by a separator.
pub open spec fn joined(parts: Seq<Seq<char>>, sep: char) -> Seq<char>
    decreases parts.len(),
{
    if parts.len() == 0 {
        Seq::empty()
    } else if parts.len() == 1 {
        parts[0]
    } else {
        joined(parts.drop_last(), sep).push(sep) + parts.last()
    }
}

/// The characters of each text.
pub open spec fn contents(v: Seq<String>) -> Seq<Seq<char>> {
    v.map_values(|s: String| s@)
}

/// The texts of a list with `sep` between them.
pub open spec fn strung(parts: Seq<Seq<char>>, sep: Seq<char>) -> Seq<char>
    decreases parts.len(),
{
    if parts.len() == 0 {
        Seq::empty()
    } else if parts.len() == 1 {
        parts[0]
    } else {
        strung(parts.drop_last(), sep) + sep + parts.last()
    }
}

/// The texts of a list with `sep` between them.
pub fn string_up(parts: &Vec<String>, sep: &str) -> (r: String)
    ensures
        r@ == strung(contents(parts@), sep@),
{
    let mut out = String::new();
    let mut i: usize = 0;
    let ghost all = contents(parts@);
    assert(all.take(0) =~= Seq::<Seq<char>>::empty());
    while i < parts.len()
        invariant
            i <= parts.len(),
            all == contents(parts@),
            out@ == strung(all.take(i as int), sep@),
        decreases parts.len() - i,
    {
        assert(all.take(i + 1).drop_last() =~= all.take(i as int));
        if i > 0 {
            out.push_str(sep);
        }
        out.push_str(&parts[i]);
        assert(out@ =~= strung(all.take(i + 1), sep@));
        i = i + 1;
    }
    assert(all.take(i as int) =~= all);
    out
}

/// Joining the pieces of a text gives the text back.
pub proof fn joined_pieces(s: Seq<char>, sep: char)
    ensures
        pieces(s, sep).len() > 0,
        joined(pieces(s, sep), sep) == s,
    decreases s.len(),
{
    if s.len() > 0 {
        joined_pieces(s.drop_last(), sep);
        let before = pieces(s.drop_last(), sep);
        let after = pieces(s, sep);
        if s.last() == sep {
            assert(after.drop_last() =~= before);
            assert(joined(after, sep) =~= s);
        } else {
            assert(after.drop_last() =~= before.drop_last());
            assert(joined(after, sep) =~= joined(before, sep).push(s.last()));
            assert(joined(after, sep) =~= s);
        }
    }
}

/// No piece holds the separator.
pub proof fn pieces_hold_no_separator(s: Seq<char>, sep: char)
    ensures
        pieces(s, sep).len() > 0,
        forall|i: int| 0 <= i < pieces(s, sep).len() ==> !(#[trigger] pieces(s, sep)[i]).contains(sep),
    decreases s.len(),
{
    if s.len() > 0 {
        pieces_hold_no_separator(s.drop_last(), sep);
        let before = pieces(s.drop_last(), sep);
        let after = pieces(s, sep);
        assert forall|i: int| 0 <= i < after.len() implies !(#[trigger] after[i]).contains(sep) by {
            if s.last() == sep {
                if i < before.len() {
                    assert(after[i] == before[i]);
                }
            } else if i == before.len() - 1 {
                let p = before[i];
                assert(after[i] == p.push(s.last()));
                if after[i].contains(sep) {
                    let k = choose|k: int| 0 <= k < after[i].len() && after[i][k] == sep;
                    assert(k < p.len() && p[k] == sep);
                    assert(p.contains(sep));
                }
            } else {
                assert(after[i] == before[i]);
            }
        }
    }
}

/// Every separator in what is appended to a text makes for one more piece.
pub proof fn separators_add_pieces(s: Seq<char>, x: Seq<char>, sep: char)
    ensures
        pieces(s, sep).len() > 0,
        pieces(s + x, sep).len() >= pieces(s, sep).len(),
        x.contains(sep) ==> pieces(s + x, sep).len() > pieces(s, sep).len(),
    decreases x.len(),
{
    joined_pieces(s, sep);
    if x.len() == 0 {
        assert(s + x =~= s);
    } else {
        let y = x.drop_last();
        separators_add_pieces(s, y, sep);
        assert((s + x).drop_last() =~= s + y);
        assert((s + x).last() == x.last());
        joined_pieces(s + y, sep);
        if x.contains(sep) && x.last() != sep {
            let k = choose|k: int| 0 <= k < x.len() && x[k] == sep;
            assert(y[k] == sep);
        }
    }
}

/// Text without separators lengthens the last piece.
pub proof fn pieces_of_plain(s: Seq<char>, x: Seq<char>, sep: char)
    requires
        !x.contains(sep),
    ensures
        pieces(s, sep).len() > 0,
        pieces(s + x, sep) == pieces(s, sep).drop_last().push(pieces(s, sep).last() + x),
    decreases x.len(),
{
    joined_pieces(s, sep);
    let p = pieces(s, sep);
    if x.len() == 0 {
        assert(s + x =~= s);
        assert(p.last() + x =~= p.last());
        assert(p.drop_last().push(p.last()) =~= p);
    } else {
        let y = x.drop_last();
        assert(!y.contains(sep)) by {
            if y.contains(sep) {
                let k = choose|k: int| 0 <= k < y.len() && y[k] == sep;
                assert(x[k] == sep);
            }
        }
        pieces_of_plain(s, y, sep);
        assert((s + x).drop_last() =~= s + y);
        assert((s + x).last() == x.last());
        assert(x[x.len() - 1] != sep);
        let q = p.drop_last().push(p.last() + y);
        assert(q.drop_last() =~= p.drop_last());
        assert((p.last() + y).push(x.last()) =~= p.last() + x);
    }
}

/// Whether `s` starts with `p`.
pub open spec fn starts(s: Seq<char>, p: Seq<char>) -> bool {
    s.len() >= p.len() && s.take(p.len() as int) == p
}

/// Whether a text holds a character.
pub fn holds(v: &Vec<char>, c: char) -> (r: bool)
    ensures
        r == v@.contains(c),
{
    let mut i: usize = 0;
    while i < v.len()
        invariant
            i <= v.len(),
            forall|j: int| 0 <= j < i ==> v@[j] != c,
        decreases v.len() - i,
    {
        if v[i] == c {
            assert(v@[i as int] == c);
            return true;
        }
        i = i + 1;
    }
    false
}

/// The words of a text: its longest runs without white space.
pub open spec fn words(s: Seq<char>) -> Seq<Seq<char>>
    decreases s.len(),
{
    if s.len() == 0 {
        Seq::empty()
    } else {
        let before = words(s.drop_last());
        if white(s.last()) {
            before
        } else if s.len() >= 2 && !white(s[s.len() - 2]) {
            before.drop_last().push(before.last().push(s.last()))
        } else {
            before.push(seq![s.last()])
        }
    }
}

/// The words of a text, from a position on.
pub fn split_words(v: &Vec<char>, from: usize) -> (r: Vec<Vec<char>>)
    requires
        from <= v.len(),
    ensures
        views(r@) == words(v@.skip(from as int)),
{
    let ghost s = v@.skip(from as int);
    let mut out: Vec<Vec<char>> = Vec::new();
    let mut cur: Vec<char> = Vec::new();
    let mut i: usize = from;
    assert(s.take(0) =~= Seq::<char>::empty());
    assert(views(out@) =~= words(s.take(0)));
    while i < v.len()
        invariant
            from <= i <= v.len(),
            s == v@.skip(from as int),
            cur@.len() > 0 <==> i > from && !white(v@[i - 1]),
            words(s.take(i - from)) == if cur@.len() > 0 {
                views(out@).push(cur@)
            } else {
                views(out@)
            },
        decreases v.len() - i,
    {
        let ghost t = s.take(i - from + 1);
        let ghost before = words(s.take(i - from));
        assert(t.drop_last() =~= s.take(i - from));
        assert(t.last() == v@[i as int]);
        assert(i > from ==> t[t.len() - 2] == v@[i - 1]);
        if is_white(v[i]) {
            if cur.len() > 0 {
                let ghost old_out = views(out@);
                let ghost word = cur@;
                out.push(cur);
                cur = Vec::new();
                assert(views(out@) =~= old_out.push(word));
            }
        } else {
            let ghost old_cur = cur@;
            cur.push(v[i]);
            assert(cur@ == old_cur.push(v@[i as int]));
            proof {
                if old_cur.len() > 0 {
                    assert(before.drop_last() =~= views(out@));
                    assert(words(t) =~= views(out@).push(cur@));
                } else {
                    assert(cur@ =~= seq![t.last()]);
                    assert(words(t) =~= views(out@).push(cur@));
                }
            }
        }
        i = i + 1;
    }
    assert(s.take(i - from) =~= s);
    if cur.len() > 0 {
        let ghost old_out = views(out@);
        let ghost word = cur@;
        out.push(cur);
        assert(views(out@) =~= old_out.push(word));
    }
    out
}

/// Whether `a` comes before `b`, comparing character by character.
pub open spec fn precedes(a: Seq<char>, b: Seq<char>) -> bool
    decreases a.len(),
{
    if b.len() == 0 {
        false
    } else if a.len() == 0 {
        true
    } else if a[0] != b[0] {
        (a[0] as int) < (b[0] as int)
    } else {
        precedes(a.drop_first(), b.drop_first())
    }
}

/// Compares two texts character by character.
pub fn is_before(a: &Vec<char>, b: &Vec<char>) -> (r: bool)
    ensures
        r == precedes(a@, b@),
{
    let mut i: usize = 0;
    assert(a@.skip(0) =~= a@ && b@.skip(0) =~= b@);
    while i < a.len() && i < b.len()
        invariant
            i <= a.len(),
            i <= b.len(),
            precedes(a@, b@) == precedes(a@.skip(i as int), b@.skip(i as int)),
        decreases a.len() - i,
    {
        if a[i] != b[i] {
            return code_point(a[i]) < code_point(b[i]);
        }
        assert(a@.skip(i as int).drop_first() =~= a@.skip(i + 1));
        assert(b@.skip(i as int).drop_first() =~= b@.skip(i + 1));
        i = i + 1;
    }
    i < b.len()
}

/// The order of texts is strict: nothing precedes itself or what precedes it.
pub proof fn precedes_is_asymmetric(a: Seq<char>, b: Seq<char>)
    ensures
        !(precedes(a, b) && precedes(b, a)),
    decreases a.len(),
{
    if a.len() > 0 && b.len() > 0 && a[0] == b[0] {
        precedes_is_asymmetric(a.drop_first(), b.drop_first());
    }
}

/// The order of texts is transitive.
pub proof fn precedes_is_transitive(a: Seq<char>, b: Seq<char>, c: Seq<char>)
    ensures
        precedes(a, b) && precedes(b, c) ==> precedes(a, c),
        !precedes(b, a) && !precedes(c, b) ==> !precedes(c, a),
    decreases a.len() + b.len() + c.len(),
{
    if a.len() > 0 && b.len() > 0 && c.len() > 0 {
        precedes_is_transitive(a.drop_first(), b.drop_first(), c.drop_first());
    }
}

/// The first character in which two texts differ decides which comes first, and a text comes
/// before one that it begins.
pub proof fn the_first_difference_decides(
    p: Seq<char>,
    x: char,
    u: Seq<char>,
    y: char,
    v: Seq<char>,
)
    requires
        x != y,
    ensures
        precedes(p.push(x) + u, p.push(y) + v) == ((x as int) < (y as int)),
        precedes(p, p.push(y) + v),
        !precedes(p.push(x) + u, p),
        !precedes(p, p),
    decreases p.len(),
{
    let (a, b) = (p.push(x) + u, p.push(y) + v);
    if p.len() > 0 {
        let q = p.drop_first();
        assert(a.drop_first() =~= q.push(x) + u);
        assert(b.drop_first() =~= q.push(y) + v);
        the_first_difference_decides(q, x, u, y, v);
    }
}

/// Nothing of a word crosses white space: the words around a white character are those of
/// what stands in front of it, followed by those of what stands behind it.
pub proof fn words_end_at_white_space(s: Seq<char>, c: char, t: Seq<char>)
    requires
        white(c),
    ensures
        words(s.push(c) + t) == words(s) + words(t),
        t.len() > 0 && !white(t.last()) ==> words(t).len() > 0,
    decreases t.len(),
{
    let all = s.push(c) + t;
    if t.len() == 0 {
        assert(all =~= s.push(c));
        assert(all.drop_last() =~= s);
        assert(words(s) + words(t) =~= words(s));
    } else {
        words_end_at_white_space(s, c, t.drop_last());
        assert(all.drop_last() =~= s.push(c) + t.drop_last());
        let before = words(t.drop_last());
        assert(all[all.len() - 2] == if t.len() >= 2 {
            t[t.len() - 2]
        } else {
            c
        });
        if !white(t.last()) && t.len() >= 2 && !white(t[t.len() - 2]) {
            assert(t.drop_last().last() == t[t.len() - 2]);
            assert((words(s) + before).drop_last() =~= words(s) + before.drop_last());
        }
        assert(words(all) =~= words(s) + words(t));
    }
}

/// Text without white space is one word.
pub proof fn a_run_is_one_word(s: Seq<char>)
    requires
        s.len() > 0,
        forall|i: int| 0 <= i < s.len() ==> !white(#[trigger] s[i]),
    ensures
        words(s) == seq![s],
    decreases s.len(),
{
    if s.len() == 1 {
        assert(s.drop_last() =~= Seq::<char>::empty());
        assert(!white(s[0]) && s.last() == s[0]);
        assert(words(s.drop_last()) =~= Seq::<Seq<char>>::empty());
        assert(words(s) =~= seq![seq![s.last()]]);
        assert(seq![s.last()] =~= s);
    } else {
        a_run_is_one_word(s.drop_last());
        assert(!white(s[s.len() - 2]));
        assert(s.drop_last().push(s.last()) =~= s);
        assert(words(s) =~= seq![s]);
    }
}

/// A list strung up is its first part and its second part strung up, with the separator
/// between them, and one text alone is that text.
pub proof fn strung_in_two(a: Seq<Seq<char>>, b: Seq<Seq<char>>, sep: Seq<char>, s: Seq<char>)
    requires
        a.len() > 0,
        b.len() > 0,
    ensures
        strung(a + b, sep) == strung(a, sep) + sep + strung(b, sep),
        strung(seq![s], sep) == s,
    decreases b.len(),
{
    assert((a + b).drop_last() =~= a + b.drop_last());
    assert((a + b).last() == b.last());
    if b.len() == 1 {
        assert(a + b.drop_last() =~= a);
    } else {
        strung_in_two(a, b.drop_last(), sep, s);
    }
    assert(strung(a + b, sep) =~= strung(a, sep) + sep + strung(b, sep));
}

/// A number in decimal has no zero in front, but for zero itself, and one digit more than the
/// tenth part of it.
pub proof fn decimal_has_no_leading_zero(n: nat)
    ensures
        n > 0 ==> decimal(n)[0] != '0',
        decimal(0) == seq!['0'],
        n >= 10 ==> decimal(n).len() == decimal(n / 10).len() + 1,
        decimal(n).len() > 0,
    decreases n,
{
    if n >= 10 {
        decimal_has_no_leading_zero(n / 10);
    } else if n > 0 {
        assert(digit_char(n as int) as int == 0x30 + n);
    }
    assert(digit_char(0) == '0');
}

/// A number may have one plus in front of it, and nothing else: neither a second one, nor a
/// minus, nor white space.
pub proof fn a_number_may_have_one_plus(n: nat, c: char)
    ensures
        number_of(seq!['+'] + decimal(n)) == Some(n),
        number_of(Seq::empty()) is None,
        !is_digit(c) ==> number_of(decimal(n).push(c)) is None,
        !is_digit(c) && c != '+' ==> number_of(seq![c] + decimal(n)) is None,
        number_of(seq!['+', '+'] + decimal(n)) is None,
{
    decimal_reads_back(n);
    let d = decimal(n);
    assert((seq!['+'] + d).skip(1) =~= d);
    let after = d.push(c);
    assert(after[0] == d[0] && is_digit(d[0]));
    assert(after[d.len() as int] == c);
    let before = seq![c] + d;
    assert(before[0] == c);
    let twice = seq!['+', '+'] + d;
    assert(twice.skip(1)[0] == '+');
}

/// In ASCII the white characters are the space and those from tab to carriage return.
pub proof fn ascii_white_space(c: char)
    requires
        (c as int) < 0x80,
    ensures
        white(c) <==> c == ' ' || c == '\t' || c == '\n' || c == '\r' || c as int == 0x0b || c as int
            == 0x0c,
{
}

} // verus!
