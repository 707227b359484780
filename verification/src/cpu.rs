//! How much processor time a process has used, from what the system reports.
//!
//! The ceiling on the pipeline is enforced against this rather than against the time
//! that passes: the encoder runs on several threads and sending costs time of its own.
use vstd::prelude::*;

use crate::rounding::{
    as_double, double_of, doubles_grow, fractions_grow, lemma_double_is_near,
    lemma_nearest_is_near, nearest, nearest_double, nearest_of, quotients_grow, ratio_of,
};
use crate::text::{chars_of, number_of, parse_u64, split_words, views, words};

verus! {

/// What follows the last closing bracket, if there is one.
pub open spec fn after_bracket(s: Seq<char>) -> Option<Seq<char>>
    decreases s.len(),
{
    if s.len() == 0 {
        None
    } else if s.last() == ')' {
        Some(Seq::empty())
    } else {
        match after_bracket(s.drop_last()) {
            Some(t) => Some(t.push(s.last())),
            None => None,
        }
    }
}

/// The number of a word, where it fits in 64 bits.
pub open spec fn ticks_in(word: Seq<char>) -> Option<nat> {
    match number_of(word) {
        Some(n) => if n <= u64::MAX {
            Some(n)
        } else {
            None
        },
        None => None,
    }
}

/// User and system time in clock ticks, from a line of `/proc/<pid>/stat`: the twelfth
/// and thirteenth word after the command name, which stands in brackets and can hold
/// anything. A sum that does not fit in 64 bits is none.
pub open spec fn ticks_of(stat: Seq<char>) -> Option<nat> {
    match after_bracket(stat) {
        None => None,
        Some(rest) => {
            let w = words(rest);
            if w.len() < 13 {
                None
            } else {
                match (ticks_in(w[11]), ticks_in(w[12])) {
                    (Some(u), Some(s)) => if u + s <= u64::MAX {
                        Some(u + s)
                    } else {
                        None
                    },
                    _ => None,
                }
            }
        },
    }
}

/// Ticks per second, 100 where the system does not say.
pub open spec fn rate_of(ticks_per_second: i64) -> int {
    if ticks_per_second > 0 {
        ticks_per_second as int
    } else {
        100
    }
}

/// The time of so many ticks, in nanoseconds: seconds are counted in double precision, and
/// rounded to the nearest nanosecond.
pub open spec fn nanos_of(ticks: nat, ticks_per_second: i64) -> nat {
    let secs = nearest_double(as_double(ticks), as_double(rate_of(ticks_per_second) as nat));
    nearest(secs.0 * 1_000_000_000, secs.1)
}

/// More ticks are never less time.
pub proof fn more_ticks_are_never_less_time(before: nat, after: nat, ticks_per_second: i64)
    requires
        before <= after,
    ensures
        nanos_of(before, ticks_per_second) <= nanos_of(after, ticks_per_second),
{
    let rate = as_double(rate_of(ticks_per_second) as nat);
    doubles_grow(before, after);
    doubles_grow(1, rate_of(ticks_per_second) as nat);
    let (a, b) = (
        nearest_double(as_double(before), rate),
        nearest_double(as_double(after), rate),
    );
    quotients_grow(as_double(before), as_double(after), rate);
    assert(a.0 * 1_000_000_000 * b.1 <= b.0 * 1_000_000_000 * a.1) by (nonlinear_arith)
        requires
            a.0 * b.1 <= b.0 * a.1,
    ;
    fractions_grow(a.0 * 1_000_000_000, a.1, b.0 * 1_000_000_000, b.1);
}

/// A tick is time: as long as ticks are counted exactly and a tick is two nanoseconds at
/// least, one more is more.
pub proof fn a_tick_is_time(before: nat, after: nat, ticks_per_second: i64)
    requires
        before < after <= 0x4_0000_0000_0000,
        rate_of(ticks_per_second) <= 500_000_000,
    ensures
        nanos_of(before, ticks_per_second) < nanos_of(after, ticks_per_second),
{
    let (n, m, d) = (before, after, rate_of(ticks_per_second) as nat);
    doubles_grow(n, m);
    doubles_grow(m, m);
    doubles_grow(d, d);
    let (r, s) = (nearest_double(n, d), nearest_double(m, d));
    lemma_double_is_near(n, d);
    lemma_double_is_near(m, d);
    let (x, y) = (nearest(r.0 * 1_000_000_000, r.1), nearest(s.0 * 1_000_000_000, s.1));
    lemma_nearest_is_near(r.0 * 1_000_000_000, r.1);
    lemma_nearest_is_near(s.0 * 1_000_000_000, s.1);
    lemma_not_apart(
        n as int,
        m as int,
        d as int,
        r.0 as int,
        r.1 as int,
        s.0 as int,
        s.1 as int,
        x as int,
        y as int,
    );
}

/// Two quotients that far apart are not rounded together.
proof fn lemma_not_apart(
    n: int,
    m: int,
    d: int,
    r0: int,
    r1: int,
    s0: int,
    s1: int,
    x: int,
    y: int,
)
    requires
        0 <= n < m <= 0x4_0000_0000_0000,
        0 < d <= 500_000_000,
        r1 > 0,
        s1 > 0,
        0x20_0000_0000_0000 * (r0 * d) <= 0x20_0000_0000_0001 * (n * r1),
        0x20_0000_0000_0000 * (s0 * d) >= 0x1F_FFFF_FFFF_FFFF * (m * s1),
        2 * (x * r1) <= 2 * (r0 * 1_000_000_000) + r1,
        2 * (y * s1) >= 2 * (s0 * 1_000_000_000) - s1,
    ensures
        x < y,
{
    if y <= x {
        let p = r1 * s1;
        assert(p > 0) by (nonlinear_arith)
            requires
                p == r1 * s1,
                r1 > 0,
                s1 > 0,
        ;
        // In units of the product of the two denominators.
        let (a, b) = (r0 * s1, s0 * r1);
        assert(2 * (x * p) <= 2_000_000_000 * a + p) by (nonlinear_arith)
            requires
                2 * (x * r1) <= 2 * (r0 * 1_000_000_000) + r1,
                s1 > 0,
                p == r1 * s1,
                a == r0 * s1,
        {
            assert(2 * (x * r1) * s1 <= (2 * (r0 * 1_000_000_000) + r1) * s1);
        }
        assert(2 * (y * p) >= 2_000_000_000 * b - p) by (nonlinear_arith)
            requires
                2 * (y * s1) >= 2 * (s0 * 1_000_000_000) - s1,
                r1 > 0,
                p == r1 * s1,
                b == s0 * r1,
        {
            assert(2 * (y * s1) * r1 >= (2 * (s0 * 1_000_000_000) - s1) * r1);
        }
        assert(y * p <= x * p) by (nonlinear_arith)
            requires
                y <= x,
                p > 0,
        ;
        assert(1_000_000_000 * (b - a) <= p);
        let (u, v) = (n * p, m * p);
        assert(0x20_0000_0000_0000 * (a * d) <= 0x20_0000_0000_0001 * u) by (nonlinear_arith)
            requires
                0x20_0000_0000_0000 * (r0 * d) <= 0x20_0000_0000_0001 * (n * r1),
                s1 > 0,
                p == r1 * s1,
                a == r0 * s1,
                u == n * p,
        {
            assert(0x20_0000_0000_0000 * (r0 * d) * s1 <= 0x20_0000_0000_0001 * (n * r1) * s1);
            assert((r0 * d) * s1 == a * d);
            assert((n * r1) * s1 == u);
        }
        assert(0x20_0000_0000_0000 * (b * d) >= 0x1F_FFFF_FFFF_FFFF * v) by (nonlinear_arith)
            requires
                0x20_0000_0000_0000 * (s0 * d) >= 0x1F_FFFF_FFFF_FFFF * (m * s1),
                r1 > 0,
                p == r1 * s1,
                b == s0 * r1,
                v == m * p,
        {
            assert(0x20_0000_0000_0000 * (s0 * d) * r1 >= 0x1F_FFFF_FFFF_FFFF * (m * s1) * r1);
            assert((s0 * d) * r1 == b * d);
            assert((m * s1) * r1 == v);
        }
        assert(v >= u + p && v <= 0x4_0000_0000_0000 * p) by (nonlinear_arith)
            requires
                u == n * p,
                v == m * p,
                n + 1 <= m <= 0x4_0000_0000_0000,
                p > 0,
        ;
        assert(b * d - a * d == (b - a) * d) by (nonlinear_arith);
        let w = (b - a) * d;
        assert(w * 1_000_000_000 <= d * p) by (nonlinear_arith)
            requires
                1_000_000_000 * (b - a) <= p,
                d > 0,
                w == (b - a) * d,
        ;
        assert(d * p <= 500_000_000 * p) by (nonlinear_arith)
            requires
                d <= 500_000_000,
                p > 0,
        ;
        assert(0x20_0000_0000_0000 * w >= 0x1F_FFFF_FFFF_FFFF * v - 0x20_0000_0000_0001 * u);
    }
}

fn bracket_end(v: &Vec<char>) -> (r: Option<usize>)
    ensures
        match r {
            Some(i) => i <= v@.len() && after_bracket(v@) == Some(v@.skip(i as int)),
            None => after_bracket(v@) is None,
        },
{
    let mut i: usize = v.len();
    assert(v@.take(i as int) =~= v@);
    while i > 0
        invariant
            i <= v@.len(),
            match after_bracket(v@.take(i as int)) {
                Some(t) => after_bracket(v@) == Some(t + v@.skip(i as int)),
                None => after_bracket(v@) is None,
            },
        decreases i,
    {
        let ghost p = v@.take(i as int);
        assert(p.drop_last() =~= v@.take(i - 1));
        assert(p.last() == v@[i - 1]);
        if v[i - 1] == ')' {
            assert(Seq::<char>::empty() + v@.skip(i as int) =~= v@.skip(i as int));
            return Some(i);
        }
        proof {
            match after_bracket(v@.take(i - 1)) {
                Some(t) => {
                    assert(t.push(v@[i - 1]) + v@.skip(i as int) =~= t + v@.skip(i - 1));
                },
                None => {},
            }
        }
        i = i - 1;
    }
    None
}

/// Processor time of a process across all its threads, in nanoseconds, from its line of
/// `/proc/<pid>/stat` and the number of clock ticks per second. `None` where the line is
/// not understood.
pub fn process_time(stat: &str, ticks_per_second: i64) -> (r: Option<u128>)
    ensures
        match ticks_of(stat@) {
            Some(t) => r matches Some(n) && n == nanos_of(t, ticks_per_second),
            None => r is None,
        },
{
    let v = chars_of(stat);
    let from: usize = match bracket_end(&v) {
        Some(i) => i,
        None => {
            return None;
        },
    };
    let w = split_words(&v, from);
    let ghost all = views(w@);
    assert(all.len() == w@.len());
    if w.len() < 13 {
        return None;
    }
    assert(all[11] == w@[11]@ && all[12] == w@[12]@);
    match (parse_u64(&w[11]), parse_u64(&w[12])) {
        (Some(u), Some(s)) => {
            let ticks: u64 = match u.checked_add(s) {
                Some(t) => t,
                None => {
                    return None;
                },
            };
            let rate: u64 = if ticks_per_second > 0 {
                ticks_per_second as u64
            } else {
                100
            };
            proof {
                doubles_grow(rate as nat, rate as nat);
            }
            let secs = ratio_of(double_of(ticks), double_of(rate));
            Some(nearest_of(secs.0 * 1_000_000_000, secs.1))
        },
        _ => None,
    }
}

/// A 64-bit number from its two halves.
pub fn to_u64(high: u32, low: u32) -> (r: u64)
    ensures
        r == high * 0x1_0000_0000 + low,
{
    high as u64 * 0x1_0000_0000 + low as u64
}

/// Kernel and user time, each counted in units of 100 nanoseconds and given by its
/// halves, in nanoseconds. A time that does not fit in 64 bits is the longest that does.
pub fn filetime_nanos(kernel: (u32, u32), user: (u32, u32)) -> (r: u64)
    requires
        kernel.0 * 0x1_0000_0000 + kernel.1 + user.0 * 0x1_0000_0000 + user.1 <= u64::MAX,
    ensures
        ({
            let nanos = (kernel.0 * 0x1_0000_0000 + kernel.1 + user.0 * 0x1_0000_0000 + user.1) * 100;
            r == if nanos <= u64::MAX {
                nanos
            } else {
                u64::MAX as int
            }
        }),
{
    let units: u64 = to_u64(kernel.0, kernel.1) + to_u64(user.0, user.1);
    match units.checked_mul(100) {
        Some(n) => n,
        None => 0xFFFF_FFFF_FFFF_FFFF,
    }
}

/// The command name can hold anything, brackets too: what counts is what follows the last
/// closing one.
pub proof fn the_last_bracket_ends_the_name(front: Seq<char>, rest: Seq<char>)
    requires
        !rest.contains(')'),
    ensures
        after_bracket(front.push(')') + rest) == Some(rest),
        after_bracket(rest) is None,
    decreases rest.len(),
{
    let all = front.push(')') + rest;
    if rest.len() == 0 {
        assert(all =~= front.push(')'));
        assert(rest =~= Seq::<char>::empty());
    } else {
        let less = rest.drop_last();
        assert(!less.contains(')')) by {
            if less.contains(')') {
                let i = choose|i: int| 0 <= i < less.len() && less[i] == ')';
                assert(rest[i] == ')');
            }
        }
        the_last_bracket_ends_the_name(front, less);
        assert(all.drop_last() =~= front.push(')') + less);
        assert(rest.contains(rest.last()));
        assert(all.last() == rest.last());
        assert(less.push(rest.last()) =~= rest);
    }
}

/// User and system time are added up: the words twelve and thirteen behind the command name.
pub proof fn user_and_system_time_add_up(front: Seq<char>, rest: Seq<char>, user: nat, system: nat)
    requires
        !rest.contains(')'),
        words(rest).len() >= 13,
        words(rest)[11] == crate::text::decimal(user),
        words(rest)[12] == crate::text::decimal(system),
        user + system <= u64::MAX,
    ensures
        ticks_of(front.push(')') + rest) == Some(user + system),
{
    the_last_bracket_ends_the_name(front, rest);
    crate::text::decimal_reads_back(user);
    crate::text::decimal_reads_back(system);
}

/// The time of some ticks is as many seconds as they are by the rate, in nanoseconds: it is off
/// by at most half a nanosecond and what double precision cannot tell apart.
pub proof fn ticks_are_seconds_by_the_rate(ticks: nat, ticks_per_second: i64)
    requires
        ticks <= 0x20_0000_0000_0000,
        0 < ticks_per_second <= 0x20_0000_0000_0000,
    ensures
        ({
            let (n, d) = (nanos_of(ticks, ticks_per_second), ticks_per_second as int);
            let exact = ticks * 1_000_000_000;
            let p = 0x20_0000_0000_0000int;
            &&& 2 * p * (n * d) <= 2 * (p + 1) * exact + p * d
            &&& 2 * p * (n * d) >= 2 * (p - 1) * exact - p * d
        }),
{
    let d = ticks_per_second as nat;
    doubles_grow(ticks, ticks);
    doubles_grow(d, d);
    let r = nearest_double(ticks, d);
    lemma_double_is_near(ticks, d);
    let b = (r.0 * 1_000_000_000) as nat;
    lemma_nearest_is_near(b, r.1);
    let n = nearest(b, r.1) as int;
    assert(n == nanos_of(ticks, ticks_per_second));
    lemma_cancelled(n, r.0 as int, r.1 as int, ticks as int, d as int);
}

proof fn lemma_cancelled(n: int, r0: int, r1: int, t: int, d: int)
    requires
        r1 > 0,
        d > 0,
        2 * (n * r1) <= 2 * (r0 * 1_000_000_000) + r1,
        2 * (n * r1) >= 2 * (r0 * 1_000_000_000) - r1,
        0x20_0000_0000_0000 * (r0 * d) <= 0x20_0000_0000_0001 * (t * r1),
        0x20_0000_0000_0000 * (r0 * d) >= 0x1F_FFFF_FFFF_FFFF * (t * r1),
    ensures
        2 * 0x20_0000_0000_0000 * (n * d) <= 2 * 0x20_0000_0000_0001 * (t * 1_000_000_000)
            + 0x20_0000_0000_0000 * d,
        2 * 0x20_0000_0000_0000 * (n * d) >= 2 * 0x1F_FFFF_FFFF_FFFF * (t * 1_000_000_000)
            - 0x20_0000_0000_0000 * d,
{
    let (nd, rd, tr) = (n * d, r0 * d, t * r1);
    // Both sides of the first two, times d.
    assert(2 * (nd * r1) <= 2_000_000_000 * rd + r1 * d && 2 * (nd * r1) >= 2_000_000_000 * rd - r1
        * d) by (nonlinear_arith)
        requires
            d > 0,
            nd == n * d,
            rd == r0 * d,
            2 * (n * r1) <= 2 * (r0 * 1_000_000_000) + r1,
            2 * (n * r1) >= 2 * (r0 * 1_000_000_000) - r1,
    ;
    let (ndr, rdd) = (nd * r1, r1 * d);
    let p = 0x20_0000_0000_0000int;
    assert(2 * p * ndr <= 2_000_000_000 * ((p + 1) * tr) + p * rdd);
    assert(2 * p * ndr >= 2_000_000_000 * ((p - 1) * tr) - p * rdd);
    let (low, high) = (
        2 * (p - 1) * (t * 1_000_000_000) - p * d,
        2 * (p + 1) * (t * 1_000_000_000) + p * d,
    );
    assert(low * r1 == 2_000_000_000 * ((p - 1) * tr) - p * rdd) by (nonlinear_arith)
        requires
            low == 2 * (p - 1) * (t * 1_000_000_000) - p * d,
            tr == t * r1,
            rdd == r1 * d,
    ;
    assert(high * r1 == 2_000_000_000 * ((p + 1) * tr) + p * rdd) by (nonlinear_arith)
        requires
            high == 2 * (p + 1) * (t * 1_000_000_000) + p * d,
            tr == t * r1,
            rdd == r1 * d,
    ;
    let mid = 2 * p * nd;
    assert(mid * r1 == 2 * p * ndr) by (nonlinear_arith)
        requires
            mid == 2 * p * nd,
            ndr == nd * r1,
    ;
    assert(low <= mid <= high) by (nonlinear_arith)
        requires
            r1 > 0,
            low * r1 <= mid * r1,
            mid * r1 <= high * r1,
    ;
}

/// Where the system does not say how many ticks make a second, a hundred do.
pub proof fn a_hundred_ticks_where_none_is_said(ticks: nat, ticks_per_second: i64)
    requires
        ticks_per_second <= 0,
    ensures
        nanos_of(ticks, ticks_per_second) == nanos_of(ticks, 100),
{
}

} // verus!
