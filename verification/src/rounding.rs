//! Rounding the way floating-point numbers do, in whole numbers.
use vstd::prelude::*;

verus! {

/// The nearest integer to `n / d`, and the even one where two are equally near.
pub open spec fn nearest(n: nat, d: nat) -> nat {
    let q = n / d;
    let r = n % d;
    if 2 * r > d || (2 * r == d && q % 2 == 1) {
        q + 1
    } else {
        q
    }
}

/// The distance between neighbouring double-precision numbers around `n`.
pub open spec fn spacing(n: nat) -> nat
    decreases n,
{
    if n < 0x20_0000_0000_0000 {
        1
    } else {
        2 * spacing(n / 2)
    }
}

/// The double-precision number nearest to `n`.
pub open spec fn as_double(n: nat) -> nat {
    nearest(n, spacing(n)) * spacing(n)
}

/// The double-precision number nearest to `n / d`, as a fraction. It has 53 significant bits:
/// the fraction is brought to where that many stand before the point, and rounded there.
pub open spec fn nearest_double(n: nat, d: nat) -> (nat, nat)
    decreases
            (if n >= 0x20_0000_0000_0000 * d {
                1int
            } else {
                0
            }),
            (if n >= 0x20_0000_0000_0000 * d {
                n - 0x20_0000_0000_0000 * d
            } else {
                0x20_0000_0000_0000 * d - n
            }),
{
    if n == 0 || d == 0 {
        (0, 1)
    } else if n < 0x10_0000_0000_0000 * d {
        let r = nearest_double(2 * n, d);
        (r.0, 2 * r.1)
    } else if n >= 0x20_0000_0000_0000 * d {
        let r = nearest_double(n, 2 * d);
        (2 * r.0, r.1)
    } else {
        (nearest(n, d), 1)
    }
}

/// The nearest integer to a fraction.
pub(crate) fn nearest_of(n: u128, d: u128) -> (r: u128)
    requires
        0 < d,
        d <= 0x100_0000_0000_0000_0000_0000_0000_0000,
    ensures
        r == nearest(n as nat, d as nat),
        r <= n / d + 1,
{
    let q: u128 = n / d;
    let r: u128 = n % d;
    proof {
        assert(r < d && (r > 0 ==> q < n)) by (nonlinear_arith)
            requires
                d > 0,
                q == n / d,
                r == n % d,
        ;
    }
    if 2 * r > d || (2 * r == d && q % 2 == 1) {
        q + 1
    } else {
        q
    }
}

/// The double-precision number nearest to `n`.
pub(crate) fn double_of(n: u64) -> (r: u128)
    ensures
        r == as_double(n as nat),
        r <= 0x1_0000_0000_0000_0000,
        n < 0x20_0000_0000_0000 ==> r == n,
{
    let mut gap: u128 = 1;
    let mut top: u64 = n;
    let mut steps: u8 = 0;
    assert(spacing(n as nat) == gap * spacing(top as nat));
    while top >= 0x20_0000_0000_0000
        invariant
            spacing(n as nat) == gap * spacing(top as nat),
            steps <= 11,
            (steps == 0 && gap == 1 && top < 0x1_0000_0000_0000_0000) || (steps == 1 && gap == 2
                && top < 0x8000_0000_0000_0000) || (steps == 2 && gap == 4 && top
                < 0x4000_0000_0000_0000) || (steps == 3 && gap == 8 && top < 0x2000_0000_0000_0000)
                || (steps == 4 && gap == 16 && top < 0x1000_0000_0000_0000) || (steps == 5 && gap
                == 32 && top < 0x800_0000_0000_0000) || (steps == 6 && gap == 64 && top
                < 0x400_0000_0000_0000) || (steps == 7 && gap == 128 && top < 0x200_0000_0000_0000)
                || (steps == 8 && gap == 256 && top < 0x100_0000_0000_0000) || (steps == 9 && gap
                == 512 && top < 0x80_0000_0000_0000) || (steps == 10 && gap == 1024 && top
                < 0x40_0000_0000_0000) || (steps == 11 && gap == 2048 && top
                < 0x20_0000_0000_0000),
            n < 0x20_0000_0000_0000 ==> steps == 0,
        decreases top,
    {
        proof {
            assert(gap * (2 * spacing((top / 2) as nat)) == (gap * 2) * spacing((top / 2) as nat))
                by (nonlinear_arith);
        }
        top = top / 2;
        gap = gap * 2;
        steps = steps + 1;
    }
    assert(gap * 1 == gap);
    let k: u128 = nearest_of(n as u128, gap);
    proof {
        assert(k * gap <= 0x1_0000_0000_0000_0000) by (nonlinear_arith)
            requires
                k == nearest(n as nat, gap as nat),
                n <= 0xFFFF_FFFF_FFFF_FFFF,
                gap == 1 || gap == 2 || gap == 4 || gap == 8 || gap == 16 || gap == 32 || gap == 64
                    || gap == 128 || gap == 256 || gap == 512 || gap == 1024 || gap == 2048,
        {
            let q = n as nat / gap as nat;
            let r = n as nat % gap as nat;
            assert(n == q * gap + r);
            assert(r < gap);
            if gap == 1 {
                assert(r == 0);
                assert(k == q);
            }
        }
    }
    k * gap
}

/// The double-precision number nearest to a fraction, as a fraction.
pub(crate) fn ratio_of(n: u128, d: u128) -> (r: (u128, u128))
    requires
        n <= 0x1_0000_0000_0000_0000,
        0 < d <= 0x1_0000_0000_0000_0000,
    ensures
        (r.0 as nat, r.1 as nat) == nearest_double(n as nat, d as nat),
        r.0 <= 0x2_0000_0000_0000_0000,
        0 < r.1 <= 0x20_0000_0000_0000_0000_0000_0000_0000,
{
    if n == 0 {
        return (0, 1);
    }
    let ghost goal = nearest_double(n as nat, d as nat);
    if n < 0x10_0000_0000_0000 * d {
        let mut m: u128 = n;
        let mut den: u128 = 1;
        assert(nearest_double(n as nat, d as nat).1 * 1 == nearest_double(n as nat, d as nat).1);
        while m < 0x10_0000_0000_0000 * d
            invariant
                goal == nearest_double(n as nat, d as nat),
                0 < n,
                0 < d <= 0x1_0000_0000_0000_0000,
                m < 0x20_0000_0000_0000 * d,
                m == n * den,
                0 < den <= m,
                goal.0 == nearest_double(m as nat, d as nat).0,
                goal.1 == nearest_double(m as nat, d as nat).1 * den,
            decreases 0x20_0000_0000_0000 * d - m,
        {
            let ghost next = nearest_double((2 * m) as nat, d as nat);
            assert(next.1 * 2 * den == next.1 * (den * 2)) by (nonlinear_arith);
            assert(n * den * 2 == n * (den * 2)) by (nonlinear_arith);
            m = m * 2;
            den = den * 2;
        }
        let k = nearest_of(m, d);
        proof {
            assert(m as int / (d as int) < 0x20_0000_0000_0000) by (nonlinear_arith)
                requires
                    m < 0x20_0000_0000_0000 * d,
                    d > 0,
            ;
            assert(goal == (k as nat, den as nat));
        }
        (k, den)
    } else {
        let mut e: u128 = d;
        let mut twos: u128 = 1;
        assert(1 * nearest_double(n as nat, d as nat).0 == nearest_double(n as nat, d as nat).0);
        while n >= 0x20_0000_0000_0000 * e
            invariant
                goal == nearest_double(n as nat, d as nat),
                0 < n <= 0x1_0000_0000_0000_0000,
                0 < d <= e <= 0x1_0000_0000_0000_0000,
                n >= 0x10_0000_0000_0000 * e,
                e == d * twos,
                0 < twos <= e,
                goal.0 == twos * nearest_double(n as nat, e as nat).0,
                goal.1 == nearest_double(n as nat, e as nat).1,
            decreases n - 0x10_0000_0000_0000 * e,
        {
            let ghost next = nearest_double(n as nat, (2 * e) as nat);
            assert(twos * (2 * next.0) == (twos * 2) * next.0) by (nonlinear_arith);
            assert(d * twos * 2 == d * (twos * 2)) by (nonlinear_arith);
            e = e * 2;
            twos = twos * 2;
        }
        let k = nearest_of(n, e);
        proof {
            assert(n as int / (e as int) < 0x20_0000_0000_0000) by (nonlinear_arith)
                requires
                    n < 0x20_0000_0000_0000 * e,
                    e > 0,
            ;
            assert(twos <= 0x1000);
            assert(twos * k <= 0x1000 * 0x20_0000_0000_0000) by (nonlinear_arith)
                requires
                    twos <= 0x1000,
                    k <= 0x20_0000_0000_0000,
            ;
        }
        (twos * k, 1)
    }
}

pub(crate) proof fn lemma_spacing(n: nat)
    ensures
        0 < spacing(n),
        n >= 0x1000 ==> spacing(n) <= n / 0x1000,
    decreases n,
{
    if n >= 0x20_0000_0000_0000 {
        lemma_spacing(n / 2);
    }
}


/// A smaller fraction is never rounded to a larger integer.
pub proof fn fractions_grow(a: nat, b: nat, c: nat, d: nat)
    requires
        b > 0,
        d > 0,
        a * d <= c * b,
    ensures
        nearest(a, b) <= nearest(c, d),
{
    let (q, r) = ((a / b) as int, (a % b) as int);
    let (p, s) = ((c / d) as int, (c % d) as int);
    vstd::arithmetic::div_mod::lemma_fundamental_div_mod(a as int, b as int);
    vstd::arithmetic::div_mod::lemma_fundamental_div_mod(c as int, d as int);
    assert(q <= p) by (nonlinear_arith)
        requires
            a == b * q + r,
            c == d * p + s,
            0 <= r < b,
            0 <= s < d,
            a * d <= c * b,
            b > 0,
            d > 0,
    {
        if q > p {
            assert(q >= p + 1);
            assert(b * q * d >= b * (p + 1) * d);
            assert(a * d >= b * q * d);
            assert(c * b == d * p * b + s * b);
            assert(s * b < d * b);
        }
    }
    if q == p {
        assert(r * d <= s * b) by (nonlinear_arith)
            requires
                a == b * q + r,
                c == d * q + s,
                a * d <= c * b,
        ;
        if 2 * r > b {
            assert(2 * s > d) by (nonlinear_arith)
                requires
                    r * d <= s * b,
                    2 * r > b,
                    b > 0,
                    d > 0,
            ;
        } else if 2 * r == b {
            assert(2 * s >= d) by (nonlinear_arith)
                requires
                    r * d <= s * b,
                    2 * r == b,
                    b > 0,
                    d > 0,
            ;
        }
    }
}

proof fn lemma_nearest_between(n: nat, d: nat, low: nat, high: nat)
    requires
        d > 0,
        low * d <= n,
        n < high * d,
    ensures
        low <= nearest(n, d) <= high,
{
    assert(low <= n / d && n / d < high) by (nonlinear_arith)
        requires
            d > 0,
            low * d <= n,
            n < high * d,
    ;
}

proof fn lemma_steps_of_spacing(n: nat, m: nat)
    requires
        n <= m,
    ensures
        n < 0x20_0000_0000_0000 * spacing(n),
        spacing(n) > 1 ==> 0x10_0000_0000_0000 * spacing(n) <= n,
        0 < spacing(n) <= spacing(m),
        spacing(n) == spacing(m) || 2 * spacing(n) <= spacing(m),
    decreases m,
{
    if m >= 0x20_0000_0000_0000 {
        lemma_spacing(m / 2);
        if n >= 0x20_0000_0000_0000 {
            lemma_steps_of_spacing(n / 2, m / 2);
        }
    }
}

/// A smaller integer is never rounded to a larger double-precision number.
pub proof fn doubles_grow(n: nat, m: nat)
    requires
        n <= m,
    ensures
        as_double(n) <= as_double(m),
        n > 0 ==> as_double(n) > 0,
        n <= 0x20_0000_0000_0000 ==> as_double(n) == n,
{
    lemma_steps_of_spacing(n, m);
    lemma_steps_of_spacing(m, m);
    let (s, t) = (spacing(n), spacing(m));
    if s == t {
        assert(n * s <= m * s) by (nonlinear_arith)
            requires
                n <= m,
        ;
        fractions_grow(n, s, m, s);
        assert(nearest(n, s) * s <= nearest(m, s) * s) by (nonlinear_arith)
            requires
                nearest(n, s) <= nearest(m, s),
        ;
    } else {
        lemma_nearest_between(n, s, 0, 0x20_0000_0000_0000);
        assert(m < 0x20_0000_0000_0000 * t);
        lemma_nearest_between(m, t, 0x10_0000_0000_0000, 0x20_0000_0000_0000);
        let (x, y) = (nearest(n, s), nearest(m, t));
        assert(x * s <= 0x20_0000_0000_0000 * s) by (nonlinear_arith)
            requires
                x <= 0x20_0000_0000_0000,
        ;
        assert(y * t >= 0x10_0000_0000_0000 * t) by (nonlinear_arith)
            requires
                y >= 0x10_0000_0000_0000,
        ;
    }
    if n > 0 {
        if s > 1 {
            lemma_nearest_between(n, s, 0x10_0000_0000_0000, 0x20_0000_0000_0000);
            assert(nearest(n, s) * s > 0) by (nonlinear_arith)
                requires
                    nearest(n, s) >= 0x10_0000_0000_0000,
                    s > 0,
            ;
        } else {
            assert(nearest(n, 1) == n);
        }
    }
    if n == 0x20_0000_0000_0000 {
        assert(spacing(n / 2) == 1);
        assert(s == 2);
        assert(nearest(n, 2) == 0x10_0000_0000_0000);
    } else if n < 0x20_0000_0000_0000 {
        assert(nearest(n, 1) == n);
    }
}

/// Where the nearest double-precision number lies, by where the fraction does.
proof fn lemma_double_between(n: nat, d: nat)
    requires
        n > 0,
        d > 0,
    ensures
        ({
            let r = nearest_double(n, d);
            &&& r.1 > 0
            &&& n < 0x20_0000_0000_0000 * d ==> r.0 <= 0x20_0000_0000_0000 * r.1
            &&& n < 0x10_0000_0000_0000 * d ==> r.0 <= 0x10_0000_0000_0000 * r.1
            &&& n >= 0x10_0000_0000_0000 * d ==> r.0 >= 0x10_0000_0000_0000 * r.1
            &&& n >= 0x20_0000_0000_0000 * d ==> r.0 >= 0x20_0000_0000_0000 * r.1
        }),
    decreases
            (if n >= 0x20_0000_0000_0000 * d {
                1int
            } else {
                0
            }),
            (if n >= 0x20_0000_0000_0000 * d {
                n - 0x20_0000_0000_0000 * d
            } else {
                0x20_0000_0000_0000 * d - n
            }),
{
    if n < 0x10_0000_0000_0000 * d {
        lemma_double_between(2 * n, d);
    } else if n >= 0x20_0000_0000_0000 * d {
        lemma_double_between(n, 2 * d);
    } else {
        lemma_nearest_between(n, d, 0x10_0000_0000_0000, 0x20_0000_0000_0000);
    }
}

/// A smaller quotient is never rounded to a larger double-precision number.
pub proof fn quotients_grow(n: nat, m: nat, d: nat)
    requires
        n <= m,
        d > 0,
    ensures
        ({
            let (r, s) = (nearest_double(n, d), nearest_double(m, d));
            &&& r.1 > 0
            &&& s.1 > 0
            &&& r.0 * s.1 <= s.0 * r.1
        }),
    decreases
            (if m >= 0x20_0000_0000_0000 * d {
                1int
            } else {
                0
            }),
            (if m >= 0x20_0000_0000_0000 * d {
                m - 0x20_0000_0000_0000 * d
            } else {
                0x20_0000_0000_0000 * d - m
            }),
{
    let (r, s) = (nearest_double(n, d), nearest_double(m, d));
    if m > 0 {
        lemma_double_between(m, d);
    }
    if n == 0 {
        assert(r.0 == 0);
        assert(r.0 * s.1 <= s.0 * r.1) by (nonlinear_arith)
            requires
                r.0 == 0,
        ;
    } else {
        lemma_double_between(n, d);
        if m >= 0x20_0000_0000_0000 * d && n >= 0x20_0000_0000_0000 * d {
            quotients_grow(n, m, 2 * d);
            let (x, y) = (nearest_double(n, 2 * d), nearest_double(m, 2 * d));
            assert(r == (2 * x.0, x.1) && s == (2 * y.0, y.1));
            assert(r.0 * s.1 <= s.0 * r.1) by (nonlinear_arith)
                requires
                    x.0 * y.1 <= y.0 * x.1,
                    r == (2 * x.0, x.1),
                    s == (2 * y.0, y.1),
            ;
        } else if m >= 0x20_0000_0000_0000 * d {
            lemma_apart(r, s, 0x20_0000_0000_0000);
        } else if m >= 0x10_0000_0000_0000 * d && n >= 0x10_0000_0000_0000 * d {
            assert(n * d <= m * d) by (nonlinear_arith)
                requires
                    n <= m,
            ;
            fractions_grow(n, d, m, d);
            assert(r == (nearest(n, d), 1nat) && s == (nearest(m, d), 1nat));
            assert(r.0 * s.1 <= s.0 * r.1) by (nonlinear_arith)
                requires
                    r.0 <= s.0,
                    r.1 == 1,
                    s.1 == 1,
            ;
        } else if m >= 0x10_0000_0000_0000 * d {
            lemma_apart(r, s, 0x10_0000_0000_0000);
        } else {
            quotients_grow(2 * n, 2 * m, d);
            let (x, y) = (nearest_double(2 * n, d), nearest_double(2 * m, d));
            assert(r == (x.0, 2 * x.1) && s == (y.0, 2 * y.1));
            assert(r.0 * s.1 <= s.0 * r.1) by (nonlinear_arith)
                requires
                    x.0 * y.1 <= y.0 * x.1,
                    r == (x.0, 2 * x.1),
                    s == (y.0, 2 * y.1),
            ;
        }
    }
}

proof fn lemma_apart(r: (nat, nat), s: (nat, nat), k: nat)
    requires
        r.0 <= k * r.1,
        s.0 >= k * s.1,
    ensures
        r.0 * s.1 <= s.0 * r.1,
{
    assert(r.0 * s.1 <= s.0 * r.1) by (nonlinear_arith)
        requires
            r.0 <= k * r.1,
            s.0 >= k * s.1,
    {
        assert(r.0 * s.1 <= k * r.1 * s.1);
        assert(s.0 * r.1 >= k * s.1 * r.1);
    }
}

/// How far a fraction can lie from the nearest integer.
pub(crate) proof fn lemma_nearest_is_near(n: nat, d: nat)
    requires
        d > 0,
    ensures
        2 * (nearest(n, d) * d) <= 2 * n + d,
        2 * (nearest(n, d) * d) >= 2 * n - d,
{
    let (q, r) = ((n / d) as int, (n % d) as int);
    vstd::arithmetic::div_mod::lemma_fundamental_div_mod(n as int, d as int);
    assert(d * q == q * d) by (nonlinear_arith);
    assert((q + 1) * d == q * d + d) by (nonlinear_arith);
}

/// How far a quotient can lie from the nearest double-precision number.
pub(crate) proof fn lemma_double_is_near(n: nat, d: nat)
    requires
        d > 0,
    ensures
        ({
            let r = nearest_double(n, d);
            let (x, y) = (r.0 * d, n * r.1);
            &&& r.1 > 0
            &&& 0x20_0000_0000_0000 * x <= 0x20_0000_0000_0001 * y
            &&& 0x20_0000_0000_0000 * x >= 0x1F_FFFF_FFFF_FFFF * y
        }),
    decreases
            (if n >= 0x20_0000_0000_0000 * d {
                1int
            } else {
                0
            }),
            (if n >= 0x20_0000_0000_0000 * d {
                n - 0x20_0000_0000_0000 * d
            } else {
                0x20_0000_0000_0000 * d - n
            }),
{
    let r = nearest_double(n, d);
    if n == 0 {
        assert(r.0 * d == 0 && n * r.1 == 0) by (nonlinear_arith)
            requires
                r.0 == 0,
                n == 0,
        ;
    } else if n < 0x10_0000_0000_0000 * d {
        lemma_double_is_near(2 * n, d);
        let t = nearest_double(2 * n, d);
        assert(r == (t.0, 2 * t.1));
        assert(2 * n * t.1 == n * r.1) by (nonlinear_arith)
            requires
                r.1 == 2 * t.1,
        ;
    } else if n >= 0x20_0000_0000_0000 * d {
        lemma_double_is_near(n, 2 * d);
        let t = nearest_double(n, 2 * d);
        assert(r == (2 * t.0, t.1));
        assert(t.0 * (2 * d) == r.0 * d) by (nonlinear_arith)
            requires
                r.0 == 2 * t.0,
        ;
    } else {
        lemma_nearest_is_near(n, d);
        assert(r == (nearest(n, d), 1nat));
        assert(n * r.1 == n) by (nonlinear_arith)
            requires
                r.1 == 1,
        ;
    }
}

/// No integer lies nearer to a fraction than the nearest one, and where another lies as near,
/// the nearest one is even.
pub proof fn no_integer_is_nearer(n: nat, d: nat, k: int)
    requires
        d > 0,
    ensures
        ({
            let (ours, theirs) = (nearest(n, d) * d - n, k * d - n);
            let (a, b) = (
                if ours < 0 {
                    -ours
                } else {
                    ours
                },
                if theirs < 0 {
                    -theirs
                } else {
                    theirs
                },
            );
            &&& a <= b
            &&& a == b && k != nearest(n, d) ==> nearest(n, d) % 2 == 0
        }),
{
    let q = n / d;
    let r = n % d;
    vstd::arithmetic::div_mod::lemma_fundamental_div_mod(n as int, d as int);
    assert(d * q == q * d) by (nonlinear_arith);
    assert((q + 1) * d == q * d + d) by (nonlinear_arith);
    if k <= q {
        assert(k * d <= q * d) by (nonlinear_arith)
            requires
                k <= q,
                d > 0,
        ;
        if k < q {
            assert(k * d <= q * d - d) by (nonlinear_arith)
                requires
                    k <= q - 1,
                    d > 0,
            ;
        }
    } else {
        assert(k * d >= q * d + d) by (nonlinear_arith)
            requires
                k >= q + 1,
                d > 0,
        ;
        if k > q + 1 {
            assert(k * d >= q * d + 2 * d) by (nonlinear_arith)
                requires
                    k >= q + 2,
                    d > 0,
            ;
        }
    }
}

/// A double-precision number is off by at most one part in two to the fifty-third of it.
pub proof fn a_double_is_near(n: nat, d: nat)
    requires
        d > 0,
    ensures
        ({
            let r = nearest_double(n, d);
            let (x, y) = (r.0 * d, n * r.1);
            &&& r.1 > 0
            &&& 0x20_0000_0000_0000 * x <= 0x20_0000_0000_0001 * y
            &&& 0x20_0000_0000_0000 * x >= 0x1F_FFFF_FFFF_FFFF * y
        }),
{
    lemma_double_is_near(n, d);
}

/// A double-precision number has 53 significant bits: it is a multiple of the distance to its
/// neighbours, no further than half of it from the number, and the distance is at most one part
/// in two to the fifty-second of the number.
pub proof fn a_double_has_53_bits(n: nat)
    ensures
        as_double(n) == (as_double(n) / spacing(n)) * spacing(n),
        2 * as_double(n) <= 2 * n + spacing(n),
        2 * as_double(n) >= 2 * n - spacing(n),
        n < 0x20_0000_0000_0000 ==> spacing(n) == 1,
        n >= 0x20_0000_0000_0000 ==> 0x10_0000_0000_0000 * spacing(n) <= n
            < 0x20_0000_0000_0000 * spacing(n),
    decreases n,
{
    let s = spacing(n);
    lemma_spacing(n);
    lemma_nearest_is_near(n, s);
    let k = nearest(n, s);
    vstd::arithmetic::div_mod::lemma_div_multiples_vanish(k as int, s as int);
    assert(k * s == s * k) by (nonlinear_arith);
    if n >= 0x20_0000_0000_0000 {
        a_double_has_53_bits(n / 2);
    }
}

} // verus!
