use vstd::prelude::*;

use vstd::arithmetic::power2::{lemma_pow2_adds, lemma_pow2_pos, lemma_pow2_strictly_increases, lemma_pow2_unfold, pow2};

use crate::text::round_half_even;

verus! {

// A path's presence is printed as a double would print it: `count` and `total` are
// turned into doubles, divided, multiplied by 100, and the double that results is
// written with one decimal. Doubles are modelled exactly here, as rationals rounded to
// 53 significant bits, ties to even (IEEE-754 binary64 round-to-nearest, whose range
// these values never leave).

/// `floor(log2(n))` for `n >= 1`.
pub open spec fn log2_floor(n: nat) -> nat
    decreases n,
{
    if n <= 1 {
        0
    } else {
        1 + log2_floor(n / 2)
    }
}

/// The least `k` with `n * 2^k >= d` (for `n >= 1`).
pub open spec fn lift(n: nat, d: nat) -> nat
    decreases (if n >= d { 0int } else { d - n }),
{
    if n == 0 || n >= d {
        0
    } else {
        1 + lift(2 * n, d)
    }
}

/// `floor(log2(n / d))` for `n, d >= 1`.
pub open spec fn log2_ratio(n: nat, d: nat) -> int {
    if n >= d {
        log2_floor(n / d) as int
    } else {
        -(lift(n, d) as int)
    }
}

/// The double nearest to `n / d` (ties to even), as `(m, k)` standing for `m / 2^k`.
pub open spec fn round53(n: nat, d: nat) -> (nat, nat) {
    if n == 0 {
        (0, 0)
    } else {
        let e = log2_ratio(n, d) - 52;
        if e >= 0 {
            (round_half_even(n, d * pow2(e as nat)) * pow2(e as nat), 0)
        } else {
            (round_half_even(n * pow2((-e) as nat), d), (-e) as nat)
        }
    }
}

/// Tenths of a percent of `count` among `total` lines (at least one) as the double
/// computation `count as f64 / total as f64 * 100.0`, written with one decimal,
/// gives them: each conversion, the quotient and the product rounded to a double, the
/// last one rounded to tenths half to even.
pub open spec fn presence_tenths(count: u64, total: u64) -> nat {
    let y: nat = if total == 0 { 1 } else { total as nat };
    let a = round53(count as nat, 1);
    let b = round53(y, 1);
    let q = round53(a.0 * pow2(b.1), b.0 * pow2(a.1));
    let p = round53(q.0 * 100, pow2(q.1));
    round_half_even(p.0 * 10, pow2(p.1))
}

proof fn lemma_div_scale(n: nat, d: nat, c: nat)
    requires
        d > 0,
        c > 0,
    ensures
        (n * c) / (d * c) == n / d,
        (n * c) % (d * c) == (n % d) * c,
{
    let q = n / d;
    let r = n % d;
    assert(n == q * d + r && 0 <= r < d) by {
        vstd::arithmetic::div_mod::lemma_fundamental_div_mod(n as int, d as int);
    }
    assert(n * c == q * (d * c) + r * c && 0 <= r * c < d * c) by (nonlinear_arith)
        requires
            n == q * d + r,
            0 <= r < d,
            c > 0,
    ;
    vstd::arithmetic::div_mod::lemma_fundamental_div_mod_converse(
        (n * c) as int,
        (d * c) as int,
        q as int,
        (r * c) as int,
    );
}

proof fn lemma_rhe_scale(n: nat, d: nat, c: nat)
    requires
        d > 0,
        c > 0,
    ensures
        round_half_even(n * c, d * c) == round_half_even(n, d),
{
    let q = n / d;
    let r = n % d;
    assert(n == q * d + r && 0 <= r < d) by {
        vstd::arithmetic::div_mod::lemma_fundamental_div_mod(n as int, d as int);
    }
    assert(n * c == q * (d * c) + r * c && 0 <= r * c < d * c) by (nonlinear_arith)
        requires
            n == q * d + r,
            0 <= r < d,
            c > 0,
    ;
    vstd::arithmetic::div_mod::lemma_fundamental_div_mod_converse(
        (n * c) as int,
        (d * c) as int,
        q as int,
        (r * c) as int,
    );
    assert((2 * (r * c) > d * c) == (2 * r > d) && (2 * (r * c) < d * c) == (2 * r < d)) by (nonlinear_arith)
        requires
            c > 0,
    ;
}

proof fn lemma_rhe_one(n: nat)
    ensures
        round_half_even(n, 1) == n,
{
}

proof fn lemma_rhe_below(n: nat, d: nat, m: nat)
    requires
        d > 0,
        n < m * d,
    ensures
        round_half_even(n, d) <= m,
{
    assert(n / d < m) by (nonlinear_arith)
        requires
            d > 0,
            n < m * d,
    {
        vstd::arithmetic::div_mod::lemma_fundamental_div_mod(n as int, d as int);
        assert(n >= (n / d) * d);
        if n / d >= m {
            assert((n / d) * d >= m * d);
        }
    }
}

proof fn lemma_log2_floor_bounds(n: nat)
    requires
        n >= 1,
    ensures
        pow2(log2_floor(n)) <= n < pow2(log2_floor(n) + 1),
    decreases n,
{
    lemma_pow2_unfold(log2_floor(n) + 1);
    if n > 1 {
        lemma_log2_floor_bounds(n / 2);
        lemma_pow2_unfold(log2_floor(n));
    } else {
        vstd::arithmetic::power2::lemma2_to64();
    }
}

proof fn lemma_lift_bounds(n: nat, d: nat)
    requires
        n >= 1,
        d >= 1,
    ensures
        n * pow2(lift(n, d)) >= d,
        lift(n, d) > 0 ==> n * pow2((lift(n, d) - 1) as nat) < d,
    decreases (if n >= d { 0int } else { d - n }),
{
    if n >= d {
        vstd::arithmetic::power2::lemma2_to64();
    } else {
        lemma_lift_bounds(2 * n, d);
        let k = lift(2 * n, d);
        lemma_pow2_unfold(k + 1);
        assert(n * pow2(k + 1) == (2 * n) * pow2(k)) by (nonlinear_arith)
            requires
                pow2(k + 1) == 2 * pow2(k),
        ;
        if k > 0 {
            lemma_pow2_unfold(k);
            assert(n * pow2(k) == (2 * n) * pow2((k - 1) as nat)) by (nonlinear_arith)
                requires
                    pow2(k) == 2 * pow2((k - 1) as nat),
            ;
        } else {
            vstd::arithmetic::power2::lemma2_to64();
        }
    }
}

proof fn lemma_lift_scale(n: nat, d: nat, c: nat)
    requires
        n >= 1,
        c >= 1,
    ensures
        lift(n * c, d * c) == lift(n, d),
    decreases (if n >= d { 0int } else { d - n }),
{
    assert(n * c >= 1 && (n * c >= d * c) == (n >= d) && 2 * (n * c) == (2 * n) * c) by (nonlinear_arith)
        requires
            n >= 1,
            c >= 1,
    ;
    if n < d {
        lemma_lift_scale(2 * n, d, c);
    }
}

proof fn lemma_round53_scale(n: nat, d: nat, c: nat)
    requires
        d >= 1,
        c >= 1,
    ensures
        round53(n * c, d * c) == round53(n, d),
{
    if n > 0 {
        assert((n * c >= d * c) == (n >= d) && n * c > 0) by (nonlinear_arith)
            requires
                n > 0,
                c >= 1,
        ;
        if n >= d {
            lemma_div_scale(n, d, c);
        } else {
            lemma_lift_scale(n, d, c);
        }
        let e = log2_ratio(n, d) - 52;
        assert(log2_ratio(n * c, d * c) == log2_ratio(n, d));
        if e >= 0 {
            let p = pow2(e as nat);
            lemma_pow2_pos(e as nat);
            assert(d * c * p == (d * p) * c && d * p > 0) by (nonlinear_arith)
                requires
                    d >= 1,
                    p > 0,
            ;
            lemma_rhe_scale(n, d * p, c);
        } else {
            let p = pow2((-e) as nat);
            assert(n * c * p == (n * p) * c) by (nonlinear_arith);
            lemma_rhe_scale(n * p, d, c);
        }
    } else {
        assert(n * c == 0);
    }
}

proof fn lemma_pow2_128()
    ensures
        pow2(64) == 0x1_0000_0000_0000_0000,
        pow2(128) == 0x1_0000_0000_0000_0000 * 0x1_0000_0000_0000_0000nat,
{
    vstd::arithmetic::power2::lemma2_to64();
    lemma_pow2_adds(64, 64);
}

proof fn lemma_pow2_mono(a: nat, b: nat)
    requires
        a <= b,
    ensures
        pow2(a) <= pow2(b),
{
    if a < b {
        lemma_pow2_strictly_increases(a, b);
    }
}

proof fn lemma_pow2_126()
    ensures
        pow2(126) == 0x4000_0000_0000_0000_0000_0000_0000_0000,
{
    vstd::arithmetic::power2::lemma2_to64();
    vstd::arithmetic::power2::lemma2_to64_rest();
    lemma_pow2_adds(62, 64);
    assert(pow2(62) * pow2(64) == 0x4000_0000_0000_0000_0000_0000_0000_0000) by (nonlinear_arith)
        requires
            pow2(62) == 0x4000_0000_0000_0000,
            pow2(64) == 0x1_0000_0000_0000_0000,
    ;
}

/// `2^k`.
fn pow2_exec(k: u32) -> (r: u128)
    requires
        k <= 127,
    ensures
        r == pow2(k as nat),
{
    let mut r: u128 = 1;
    let mut i: u32 = 0;
    proof {
        vstd::arithmetic::power2::lemma2_to64();
    }
    while i < k
        invariant
            i <= k <= 127,
            r == pow2(i as nat),
        decreases k - i,
    {
        proof {
            lemma_pow2_unfold((i + 1) as nat);
            lemma_pow2_mono((i + 1) as nat, 127);
            lemma_pow2_strictly_increases(127, 128);
            lemma_pow2_128();
        }
        r = r * 2;
        i = i + 1;
    }
    r
}

/// `floor(log2(n))`.
fn log2_floor_exec(n: u128) -> (r: u32)
    requires
        n >= 1,
    ensures
        r == log2_floor(n as nat),
{
    let mut cur = n;
    let mut l: u32 = 0;
    proof {
        lemma_log2_floor_bounds(n as nat);
        lemma_pow2_128();
        if log2_floor(n as nat) >= 128 {
            lemma_pow2_mono(128, log2_floor(n as nat));
        }
    }
    while cur > 1
        invariant
            cur >= 1,
            l + log2_floor(cur as nat) == log2_floor(n as nat),
            log2_floor(n as nat) < 128,
        decreases cur,
    {
        cur = cur / 2;
        l = l + 1;
    }
    l
}

/// `n / d`, rounded half to even.
fn rhe(n: u128, d: u128) -> (r: u128)
    requires
        d > 0,
        n <= 0x4000_0000_0000_0000_0000_0000_0000_0000,
        d <= 0x4000_0000_0000_0000_0000_0000_0000_0000,
    ensures
        r == round_half_even(n as nat, d as nat),
{
    let q = n / d;
    let r = n % d;
    if 2 * r > d {
        q + 1
    } else if 2 * r < d {
        q
    } else if q % 2 == 0 {
        q
    } else {
        q + 1
    }
}

/// The least `k` with `n * 2^k >= d`.
fn lift_exec(n: u128, d: u128) -> (r: u32)
    requires
        n >= 1,
        1 <= d <= 0x4000_0000_0000_0000_0000_0000_0000_0000,
    ensures
        r == lift(n as nat, d as nat),
        r <= 126,
{
    let mut cur = n;
    let mut j: u32 = 0;
    proof {
        vstd::arithmetic::power2::lemma2_to64();
    }
    while cur < d
        invariant
            n >= 1,
            d <= 0x4000_0000_0000_0000_0000_0000_0000_0000,
            cur == n * pow2(j as nat),
            j + lift(cur as nat, d as nat) == lift(n as nat, d as nat),
            j <= 126,
            cur >= 1,
            j > 0 ==> n * pow2((j - 1) as nat) < d,
        decreases 126 - j,
    {
        proof {
            lemma_pow2_unfold((j + 1) as nat);
            assert(n * pow2((j + 1) as nat) == 2 * cur) by (nonlinear_arith)
                requires
                    cur == n * pow2(j as nat),
                    pow2((j + 1) as nat) == 2 * pow2(j as nat),
            ;
            assert(pow2(j as nat) <= cur) by (nonlinear_arith)
                requires
                    cur == n * pow2(j as nat),
                    n >= 1,
            ;
            lemma_pow2_126();
            if j >= 126 {
                lemma_pow2_mono(126, j as nat);
                assert(false);
            }
            assert(lift(cur as nat, d as nat) == 1 + lift(2 * cur as nat, d as nat));
        }
        cur = 2 * cur;
        j = j + 1;
    }
    j
}

proof fn lemma_rhe_at_least(n: nat, d: nat, m: nat)
    requires
        d > 0,
        n >= m * d,
    ensures
        round_half_even(n, d) >= m,
{
    assert(n / d >= m) by (nonlinear_arith)
        requires
            d > 0,
            n >= m * d,
    {
        vstd::arithmetic::div_mod::lemma_fundamental_div_mod(n as int, d as int);
        if n / d < m {
            assert((n / d) * d + n % d < m * d);
        }
    }
}

proof fn lemma_ratio_bounds(n: nat, d: nat)
    requires
        n >= d >= 1,
    ensures
        d * pow2(log2_floor(n / d)) <= n < d * pow2(log2_floor(n / d) + 1),
        log2_floor(n / d) <= log2_floor(n),
        n / d >= 1,
{
    let q = n / d;
    let l = log2_floor(q);
    vstd::arithmetic::div_mod::lemma_fundamental_div_mod(n as int, d as int);
    assert(q >= 1) by (nonlinear_arith)
        requires
            n == q * d + n % d,
            n % d < d,
            n >= d,
            q >= 0,
            d >= 1,
    {
        if q == 0 {
            assert(q * d == 0);
        }
    }
    lemma_log2_floor_bounds(q);
    lemma_log2_floor_bounds(n);
    vstd::arithmetic::div_mod::lemma_fundamental_div_mod(n as int, d as int);
    assert(d * pow2(l) <= n < d * pow2(l + 1)) by (nonlinear_arith)
        requires
            n == q * d + n % d,
            0 <= n % d < d,
            pow2(l) <= q < pow2(l + 1),
    ;
    if l > log2_floor(n) {
        lemma_pow2_mono(log2_floor(n) + 1, l);
        assert(q <= n) by (nonlinear_arith)
            requires
                n == q * d + n % d,
                0 <= n % d,
                d >= 1,
        ;
    }
}

/// A count as a double: `(m, k)` equal to `round53(x, 1)`, and the double's value
/// `m / 2^k`, which is an integer.
fn to_double(x: u64) -> (r: (u128, u32, u128))
    requires
        x >= 1,
    ensures
        (r.0 as nat, r.1 as nat) == round53(x as nat, 1),
        r.0 == r.2 * pow2(r.1 as nat),
        1 <= r.2 <= 0x1_0000_0000_0000_0000,
{
    let l = log2_floor_exec(x as u128);
    proof {
        lemma_log2_floor_bounds(x as nat);
        lemma_pow2_128();
        if l >= 64 {
            lemma_pow2_mono(64, l as nat);
        }
        assert(x as nat / 1 == x as nat);
        vstd::arithmetic::power2::lemma2_to64();
        vstd::arithmetic::power2::lemma2_to64_rest();
    }
    if l >= 52 {
        let e = l - 52;
        let p = pow2_exec(e);
        proof {
            lemma_pow2_adds(53, e as nat);
            lemma_pow2_adds(52, e as nat);
            lemma_pow2_mono(e as nat, 11);
            assert(1 * pow2(e as nat) == pow2(e as nat));
            lemma_rhe_below(x as nat, p as nat, pow2(53));
            lemma_rhe_at_least(x as nat, p as nat, pow2(52));
        }
        let m = rhe(x as u128, p);
        proof {
            assert(m * p <= 0x1_0000_0000_0000_0000) by (nonlinear_arith)
                requires
                    m <= 0x20_0000_0000_0000,
                    p <= 2048,
            ;
            assert(m * p >= 1) by (nonlinear_arith)
                requires
                    m >= 1,
                    p >= 1,
            ;
        }
        let a = m * p;
        (a, 0, a)
    } else {
        let t = 52 - l;
        let p = pow2_exec(t);
        proof {
            lemma_pow2_adds(l as nat + 1, t as nat);
            lemma_pow2_pos(t as nat);
            assert(l as nat + 1 + t as nat == 53);
            assert(x * p < 0x20_0000_0000_0000) by (nonlinear_arith)
                requires
                    x < pow2(l as nat + 1),
                    pow2(l as nat + 1) * p == 0x20_0000_0000_0000,
                    p > 0,
            ;
            lemma_rhe_one((x * p) as nat);
        }
        let a = (x as u128) * p;
        (a, t, x as u128)
    }
}

/// Rounds `n / d` to a double when the two stay within 64 bits (see `round53`).
fn round53_int(n: u128, d: u128) -> (r: (u128, u32))
    requires
        1 <= n <= 0x1_0000_0000_0000_0000,
        1 <= d <= 0x1_0000_0000_0000_0000,
    ensures
        (r.0 as nat, r.1 as nat) == round53(n as nat, d as nat),
        1 <= r.0 <= 0x4_0000_0000_0000_0000,
        r.1 <= 117,
        r.1 > 0 ==> r.0 <= 0x20_0000_0000_0000,
{
    proof {
        vstd::arithmetic::power2::lemma2_to64();
        vstd::arithmetic::power2::lemma2_to64_rest();
        lemma_pow2_128();
        lemma_pow2_126();
    }
    if n >= d {
        proof {
            lemma_ratio_bounds(n as nat, d as nat);
        }
        let l = log2_floor_exec(n / d);
        proof {
            lemma_log2_floor_bounds(n as nat);
            if l >= 65 {
                lemma_pow2_mono(65, log2_floor(n as nat));
                lemma_pow2_adds(64, 1);
            }
        }
        if l >= 52 {
            let e = l - 52;
            let p = pow2_exec(e);
            proof {
                lemma_pow2_adds(53, e as nat);
                lemma_pow2_adds(52, e as nat);
                lemma_pow2_mono(e as nat, 12);
                lemma_pow2_pos(e as nat);
                assert(d * p <= n && n < 0x20_0000_0000_0000 * (d * p) && n >= 0x10_0000_0000_0000 * (d * p))
                    by (nonlinear_arith)
                    requires
                        d * pow2(l as nat) <= n < d * pow2(l as nat + 1),
                        pow2(l as nat) == 0x10_0000_0000_0000 * p,
                        pow2(l as nat + 1) == 0x20_0000_0000_0000 * p,
                ;
                lemma_rhe_below(n as nat, (d * p) as nat, pow2(53));
                lemma_rhe_at_least(n as nat, (d * p) as nat, pow2(52));
            }
            let dp = d * p;
            let m = rhe(n, dp);
            proof {
                assert(m * p <= 0x4_0000_0000_0000_0000 && m * p >= 1) by (nonlinear_arith)
                    requires
                        1 <= m <= 0x20_0000_0000_0000,
                        1 <= p <= 4096,
                ;
            }
            (m * p, 0)
        } else {
            let t = 52 - l;
            let p = pow2_exec(t);
            proof {
                lemma_pow2_adds(l as nat + 1, t as nat);
                lemma_pow2_adds(l as nat, t as nat);
                lemma_pow2_pos(t as nat);
                assert(l as nat + t as nat == 52);
                assert(n * p < 0x20_0000_0000_0000 * d && n * p >= 0x10_0000_0000_0000 * d) by (nonlinear_arith)
                    requires
                        d * pow2(l as nat) <= n < d * pow2(l as nat + 1),
                        pow2(l as nat) * p == 0x10_0000_0000_0000,
                        pow2(l as nat + 1) * p == 0x20_0000_0000_0000,
                        p > 0,
                ;
                lemma_rhe_below((n * p) as nat, d as nat, pow2(53));
                lemma_rhe_at_least((n * p) as nat, d as nat, pow2(52));
            }
            let np = n * p;
            let m = rhe(np, d);
            (m, t)
        }
    } else {
        let j = lift_exec(n, d);
        proof {
            lemma_lift_bounds(n as nat, d as nat);
            assert(j >= 1);
            if j >= 66 {
                lemma_pow2_mono(64, (j - 1) as nat);
                assert(n * pow2((j - 1) as nat) >= pow2(64)) by (nonlinear_arith)
                    requires
                        n >= 1,
                        pow2((j - 1) as nat) >= pow2(64),
                ;
            }
        }
        let t = j + 52;
        let p = pow2_exec(t);
        proof {
            lemma_pow2_adds(j as nat, 52);
            lemma_pow2_adds((j - 1) as nat, 53);
            assert((j - 1) as nat + 53 == t);
            assert(n * p < 0x20_0000_0000_0000 * d && n * p >= 0x10_0000_0000_0000 * d) by (nonlinear_arith)
                requires
                    n * pow2(j as nat) >= d,
                    n * pow2((j - 1) as nat) < d,
                    p == pow2(j as nat) * 0x10_0000_0000_0000,
                    p == pow2((j - 1) as nat) * 0x20_0000_0000_0000,
            ;
            lemma_rhe_below((n * p) as nat, d as nat, pow2(53));
            lemma_rhe_at_least((n * p) as nat, d as nat, pow2(52));
        }
        let np = n * p;
        let m = rhe(np, d);
        (m, t)
    }
}

proof fn lemma_rhe_small(a: nat, d: nat)
    requires
        2 * a < d,
    ensures
        round_half_even(a, d) == 0,
{
    vstd::arithmetic::div_mod::lemma_fundamental_div_mod_converse(a as int, d as int, 0, a as int);
}

proof fn lemma_scale_bounds(lo: nat, x: nat, hi: nat, a: nat, b: nat, p: nat, d: nat)
    requires
        d * a <= x < d * b,
        a * p == lo,
        b * p == hi,
        p > 0,
    ensures
        d * lo <= x * p < d * hi,
{
    assert(d * a * p <= x * p < d * b * p) by (nonlinear_arith)
        requires
            d * a <= x < d * b,
            p > 0,
    ;
    assert(d * a * p == d * lo && d * b * p == d * hi) by (nonlinear_arith)
        requires
            a * p == lo,
            b * p == hi,
    ;
}

/// `round_half_even(n * 2^t, 2^k)` for a quotient known to lie in `[2^52, 2^53]`.
fn scaled_rhe(n: u128, k: u32, t: u32) -> (r: u128)
    requires
        1 <= n <= 0x200_0000_0000_0000_0000,
        k <= 117,
        t <= k + 52,
        n * pow2(t as nat) < pow2(k as nat) * pow2(53),
        n * pow2(t as nat) >= pow2(k as nat) * pow2(52),
    ensures
        r == round_half_even(n as nat * pow2(t as nat), pow2(k as nat)),
        1 <= r <= 0x20_0000_0000_0000,
{
    proof {
        vstd::arithmetic::power2::lemma2_to64();
        vstd::arithmetic::power2::lemma2_to64_rest();
        lemma_pow2_126();
        lemma_pow2_pos(k as nat);
        lemma_pow2_pos(t as nat);
        lemma_rhe_below(n as nat * pow2(t as nat), pow2(k as nat), pow2(53));
        lemma_rhe_at_least(n as nat * pow2(t as nat), pow2(k as nat), pow2(52));
    }
    if t <= k {
        let p = pow2_exec(k - t);
        proof {
            lemma_pow2_adds((k - t) as nat, t as nat);
            lemma_pow2_mono((k - t) as nat, 117);
            lemma_pow2_mono(117, 126);
            lemma_rhe_scale(n as nat, p as nat, pow2(t as nat));
        }
        rhe(n, p)
    } else {
        let p = pow2_exec(t - k);
        proof {
            lemma_pow2_adds((t - k) as nat, k as nat);
            lemma_pow2_pos((t - k) as nat);
            assert(n * pow2(t as nat) == (n * p) * pow2(k as nat)) by (nonlinear_arith)
                requires
                    pow2(t as nat) == p * pow2(k as nat),
            ;
            assert(n * p < pow2(53)) by (nonlinear_arith)
                requires
                    (n * p) * pow2(k as nat) < pow2(k as nat) * pow2(53),
                    pow2(k as nat) > 0,
            ;
            assert(1 * pow2(k as nat) == pow2(k as nat));
            lemma_rhe_scale((n * p) as nat, 1, pow2(k as nat));
            lemma_rhe_one((n * p) as nat);
        }
        n * p
    }
}

/// Rounds `n / 2^k` to a double (see `round53`).
fn round53_pow2(n: u128, k: u32) -> (r: (u128, u32))
    requires
        1 <= n <= 0x200_0000_0000_0000_0000,
        k <= 117,
    ensures
        (r.0 as nat, r.1 as nat) == round53(n as nat, pow2(k as nat)),
        r.0 <= 0x400_0000_0000_0000_0000,
        r.1 > 0 ==> r.0 <= 0x20_0000_0000_0000,
        r.1 <= 169,
{
    proof {
        vstd::arithmetic::power2::lemma2_to64();
        vstd::arithmetic::power2::lemma2_to64_rest();
        lemma_pow2_126();
        lemma_pow2_mono(k as nat, 126);
        lemma_pow2_pos(k as nat);
    }
    let dk = pow2_exec(k);
    if n >= dk {
        proof {
            lemma_ratio_bounds(n as nat, dk as nat);
            lemma_log2_floor_bounds(n as nat);
            if log2_floor(n as nat) >= 74 {
                lemma_pow2_mono(74, log2_floor(n as nat));
                lemma_pow2_adds(64, 10);
            }
        }
        let l = log2_floor_exec(n / dk);
        if l >= 52 {
            let e = l - 52;
            let pe = pow2_exec(e);
            proof {
                lemma_pow2_adds(53, e as nat);
                lemma_pow2_adds(52, e as nat);
                lemma_pow2_mono(e as nat, 21);
                lemma_pow2_adds(1, 20);
                lemma_pow2_pos(e as nat);
                assert(dk * pe <= n && n < 0x20_0000_0000_0000 * (dk * pe) && n >= 0x10_0000_0000_0000 * (dk * pe))
                    by (nonlinear_arith)
                    requires
                        dk * pow2(l as nat) <= n < dk * pow2(l as nat + 1),
                        pow2(l as nat) == 0x10_0000_0000_0000 * pe,
                        pow2(l as nat + 1) == 0x20_0000_0000_0000 * pe,
                ;
                lemma_rhe_below(n as nat, (dk * pe) as nat, pow2(53));
                lemma_rhe_at_least(n as nat, (dk * pe) as nat, pow2(52));
            }
            let big = dk * pe;
            let m = rhe(n, big);
            proof {
                assert(m * pe <= 0x400_0000_0000_0000_0000) by (nonlinear_arith)
                    requires
                        m <= 0x20_0000_0000_0000,
                        pe <= 0x20_0000,
                ;
            }
            (m * pe, 0)
        } else {
            let t = 52 - l;
            proof {
                lemma_pow2_adds(l as nat + 1, t as nat);
                lemma_pow2_adds(l as nat, t as nat);
                assert(l as nat + t as nat == 52);
                lemma_pow2_pos(t as nat);
                lemma_scale_bounds(pow2(52), n as nat, pow2(53), pow2(l as nat), pow2(l as nat + 1), pow2(t as nat), dk as nat);
            }
            (scaled_rhe(n, k, t), t)
        }
    } else {
        let j = lift_exec(n, dk);
        proof {
            lemma_lift_bounds(n as nat, dk as nat);
            assert(j >= 1);
            if j > k {
                lemma_pow2_mono(k as nat, (j - 1) as nat);
                assert(n * pow2((j - 1) as nat) >= pow2(k as nat)) by (nonlinear_arith)
                    requires
                        n >= 1,
                        pow2((j - 1) as nat) >= pow2(k as nat),
                ;
            }
        }
        let t = j + 52;
        proof {
            lemma_pow2_adds(j as nat, 52);
            lemma_pow2_adds((j - 1) as nat, 53);
            assert((j - 1) as nat + 53 == t);
            assert(n * pow2(t as nat) >= dk * pow2(52)) by (nonlinear_arith)
                requires
                    n * pow2(j as nat) >= dk,
                    pow2(t as nat) == pow2(j as nat) * pow2(52),
            {
                assert(n * pow2(t as nat) == (n * pow2(j as nat)) * pow2(52));
            }
            assert(n * pow2(t as nat) < dk * pow2(53)) by (nonlinear_arith)
                requires
                    n * pow2((j - 1) as nat) < dk,
                    pow2(t as nat) == pow2((j - 1) as nat) * pow2(53),
                    pow2(53) > 0,
            {
                assert(n * pow2(t as nat) == (n * pow2((j - 1) as nat)) * pow2(53));
            }
        }
        (scaled_rhe(n, k, t), t)
    }
}

/// Tenths of a percent of `count` among `total` lines, as the double computation
/// gives them (see `presence_tenths`).
pub fn presence(count: u64, total: u64) -> (r: u128)
    ensures
        r == presence_tenths(count, total),
{
    let y = if total == 0 { 1 } else { total };
    proof {
        vstd::arithmetic::power2::lemma2_to64();
        vstd::arithmetic::power2::lemma2_to64_rest();
    }
    if count == 0 {
        proof {
            let b = round53(y as nat, 1);
            assert(0nat * pow2(b.1) == 0);
            assert(round53(0, 1) == (0nat, 0nat));
            assert(round53(0nat * pow2(b.1), b.0 * pow2(0)) == (0nat, 0nat));
            assert(round53(0nat * 100, pow2(0)) == (0nat, 0nat));
            assert(0nat * 10 == 0);
        }
        return 0;
    }
    let (an, ak, av) = to_double(count);
    let (bn, bk, bv) = to_double(y);
    let (qn, qk) = round53_int(av, bv);
    proof {
        let c = pow2(ak as nat) * pow2(bk as nat);
        lemma_pow2_pos(ak as nat);
        lemma_pow2_pos(bk as nat);
        assert(an * pow2(bk as nat) == av * c && bn * pow2(ak as nat) == bv * c && c >= 1) by (nonlinear_arith)
            requires
                an == av * pow2(ak as nat),
                bn == bv * pow2(bk as nat),
                c == pow2(ak as nat) * pow2(bk as nat),
                pow2(ak as nat) > 0,
                pow2(bk as nat) > 0,
        ;
        lemma_round53_scale(av as nat, bv as nat, c);
    }
    let (pn, pk) = round53_pow2(qn * 100, qk);
    if pk == 0 {
        proof {
            lemma_rhe_one((pn * 10) as nat);
        }
        pn * 10
    } else if pk >= 60 {
        proof {
            lemma_pow2_mono(60, pk as nat);
            lemma_pow2_adds(60, 0);
            lemma_pow2_adds(4, 56);
            assert(2 * (pn * 10) < pow2(pk as nat)) by (nonlinear_arith)
                requires
                    pn <= 0x20_0000_0000_0000,
                    pow2(pk as nat) >= pow2(60),
                    pow2(60) == 0x1000_0000_0000_0000,
            ;
            lemma_rhe_small((pn * 10) as nat, pow2(pk as nat));
        }
        0
    } else {
        let d = pow2_exec(pk);
        proof {
            lemma_pow2_mono(pk as nat, 60);
        }
        rhe(pn * 10, d)
    }
}

} // verus!
