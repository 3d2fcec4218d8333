//! Exact arithmetic of binary double precision on natural numbers.
//!
//! Rates, means and byte counts are printed as double precision arithmetic gives them: every
//! conversion and every operation rounds to 53 significant bits, to the nearest value and, half
//! way between two, to the one with an even last bit. Integers carry that out here.
use crate::text;
use crate::text::{push_decimal, push_low_digits};
use vstd::arithmetic::power2::*;
use vstd::prelude::*;

verus! {

/// The whole number nearest to `n / d`; half way between two, the even one.
pub open spec fn half_even(n: nat, d: nat) -> nat {
    let q = n / d;
    let r = n % d;
    if 2 * r < d || (2 * r == d && q % 2 == 0) {
        q
    } else {
        q + 1
    }
}

/// The double nearest to the whole number `n`, where multiples of `unit` are to be tried first.
pub open spec fn whole_from(n: nat, unit: nat) -> nat
    decreases n / unit,
    when unit > 0
{
    if n < 0x20_0000_0000_0000 * unit {
        half_even(n, unit) * unit
    } else {
        proof {
            lemma_halved(n, unit);
        }
        whole_from(n, 2 * unit)
    }
}

/// The double nearest to the whole number `n`.
pub open spec fn whole(n: nat) -> nat {
    whole_from(n, 1)
}

/// The double nearest to the quotient `n / d`, as a fraction. A quotient from 2^52 up to 2^53
/// rounds to a whole number; any other one is first doubled or halved into that range.
pub open spec fn quotient(n: nat, d: nat) -> (nat, nat)
    decreases
            if n >= 0x20_0000_0000_0000 * d {
                (n / d) as int
            } else if n < 0x10_0000_0000_0000 * d {
                0x10_0000_0000_0000 * d - n
            } else {
                0
            },
    when d > 0
{
    if n == 0 {
        (0, 1)
    } else if n >= 0x20_0000_0000_0000 * d {
        proof {
            lemma_halved(n, d);
        }
        let (num, den) = quotient(n, 2 * d);
        (2 * num, den)
    } else if n < 0x10_0000_0000_0000 * d {
        let (num, den) = quotient(2 * n, d);
        (num, 2 * den)
    } else {
        (half_even(n, d), 1)
    }
}

/// Ten to the power of `k`.
pub open spec fn pow10(k: nat) -> nat
    decreases k,
{
    if k == 0 {
        1
    } else {
        10 * pow10((k - 1) as nat)
    }
}

/// The fraction `x` in decimal with `places` digits behind the point, rounded to the nearest
/// numeral; half way between two, to the one with an even last digit.
pub open spec fn fixed(x: (nat, nat), places: nat) -> Seq<char> {
    let scaled = half_even(x.0 * pow10(places), x.1);
    text::decimal(scaled / pow10(places)) + seq!['.'] + text::low_digits(scaled, places)
}

/// Doubling the divisor makes a large quotient smaller.
pub proof fn lemma_halved(n: nat, d: nat)
    requires
        d > 0,
        n >= 0x20_0000_0000_0000 * d,
    ensures
        n / (2 * d) < n / d,
{
    let q = (n / d) as int;
    let h = (n / (2 * d)) as int;
    vstd::arithmetic::div_mod::lemma_fundamental_div_mod(n as int, d as int);
    vstd::arithmetic::div_mod::lemma_fundamental_div_mod(n as int, 2 * d as int);
    vstd::arithmetic::div_mod::lemma_mod_pos_bound(n as int, d as int);
    vstd::arithmetic::div_mod::lemma_mod_pos_bound(n as int, 2 * d as int);
    assert(h < q) by (nonlinear_arith)
        requires
            n == d * q + n % d,
            n == (2 * d) * h + n % (2 * d),
            0 <= n % d < d,
            0 <= n % (2 * d) < 2 * d,
            n >= 2 * d,
            d > 0,
    ;
}

/// A rounded quotient is off by at most one half.
proof fn lemma_half_even(n: nat, d: nat)
    requires
        d > 0,
    ensures
        2 * half_even(n, d) * d <= 2 * n + d,
        2 * n <= 2 * half_even(n, d) * d + d,
{
    let q = n / d;
    let r = n % d;
    vstd::arithmetic::div_mod::lemma_fundamental_div_mod(n as int, d as int);
    vstd::arithmetic::div_mod::lemma_mod_pos_bound(n as int, d as int);
    assert(2 * (q + 1) * d == 2 * q * d + 2 * d) by (nonlinear_arith);
    assert(2 * q * d == 2 * (d * q)) by (nonlinear_arith);
}

/// Computes [`half_even`].
pub fn round_half_even(n: u128, d: u128) -> (m: u128)
    requires
        0 < d <= 0x4000_0000_0000_0000_0000_0000_0000_0000,
        n <= 0x4000_0000_0000_0000_0000_0000_0000_0000,
    ensures
        m == half_even(n as nat, d as nat),
{
    let q: u128 = n / d;
    let r: u128 = n % d;
    proof {
        assert(q <= n) by (nonlinear_arith)
            requires
                q == n / d,
                d > 0,
        ;
    }
    if 2 * r < d || (2 * r == d && q % 2 == 0) {
        q
    } else {
        q + 1
    }
}

proof fn lemma_whole_from(n: nat, unit: nat)
    requires
        unit > 0,
        unit <= n || unit == 1,
    ensures
        whole_from(n, unit) <= 2 * n,
    decreases n / unit,
{
    if n < 0x20_0000_0000_0000 * unit {
        lemma_half_even(n, unit);
        if n == 0 {
            assert(half_even(0, 1) == 0);
        }
        assert(half_even(n, unit) * unit <= 2 * n) by (nonlinear_arith)
            requires
                2 * half_even(n, unit) * unit <= 2 * n + unit,
                unit <= n || (unit == 1 && n == 0 && half_even(n, unit) == 0),
        ;
    } else {
        lemma_halved(n, unit);
        lemma_whole_from(n, 2 * unit);
    }
}

fn round_whole_from(n: u128, unit: u128) -> (w: u128)
    requires
        n <= 0x100_0000_0000_0000_0000,
        0 < unit,
        unit <= n || unit == 1,
    ensures
        w == whole_from(n as nat, unit as nat),
        w <= 2 * n,
    decreases n as nat / unit as nat,
{
    proof {
        lemma_whole_from(n as nat, unit as nat);
        assert(0x20_0000_0000_0000 * unit <= 0x20_0000_0000_0000 * 0x100_0000_0000_0000_0000)
            by (nonlinear_arith)
            requires
                unit <= 0x100_0000_0000_0000_0000,
        ;
    }
    if n < 0x20_0000_0000_0000 * unit {
        let m: u128 = round_half_even(n, unit);
        assert(m * unit <= 2 * n);
        m * unit
    } else {
        proof {
            lemma_halved(n as nat, unit as nat);
        }
        round_whole_from(n, 2 * unit)
    }
}

/// Computes [`whole`].
pub fn round_whole(n: u128) -> (w: u128)
    requires
        n <= 0x100_0000_0000_0000_0000,
    ensures
        w == whole(n as nat),
        w <= 2 * n,
        w > 0 <==> n > 0,
{
    proof {
        lemma_whole_small(n as nat);
    }
    round_whole_from(n, 1)
}

/// A whole number below 2^53 is a double, and no other one rounds to zero.
pub proof fn lemma_whole_small(n: nat)
    ensures
        n < 0x20_0000_0000_0000 ==> whole(n) == n,
        whole(n) > 0 <==> n > 0,
{
    assert(half_even(n, 1) * 1 == n);
    if n >= 0x20_0000_0000_0000 {
        lemma_whole_positive(n, 1);
    }
}

proof fn lemma_whole_positive(n: nat, unit: nat)
    requires
        0 < unit,
        n >= 0x10_0000_0000_0000 * unit,
    ensures
        whole_from(n, unit) > 0,
    decreases n / unit,
{
    if n < 0x20_0000_0000_0000 * unit {
        lemma_half_even(n, unit);
        assert(half_even(n, unit) * unit > 0) by (nonlinear_arith)
            requires
                2 * n <= 2 * half_even(n, unit) * unit + unit,
                n >= unit,
                unit > 0,
        ;
    } else {
        lemma_halved(n, unit);
        lemma_whole_positive(n, 2 * unit);
    }
}

/// A fraction of whole numbers.
#[derive(Debug, Clone, Copy)]
pub struct Fraction {
    pub num: u128,
    pub den: u128,
}

impl View for Fraction {
    type V = (nat, nat);

    open spec fn view(&self) -> (nat, nat) {
        (self.num as nat, self.den as nat)
    }
}

/// Computes [`quotient`].
pub fn round_quotient(n: u128, d: u128) -> (x: Fraction)
    requires
        0 < d <= 0x4_0000_0000_0000_0000,
        n <= 0x4_0000_0000_0000_0000_0000,
    ensures
        x@ == quotient(n as nat, d as nat),
        0 < x.den <= 0x80_0000_0000_0000_0000_0000_0000_0000,
        x.num <= 0x8_0000_0000_0000_0000_0000,
{
    if n == 0 {
        return Fraction { num: 0, den: 1 };
    }
    let mut b: u128 = d;
    let mut down: u128 = 1;
    while n >= 0x20_0000_0000_0000 * b
        invariant
            0 < n <= 0x4_0000_0000_0000_0000_0000,
            0 < b <= 0x4_0000_0000_0000_0000,
            0 < down <= b,
            quotient(n as nat, d as nat).0 == down * quotient(n as nat, b as nat).0,
            quotient(n as nat, d as nat).1 == quotient(n as nat, b as nat).1,
            down == 1 || n >= 0x10_0000_0000_0000 * b,
        decreases n as nat / b as nat,
    {
        proof {
            lemma_halved(n as nat, b as nat);
            let num = quotient(n as nat, 2 * b as nat).0;
            assert(down * (2 * num) == (2 * down) * num) by (nonlinear_arith);
        }
        b = 2 * b;
        down = 2 * down;
    }
    let mut a: u128 = n;
    let mut up: u128 = 1;
    let ghost small = n < 0x10_0000_0000_0000 * b;
    while a < 0x10_0000_0000_0000 * b
        invariant
            0 < b <= 0x4_0000_0000_0000_0000,
            0 < a <= 0x80_0000_0000_0000_0000_0000_0000_0000,
            0 < up <= a,
            a < 0x20_0000_0000_0000 * b,
            small == (n < 0x10_0000_0000_0000 * b),
            small ==> down == 1,
            !small ==> a == n,
            0 < down <= b,
            quotient(n as nat, d as nat).0 == down * quotient(a as nat, b as nat).0,
            quotient(n as nat, d as nat).1 == up * quotient(a as nat, b as nat).1,
        decreases 0x20_0000_0000_0000 * b - a,
    {
        proof {
            let den = quotient(2 * a as nat, b as nat).1;
            assert(up * (2 * den) == (2 * up) * den) by (nonlinear_arith);
        }
        a = 2 * a;
        up = 2 * up;
    }
    let m: u128 = round_half_even(a, b);
    proof {
        lemma_half_even(a as nat, b as nat);
        assert(m <= 0x20_0000_0000_0000) by (nonlinear_arith)
            requires
                2 * m * b <= 2 * a + b,
                a < 0x20_0000_0000_0000 * b,
                b > 0,
        ;
        assert(m * down <= 2 * a) by (nonlinear_arith)
            requires
                2 * m * b <= 2 * a + b,
                a >= 0x10_0000_0000_0000 * b,
                0 < down <= b,
        ;
    }
    proof {
        assert(quotient(a as nat, b as nat) == (m as nat, 1nat));
        assert(m * down == down * quotient(a as nat, b as nat).0) by (nonlinear_arith)
            requires
                quotient(a as nat, b as nat).0 == m,
        ;
        assert(up == up * quotient(a as nat, b as nat).1) by (nonlinear_arith)
            requires
                quotient(a as nat, b as nat).1 == 1,
        ;
    }
    Fraction { num: m * down, den: up }
}

/// Appends `x` to `out` in decimal, with `places` digits behind the point.
pub fn push_fixed(out: &mut String, x: Fraction, places: usize)
    requires
        0 < x.den <= 0x80_0000_0000_0000_0000_0000_0000_0000,
        x.num <= 0x8_0000_0000_0000_0000_0000,
        places <= 4,
    ensures
        final(out)@ == old(out)@ + fixed(x@, places as nat),
{
    let mut scale: u128 = 1;
    let mut i: usize = 0;
    while i < places
        invariant
            i <= places <= 4,
            scale == pow10(i as nat),
            1 <= scale,
            i == 0 ==> scale == 1,
            i == 1 ==> scale == 10,
            i == 2 ==> scale == 100,
            i == 3 ==> scale == 1000,
            i == 4 ==> scale == 10000,
        decreases places - i,
    {
        i = i + 1;
        scale = scale * 10;
    }
    assert(x.num * scale <= x.num * 10000) by (nonlinear_arith)
        requires
            scale <= 10000,
    ;
    let scaled: u128 = round_half_even(x.num * scale, x.den);
    push_decimal(out, scaled / scale);
    out.push('.');
    push_low_digits(out, scaled, places);
    assert(out@ =~= old(out)@ + fixed(x@, places as nat));
}

// ---------------------------------------------------------------------------------------------
// Comparing with a double
// ---------------------------------------------------------------------------------------------

/// Whether the fraction `x` is at least the double whose bits are `bits`. Nothing is at least
/// what is not a number.
pub open spec fn at_least(x: (nat, nat), bits: u64) -> bool {
    let negative = bits >= 0x8000_0000_0000_0000;
    let exponent = (bits / 0x10_0000_0000_0000) % 2048;
    let mantissa = bits % 0x10_0000_0000_0000;
    if exponent == 2047 {
        negative && mantissa == 0
    } else if negative {
        true
    } else if exponent == 0 {
        x.0 * pow2(1075) >= mantissa * pow2(1) * x.1
    } else {
        x.0 * pow2(1075) >= (0x10_0000_0000_0000 + mantissa) * pow2(exponent as nat) * x.1
    }
}

/// Whether `a * 2^s >= m * b`.
fn scaled_at_least(a: u128, b: u128, m: u128, s: u32) -> (yes: bool)
    requires
        0 < b <= 0x80_0000_0000_0000_0000_0000_0000_0000,
        m <= 0x20_0000_0000_0000,
        a <= 0x8_0000_0000_0000_0000_0000,
    ensures
        yes == (a * pow2(s as nat) >= m * b),
{
    let mut k: u128 = a / b;
    let mut r: u128 = a % b;
    let mut j: u32 = 0;
    proof {
        lemma2_to64();
        vstd::arithmetic::div_mod::lemma_fundamental_div_mod(a as int, b as int);
        assert(k <= a) by (nonlinear_arith)
            requires
                k == a / b,
                b > 0,
        ;
        assert(a * pow2(0) == k * b + r) by (nonlinear_arith)
            requires
                a == b * (a / b) + a % b,
                k == a / b,
                r == a % b,
                pow2(0) == 1,
        ;
    }
    while j < s && k < m
        invariant
            j <= s,
            0 < b <= 0x80_0000_0000_0000_0000_0000_0000_0000,
            m <= 0x20_0000_0000_0000,
            r < b,
            a * pow2(j as nat) == k * b + r,
            k <= 0x8_0000_0000_0000_0000_0000,
        decreases s - j,
    {
        let carry: u128 = if 2 * r >= b {
            1
        } else {
            0
        };
        proof {
            lemma_pow2_unfold((j + 1) as nat);
            assert(a * pow2((j + 1) as nat) == (2 * k + carry) * b + (2 * r - carry * b))
                by (nonlinear_arith)
                requires
                    a * pow2(j as nat) == k * b + r,
                    pow2((j + 1) as nat) == 2 * pow2(j as nat),
            ;
            assert(carry * b == if carry == 1 { b as int } else { 0 });
        }
        k = 2 * k + carry;
        r = if carry == 1 {
            2 * r - b
        } else {
            2 * r
        };
        j = j + 1;
    }
    proof {
        if k >= m {
            lemma_pow2_adds(j as nat, (s - j) as nat);
            lemma_pow2_pos((s - j) as nat);
            assert(a * pow2(s as nat) >= m * b) by (nonlinear_arith)
                requires
                    a * pow2(j as nat) == k * b + r,
                    k >= m,
                    pow2(s as nat) == pow2(j as nat) * pow2((s - j) as nat),
                    pow2((s - j) as nat) >= 1,
            ;
        } else {
            assert(a * pow2(s as nat) < m * b) by (nonlinear_arith)
                requires
                    a * pow2(s as nat) == k * b + r,
                    k + 1 <= m,
                    r < b,
            ;
        }
    }
    k >= m
}

/// Whether `a >= m * 2^t * b`.
fn at_least_scaled(a: u128, b: u128, m: u128, t: u32) -> (yes: bool)
    requires
        0 < b,
        0x10_0000_0000_0000 <= m <= 0x20_0000_0000_0000,
        a <= 0x8_0000_0000_0000_0000_0000,
    ensures
        yes == (a >= m * pow2(t as nat) * b),
{
    let mut v: u128 = m;
    let mut j: u32 = 0;
    let q: u128 = a / b;
    proof {
        lemma2_to64();
        assert(v == m * pow2(0)) by (nonlinear_arith)
            requires
                v == m,
                pow2(0) == 1,
        ;
        assert(q <= a) by (nonlinear_arith)
            requires
                q == a / b,
                b > 0,
        ;
    }
    while j < t && v <= q
        invariant
            j <= t,
            q <= 0x8_0000_0000_0000_0000_0000,
            v == m * pow2(j as nat),
        decreases t - j,
    {
        proof {
            lemma_pow2_unfold((j + 1) as nat);
            assert(m * pow2((j + 1) as nat) == 2 * (m * pow2(j as nat))) by (nonlinear_arith)
                requires
                    pow2((j + 1) as nat) == 2 * pow2(j as nat),
            ;
        }
        v = 2 * v;
        j = j + 1;
    }
    proof {
        vstd::arithmetic::div_mod::lemma_fundamental_div_mod(a as int, b as int);
        vstd::arithmetic::div_mod::lemma_mod_pos_bound(a as int, b as int);
        if v <= q {
            assert(a >= v * b) by (nonlinear_arith)
                requires
                    a == b * q + a % b,
                    0 <= a % b,
                    v <= q,
            ;
        } else {
            lemma_pow2_adds(j as nat, (t - j) as nat);
            lemma_pow2_pos((t - j) as nat);
            assert(m * pow2(t as nat) >= v) by (nonlinear_arith)
                requires
                    v == m * pow2(j as nat),
                    pow2(t as nat) == pow2(j as nat) * pow2((t - j) as nat),
                    pow2((t - j) as nat) >= 1,
            ;
            assert(a < m * pow2(t as nat) * b) by (nonlinear_arith)
                requires
                    a == b * q + a % b,
                    a % b < b,
                    v >= q + 1,
                    m * pow2(t as nat) >= v,
            ;
        }
    }
    v <= q
}

/// Computes [`at_least`].
pub fn is_at_least(x: Fraction, bits: u64) -> (yes: bool)
    requires
        0 < x.den <= 0x80_0000_0000_0000_0000_0000_0000_0000,
        x.num <= 0x8_0000_0000_0000_0000_0000,
    ensures
        yes == at_least(x@, bits),
{
    let negative: bool = bits >= 0x8000_0000_0000_0000;
    let exponent: u64 = (bits / 0x10_0000_0000_0000) % 2048;
    let mantissa: u64 = bits % 0x10_0000_0000_0000;
    if exponent == 2047 {
        return negative && mantissa == 0;
    }
    if negative {
        return true;
    }
    let (m, e): (u128, u32) = if exponent == 0 {
        (mantissa as u128, 1)
    } else {
        (0x10_0000_0000_0000 + mantissa as u128, exponent as u32)
    };
    let ghost a = x.num as int;
    let ghost b = x.den as int;
    if e <= 1075 {
        let s: u32 = 1075 - e;
        proof {
            lemma_pow2_adds(s as nat, e as nat);
            lemma_pow2_pos(e as nat);
            assert((a * pow2(1075) >= m * pow2(e as nat) * b) == (a * pow2(s as nat) >= m * b))
                by (nonlinear_arith)
                requires
                    pow2(1075) == pow2(s as nat) * pow2(e as nat),
                    pow2(e as nat) >= 1,
            ;
        }
        scaled_at_least(x.num, x.den, m, s)
    } else {
        let t: u32 = e - 1075;
        proof {
            lemma_pow2_adds(1075, t as nat);
            lemma_pow2_pos(1075);
            assert((a * pow2(1075) >= m * pow2(e as nat) * b) == (a >= m * pow2(t as nat) * b))
                by (nonlinear_arith)
                requires
                    pow2(e as nat) == pow2(1075) * pow2(t as nat),
                    pow2(1075) >= 1,
            ;
        }
        at_least_scaled(x.num, x.den, m, t)
    }
}

// ---------------------------------------------------------------------------------------------
// Laws
// ---------------------------------------------------------------------------------------------

/// Rounding a fraction gives the nearest whole number, and the even one of two that are equally
/// near.
pub proof fn law_nearest_whole_number(n: nat, d: nat, other: nat)
    requires
        d > 0,
    ensures
        2 * (half_even(n, d) * d) <= 2 * n + d,
        2 * n <= 2 * (half_even(n, d) * d) + d,
        2 * (half_even(n, d) * d) == 2 * n + d || 2 * n == 2 * (half_even(n, d) * d) + d
            ==> half_even(n, d) % 2 == 0,
        n == other * d ==> half_even(n, d) == other,
{
    let m = half_even(n, d);
    let q = n / d;
    let r = n % d;
    vstd::arithmetic::div_mod::lemma_fundamental_div_mod(n as int, d as int);
    vstd::arithmetic::div_mod::lemma_mod_pos_bound(n as int, d as int);
    assert((q + 1) * d == d * q + d) by (nonlinear_arith);
    assert(q * d == d * q) by (nonlinear_arith);
    if n == other * d {
        vstd::arithmetic::div_mod::lemma_div_multiples_vanish(other as int, d as int);
        vstd::arithmetic::div_mod::lemma_mod_multiples_basic(other as int, d as int);
        assert(other * d == d * other) by (nonlinear_arith);
    }
}

/// The nearest double of a whole number has 53 significant bits: it is the nearest multiple of
/// a power of two that is 1, or leaves the number at least 2^52 times as large.
pub proof fn law_nearest_double(n: nat) -> (bits: (nat, nat))
    ensures
        whole(n) == bits.0 * pow2(bits.1),
        bits.0 <= 0x20_0000_0000_0000,
        bits.1 == 0 || n >= 0x10_0000_0000_0000 * pow2(bits.1),
        n < 0x20_0000_0000_0000 * pow2(bits.1),
        2 * whole(n) <= 2 * n + pow2(bits.1),
        2 * n <= 2 * whole(n) + pow2(bits.1),
        2 * whole(n) == 2 * n + pow2(bits.1) || 2 * n == 2 * whole(n) + pow2(bits.1) ==> bits.0 % 2
            == 0,
        n < 0x20_0000_0000_0000 ==> whole(n) == n,
        0x20_0000_0000_0000 * whole(n) <= 0x20_0000_0000_0001 * n,
        0x1F_FFFF_FFFF_FFFF * n <= 0x20_0000_0000_0000 * whole(n),
{
    lemma2_to64();
    lemma_whole_small(n);
    let bits = lemma_nearest_double(n, 0);
    if n < 0x20_0000_0000_0000 {
        if bits.1 > 0 {
            lemma_pow2_strictly_increases(0, bits.1);
        }
    }
    bits
}

proof fn lemma_nearest_double(n: nat, k: nat) -> (bits: (nat, nat))
    requires
        k == 0 || n >= 0x10_0000_0000_0000 * pow2(k),
    ensures
        whole_from(n, pow2(k)) == bits.0 * pow2(bits.1),
        bits.0 <= 0x20_0000_0000_0000,
        bits.1 == 0 || n >= 0x10_0000_0000_0000 * pow2(bits.1),
        n < 0x20_0000_0000_0000 * pow2(bits.1),
        2 * (bits.0 * pow2(bits.1)) <= 2 * n + pow2(bits.1),
        2 * n <= 2 * (bits.0 * pow2(bits.1)) + pow2(bits.1),
        2 * (bits.0 * pow2(bits.1)) == 2 * n + pow2(bits.1) || 2 * n == 2 * (bits.0 * pow2(bits.1))
            + pow2(bits.1) ==> bits.0 % 2 == 0,
    decreases n / pow2(k),
{
    let unit = pow2(k);
    lemma_pow2_pos(k);
    if n < 0x20_0000_0000_0000 * unit {
        law_nearest_whole_number(n, unit, n);
        let m = half_even(n, unit);
        assert(m <= 0x20_0000_0000_0000) by (nonlinear_arith)
            requires
                2 * (m * unit) <= 2 * n + unit,
                n < 0x20_0000_0000_0000 * unit,
                unit > 0,
        ;
        (m, k)
    } else {
        lemma_halved(n, unit);
        lemma_pow2_unfold(k + 1);
        assert(pow2(k + 1) == 2 * unit);
        lemma_nearest_double(n, k + 1)
    }
}

/// The nearest double of a quotient is off by no more than a share of 2^-53 of it.
pub proof fn law_quotient_is_near(n: nat, d: nat)
    requires
        d > 0,
    ensures
        quotient(n, d).1 > 0,
        0x20_0000_0000_0000 * (quotient(n, d).0 * d) <= 0x20_0000_0000_0001 * (n * quotient(
            n,
            d,
        ).1),
        0x1F_FFFF_FFFF_FFFF * (n * quotient(n, d).1) <= 0x20_0000_0000_0000 * (quotient(n, d).0
            * d),
    decreases
            if n >= 0x20_0000_0000_0000 * d {
                (n / d) as int
            } else if n < 0x10_0000_0000_0000 * d {
                0x10_0000_0000_0000 * d - n
            } else {
                0
            },
{
    if n == 0 {
    } else if n >= 0x20_0000_0000_0000 * d {
        lemma_halved(n, d);
        law_quotient_is_near(n, 2 * d);
        let (a, b) = quotient(n, 2 * d);
        assert(a * (2 * d) == (2 * a) * d) by (nonlinear_arith);
    } else if n < 0x10_0000_0000_0000 * d {
        law_quotient_is_near(2 * n, d);
        let (a, b) = quotient(2 * n, d);
        assert((2 * n) * b == n * (2 * b)) by (nonlinear_arith);
    } else {
        law_nearest_whole_number(n, d, n);
    }
}

/// A quotient that is a whole number over a power of two, and not too large, is exact.
pub proof fn law_dyadic_quotient_is_exact(n: nat, d: nat, p: nat, k: nat)
    requires
        d > 0,
        p < 0x10_0000_0000_0000,
        n * pow2(k) == p * d,
    ensures
        quotient(n, d).1 > 0,
        quotient(n, d).0 * d == n * quotient(n, d).1,
    decreases
            if n >= 0x20_0000_0000_0000 * d {
                (n / d) as int
            } else if n < 0x10_0000_0000_0000 * d {
                0x10_0000_0000_0000 * d - n
            } else {
                0
            },
{
    lemma_pow2_pos(k);
    let u = pow2(k);
    if n == 0 {
        assert(0 * d == 0) by (nonlinear_arith);
    } else if n >= 0x10_0000_0000_0000 * d {
        assert(false) by (nonlinear_arith)
            requires
                n * u == p * d,
                p < 0x10_0000_0000_0000,
                n >= 0x10_0000_0000_0000 * d,
                u >= 1,
                d > 0,
        ;
    } else {
        if k == 0 {
            lemma2_to64();
            lemma_exact_multiple(n, d, p);
        } else {
            lemma_pow2_unfold(k);
            let half = pow2((k - 1) as nat);
            assert((2 * n) * half == n * u) by (nonlinear_arith)
                requires
                    u == 2 * half,
            ;
            law_dyadic_quotient_is_exact(2 * n, d, p, (k - 1) as nat);
            let (a, b) = quotient(2 * n, d);
            assert((2 * n) * b == n * (2 * b)) by (nonlinear_arith);
        }
    }
}

proof fn lemma_exact_multiple(n: nat, d: nat, p: nat)
    requires
        d > 0,
        n == p * d,
        n < 0x20_0000_0000_0000 * d,
    ensures
        quotient(n, d).1 > 0,
        quotient(n, d).0 * d == n * quotient(n, d).1,
    decreases 0x20_0000_0000_0000 * d - n,
{
    if n == 0 {
        assert(0 * d == 0) by (nonlinear_arith);
    } else if n < 0x10_0000_0000_0000 * d {
        assert((2 * p) * d == 2 * n) by (nonlinear_arith)
            requires
                n == p * d,
        ;
        lemma_exact_multiple(2 * n, d, 2 * p);
        let (a, b) = quotient(2 * n, d);
        assert((2 * n) * b == n * (2 * b)) by (nonlinear_arith);
    } else {
        law_nearest_whole_number(n, d, p);
    }
}

/// A number in decimal with a point before its last `places` digits.
pub open spec fn pointed(scaled: nat, places: nat) -> Seq<char> {
    text::decimal(scaled / pow10(places)) + seq!['.'] + text::low_digits(scaled, places)
}

/// A fraction is printed as the nearest number with so many decimals, and of two that are
/// equally near as the one whose last digit is even. The digits of the text are those of that
/// number.
pub proof fn law_printed_decimals_are_nearest(x: (nat, nat), places: nat) -> (scaled: nat)
    requires
        x.1 > 0,
    ensures
        fixed(x, places) == pointed(scaled, places),
        2 * (scaled * x.1) <= 2 * (x.0 * pow10(places)) + x.1,
        2 * (x.0 * pow10(places)) <= 2 * (scaled * x.1) + x.1,
        2 * (scaled * x.1) == 2 * (x.0 * pow10(places)) + x.1 || 2 * (x.0 * pow10(places)) == 2 * (
        scaled * x.1) + x.1 ==> scaled % 2 == 0,
{
    let scaled = half_even(x.0 * pow10(places), x.1);
    law_nearest_whole_number(x.0 * pow10(places), x.1, 0);
    scaled
}

/// A number with a point in it has exactly `places` digits behind the point, and its digits
/// alone denote the number without the point.
pub proof fn law_pointed_digits(scaled: nat, places: nat)
    ensures
        ({
            let whole = text::decimal(scaled / pow10(places));
            let rest = text::low_digits(scaled, places);
            &&& pointed(scaled, places) == whole + seq!['.'] + rest
            &&& rest.len() == places
            &&& text::all_digits(whole)
            &&& text::digits_value(whole + rest) == scaled
        }),
    decreases places,
{
    let whole = text::decimal(scaled / pow10(places));
    let rest = text::low_digits(scaled, places);
    text::lemma_low_digits(scaled, places);
    text::lemma_decimal(scaled / pow10(places));
    if places == 0 {
        assert(whole + rest =~= whole);
        vstd::arithmetic::div_mod::lemma_div_basics(scaled as int);
        assert(pow10(0) == 1);
        text::lemma_decimal_value(scaled);
    } else {
        let fewer = (places - 1) as nat;
        law_pointed_digits(scaled / 10, fewer);
        lemma_pow10_divides(scaled, fewer);
        assert((whole + rest).drop_last() =~= whole + text::low_digits(scaled / 10, fewer));
        assert((whole + rest).last() == text::digit_char(scaled % 10));
        assert(text::digit_value(text::digit_char(scaled % 10)) == scaled % 10);
        assert(fewer + 1 == places);
        assert(text::digits_value((whole + rest).drop_last()) == scaled / 10);
    }
}

proof fn lemma_pow10_divides(n: nat, k: nat)
    ensures
        (n / 10) / pow10(k) == n / pow10(k + 1),
        pow10(k) > 0,
    decreases k,
{
    lemma_pow10_is_positive(k);
    vstd::arithmetic::div_mod::lemma_div_denominator(n as int, 10, pow10(k) as int);
}

proof fn lemma_pow10_is_positive(k: nat)
    ensures
        pow10(k) > 0,
    decreases k,
{
    if k > 0 {
        lemma_pow10_is_positive((k - 1) as nat);
    }
}

/// Comparing with a double is comparing with the number that it stands for: from 1 up to 2 the
/// bits count in steps of 2^-52, one step of the exponent doubles the number, and below the
/// least exponent the steps go on evenly. What is negative is less than every fraction, and
/// nothing is at least infinity or what is not a number.
pub proof fn law_bits_stand_for_numbers(x: (nat, nat), bits: u64)
    requires
        x.1 > 0,
    ensures
        0x3FF0_0000_0000_0000 <= bits < 0x4000_0000_0000_0000 ==> (at_least(x, bits) <==> x.0
            * 0x10_0000_0000_0000 >= (0x10_0000_0000_0000 + (bits - 0x3FF0_0000_0000_0000)) * x.1),
        0x10_0000_0000_0000 <= bits < 0x7FE0_0000_0000_0000 ==> at_least(
            (2 * x.0, x.1),
            (bits + 0x10_0000_0000_0000) as u64,
        ) == at_least(x, bits),
        0 < bits < 0x10_0000_0000_0000 ==> at_least(((bits * x.0) as nat, x.1), bits) == at_least(
            x,
            1,
        ),
        at_least(((0x10_0000_0000_0000 * x.0) as nat, x.1), 0x10_0000_0000_0000) == at_least(x, 1),
        bits == 0 ==> at_least(x, bits),
        0x8000_0000_0000_0000 <= bits <= 0xFFF0_0000_0000_0000 ==> at_least(x, bits),
        0x7FF0_0000_0000_0000 <= bits < 0x8000_0000_0000_0000 ==> !at_least(x, bits),
        bits > 0xFFF0_0000_0000_0000 ==> !at_least(x, bits),
{
    let exponent = (bits / 0x10_0000_0000_0000) % 2048;
    let mantissa = bits % 0x10_0000_0000_0000;
    let big = pow2(1075) as int;
    lemma2_to64();
    if 0x3FF0_0000_0000_0000 <= bits < 0x4000_0000_0000_0000 {
        assert(exponent == 1023);
        assert(mantissa == bits - 0x3FF0_0000_0000_0000);
        lemma_pow2_adds(1023, 52);
        lemma2_to64_rest();
        lemma_pow2_pos(1023);
        let a = x.0 as int;
        let b = x.1 as int;
        let m = 0x10_0000_0000_0000 + mantissa;
        let u = pow2(1023) as int;
        assert((a * (u * 0x10_0000_0000_0000) >= m * u * b) <==> (a * 0x10_0000_0000_0000 >= m
            * b)) by (nonlinear_arith)
            requires
                u > 0,
        ;
    }
    if 0x10_0000_0000_0000 <= bits < 0x7FE0_0000_0000_0000 {
        let next = (bits + 0x10_0000_0000_0000) as u64;
        assert(exponent >= 1 && exponent < 2046);
        assert((next / 0x10_0000_0000_0000) % 2048 == exponent + 1);
        assert(next % 0x10_0000_0000_0000 == mantissa);
        lemma_pow2_unfold((exponent + 1) as nat);
        let a = x.0 as int;
        let b = x.1 as int;
        let m = 0x10_0000_0000_0000 + mantissa;
        let u = pow2(exponent as nat) as int;
        assert(((2 * a) * big >= m * (2 * u) * b) <==> (a * big >= m * u * b)) by (nonlinear_arith);
    }
    let a = x.0 as int;
    let b = x.1 as int;
    if 0 < bits < 0x10_0000_0000_0000 {
        assert(exponent == 0 && mantissa == bits);
        let m = bits as int;
        assert(((m * a) * big >= m * 2 * b) <==> (a * big >= 1 * 2 * b)) by (nonlinear_arith)
            requires
                m > 0,
        ;
    }
    assert(((0x10_0000_0000_0000 * a) * big >= (0x10_0000_0000_0000 + 0) * 2 * b) <==> (a * big
        >= 1 * 2 * b)) by (nonlinear_arith);
    if bits == 0 {
        assert(a * big >= 0 * 2 * b) by (nonlinear_arith)
            requires
                a >= 0,
                big >= 0,
        ;
    }
}

/// A quotient below `2^52` rounds to no more than that.
proof fn lemma_small_quotient(n: nat, d: nat)
    requires
        d > 0,
        n < 0x10_0000_0000_0000 * d,
    ensures
        quotient(n, d).1 > 0,
        quotient(n, d).0 <= 0x10_0000_0000_0000 * quotient(n, d).1,
    decreases 0x10_0000_0000_0000 * d - n,
{
    law_quotient_is_near(n, d);
    if n > 0 {
        if 2 * n < 0x10_0000_0000_0000 * d {
            lemma_small_quotient(2 * n, d);
        } else {
            lemma_rounded_between(2 * n, d, 0x10_0000_0000_0000, 0x20_0000_0000_0000);
        }
    }
}

/// What lies between two whole numbers rounds to one between them.
proof fn lemma_rounded_between(n: nat, d: nat, low: nat, high: nat)
    requires
        d > 0,
        low * d <= n <= high * d,
    ensures
        low <= half_even(n, d) <= high,
{
    law_nearest_whole_number(n, d, low);
    law_nearest_whole_number(n, d, high);
    let r = half_even(n, d);
    assert(low <= r <= high) by (nonlinear_arith)
        requires
            d > 0,
            low * d <= n <= high * d,
            2 * (r * d) <= 2 * n + d,
            2 * n <= 2 * (r * d) + d,
    {
        if r > high {
            assert(r * d >= high * d + d);
        }
        if r < low {
            assert(r * d + d <= low * d);
        }
    }
}

/// Where quotients have the same divisor, the larger dividend has the larger quotient, or the
/// same.
pub proof fn law_quotients_keep_their_order(a: nat, b: nat, d: nat)
    requires
        a <= b < 0x20_0000_0000_0000 * d,
    ensures
        quotient(a, d).1 > 0,
        quotient(b, d).1 > 0,
        quotient(a, d).0 * quotient(b, d).1 <= quotient(b, d).0 * quotient(a, d).1,
    decreases 0x20_0000_0000_0000 * d - a,
{
    law_quotient_is_near(a, d);
    law_quotient_is_near(b, d);
    let (p, q) = quotient(a, d);
    let (r, s) = quotient(b, d);
    if a == 0 {
        assert(p == 0);
        assert(p * s <= r * q) by (nonlinear_arith)
            requires
                p == 0,
                r >= 0,
                q >= 0,
        ;
    } else if b < 0x10_0000_0000_0000 * d {
        law_quotients_keep_their_order(2 * a, 2 * b, d);
        let (x, y) = quotient(2 * a, d);
        let (z, w) = quotient(2 * b, d);
        assert(p == x && q == 2 * y && r == z && s == 2 * w);
        assert(p * s <= r * q) by (nonlinear_arith)
            requires
                x * w <= z * y,
                p == x && q == 2 * y && r == z && s == 2 * w,
        ;
    } else if a < 0x10_0000_0000_0000 * d {
        lemma_small_quotient(a, d);
        lemma_rounded_between(b, d, 0x10_0000_0000_0000, 0x20_0000_0000_0000);
        assert(p * s <= r * q) by (nonlinear_arith)
            requires
                s == 1,
                p <= 0x10_0000_0000_0000 * q,
                0x10_0000_0000_0000 <= r,
        ;
    } else {
        lemma_rounding_is_monotone(a, b, d);
        assert(q == 1 && s == 1);
        assert(p * s <= r * q) by (nonlinear_arith)
            requires
                q == 1 && s == 1,
                p <= r,
        ;
    }
}

proof fn lemma_rounding_is_monotone(a: nat, b: nat, d: nat)
    requires
        d > 0,
        a <= b,
    ensures
        half_even(a, d) <= half_even(b, d),
{
    let p = a / d;
    let q = b / d;
    vstd::arithmetic::div_mod::lemma_div_is_ordered(a as int, b as int, d as int);
    if p == q {
        vstd::arithmetic::div_mod::lemma_fundamental_div_mod(a as int, d as int);
        vstd::arithmetic::div_mod::lemma_fundamental_div_mod(b as int, d as int);
    }
}

/// A quotient that is at least a whole number rounds to no less; and one that falls short of it
/// by more than the doubles near it are apart rounds to less.
pub proof fn law_quotient_and_whole_number(n: nat, d: nat, u: nat)
    requires
        0 < d < 0x20_0000_0000_0000,
        u <= 0x20_0000_0000_0000,
        n < 0x20_0000_0000_0000 * d,
    ensures
        quotient(n, d).1 > 0,
        n >= u * d ==> quotient(n, d).0 >= u * quotient(n, d).1,
        u > 0 && n <= u * (d - 1) ==> quotient(n, d).0 < u * quotient(n, d).1,
    decreases 0x20_0000_0000_0000 * d - n,
{
    law_quotient_is_near(n, d);
    let (p, q) = quotient(n, d);
    if n == 0 {
        if 0 >= u * d {
            assert(u == 0) by (nonlinear_arith)
                requires
                    0 >= u * d,
                    d > 0,
                    u >= 0,
            ;
        }
    } else if n < 0x10_0000_0000_0000 * d {
        let (x, y) = quotient(2 * n, d);
        if 2 * u <= 0x20_0000_0000_0000 {
            law_quotient_and_whole_number(2 * n, d, 2 * u);
            assert((2 * u) * d == 2 * (u * d)) by (nonlinear_arith);
            assert((2 * u) * (d - 1) == 2 * (u * (d - 1))) by (nonlinear_arith);
            assert((2 * u) * y == u * (2 * y)) by (nonlinear_arith);
        } else {
            lemma_small_quotient(n, d);
            assert(n < u * d) by (nonlinear_arith)
                requires
                    n < 0x10_0000_0000_0000 * d,
                    2 * u > 0x20_0000_0000_0000,
                    d > 0,
            ;
            assert(p < u * q) by (nonlinear_arith)
                requires
                    p <= 0x10_0000_0000_0000 * q,
                    2 * u > 0x20_0000_0000_0000,
                    q > 0,
            ;
        }
    } else {
        law_nearest_whole_number(n, d, u);
        if n >= u * d {
            lemma_rounded_between(n, d, u, 0x20_0000_0000_0000);
        }
        if u > 0 && n <= u * (d - 1) {
            if u <= 0x10_0000_0000_0000 {
                vstd::arithmetic::mul::lemma_mul_inequality(
                    u as int,
                    0x10_0000_0000_0000,
                    d as int,
                );
                assert(u * (d - 1) == u * d - u) by (nonlinear_arith);
            }
            assert(p < u) by (nonlinear_arith)
                requires
                    2 * (p * d) <= 2 * n + d,
                    n <= u * (d - 1),
                    u > 0x10_0000_0000_0000,
                    0 < d < 0x20_0000_0000_0000,
            {
                assert(u * (d - 1) == u * d - u);
                if p >= u {
                    assert(p * d >= u * d);
                }
            }
        }
    }
}

/// Of two positive doubles, the one whose bits are the larger number is the larger.
pub proof fn law_larger_bits_are_larger_numbers(x: (nat, nat), low: u64, high: u64)
    requires
        x.1 > 0,
        low <= high < 0x8000_0000_0000_0000,
        at_least(x, high),
    ensures
        at_least(x, low),
{
    lemma2_to64();
    let a = low / 0x10_0000_0000_0000;
    let b = high / 0x10_0000_0000_0000;
    assert((low / 0x10_0000_0000_0000) % 2048 == a);
    assert((high / 0x10_0000_0000_0000) % 2048 == b);
    assert(a <= b);
    let m = (low % 0x10_0000_0000_0000) as int;
    let k = (high % 0x10_0000_0000_0000) as int;
    let left: int = if a == 0 {
        m * pow2(1)
    } else {
        (0x10_0000_0000_0000 + m) * pow2(a as nat)
    };
    let right: int = if b == 0 {
        k * pow2(1)
    } else {
        (0x10_0000_0000_0000 + k) * pow2(b as nat)
    };
    lemma_pow2_pos(a as nat);
    lemma_pow2_pos(b as nat);
    let u = pow2(a as nat) as int;
    let v = pow2(b as nat) as int;
    assert(left <= right) by {
        if a == b {
            assert(m <= k);
            if a > 0 {
                assert((0x10_0000_0000_0000 + m) * u <= (0x10_0000_0000_0000 + k) * u)
                    by (nonlinear_arith)
                    requires
                        m <= k,
                        u > 0,
                ;
            }
        } else {
            lemma_pow2_unfold(b as nat);
            if a == 0 {
                assert(v >= 2) by {
                    if b > 1 {
                        lemma_pow2_strictly_increases(1, b as nat);
                    }
                }
                assert(m * 2 <= (0x10_0000_0000_0000 + k) * v) by (nonlinear_arith)
                    requires
                        0 <= m < 0x10_0000_0000_0000,
                        k >= 0,
                        v >= 2,
                ;
            } else {
                if a < b - 1 {
                    lemma_pow2_strictly_increases(a as nat, (b - 1) as nat);
                }
                assert(2 * u <= v);
                assert((0x10_0000_0000_0000 + m) * u <= (0x10_0000_0000_0000 + k) * v)
                    by (nonlinear_arith)
                    requires
                        0 <= m < 0x10_0000_0000_0000,
                        k >= 0,
                        2 * u <= v,
                        u > 0,
                ;
            }
        }
    }
    assert(left * x.1 <= right * x.1) by (nonlinear_arith)
        requires
            left <= right,
            x.1 > 0,
    ;
}

/// A number is at least what a smaller one is at least.
pub proof fn law_larger_numbers_are_at_least_as_much(x: (nat, nat), y: (nat, nat), bits: u64)
    requires
        x.1 > 0,
        y.1 > 0,
        x.0 * y.1 <= y.0 * x.1,
        at_least(x, bits),
    ensures
        at_least(y, bits),
{
    let exponent = (bits / 0x10_0000_0000_0000) % 2048;
    let mantissa = bits % 0x10_0000_0000_0000;
    let big = pow2(1075) as int;
    let v: int = if exponent == 0 {
        mantissa * pow2(1)
    } else {
        (0x10_0000_0000_0000 + mantissa) * pow2(exponent as nat)
    };
    let (a, b) = (x.0 as int, x.1 as int);
    let (c, d) = (y.0 as int, y.1 as int);
    if a * big >= v * b {
        assert(c * big >= v * d) by (nonlinear_arith)
            requires
                a * big >= v * b,
                a * d <= c * b,
                b > 0,
                d > 0,
                big >= 0,
        {
            assert((a * big) * d >= (v * b) * d);
            assert((a * d) * big <= (c * b) * big);
            assert((c * big) * b >= (v * d) * b);
        }
    }
}

/// The bits of the doubles one and one half stand for these numbers.
pub proof fn law_bits_of_one_and_one_half(x: (nat, nat))
    requires
        x.1 > 0,
    ensures
        at_least(x, 0x3FF0_0000_0000_0000) <==> x.0 >= x.1,
        at_least(x, 0x3FE0_0000_0000_0000) <==> 2 * x.0 >= x.1,
        at_least(x, 0x3FF0_0000_0000_0001) ==> x.0 > x.1,
{
    law_bits_stand_for_numbers(x, 0x3FF0_0000_0000_0000);
    law_bits_stand_for_numbers(x, 0x3FF0_0000_0000_0001);
    law_bits_stand_for_numbers(x, 0x3FE0_0000_0000_0000);
    law_bits_stand_for_numbers((2 * x.0, x.1), 0x3FF0_0000_0000_0000);
    let one: u64 = 0x3FF0_0000_0000_0000;
    let next: u64 = 0x3FF0_0000_0000_0001;
    assert((0x10_0000_0000_0000 + (one - 0x3FF0_0000_0000_0000)) * x.1 == 0x10_0000_0000_0000
        * x.1) by (nonlinear_arith)
        requires
            one == 0x3FF0_0000_0000_0000,
    ;
    assert((0x10_0000_0000_0000 + (next - 0x3FF0_0000_0000_0000)) * x.1 == 0x10_0000_0000_0001
        * x.1) by (nonlinear_arith)
        requires
            next == 0x3FF0_0000_0000_0001,
    ;
}

/// A quotient is rounded to the nearest double: to a whole number `m` of 53 bits over a power of
/// two, or times one, that is no further than one half of its last place from the quotient, and
/// even where it is just as far.
pub proof fn law_quotient_is_nearest(n: nat, d: nat) -> (bits: (nat, int))
    requires
        n > 0,
        d > 0,
    ensures
        0x10_0000_0000_0000 <= bits.0 <= 0x20_0000_0000_0000,
        n >= 0x10_0000_0000_0000 * d ==> bits.1 <= 0,
        n < 0x20_0000_0000_0000 * d ==> bits.1 >= 0,
        bits.1 >= 0 ==> {
            let u = pow2(bits.1 as nat);
            &&& quotient(n, d) == (bits.0, u)
            &&& 2 * (bits.0 * d) <= 2 * (n * u) + d
            &&& 2 * (n * u) <= 2 * (bits.0 * d) + d
            &&& 2 * (bits.0 * d) == 2 * (n * u) + d || 2 * (n * u) == 2 * (bits.0 * d) + d
                ==> bits.0 % 2 == 0
        },
        bits.1 < 0 ==> {
            let u = pow2((-bits.1) as nat);
            &&& quotient(n, d) == ((bits.0 * u) as nat, 1nat)
            &&& 2 * (bits.0 * (d * u)) <= 2 * n + d * u
            &&& 2 * n <= 2 * (bits.0 * (d * u)) + d * u
            &&& 2 * (bits.0 * (d * u)) == 2 * n + d * u || 2 * n == 2 * (bits.0 * (d * u)) + d * u
                ==> bits.0 % 2 == 0
        },
    decreases
            if n >= 0x20_0000_0000_0000 * d {
                (n / d) as int
            } else if n < 0x10_0000_0000_0000 * d {
                0x10_0000_0000_0000 * d - n
            } else {
                0
            },
{
    lemma2_to64();
    if n >= 0x20_0000_0000_0000 * d {
        lemma_halved(n, d);
        let (m, k) = law_quotient_is_nearest(n, 2 * d);
        let j = -k;
        lemma_pow2_unfold((j + 1) as nat);
        let u = pow2(j as nat);
        let w = pow2((j + 1) as nat);
        assert(w == 2 * u);
        assert((2 * d) * u == d * w) by (nonlinear_arith)
            requires
                w == 2 * u,
        ;
        assert(2 * (m * u) == m * w) by (nonlinear_arith)
            requires
                w == 2 * u,
        ;
        if k == 0 {
            assert((2 * d) * 1 == 2 * d && m * 1 == m && n * 1 == n) by (nonlinear_arith);
        }
        (m, -(j + 1))
    } else if n < 0x10_0000_0000_0000 * d {
        let (m, k) = law_quotient_is_nearest(2 * n, d);
        lemma_pow2_unfold((k + 1) as nat);
        let u = pow2(k as nat);
        let w = pow2((k + 1) as nat);
        assert((2 * n) * u == n * w) by (nonlinear_arith)
            requires
                w == 2 * u,
        ;
        (m, k + 1)
    } else {
        law_nearest_whole_number(n, d, n);
        lemma_rounded_between(n, d, 0x10_0000_0000_0000, 0x20_0000_0000_0000);
        assert(n * 1 == n) by (nonlinear_arith);
        (half_even(n, d), 0)
    }
}

} // verus!
