//! Correctly rounded arithmetic on nonnegative IEEE 754 binary64 numbers, carried out on integers.
//!
//! Every finite nonnegative binary64 number is a whole multiple of the smallest one, two to the
//! power -1074. The model of a number is that multiple, a `nat`, so that rounding is a statement
//! about natural numbers: `nearest(n, d)` is the multiple that round-to-nearest, ties-to-even
//! picks for the exact quotient `n / d`.
use vstd::arithmetic::div_mod::*;
use vstd::arithmetic::power2::*;
use vstd::prelude::*;

use crate::arith;

verus! {

/// The least mantissa of a normal number, 2^52.
pub const LEAST_NORMAL: u64 = 0x10_0000_0000_0000;

/// One more than the greatest mantissa, 2^53.
pub const MANTISSA_LIMIT: u64 = 0x20_0000_0000_0000;

/// The exponent field of the greatest finite numbers.
pub const MAX_EXPONENT: u32 = 2045;

/// How many of the smallest number make up `1.0`.
pub open spec fn unit() -> nat {
    pow2(1074)
}

/// The exact quotient `n / d` rounded to an integer, halves to the even neighbour.
pub open spec fn round_half_even(n: nat, d: nat) -> nat {
    let q = n / d;
    let r = n % d;
    if 2 * r < d || (2 * r == d && q % 2 == 0) {
        q
    } else {
        q + 1
    }
}

/// The distance between neighbouring binary64 numbers around the multiple `q`.
pub open spec fn spacing(q: nat) -> nat
    decreases q,
{
    if q < MANTISSA_LIMIT {
        1
    } else {
        2 * spacing(q / 2)
    }
}

/// The binary64 number nearest to the exact quotient `n / d`, ties to even.
pub open spec fn nearest(n: nat, d: nat) -> nat {
    let gap = spacing(n / d);
    round_half_even(n, d * gap) * gap
}

/// The binary64 number for an integer.
pub open spec fn of_int(x: nat) -> nat {
    nearest(x * unit(), 1)
}

/// The rounded product.
pub open spec fn times(a: nat, b: nat) -> nat {
    nearest(a * b, unit())
}

/// The rounded quotient.
pub open spec fn over(a: nat, b: nat) -> nat {
    nearest(a * unit(), b)
}

/// The rounded difference, for `a >= b`.
pub open spec fn minus(a: nat, b: nat) -> nat {
    nearest((a - b) as nat, 1)
}

/// Conversion to a 64-bit integer: the fraction is cut off, large numbers saturate.
pub open spec fn to_int(a: nat) -> nat {
    let whole = a / unit();
    if whole > u64::MAX {
        u64::MAX as nat
    } else {
        whole
    }
}

/// The least integer that is not below the number, saturating as `to_int` does.
pub open spec fn to_int_up(a: nat) -> nat {
    let whole = if a % unit() == 0 {
        a / unit()
    } else {
        a / unit() + 1
    };
    if whole > u64::MAX {
        u64::MAX as nat
    } else {
        whole
    }
}

/// A finite nonnegative binary64 number: `mantissa * 2^exponent` times the smallest one.
#[derive(Clone, Copy, Debug, PartialEq, Eq, Structural)]
pub struct Binary64 {
    pub mantissa: u64,
    pub exponent: u32,
}

/// The representation of `1.0`.
pub open spec fn one_value() -> Binary64 {
    Binary64 { mantissa: LEAST_NORMAL, exponent: 1022 }
}

impl View for Binary64 {
    type V = nat;

    open spec fn view(&self) -> nat {
        self.mantissa as nat * pow2(self.exponent as nat)
    }
}

/// The number, or zero where it is negative.
pub open spec fn nonneg(e: int) -> nat {
    if e > 0 {
        e as nat
    } else {
        0
    }
}

/// Where the quotient `q` has 53 binary digits above position `x`, numbers are `2^x` apart.
proof fn lemma_spacing(q: nat, x: nat)
    requires
        x == 0 ==> q < MANTISSA_LIMIT,
        x > 0 ==> LEAST_NORMAL * pow2(x) <= q < MANTISSA_LIMIT * pow2(x),
    ensures
        spacing(q) == pow2(x),
    decreases x,
{
    lemma2_to64();
    if x > 0 {
        lemma_pow2_unfold(x);
        lemma_pow2_pos((x - 1) as nat);
        let p = pow2((x - 1) as nat);
        assert(LEAST_NORMAL * (2 * p) == 2 * (LEAST_NORMAL * p)) by (nonlinear_arith);
        assert(MANTISSA_LIMIT * (2 * p) == 2 * (MANTISSA_LIMIT * p)) by (nonlinear_arith);
        assert(LEAST_NORMAL * (2 * p) >= MANTISSA_LIMIT) by (nonlinear_arith)
            requires
                p >= 1,
                LEAST_NORMAL == 0x10_0000_0000_0000,
                MANTISSA_LIMIT == 0x20_0000_0000_0000,
        ;
        if x == 1 {
            assert(p == 1);
        }
        lemma_spacing(q / 2, (x - 1) as nat);
    }
}

/// Rounding, once the position `x` of the last mantissa digit is known.
pub(crate) proof fn lemma_nearest_at(n: nat, d: nat, x: nat)
    requires
        d > 0,
        n / (d * pow2(x)) < MANTISSA_LIMIT,
        x == 0 || n / (d * pow2(x)) >= LEAST_NORMAL,
    ensures
        nearest(n, d) == round_half_even(n, d * pow2(x)) * pow2(x),
{
    let p = pow2(x);
    lemma_pow2_pos(x);
    let q = n / d;
    let kept = n / (d * p);
    arith::lemma_div_mod_stages(n as int, d as int, p as int);
    assert(kept == q / p);
    lemma_fundamental_div_mod(q as int, p as int);
    if x > 0 {
        assert(LEAST_NORMAL * p <= q < MANTISSA_LIMIT * p) by (nonlinear_arith)
            requires
                q == p * kept + q % p,
                0 <= q % p < p,
                LEAST_NORMAL <= kept,
                kept + 1 <= MANTISSA_LIMIT,
                p > 0,
        ;
    } else {
        lemma2_to64();
        assert(q < MANTISSA_LIMIT);
    }
    lemma_spacing(q, x);
}

/// A common factor does not change what a quotient rounds to.
pub(crate) proof fn lemma_round_scale(n: nat, m: nat, c: nat)
    requires
        m > 0,
        c > 0,
    ensures
        m * c > 0,
        round_half_even(n * c, m * c) == round_half_even(n, m),
        (n * c) / (m * c) == n / m,
{
    arith::lemma_div_mod_scale(n as int, m as int, c as int);
    let r = n % m;
    assert(m * c > 0) by (nonlinear_arith)
        requires
            m > 0,
            c > 0,
    ;
    assert(2 * (r * c) < m * c <==> 2 * r < m) by (nonlinear_arith)
        requires
            c > 0,
    ;
    assert(2 * (r * c) == m * c <==> 2 * r == m) by (nonlinear_arith)
        requires
            c > 0,
    ;
}

/// The powers of two that `exp` puts above and below the line cancel against those of the
/// target position `x`.
proof fn lemma_cancel(n: nat, d: nat, exp: int, x: nat, drop: nat)
    requires
        d > 0,
        x == exp + drop,
    ensures
        d * pow2(nonneg(-exp)) > 0,
        d * pow2(drop) > 0,
        round_half_even(n * pow2(nonneg(exp)), d * pow2(nonneg(-exp)) * pow2(x))
            == round_half_even(n, d * pow2(drop)),
        (n * pow2(nonneg(exp))) / (d * pow2(nonneg(-exp)) * pow2(x)) == n / (d * pow2(drop)),
{
    let a = nonneg(exp);
    let b = nonneg(-exp);
    lemma_pow2_pos(a);
    lemma_pow2_pos(b);
    lemma_pow2_pos(drop);
    lemma_pow2_adds(b, x);
    lemma_pow2_adds(drop, a);
    assert(b + x == drop + a);
    assert(d * pow2(b) * pow2(x) == d * pow2(drop) * pow2(a)) by (nonlinear_arith)
        requires
            pow2(b) * pow2(x) == pow2(drop) * pow2(a),
    ;
    assert(d * pow2(b) > 0 && d * pow2(drop) > 0) by (nonlinear_arith)
        requires
            d > 0,
            pow2(b) > 0,
            pow2(drop) > 0,
    ;
    lemma_round_scale(n, d * pow2(drop), pow2(a));
}

/// A common factor does not change the nearest number.
pub(crate) proof fn lemma_nearest_scale(n: nat, d: nat, c: nat)
    requires
        d > 0,
        c > 0,
    ensures
        nearest(n * c, d * c) == nearest(n, d),
{
    let gap = spacing(n / d);
    lemma_round_scale(n, d, c);
    lemma_spacing_pos(n / d);
    assert(d * gap > 0) by (nonlinear_arith)
        requires
            d > 0,
            gap > 0,
    ;
    lemma_round_scale(n, d * gap, c);
    assert(d * gap * c == d * c * gap) by (nonlinear_arith);
}

proof fn lemma_spacing_pos(q: nat)
    ensures
        spacing(q) > 0,
    decreases q,
{
    if q >= MANTISSA_LIMIT {
        lemma_spacing_pos(q / 2);
    }
}

/// Only the difference of the powers of two above and below the line matters.
proof fn lemma_exponents(n: nat, d: nat, u: nat, v: nat)
    requires
        d > 0,
    ensures
        nearest(n * pow2(u), d * pow2(v)) == nearest(
            n * pow2(nonneg(u - v)),
            d * pow2(nonneg(v - u)),
        ),
{
    let e = nonneg(u - v);
    let f = nonneg(v - u);
    let c = if u <= v {
        u
    } else {
        v
    };
    lemma_pow2_adds(e, c);
    lemma_pow2_adds(f, c);
    lemma_pow2_pos(c);
    lemma_pow2_pos(f);
    assert(d * pow2(f) > 0) by (nonlinear_arith)
        requires
            d > 0,
            pow2(f) > 0,
    ;
    lemma_nearest_scale(n * pow2(e), d * pow2(f), pow2(c));
    assert(n * pow2(e) * pow2(c) == n * pow2(u)) by (nonlinear_arith)
        requires
            pow2(u) == pow2(e) * pow2(c),
    ;
    assert(d * pow2(f) * pow2(c) == d * pow2(v)) by (nonlinear_arith)
        requires
            pow2(v) == pow2(f) * pow2(c),
    ;
}

/// Rounding a quotient that was scaled so that its 53 digits lie above position `x`.
pub(crate) proof fn lemma_nearest_digits(n: nat, d: nat, x: nat)
    requires
        d > 0,
        LEAST_NORMAL <= n / d < MANTISSA_LIMIT,
    ensures
        nearest(n * pow2(x), d) == round_half_even(n, d) * pow2(x),
{
    lemma_pow2_pos(x);
    lemma_round_scale(n, d, pow2(x));
    lemma_nearest_at(n * pow2(x), d, x);
}

/// Around `q`, numbers are a power of two apart, and that power fits the digits of `q`.
proof fn lemma_spacing_shape(q: nat) -> (x: nat)
    ensures
        spacing(q) == pow2(x),
        x == 0 ==> q < MANTISSA_LIMIT,
        x > 0 ==> LEAST_NORMAL * pow2(x) <= q < MANTISSA_LIMIT * pow2(x),
    decreases q,
{
    lemma2_to64();
    if q < MANTISSA_LIMIT {
        0
    } else {
        let y = lemma_spacing_shape(q / 2);
        lemma_pow2_unfold(y + 1);
        let p = pow2(y);
        assert(LEAST_NORMAL * (2 * p) == 2 * (LEAST_NORMAL * p)) by (nonlinear_arith);
        assert(MANTISSA_LIMIT * (2 * p) == 2 * (MANTISSA_LIMIT * p)) by (nonlinear_arith);
        y + 1
    }
}

/// A quotient that is a binary64 number is not rounded.
pub proof fn lemma_nearest_exact(b: Binary64, d: nat)
    requires
        b.wf(),
        d > 0,
    ensures
        nearest(b@ * d, d) == b@,
{
    let x = b.exponent as nat;
    let p = pow2(x);
    lemma_pow2_pos(x);
    assert(d * p > 0) by (nonlinear_arith)
        requires
            d > 0,
            p > 0,
    ;
    assert(b@ * d == b.mantissa * (d * p)) by (nonlinear_arith)
        requires
            b@ == b.mantissa as nat * p,
    ;
    lemma_fundamental_div_mod_converse((b@ * d) as int, (d * p) as int, b.mantissa as int, 0);
    lemma_nearest_at(b@ * d, d, x);
}

/// A quotient that is at most some binary64 number is not rounded past it.
pub proof fn lemma_nearest_le(n: nat, d: nat, b: Binary64)
    requires
        b.wf(),
        d > 0,
        n <= b@ * d,
    ensures
        nearest(n, d) <= b@,
{
    let q = n / d;
    let x = lemma_spacing_shape(q);
    let y = b.exponent as nat;
    let g = pow2(x);
    lemma_pow2_pos(x);
    lemma_fundamental_div_mod(n as int, d as int);
    assert(q <= b@) by (nonlinear_arith)
        requires
            n == d * q + n % d,
            n % d >= 0,
            n <= b@ * d,
            d > 0,
    ;
    if y < x {
        lemma_pow2_unfold((y + 1) as nat);
        arith::lemma_pow2_le((y + 1) as nat, x);
        assert(b.mantissa * pow2(y) < LEAST_NORMAL * g) by (nonlinear_arith)
            requires
                b.mantissa < 2 * LEAST_NORMAL,
                2 * pow2(y) <= g,
                g > 0,
        ;
        assert(false);
    }
    lemma_pow2_adds((y - x) as nat, x);
    let w = b.mantissa * pow2((y - x) as nat);
    let m = d * g;
    assert(b@ == w * g) by (nonlinear_arith)
        requires
            b@ == b.mantissa as nat * pow2(y),
            pow2(y) == pow2((y - x) as nat) * g,
            w == b.mantissa * pow2((y - x) as nat),
    ;
    assert(m > 0) by (nonlinear_arith)
        requires
            m == d * g,
            d > 0,
            g > 0,
    ;
    assert(n <= w * m) by (nonlinear_arith)
        requires
            n <= b@ * d,
            b@ == w * g,
            m == d * g,
    ;
    let k = n / m;
    let r = n % m;
    lemma_fundamental_div_mod(n as int, m as int);
    assert(k <= w && (k == w ==> r == 0)) by (nonlinear_arith)
        requires
            n == m * k + r,
            n <= w * m,
            0 <= r < m,
    ;
    assert(round_half_even(n, m) <= w);
    assert(round_half_even(n, m) * g <= w * g) by (nonlinear_arith)
        requires
            round_half_even(n, m) <= w,
            g > 0,
    ;
}

/// A greater quotient is not rounded to a smaller number.
pub proof fn lemma_nearest_monotone(n1: nat, n2: nat, d: nat)
    requires
        d > 0,
        n1 <= n2,
    ensures
        nearest(n1, d) <= nearest(n2, d),
{
    let (q1, q2) = (n1 / d, n2 / d);
    lemma_div_is_ordered(n1 as int, n2 as int, d as int);
    let x1 = lemma_spacing_shape(q1);
    let x2 = lemma_spacing_shape(q2);
    let (g1, g2) = (pow2(x1), pow2(x2));
    lemma_pow2_pos(x1);
    lemma_pow2_pos(x2);
    lemma2_to64();
    if x1 > x2 {
        lemma_pow2_unfold(x2 + 1);
        arith::lemma_pow2_le(x2 + 1, x1);
        assert(MANTISSA_LIMIT * g2 <= LEAST_NORMAL * g1) by (nonlinear_arith)
            requires
                MANTISSA_LIMIT == 2 * LEAST_NORMAL,
                2 * g2 <= g1,
        ;
        assert(false);
    }
    lemma_round_bounds(n1, d * g1, d, g1);
    lemma_round_bounds(n2, d * g2, d, g2);
    let k1 = round_half_even(n1, d * g1);
    let k2 = round_half_even(n2, d * g2);
    if x1 == x2 {
        lemma_div_is_ordered(n1 as int, n2 as int, (d * g1) as int);
        lemma_fundamental_div_mod(n1 as int, (d * g1) as int);
        lemma_fundamental_div_mod(n2 as int, (d * g1) as int);
        assert(k1 <= k2);
        assert(k1 * g1 <= k2 * g1) by (nonlinear_arith)
            requires
                k1 <= k2,
        ;
    } else {
        lemma_pow2_unfold(x1 + 1);
        arith::lemma_pow2_le(x1 + 1, x2);
        assert(k1 <= MANTISSA_LIMIT) by (nonlinear_arith)
            requires
                g1 * (k1 - 1) <= q1,
                q1 < MANTISSA_LIMIT * g1,
                g1 > 0,
        ;
        assert(k2 >= LEAST_NORMAL) by (nonlinear_arith)
            requires
                g2 * (k2 + 1) > q2,
                LEAST_NORMAL * g2 <= q2,
                g2 > 0,
        ;
        assert(k1 * g1 <= k2 * g2) by (nonlinear_arith)
            requires
                k1 <= 2 * LEAST_NORMAL,
                k2 >= LEAST_NORMAL,
                2 * g1 <= g2,
        ;
    }
}

/// A rounded quotient is less than one step off.
proof fn lemma_round_bounds(n: nat, m: nat, d: nat, g: nat)
    requires
        d > 0,
        g > 0,
        m == d * g,
    ensures
        m > 0,
        g * (round_half_even(n, m) - 1) <= n / d,
        g * (round_half_even(n, m) + 1) > n / d,
{
    arith::lemma_div_mod_stages(n as int, d as int, g as int);
    let q = n / d;
    let k = q / g;
    lemma_fundamental_div_mod(q as int, g as int);
    let r = round_half_even(n, m);
    assert(g * (r - 1) <= q && g * (r + 1) > q) by (nonlinear_arith)
        requires
            q == g * k + q % g,
            0 <= q % g < g,
            r == k || r == k + 1,
    ;
}

/// Rounding is off by at most half the distance between neighbours.
pub proof fn lemma_rounding_error(n: nat, d: nat)
    requires
        d > 0,
    ensures
        2 * (n - nearest(n, d) * d) <= d * spacing(n / d),
        2 * (nearest(n, d) * d - n) <= d * spacing(n / d),
        spacing(n / d) == 1 || LEAST_NORMAL * spacing(n / d) <= n / d,
{
    let x = lemma_spacing_shape(n / d);
    lemma2_to64();
    let g = spacing(n / d);
    lemma_pow2_pos(x);
    let m = d * g;
    assert(m > 0) by (nonlinear_arith)
        requires
            m == d * g,
            d > 0,
            g > 0,
    ;
    lemma_fundamental_div_mod(n as int, m as int);
    let k = round_half_even(n, m);
    let (q, r) = (n / m, n % m);
    assert(k * g * d == k * m) by (nonlinear_arith)
        requires
            m == d * g,
    ;
    if k == q {
        assert(k * m == m * q) by (nonlinear_arith)
            requires
                k == q,
        ;
    } else {
        assert(k * m == m * q + m) by (nonlinear_arith)
            requires
                k == q + 1,
        ;
    }
}

/// What rounding returns is a binary64 number, if the quotient is far from overflow.
pub proof fn lemma_nearest_is_binary64(n: nat, d: nat) -> (b: Binary64)
    requires
        d > 0,
        n / d < pow2(2000),
    ensures
        b.wf(),
        b@ == nearest(n, d),
{
    lemma2_to64();
    lemma2_to64_rest();
    let q = n / d;
    let x = lemma_spacing_shape(q);
    let g = pow2(x);
    lemma_pow2_pos(x);
    if x > 2000 {
        lemma_pow2_strictly_increases(2000, x);
        assert(LEAST_NORMAL * g >= g) by (nonlinear_arith)
            requires
                LEAST_NORMAL >= 1,
        ;
        assert(false);
    }
    arith::lemma_div_mod_stages(n as int, d as int, g as int);
    let k = q / g;
    lemma_fundamental_div_mod(q as int, g as int);
    assert(k < MANTISSA_LIMIT && (x > 0 ==> k >= LEAST_NORMAL)) by (nonlinear_arith)
        requires
            q == g * k + q % g,
            0 <= q % g < g,
            x == 0 ==> q < MANTISSA_LIMIT && g == 1,
            x > 0 ==> LEAST_NORMAL * g <= q < MANTISSA_LIMIT * g,
    ;
    let m = round_half_even(n, d * g);
    assert(m == k || m == k + 1);
    if m < MANTISSA_LIMIT {
        Binary64 { mantissa: m as u64, exponent: x as u32 }
    } else {
        lemma_pow2_unfold(x + 1);
        assert(LEAST_NORMAL * (2 * g) == MANTISSA_LIMIT * g) by (nonlinear_arith)
            requires
                MANTISSA_LIMIT == 2 * LEAST_NORMAL,
        ;
        Binary64 { mantissa: LEAST_NORMAL, exponent: (x + 1) as u32 }
    }
}

/// `1.0` is the unit of the model.
pub proof fn lemma_one()
    ensures
        one_value().wf(),
        one_value()@ == unit(),
{
    lemma2_to64_rest();
    lemma_pow2_adds(52, 1022);
}

/// Integers of at most 53 digits are represented exactly.
pub proof fn lemma_small_int(x: nat)
    requires
        x < MANTISSA_LIMIT,
    ensures
        of_int(x) == x * unit(),
{
    lemma_pow2_pos(1074);
    let q = x * unit();
    assert(q / 1 == q && q % 1 == 0 && 1 * spacing(q) == spacing(q)) by (nonlinear_arith);
    let k = lemma_spacing_shape(q);
    lemma_pow2_pos(k);
    if k > 1074 {
        lemma_pow2_unfold(1075);
        arith::lemma_pow2_le(1075, k);
        assert(x * unit() < LEAST_NORMAL * pow2(k)) by (nonlinear_arith)
            requires
                x < 2 * LEAST_NORMAL,
                pow2(k) >= 2 * unit(),
                unit() > 0,
        ;
        assert(false);
    }
    lemma_pow2_adds((1074 - k) as nat, k);
    let w = x * pow2((1074 - k) as nat);
    assert(q == w * pow2(k)) by (nonlinear_arith)
        requires
            q == x * unit(),
            unit() == pow2((1074 - k) as nat) * pow2(k),
            w == x * pow2((1074 - k) as nat),
    ;
    lemma_fundamental_div_mod_converse(q as int, pow2(k) as int, w as int, 0);
}

/// Rounding reads only the kept digits, the dropped digits and whether anything follows them.
proof fn lemma_round_digits(n: nat, d: nat, p: nat)
    requires
        d > 0,
        p >= 2,
        p % 2 == 0,
    ensures
        ({
            let sig = n / d;
            let low = sig % p;
            let kept = sig / p;
            &&& d * p > 0
            &&& n / (d * p) == kept
            &&& round_half_even(n, d * p) == if low > p / 2 || (low == p / 2 && (n % d != 0 || kept % 2
                == 1)) {
                kept + 1
            } else {
                kept
            }
        }),
{
    arith::lemma_div_mod_stages(n as int, d as int, p as int);
    let sig = n / d;
    let low = sig % p;
    let r = n % d;
    let half = p / 2;
    let rem = n % (d * p);
    assert(rem == low * d + r);
    assert(p == 2 * half);
    assert(d * p == 2 * (half * d)) by (nonlinear_arith)
        requires
            p == 2 * half,
    ;
    if low < half {
        assert(low * d + r < half * d) by (nonlinear_arith)
            requires
                low + 1 <= half,
                r < d,
        ;
    } else if low > half {
        assert(low * d + r > half * d) by (nonlinear_arith)
            requires
                low >= half + 1,
                r >= 0,
                d > 0,
        ;
    }
}

/// Canonical representations are ordered by exponent first and mantissa second.
proof fn lemma_order(a: Binary64, b: Binary64)
    requires
        a.wf(),
        b.wf(),
    ensures
        a.exponent < b.exponent ==> a@ < b@,
        a.exponent == b.exponent && a.mantissa < b.mantissa ==> a@ < b@,
        a.exponent == b.exponent && a.mantissa == b.mantissa ==> a@ == b@,
{
    lemma_pow2_pos(a.exponent as nat);
    if a.exponent < b.exponent {
        lemma_pow2_unfold((a.exponent + 1) as nat);
        arith::lemma_pow2_le((a.exponent + 1) as nat, b.exponent as nat);
        let pa = pow2(a.exponent as nat);
        let pb = pow2(b.exponent as nat);
        assert(a.mantissa * pa < b.mantissa * pb) by (nonlinear_arith)
            requires
                a.mantissa < 2 * LEAST_NORMAL,
                b.mantissa >= LEAST_NORMAL,
                2 * pa <= pb,
                pa > 0,
        ;
    } else if a.exponent == b.exponent && a.mantissa < b.mantissa {
        assert(a.mantissa * pow2(a.exponent as nat) < b.mantissa * pow2(a.exponent as nat))
            by (nonlinear_arith)
            requires
                a.mantissa < b.mantissa,
                pow2(a.exponent as nat) > 0,
        ;
    }
}

/// An integer of 64 bits other than zero is represented by at least one and at most 2^64.
pub proof fn lemma_int_range(x: nat)
    requires
        0 < x <= u64::MAX,
    ensures
        unit() <= of_int(x) <= pow2(64) * unit(),
{
    lemma2_to64();
    lemma2_to64_rest();
    lemma_pow2_pos(1074);
    lemma_one();
    let top = Binary64 { mantissa: LEAST_NORMAL, exponent: 1086 };
    lemma_pow2_adds(52, 1086);
    lemma_pow2_adds(64, 1074);
    assert(top@ == pow2(64) * unit());
    assert(x * unit() <= pow2(64) * unit() && unit() <= x * unit()) by (nonlinear_arith)
        requires
            1 <= x <= pow2(64),
            unit() > 0,
    ;
    assert(top@ * 1 == top@ && one_value()@ * 1 == unit());
    lemma_nearest_le(x * unit(), 1, top);
    lemma_nearest_exact(one_value(), 1);
    lemma_nearest_monotone(unit(), x * unit(), 1);
}

/// A quotient of at least the smallest number is not rounded to zero.
pub proof fn lemma_at_least_smallest(n: nat, d: nat)
    requires
        0 < d <= n,
    ensures
        nearest(n, d) > 0,
{
    lemma2_to64();
    let least = Binary64 { mantissa: 1, exponent: 0 };
    assert(least@ == 1 && least@ * d == d);
    lemma_nearest_exact(least, d);
    lemma_nearest_monotone(d, n, d);
}

/// A number of at most `1.0` has at most the exponent of `1.0`.
pub proof fn lemma_at_most_one(b: Binary64)
    requires
        b.wf(),
        b@ <= unit(),
    ensures
        b.exponent <= 1022,
{
    lemma_one();
    lemma_order(one_value(), b);
}

impl Binary64 {
    /// The representation is the canonical one: normal numbers use all 53 mantissa digits.
    pub open spec fn wf(self) -> bool {
        &&& self.mantissa < MANTISSA_LIMIT
        &&& self.exponent <= MAX_EXPONENT
        &&& self.exponent > 0 ==> self.mantissa >= LEAST_NORMAL
    }

    /// Rounds the quotient `n / d` times `2^exp`, given the integer part of `n / d` and whether
    /// the division left a remainder.
    fn pack(sig: u128, inexact: bool, exp: i32, Ghost(n): Ghost<nat>, Ghost(d): Ghost<nat>) -> (r:
        Self)
        requires
            d > 0,
            sig == n / d,
            inexact == (n % d != 0),
            sig < pow2(127),
            inexact ==> sig >= MANTISSA_LIMIT,
            -4000 <= exp <= 1900,
        ensures
            r.wf(),
            r@ == nearest(n * pow2(nonneg(exp as int)), d * pow2(nonneg(-exp as int))),
            r.exponent <= 1 || r.exponent <= exp + 75,
            sig >= MANTISSA_LIMIT ==> r.exponent >= exp,
    {
        let ghost big_n = n * pow2(nonneg(exp as int));
        let ghost big_d = d * pow2(nonneg(-exp as int));
        proof {
            lemma2_to64();
            lemma2_to64_rest();
            lemma_fundamental_div_mod(n as int, d as int);
        }
        if sig == 0 {
            proof {
                assert(d * 0 == 0);
                assert(n == 0);
                lemma_cancel(n, d, exp as int, nonneg(exp as int), nonneg(-exp as int));
                assert(0 * pow2(nonneg(exp as int)) == 0);
                assert(big_n == 0);
                assert(0nat / big_d == 0 && 0nat % big_d == 0) by (nonlinear_arith)
                    requires
                        big_d > 0,
                ;
                assert(big_d * 1 == big_d);
                assert(round_half_even(0, big_d) == 0);
                lemma_nearest_at(0, big_d, 0);
            }
            return Binary64 { mantissa: 0, exponent: 0 };
        }
        let bits: u32 = arith::bit_length(sig);
        proof {
            if bits >= 128 {
                arith::lemma_pow2_le(127, (bits - 1) as nat);
            }
        }
        let wanted: i32 = bits as i32 - 53;
        let drop: i32 = if wanted >= -exp {
            wanted
        } else {
            -exp
        };
        if drop <= 0 {
            let k: u32 = (-drop) as u32;
            let x: u32 = (exp + drop) as u32;
            proof {
                if inexact {
                    arith::lemma_pow2_le(bits as nat, 53);
                }
                lemma_pow2_pos(k as nat);
                lemma_pow2_adds(bits as nat, k as nat);
                arith::lemma_pow2_le((bits + k) as nat, 53);
                assert(sig * pow2(k as nat) < pow2(bits as nat) * pow2(k as nat)) by (nonlinear_arith)
                    requires
                        sig < pow2(bits as nat),
                        pow2(k as nat) > 0,
                ;
            }
            let scale: u128 = arith::pow2_u128(k);
            let m: u128 = sig * scale;
            proof {
                if x > 0 {
                    assert(bits + k == 53);
                    lemma_pow2_adds((bits - 1) as nat, k as nat);
                    assert(pow2((bits - 1) as nat) * pow2(k as nat) <= sig * pow2(k as nat))
                        by (nonlinear_arith)
                        requires
                            pow2((bits - 1) as nat) <= sig,
                    ;
                }
                assert(n == d * sig);
                lemma_pow2_adds(k as nat, x as nat);
                assert(exp == k + x);
                let px = pow2(x as nat);
                lemma_pow2_pos(x as nat);
                assert(nonneg(-exp as int) == 0 && nonneg(exp as int) == exp);
                assert(d * 1 == d);
                assert(big_n == m * (d * px)) by (nonlinear_arith)
                    requires
                        big_n == n * pow2(exp as nat),
                        n == d * sig,
                        pow2(exp as nat) == pow2(k as nat) * px,
                        m == sig * pow2(k as nat),
                ;
                assert(d * px > 0) by (nonlinear_arith)
                    requires
                        d > 0,
                        px > 0,
                ;
                lemma_fundamental_div_mod_converse(big_n as int, (d * px) as int, m as int, 0);
                lemma_nearest_at(big_n, big_d, x as nat);
            }
            return Binary64 { mantissa: m as u64, exponent: x };
        }
        if drop >= 128 {
            proof {
                assert(exp + drop == 0);
                arith::lemma_pow2_le(128, drop as nat);
                lemma_pow2_unfold(128);
                lemma_pow2_unfold(drop as nat);
                let p = pow2(drop as nat);
                assert(p % 2 == 0);
                assert(sig < p / 2);
                lemma_small_mod(sig as nat, p);
                lemma_basic_div(sig as int, p as int);
                lemma_round_digits(n, d, p);
                lemma_cancel(n, d, exp as int, 0, drop as nat);
                assert(big_d * 1 == big_d);
                lemma_nearest_at(big_n, big_d, 0);
            }
            return Binary64 { mantissa: 0, exponent: 0 };
        }
        let p: u128 = arith::pow2_u128(drop as u32);
        proof {
            lemma_pow2_pos(drop as nat);
        }
        let kept: u128 = sig / p;
        let low: u128 = sig % p;
        let half: u128 = p / 2;
        let x: u32 = (exp + drop) as u32;
        proof {
            lemma_pow2_unfold(drop as nat);
            lemma_pow2_pos((drop - 1) as nat);
            lemma_fundamental_div_mod(sig as int, p as int);
            lemma_pow2_adds(drop as nat, 53);
            arith::lemma_pow2_le(bits as nat, (drop + 53) as nat);
            assert(kept < MANTISSA_LIMIT) by (nonlinear_arith)
                requires
                    sig == p * kept + low,
                    sig < p * MANTISSA_LIMIT,
                    low >= 0,
                    p > 0,
            ;
            if x > 0 {
                assert(drop == bits - 53);
                lemma_pow2_adds(drop as nat, 52);
                assert(kept >= LEAST_NORMAL) by (nonlinear_arith)
                    requires
                        sig == p * kept + low,
                        sig >= p * LEAST_NORMAL,
                        low < p,
                        p > 0,
                ;
            }
            lemma_round_digits(n, d, p as nat);
            lemma_cancel(n, d, exp as int, x as nat, drop as nat);
            lemma_nearest_at(big_n, big_d, x as nat);
        }
        let raise: bool = low > half || (low == half && (inexact || kept % 2 == 1));
        let m: u64 = if raise {
            kept as u64 + 1
        } else {
            kept as u64
        };
        if m == MANTISSA_LIMIT {
            proof {
                lemma_pow2_unfold((x + 1) as nat);
                assert(LEAST_NORMAL * (2 * pow2(x as nat)) == MANTISSA_LIMIT * pow2(x as nat))
                    by (nonlinear_arith)
                    requires
                        MANTISSA_LIMIT == 2 * LEAST_NORMAL,
                ;
            }
            Binary64 { mantissa: LEAST_NORMAL, exponent: x + 1 }
        } else {
            Binary64 { mantissa: m, exponent: x }
        }
    }

    /// `1.0`.
    pub fn one() -> (r: Self)
        ensures
            r == one_value(),
            r.wf(),
            r@ == unit(),
    {
        proof {
            lemma_one();
        }
        Binary64 { mantissa: LEAST_NORMAL, exponent: 1022 }
    }

    /// The number for an integer, rounded where it has more than 53 digits.
    pub fn from_u64(x: u64) -> (r: Self)
        ensures
            r.wf(),
            r@ == of_int(x as nat),
            r.exponent <= 1086,
            x > 0 ==> r.exponent >= 1011,
    {
        let sig: u128 = x as u128 * 0x8000_0000_0000_0000;
        let ghost n = sig as nat;
        proof {
            lemma2_to64();
            lemma2_to64_rest();
            lemma_pow2_adds(64, 63);
            lemma_pow2_adds(63, 1011);
            assert(n * pow2(1011) == x as nat * unit()) by (nonlinear_arith)
                requires
                    n == x * pow2(63),
                    unit() == pow2(63) * pow2(1011),
            ;
        }
        Self::pack(sig, false, 1011, Ghost(n), Ghost(1))
    }

    /// The rounded product.
    pub fn mul(self, other: Self) -> (r: Self)
        requires
            self.wf(),
            other.wf(),
            self.exponent + other.exponent <= 2900,
        ensures
            r.wf(),
            r@ == times(self@, other@),
            r.exponent <= 1 || r.exponent <= self.exponent + other.exponent - 999,
    {
        let (m1, m2): (u64, u64) = (self.mantissa, other.mantissa);
        let ghost n: nat = m1 as nat * m2 as nat;
        proof {
            lemma2_to64_rest();
            lemma_pow2_adds(53, 53);
            arith::lemma_pow2_le(106, 127);
            assert(m1 * m2 < MANTISSA_LIMIT * MANTISSA_LIMIT) by (nonlinear_arith)
                requires
                    m1 < MANTISSA_LIMIT,
                    m2 < MANTISSA_LIMIT,
            ;
            let (x1, x2) = (self.exponent as nat, other.exponent as nat);
            lemma_pow2_adds(x1, x2);
            assert(n * pow2(x1 + x2) == self@ * other@) by (nonlinear_arith)
                requires
                    n == m1 as nat * m2 as nat,
                    self@ == m1 as nat * pow2(x1),
                    other@ == m2 as nat * pow2(x2),
                    pow2(x1 + x2) == pow2(x1) * pow2(x2),
            ;
            assert(1 * pow2(1074) == unit());
            lemma_exponents(n, 1, x1 + x2, 1074);
        }
        let sig: u128 = m1 as u128 * m2 as u128;
        Self::pack(
            sig,
            false,
            self.exponent as i32 + other.exponent as i32 - 1074,
            Ghost(n),
            Ghost(1),
        )
    }

    /// The rounded quotient by a number other than zero.
    pub fn div(self, other: Self) -> (r: Self)
        requires
            self.wf(),
            other.wf(),
            other.mantissa > 0,
            self.exponent <= other.exponent + 800,
        ensures
            r.wf(),
            r@ == over(self@, other@),
            r.exponent <= 1 || r.exponent <= self.exponent - other.exponent + 1075,
    {
        let (m1, m2): (u64, u64) = (self.mantissa, other.mantissa);
        let bits: u32 = arith::bit_length(m1 as u128);
        proof {
            lemma2_to64_rest();
            if bits > 53 {
                arith::lemma_pow2_le(53, (bits - 1) as nat);
            }
        }
        let shift: u32 = 127 - bits;
        let scale: u128 = arith::pow2_u128(shift);
        proof {
            lemma_pow2_adds(bits as nat, shift as nat);
            lemma_pow2_pos(shift as nat);
            assert(m1 * pow2(shift as nat) < pow2(127)) by (nonlinear_arith)
                requires
                    m1 < pow2(bits as nat),
                    pow2(127) == pow2(bits as nat) * pow2(shift as nat),
                    pow2(shift as nat) > 0,
            ;
            lemma_pow2_adds(63, 64);
            lemma2_to64();
        }
        let n: u128 = m1 as u128 * scale;
        let sig: u128 = n / m2 as u128;
        proof {
            lemma_fundamental_div_mod(n as int, m2 as int);
            assert(sig <= n) by (nonlinear_arith)
                requires
                    n == m2 * sig + n as int % m2 as int,
                    n as int % m2 as int >= 0,
                    m2 >= 1,
            ;
            if m1 > 0 {
                lemma_pow2_adds((bits - 1) as nat, shift as nat);
                lemma_pow2_adds(63, 63);
                assert(n >= pow2(126)) by (nonlinear_arith)
                    requires
                        n == m1 * pow2(shift as nat),
                        m1 >= pow2((bits - 1) as nat),
                        pow2(126) == pow2((bits - 1) as nat) * pow2(shift as nat),
                ;
                assert(sig >= MANTISSA_LIMIT) by (nonlinear_arith)
                    requires
                        n == m2 * sig + n as int % m2 as int,
                        n as int % (m2 as int) < m2,
                        m2 < MANTISSA_LIMIT,
                        m2 >= 1,
                        n >= 0x8000_0000_0000_0000 * 0x8000_0000_0000_0000,
                        MANTISSA_LIMIT == 0x20_0000_0000_0000,
                ;
            } else {
                assert(0 * pow2(shift as nat) == 0);
                assert(0int % m2 as int == 0);
            }
            let (x1, x2) = (self.exponent as nat, other.exponent as nat);
            let (s, u) = (shift as nat, (x1 + 1074) as nat);
            lemma_exponents(n as nat, m2 as nat, u, x2 + s);
            lemma_pow2_adds(x2, s);
            lemma_pow2_adds(x1, 1074);
            lemma_pow2_pos(x2);
            assert(m2 * pow2(x2) > 0) by (nonlinear_arith)
                requires
                    m2 > 0,
                    pow2(x2) > 0,
            ;
            lemma_nearest_scale(self@ * unit(), other@, pow2(s));
            assert(n as nat * pow2(u) == self@ * unit() * pow2(s)) by (nonlinear_arith)
                requires
                    n == m1 * pow2(s),
                    pow2(u) == pow2(x1) * unit(),
                    self@ == m1 as nat * pow2(x1),
            ;
            assert(m2 as nat * pow2(x2 + s) == other@ * pow2(s)) by (nonlinear_arith)
                requires
                    pow2(x2 + s) == pow2(x2) * pow2(s),
                    other@ == m2 as nat * pow2(x2),
            ;
        }
        let exp: i32 = self.exponent as i32 + 1074 - shift as i32 - other.exponent as i32;
        Self::pack(sig, n % m2 as u128 != 0, exp, Ghost(n as nat), Ghost(m2 as nat))
    }

    /// The rounded difference from a number that is no greater.
    pub fn sub(self, other: Self) -> (r: Self)
        requires
            self.wf(),
            other.wf(),
            other@ <= self@,
            self.exponent <= 1900,
        ensures
            r.wf(),
            r@ == minus(self@, other@),
    {
        proof {
            lemma_order(self, other);
            lemma2_to64();
            lemma2_to64_rest();
        }
        let (m1, m2): (u64, u64) = (self.mantissa, other.mantissa);
        let diff: u32 = self.exponent - other.exponent;
        let ghost (x1, x2) = (self.exponent as nat, other.exponent as nat);
        let ghost n: int = m1 * pow2(diff as nat) - m2;
        proof {
            lemma_pow2_adds(x2, diff as nat);
            lemma_pow2_pos(x2);
            assert(self@ - other@ == n * pow2(x2)) by (nonlinear_arith)
                requires
                    n == m1 * pow2(diff as nat) - m2,
                    self@ == m1 as nat * pow2(x1),
                    other@ == m2 as nat * pow2(x2),
                    pow2(x1) == pow2(x2) * pow2(diff as nat),
            ;
            assert(n >= 0) by (nonlinear_arith)
                requires
                    n * pow2(x2) >= 0,
                    pow2(x2) > 0,
            ;
        }
        if diff <= 60 {
            let scale: u128 = arith::pow2_u128(diff);
            proof {
                arith::lemma_pow2_le(diff as nat, 60);
                lemma_pow2_adds(53, 60);
                arith::lemma_pow2_le(113, 127);
                assert(m1 * scale <= pow2(113)) by (nonlinear_arith)
                    requires
                        m1 <= pow2(53),
                        scale <= pow2(60),
                        pow2(113) == pow2(53) * pow2(60),
                ;
                lemma_pow2_adds(63, 64);
                lemma_pow2_strictly_increases(113, 127);
            }
            let sig: u128 = m1 as u128 * scale - m2 as u128;
            Self::pack(sig, false, other.exponent as i32, Ghost(n as nat), Ghost(1))
        } else {
            let sh: u32 = diff - 60;
            let ghost d: nat = pow2(sh as nat);
            let hi: u64;
            let cut: bool;
            if sh < 64 {
                let p: u128 = arith::pow2_u128(sh);
                proof {
                    lemma_pow2_pos(sh as nat);
                    lemma_div_nonincreasing(m2 as int, d as int);
                }
                let h: u128 = m2 as u128 / p;
                hi = h as u64;
                cut = m2 as u128 % p != 0;
            } else {
                proof {
                    arith::lemma_pow2_le(64, sh as nat);
                    lemma_basic_div(m2 as int, d as int);
                    lemma_small_mod(m2 as nat, d);
                }
                hi = 0;
                cut = m2 != 0;
            }
            let ghost low: int = m2 as int % d as int;
            let whole: u128 = m1 as u128 * 0x1000_0000_0000_0000;
            proof {
                assert(hi == m2 as int / d as int);
                assert(cut == (low != 0));
                lemma_pow2_pos(sh as nat);
                lemma_fundamental_div_mod(m2 as int, d as int);
                lemma_pow2_adds(60, sh as nat);
                assert(n == d * (whole - hi) - low) by (nonlinear_arith)
                    requires
                        n == m1 * pow2(diff as nat) - m2,
                        pow2(diff as nat) == pow2(60) * d,
                        whole == m1 * pow2(60),
                        m2 == d * hi + low,
                ;
                assert(hi <= m2) by (nonlinear_arith)
                    requires
                        m2 == d * hi + low,
                        low >= 0,
                        d >= 1,
                ;
                let sig = whole - hi - if cut {
                    1int
                } else {
                    0int
                };
                let rem = if cut {
                    d - low
                } else {
                    0int
                };
                assert(n == sig * d + rem) by (nonlinear_arith)
                    requires
                        n == d * (whole - hi) - low,
                        cut ==> sig == whole - hi - 1 && rem == d - low,
                        !cut ==> sig == whole - hi && rem == 0 && low == 0,
                ;
                lemma_fundamental_div_mod_converse(n, d as int, sig, rem);
                lemma_pow2_adds(53, 60);
                lemma_pow2_strictly_increases(113, 127);
                lemma_nearest_scale((n * pow2(x2)) as nat, 1, d);
                lemma_pow2_adds(x2, sh as nat);
                assert(n * pow2((x1 - 60) as nat) == n * pow2(x2) * d) by (nonlinear_arith)
                    requires
                        pow2((x1 - 60) as nat) == pow2(x2) * d,
                ;
                assert(d * 1 == d && 1 * d == d);
            }
            let sig: u128 = if cut {
                whole - hi as u128 - 1
            } else {
                whole - hi as u128
            };
            Self::pack(sig, cut, self.exponent as i32 - 60, Ghost(n as nat), Ghost(d))
        }
    }

    /// Conversion to an integer: the fraction is cut off, large numbers saturate.
    pub fn to_u64(self) -> (r: u64)
        requires
            self.wf(),
        ensures
            r == to_int(self@),
    {
        let (whole, _): (u64, bool) = self.split();
        whole
    }

    /// The least integer that is not below the number, saturating.
    pub fn to_u64_up(self) -> (r: u64)
        requires
            self.wf(),
        ensures
            r == to_int_up(self@),
    {
        let (whole, exact): (u64, bool) = self.split();
        if exact || whole == u64::MAX {
            whole
        } else {
            whole + 1
        }
    }

    /// The saturated integer part, and whether the number has no fraction.
    fn split(self) -> (r: (u64, bool))
        requires
            self.wf(),
        ensures
            r.0 == to_int(self@),
            r.1 == (self@ % unit() == 0),
    {
        let m: u64 = self.mantissa;
        let ghost x = self.exponent as nat;
        proof {
            lemma2_to64();
            lemma2_to64_rest();
            lemma_pow2_pos(1074);
            lemma_pow2_pos(x);
        }
        if self.exponent >= 1074 {
            let up: u32 = self.exponent - 1074;
            let ghost p = pow2(up as nat);
            proof {
                lemma_pow2_adds(up as nat, 1074);
                assert(self@ == (m * p) * unit()) by (nonlinear_arith)
                    requires
                        self@ == m as nat * pow2(x),
                        pow2(x) == p * unit(),
                ;
                lemma_fundamental_div_mod_converse(self@ as int, unit() as int, m * p, 0);
            }
            if up >= 64 {
                proof {
                    arith::lemma_pow2_le(64, up as nat);
                    assert(m * p > u64::MAX) by (nonlinear_arith)
                        requires
                            m >= 1,
                            p > u64::MAX,
                    ;
                }
                (u64::MAX, true)
            } else {
                let scale: u128 = arith::pow2_u128(up);
                proof {
                    arith::lemma_pow2_le(up as nat, 64);
                    assert(m * scale <= 0x20_0000_0000_0000 * 0x1_0000_0000_0000_0000)
                        by (nonlinear_arith)
                        requires
                            m <= 0x20_0000_0000_0000,
                            scale <= 0x1_0000_0000_0000_0000,
                    ;
                }
                let whole: u128 = m as u128 * scale;
                if whole > u64::MAX as u128 {
                    (u64::MAX, true)
                } else {
                    (whole as u64, true)
                }
            }
        } else {
            let down: u32 = 1074 - self.exponent;
            let ghost p = pow2(down as nat);
            proof {
                lemma_pow2_pos(down as nat);
                lemma_pow2_adds(down as nat, x);
                arith::lemma_div_mod_scale(m as int, p as int, pow2(x) as int);
                assert(m as int % p as int * pow2(x) == 0 <==> m as int % p as int == 0)
                    by (nonlinear_arith)
                    requires
                        pow2(x) > 0,
                ;
            }
            if down >= 64 {
                proof {
                    arith::lemma_pow2_le(64, down as nat);
                    lemma_basic_div(m as int, p as int);
                    lemma_small_mod(m as nat, p);
                }
                (0, m == 0)
            } else {
                let scale: u128 = arith::pow2_u128(down);
                proof {
                    lemma_div_nonincreasing(m as int, p as int);
                }
                let whole: u128 = m as u128 / scale;
                (whole as u64, m as u128 % scale == 0)
            }
        }
    }

    /// Whether the number is below another one.
    pub fn less_than(self, other: Self) -> (b: bool)
        requires
            self.wf(),
            other.wf(),
        ensures
            b == (self@ < other@),
    {
        proof {
            lemma_order(self, other);
            lemma_order(other, self);
        }
        self.exponent < other.exponent || (self.exponent == other.exponent && self.mantissa
            < other.mantissa)
    }
}

} // verus!
