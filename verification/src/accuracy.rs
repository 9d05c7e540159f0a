//! How exact colors and positions are.

use crate::arith;
use crate::arith::{counted, nearest_bits, with_sign, zero};
use crate::color;
use crate::color::ColorPoint;
use crate::layout;
use crate::sensors;
use crate::single;
use crate::single::{exp2, whole_single, Single};
use vstd::prelude::*;

verus! {

// ── Fractions ────────────────────────────────────────────────────────────────

/// `n` divided by 2 to the power of `s`.
spec fn fraction(n: int, s: nat) -> Single {
    with_sign(
        n < 0,
        nearest_bits(
            (if n < 0 {
                -n
            } else {
                n
            }) as nat * exp2((149 - s) as nat),
            1,
        ),
    )
}

proof fn lemma_fraction(n: int, s: nat)
    requires
        -0x100_0000 < n < 0x100_0000,
        s <= 149,
    ensures
        fraction(n, s).is_finite(),
        fraction(n, s).value() == n * exp2((149 - s) as nat),
{
    let p = (if n < 0 {
        -n
    } else {
        n
    }) as nat;
    let w = exp2((149 - s) as nat);
    arith::lemma_small_product(p, (149 - s) as nat, n < 0);
    assert(-(p * w) == (-p) * w) by (nonlinear_arith);
}

proof fn lemma_units()
    ensures
        exp2(149) == 4096 * exp2(137),
        exp2(149) == 0x10_0000 * exp2(129),
        exp2(150) == 2 * exp2(149),
        exp2(137) > 0,
        exp2(129) > 0,
{
    single::lemma_exp2_sum(12, 137);
    single::lemma_exp2_sum(20, 129);
    single::lemma_exp2_grows(0, 137);
    single::lemma_exp2_grows(0, 129);
    reveal_with_fuel(exp2, 21);
    assert(exp2(12) == 4096);
    assert(exp2(20) == 0x10_0000);
    assert(exp2(150) == 2 * exp2(149));
}

proof fn lemma_whole_value(n: nat)
    requires
        n < 0x100_0000,
    ensures
        counted(n).is_finite(),
        !counted(n).is_negative(),
        counted(n).magnitude() == n * exp2(149),
        counted(n).value() == n * exp2(149),
        whole_single(n) == counted(n),
{
    arith::law_whole_numbers_are_exact(n, false);
    arith::lemma_whole_is_counted(n);
}

// ── Colors ───────────────────────────────────────────────────────────────────

/// The distance of two whole numbers is exact.
proof fn lemma_distance(from: Single, to: Single, x: int, y: int)
    requires
        from.is_finite(),
        to.is_finite(),
        from.value() == x * exp2(149),
        to.value() == y * exp2(149),
        x <= y,
        y - x < 0x100_0000,
    ensures
        to.sum(from.negated()).is_finite(),
        to.sum(from.negated()).value() == (y - x) * exp2(149),
        to.sum(from.negated()).magnitude() == (y - x) * exp2(149),
{
    let u = exp2(149) as int;
    let n = (y - x) as nat;
    arith::lemma_negated(from);
    lemma_whole_value(n);
    assert(y * u - x * u == (y - x) * u) by (nonlinear_arith);
    arith::law_sum_keeps_order(to, from.negated(), counted(n), counted(n));
    assert(0 <= n * u) by (nonlinear_arith)
        requires
            u >= 0,
    ;
}

/// The share of the way is between neighbouring fractions of 4096 parts.
#[verifier::rlimit(40)]
proof fn lemma_share_of_way(value: Single, a: Single, b: Single, p: int, q: int) -> (res: (int, int))
    requires
        value.sum(a.negated()).is_finite(),
        value.sum(a.negated()).value() == p * exp2(149),
        value.sum(a.negated()).magnitude() == p * exp2(149),
        b.sum(a.negated()).is_finite(),
        b.sum(a.negated()).value() == q * exp2(149),
        b.sum(a.negated()).magnitude() == q * exp2(149),
        0 <= p <= q,
        0 < q,
    ensures
        0 <= res.0 <= res.1 <= 4096,
        res.0 * q <= 4096 * p <= res.1 * q,
        res.1 <= res.0 + 1,
        color::share(value, a, b).is_finite(),
        color::share(value, a, b).is_negative() ==> res.1 == 0,
        res.0 * exp2(137) <= color::share(value, a, b).value() <= res.1 * exp2(137),
{
    let u = exp2(149) as int;
    let w = exp2(137) as int;
    let x = value.sum(a.negated());
    let y = b.sum(a.negated());
    lemma_units();
    let (low, high) = lemma_parts(p, q);
    lemma_fraction(low, 12);
    lemma_fraction(high, 12);
    assert(q * u > 0) by (nonlinear_arith)
        requires
            q > 0,
            u > 0,
    ;
    assert(low * w * (q * u) <= p * u * u <= high * w * (q * u)) by (nonlinear_arith)
        requires
            low * q <= 4096 * p <= high * q,
            u == 4096 * w,
            u > 0,
            w > 0,
    ;
    arith::law_ratio_keeps_order(x, y, fraction(low, 12), fraction(high, 12));
    assert(x.value() >= 0 && y.value() > 0) by (nonlinear_arith)
        requires
            x.value() == p * u,
            y.value() == q * u,
            p >= 0,
            q > 0,
            u > 0,
    ;
    if x.is_negative() {
        assert(p == 0) by (nonlinear_arith)
            requires
                p * u == 0,
                u > 0,
        ;
        assert(high == 0) by (nonlinear_arith)
            requires
                0 <= high,
                p == 0,
                q > 0,
                high * q < 4096 * p + q,
        ;
    }
    lemma_clamped(x.ratio(y), low, high);
    (low, high)
}

proof fn lemma_clamped(t: Single, low: int, high: int)
    requires
        t.is_finite(),
        0 <= low <= high <= 4096,
        low * exp2(137) <= t.magnitude() <= high * exp2(137),
        t.is_negative() ==> high == 0,
    ensures
        t.clamped(zero(false), whole_single(1)).is_finite(),
        t.clamped(zero(false), whole_single(1)).is_negative() ==> high == 0,
        low * exp2(137) <= t.clamped(zero(false), whole_single(1)).value() <= high * exp2(137),
{
    let u = exp2(149) as int;
    let w = exp2(137) as int;
    lemma_units();
    assert(0 <= low * w && high * w <= u) by (nonlinear_arith)
        requires
            0 <= low,
            high <= 4096,
            u == 4096 * w,
            w > 0,
    ;
    if high == 0 {
        assert(high * w == 0) by (nonlinear_arith)
            requires
                high == 0,
        ;
    }
    lemma_whole_value(0);
    lemma_whole_value(1);
    assert(0 * u == 0 && 1 * u == u);
    assert(zero(false).is_finite() && zero(false).value() == 0) by {
        assert(zero(false).mantissa() == 0);
    }
    arith::law_order_is_by_value(t, zero(false));
    arith::law_order_is_by_value(whole_single(1), t);
}

/// The parts of 4096 next to `p / q`.
proof fn lemma_parts(p: int, q: int) -> (res: (int, int))
    requires
        0 <= p <= q,
        0 < q,
    ensures
        0 <= res.0 <= res.1 <= 4096,
        res.0 * q <= 4096 * p <= res.1 * q,
        res.1 <= res.0 + 1,
        res.1 * q < 4096 * p + q,
{
    let v = 4096 * p;
    let low = v / q;
    let r = v % q;
    vstd::arithmetic::div_mod::lemma_fundamental_div_mod(v, q);
    let high = if r == 0 {
        low
    } else {
        low + 1
    };
    assert(low * q <= v <= high * q && high * q < v + q) by (nonlinear_arith)
        requires
            v == q * low + r,
            0 <= r < q,
            high == (if r == 0 {
                low
            } else {
                low + 1
            }),
    ;
    assert(0 <= low && high <= 4096) by (nonlinear_arith)
        requires
            0 <= v <= 4096 * q,
            low * q <= v,
            v < low * q + q,
            high * q < v + q,
            q > 0,
    ;
    (low, high)
}

/// A channel between two others, where the share is between parts of 4096.
#[verifier::rlimit(40)]
proof fn lemma_mixed(a: u8, b: u8, t: Single, low: int, high: int)
    requires
        t.is_finite(),
        0 <= low <= high <= 4096,
        low * exp2(137) <= t.value() <= high * exp2(137),
        t.is_negative() ==> high == 0,
    ensures
        ({
            let c = color::mixed(a, b, t) as int;
            let near = 4096 * a + (b - a) * low;
            let far = 4096 * a + (b - a) * high;
            &&& a <= b ==> near - 2048 <= 4096 * c <= far + 2048
            &&& b <= a ==> far - 2048 <= 4096 * c <= near + 2048
        }),
{
    let from = counted(a as nat);
    let way = counted(b as nat).sum(from.negated());
    let d = if a <= b {
        b - a
    } else {
        a - b
    };
    lemma_way(a, b);
    lemma_part(way, t, a as int, b as int, d, low, high);
    lemma_sum_of_part(a, b, way.product(t), low, high);
}

proof fn lemma_way(a: u8, b: u8)
    ensures
        ({
            let way = counted(b as nat).sum(counted(a as nat).negated());
            &&& way.is_finite()
            &&& way.value() == (b - a) * exp2(149)
        }),
{
    let u = exp2(149) as int;
    let w = exp2(137) as int;
    let from = counted(a as nat);
    lemma_units();
    lemma_whole_value(a as nat);
    lemma_whole_value(b as nat);
    arith::lemma_negated(from);
    let exact = fraction(4096 * (b - a), 12);
    lemma_fraction(4096 * (b - a), 12);
    assert(4096 * (b - a) * w == b * u - a * u && b * u - a * u == (b - a) * u)
        by (nonlinear_arith)
        requires
            u == 4096 * w,
    ;
    arith::law_sum_keeps_order(counted(b as nat), from.negated(), exact, exact);
}

proof fn lemma_part(way: Single, t: Single, a: int, b: int, d: int, low: int, high: int)
    requires
        0 <= a <= 255,
        0 <= b <= 255,
        d == (if a <= b {
            b - a
        } else {
            a - b
        }),
        way.is_finite(),
        way.value() == (b - a) * exp2(149),
        t.is_finite(),
        0 <= low <= high <= 4096,
        low * exp2(137) <= t.value() <= high * exp2(137),
        t.is_negative() ==> high == 0,
    ensures
        way.product(t).is_finite(),
        a <= b ==> (b - a) * low * exp2(137) <= way.product(t).value() <= (b - a) * high * exp2(
            137,
        ),
        b <= a ==> (b - a) * high * exp2(137) <= way.product(t).value() <= (b - a) * low * exp2(
            137,
        ),
{
    let u = exp2(149) as int;
    let w = exp2(137) as int;
    lemma_units();
    assert(d * u >= 0 && (b - a) * u == (if a <= b {
        d * u
    } else {
        -(d * u)
    })) by (nonlinear_arith)
        requires
            d == (if a <= b {
                b - a
            } else {
                a - b
            }),
            u > 0,
    ;
    assert(way.magnitude() == d * u);
    assert(0 <= low * w) by (nonlinear_arith)
        requires
            low >= 0,
            w > 0,
    ;
    assert(t.magnitude() == t.value());
    assert(0 <= d * low <= d * high <= 255 * 4096) by (nonlinear_arith)
        requires
            0 <= d <= 255,
            0 <= low <= high <= 4096,
    ;
    lemma_fraction(d * low, 12);
    lemma_fraction(d * high, 12);
    let m = t.magnitude() as int;
    assert(d * low * w * u <= d * u * m <= d * high * w * u) by (nonlinear_arith)
        requires
            low * w <= m <= high * w,
            d >= 0,
            u > 0,
    ;
    arith::law_product_keeps_order(way, t, fraction(d * low, 12), fraction(d * high, 12));
    lemma_signed_part(a, b, d, way.product(t), way, t, low, high, w);
}

/// The channel from which the way starts, and a part of the way.
proof fn lemma_sum_of_part(a: u8, b: u8, part: Single, low: int, high: int)
    requires
        part.is_finite(),
        0 <= low <= high <= 4096,
        a <= b ==> (b - a) * low * exp2(137) <= part.value() <= (b - a) * high * exp2(137),
        b <= a ==> (b - a) * high * exp2(137) <= part.value() <= (b - a) * low * exp2(137),
    ensures
        ({
            let c = counted(a as nat).sum(part).rounded(0, 255);
            let near = 4096 * a + (b - a) * low;
            let far = 4096 * a + (b - a) * high;
            &&& 0 <= c <= 255
            &&& a <= b ==> near - 2048 <= 4096 * c <= far + 2048
            &&& b <= a ==> far - 2048 <= 4096 * c <= near + 2048
        }),
{
    let u = exp2(149) as int;
    let w = exp2(137) as int;
    let from = counted(a as nat);
    lemma_units();
    lemma_whole_value(a as nat);
    let near = 4096 * a + (b - a) * low;
    let far = 4096 * a + (b - a) * high;
    let (least, most) = if a <= b {
        (near, far)
    } else {
        (far, near)
    };
    assert(0 <= least <= most <= 255 * 4096) by (nonlinear_arith)
        requires
            0 <= low <= high <= 4096,
            0 <= a <= 255,
            0 <= b <= 255,
            near == 4096 * a + (b - a) * low,
            far == 4096 * a + (b - a) * high,
            (least, most) == (if a <= b {
                (near, far)
            } else {
                (far, near)
            }),
    ;
    lemma_fraction(least, 12);
    lemma_fraction(most, 12);
    assert(near * w == a * u + (b - a) * low * w && far * w == a * u + (b - a) * high * w)
        by (nonlinear_arith)
        requires
            near == 4096 * a + (b - a) * low,
            far == 4096 * a + (b - a) * high,
            u == 4096 * w,
    ;
    if a == b {
        assert((b - a) * low == 0 && (b - a) * high == 0) by (nonlinear_arith)
            requires
                a == b,
        ;
    }
    arith::law_sum_keeps_order(from, part, fraction(least, 12), fraction(most, 12));
    lemma_rounded_channel(from.sum(part), least, most);
}

/// Rounding a channel between parts of 4096.
proof fn lemma_rounded_channel(x: Single, least: int, most: int)
    requires
        x.is_finite(),
        0 <= least <= most <= 255 * 4096,
        least * exp2(137) <= x.value() <= most * exp2(137),
    ensures
        0 <= x.rounded(0, 255) <= 255,
        least - 2048 <= 4096 * x.rounded(0, 255) <= most + 2048,
{
    let u = exp2(149) as int;
    let w = exp2(137) as int;
    lemma_units();
    let m = x.magnitude() as int;
    assert(least * w >= 0) by (nonlinear_arith)
        requires
            least >= 0,
            w > 0,
    ;
    assert(m == x.value());
    let whole = (2 * m + u) / (2 * u);
    let r = (2 * m + u) % (2 * u);
    vstd::arithmetic::div_mod::lemma_fundamental_div_mod(2 * m + u, 2 * u);
    assert(least - 2048 <= 4096 * whole <= most + 2048) by (nonlinear_arith)
        requires
            2 * m + u == 2 * u * whole + r,
            0 <= r < 2 * u,
            least * w <= m <= most * w,
            u == 4096 * w,
            w > 0,
    ;
    assert(0 <= whole <= 255);
    if x.is_negative() {
        assert(whole == 0) by (nonlinear_arith)
            requires
                2 * m + u == 2 * u * whole + r,
                0 <= r < 2 * u,
                m == 0,
                u > 0,
        ;
    }
    assert(x.rounded(0, 255) == whole);
}

proof fn lemma_signed_part(
    a: int,
    b: int,
    d: int,
    part: Single,
    way: Single,
    t: Single,
    low: int,
    high: int,
    w: int,
)
    requires
        d == (if a <= b {
            b - a
        } else {
            a - b
        }),
        w > 0,
        0 <= low <= high,
        way.is_finite(),
        way.value() == (b - a) * exp2(149),
        t.value() >= 0,
        part.is_negative() == (way.is_negative() != t.is_negative()),
        d * low * w <= part.magnitude() <= d * high * w,
        t.is_negative() ==> t.magnitude() == 0 && high == 0,
    ensures
        a <= b ==> (b - a) * low * w <= part.value() <= (b - a) * high * w,
        b <= a ==> (b - a) * high * w <= part.value() <= (b - a) * low * w,
{
    let u = exp2(149) as int;
    lemma_units();
    assert(-(d * low * w) == (-d) * low * w && -(d * high * w) == (-d) * high * w)
        by (nonlinear_arith);
    assert(d * low * w >= 0) by (nonlinear_arith)
        requires
            d >= 0,
            low >= 0,
            w > 0,
    ;
    if high == 0 {
        assert(d * high * w == 0) by (nonlinear_arith)
            requires
                high == 0,
        ;
    }
    if a < b {
        assert((b - a) * u > 0) by (nonlinear_arith)
            requires
                a < b,
                u > 0,
        ;
    } else if b < a {
        assert((b - a) * u < 0) by (nonlinear_arith)
            requires
                b < a,
                u > 0,
        ;
    } else {
        assert(d * high * w == 0) by (nonlinear_arith)
            requires
                d == 0,
        ;
    }
}

proof fn lemma_window(value: Single, map: Seq<ColorPoint>, k: int, i: int)
    requires
        color::is_sorted(map),
        0 <= i <= k < map.len() - 1,
        !value.is_nan(),
        map[k].value.lt(value),
        value.lt(map[k + 1].value),
    ensures
        color::first_window(value, map, i) == Some(k),
    decreases k - i,
{
    if i < k {
        assert(map[i + 1].value.le(map[k].value));
        lemma_window(value, map, k, i + 1);
    }
}

/// Between two anchors the color changes evenly: where the anchors and the value
/// are whole numbers, each channel is on the straight line between the channels of
/// the anchors, up to three quarters of a step.
pub proof fn law_color_changes_evenly(
    value: Single,
    map: Seq<ColorPoint>,
    k: int,
    c: int,
    x: int,
    y: int,
    v: int,
)
    requires
        color::is_sorted(map),
        map.len() <= usize::MAX,
        0 <= k < map.len() - 1,
        0 <= c < 3,
        map[k].value.is_finite(),
        map[k + 1].value.is_finite(),
        value.is_finite(),
        map[k].value.value() == x * exp2(149),
        map[k + 1].value.value() == y * exp2(149),
        value.value() == v * exp2(149),
        x < v < y,
        y - x < 0x100_0000,
    ensures
        ({
            let shown = color::color_at(value, map)[c];
            let from = map[k].color[c];
            let to = map[k + 1].color[c];
            let exact = from * (y - x) + (to - from) * (v - x);
            &&& 4 * (shown * (y - x) - exact) <= 3 * (y - x)
            &&& 4 * (exact - shown * (y - x)) <= 3 * (y - x)
        }),
{
    let u = exp2(149) as int;
    let a = map[k];
    let b = map[k + 1];
    let p = v - x;
    let q = y - x;
    lemma_units();
    assert(x * u < v * u && v * u < y * u) by (nonlinear_arith)
        requires
            x < v < y,
            u > 0,
    ;
    arith::law_order_is_by_value(value, a.value);
    arith::law_order_is_by_value(b.value, value);
    lemma_window(value, map, k, 0);
    assert(map[0].value.le(a.value) && b.value.le(map.last().value));
    lemma_distance(a.value, value, x, v);
    lemma_distance(a.value, b.value, x, y);
    let t = color::share(value, a.value, b.value);
    let (low, high) = lemma_share_of_way(value, a.value, b.value, p, q);
    lemma_mixed(a.color[c], b.color[c], t, low, high);
    assert(color::color_at(value, map)[c] == color::mixed(a.color[c], b.color[c], t));
    let shown = color::mixed(a.color[c], b.color[c], t);
    lemma_on_line(a.color[c] as int, b.color[c] as int, shown as int, p, q, low, high);
}

proof fn lemma_on_line(a: int, b: int, c: int, p: int, q: int, low: int, high: int)
    requires
        0 <= a <= 255,
        0 <= b <= 255,
        0 < q,
        low <= high <= low + 1,
        low * q <= 4096 * p <= high * q,
        a <= b ==> 4096 * a + (b - a) * low - 2048 <= 4096 * c <= 4096 * a + (b - a) * high + 2048,
        b <= a ==> 4096 * a + (b - a) * high - 2048 <= 4096 * c <= 4096 * a + (b - a) * low + 2048,
    ensures
        4 * (c * q - (a * q + (b - a) * p)) <= 3 * q,
        4 * ((a * q + (b - a) * p) - c * q) <= 3 * q,
{
    let d = b - a;
    let s = 4096 * p;
    if a <= b {
        assert(d * (s - low * q) <= 255 * q && d * (high * q - s) <= 255 * q && d * (s - low * q)
            >= 0 && d * (high * q - s) >= 0) by (nonlinear_arith)
            requires
                0 <= d <= 255,
                low * q <= s <= high * q,
                high <= low + 1,
                q > 0,
        ;
        assert((4096 * a + d * low - 2048) * q <= 4096 * c * q <= (4096 * a + d * high + 2048) * q)
            by (nonlinear_arith)
            requires
                4096 * a + d * low - 2048 <= 4096 * c <= 4096 * a + d * high + 2048,
                q > 0,
        ;
    } else {
        assert((-d) * (s - low * q) <= 255 * q && (-d) * (high * q - s) <= 255 * q && (-d) * (s
            - low * q) >= 0 && (-d) * (high * q - s) >= 0) by (nonlinear_arith)
            requires
                0 <= -d <= 255,
                low * q <= s <= high * q,
                high <= low + 1,
                q > 0,
        ;
        assert((4096 * a + d * high - 2048) * q <= 4096 * c * q <= (4096 * a + d * low + 2048) * q)
            by (nonlinear_arith)
            requires
                4096 * a + d * high - 2048 <= 4096 * c <= 4096 * a + d * low + 2048,
                q > 0,
        ;
    }
    assert((4096 * a + d * low - 2048) * q == 4096 * (a * q) + d * (low * q) - 2048 * q)
        by (nonlinear_arith);
    assert((4096 * a + d * high - 2048) * q == 4096 * (a * q) + d * (high * q) - 2048 * q)
        by (nonlinear_arith);
    assert((4096 * a + d * low + 2048) * q == 4096 * (a * q) + d * (low * q) + 2048 * q)
        by (nonlinear_arith);
    assert((4096 * a + d * high + 2048) * q == 4096 * (a * q) + d * (high * q) + 2048 * q)
        by (nonlinear_arith);
    assert(d * (s - low * q) == d * s - d * (low * q)) by (nonlinear_arith);
    assert(d * (high * q - s) == d * (high * q) - d * s) by (nonlinear_arith);
    assert((-d) * (s - low * q) == d * (low * q) - d * s) by (nonlinear_arith);
    assert((-d) * (high * q - s) == d * s - d * (high * q)) by (nonlinear_arith);
    assert(d * s == 4096 * (d * p)) by (nonlinear_arith)
        requires
            s == 4096 * p,
    ;
    assert(4096 * c * q == 4096 * (c * q)) by (nonlinear_arith);
}

// ── Positions ────────────────────────────────────────────────────────────────

/// A position that is moved by a whole number of pixels is moved by that many
/// parts of 480, up to a thousandth of a pixel, as long as it stays on the display;
/// otherwise it stays at the edge.
#[verifier::rlimit(40)]
pub proof fn law_position_moves_by_pixels(x: Single, by: Single, d: int)
    requires
        x.is_finite(),
        0 <= x.value() <= exp2(149),
        by.is_finite(),
        by.value() == d * exp2(149),
        -480 <= d <= 480,
    ensures
        ({
            let one = exp2(149) as int;
            let moved = layout::moved_position(x, by);
            let exact = 480 * x.value() + d * one;
            &&& moved.is_finite()
            &&& 0 <= exact <= 480 * one ==> 1000 * (480 * moved.value() - exact) <= one
            &&& 0 <= exact <= 480 * one ==> 1000 * (exact - 480 * moved.value()) <= one
            &&& exact < -one ==> moved.value() == 0
            &&& exact > 481 * one ==> moved.value() == one
        }),
{
    let u = exp2(149) as int;
    let w = exp2(129) as int;
    lemma_units();
    let step = by.ratio(counted(480));
    let (low, high) = lemma_step(by, d);
    let k = x.value() / w;
    let r = x.value() % w;
    vstd::arithmetic::div_mod::lemma_fundamental_div_mod(x.value(), w);
    assert(k * w <= x.value() <= (k + 1) * w && 0 <= k <= 0x10_0000) by (nonlinear_arith)
        requires
            x.value() == w * k + r,
            0 <= r < w,
            0 <= x.value() <= u,
            u == 0x10_0000 * w,
            w > 0,
    ;
    lemma_fraction(k + low, 20);
    lemma_fraction(k + 1 + high, 20);
    assert((k + low) * w == k * w + low * w && (k + 1 + high) * w == (k + 1) * w + high * w)
        by (nonlinear_arith);
    arith::law_sum_keeps_order(x, step, fraction(k + low, 20), fraction(k + 1 + high, 20));
    lemma_moved(x.sum(step), x.value(), k, r, low, high, d);
}

/// A whole number of parts of 480 is between neighbouring fractions.
proof fn lemma_step(by: Single, d: int) -> (res: (int, int))
    requires
        by.is_finite(),
        by.value() == d * exp2(149),
        -480 <= d <= 480,
    ensures
        -0x10_0000 <= res.0 <= res.1 <= 0x10_0000,
        res.1 <= res.0 + 1,
        480 * res.0 <= 0x10_0000 * d <= 480 * res.1,
        by.ratio(counted(480)).is_finite(),
        res.0 * exp2(129) <= by.ratio(counted(480)).value() <= res.1 * exp2(129),
{
    let u = exp2(149) as int;
    let w = exp2(129) as int;
    let n = if d < 0 {
        -d
    } else {
        d
    };
    let v = 0x10_0000 * n;
    let a = v / 480;
    let b = if v % 480 == 0 {
        a
    } else {
        a + 1
    };
    lemma_units();
    lemma_whole_value(480);
    lemma_fraction(a, 20);
    lemma_fraction(b, 20);
    assert((-d) * u == -(d * u)) by (nonlinear_arith);
    assert(n * u >= 0) by (nonlinear_arith)
        requires
            n >= 0,
            u > 0,
    ;
    assert(by.magnitude() == n * u);
    assert(a * w * (480 * u) <= n * u * u <= b * w * (480 * u)) by (nonlinear_arith)
        requires
            480 * a <= 0x10_0000 * n <= 480 * b,
            u == 0x10_0000 * w,
            w > 0,
            u > 0,
    ;
    arith::law_ratio_keeps_order(by, counted(480), fraction(a, 20), fraction(b, 20));
    assert((-a) * w == -(a * w) && (-b) * w == -(b * w)) by (nonlinear_arith);
    assert(d * u < 0 ==> d < 0) by (nonlinear_arith)
        requires
            u > 0,
    ;
    if d > 0 {
        assert(d * u > 0) by (nonlinear_arith)
            requires
                d > 0,
                u > 0,
        ;
    } else if d < 0 {
        assert(d * u < 0) by (nonlinear_arith)
            requires
                d < 0,
                u > 0,
        ;
    } else {
        assert(a == 0 && b == 0);
        assert(0 * w == 0);
    }
    if d < 0 {
        (-b, -a)
    } else {
        (a, b)
    }
}

proof fn lemma_moved(s: Single, x: int, k: int, r: int, low: int, high: int, d: int)
    requires
        s.is_finite(),
        x == exp2(129) * k + r,
        0 <= r < exp2(129),
        low <= high <= low + 1,
        480 * low <= 0x10_0000 * d <= 480 * high,
        (k + low) * exp2(129) <= s.value() <= (k + 1 + high) * exp2(129),
    ensures
        ({
            let one = exp2(149) as int;
            let moved = s.clamped(zero(false), whole_single(1));
            let exact = 480 * x + d * one;
            &&& moved.is_finite()
            &&& 0 <= exact <= 480 * one ==> 1000 * (480 * moved.value() - exact) <= one
            &&& 0 <= exact <= 480 * one ==> 1000 * (exact - 480 * moved.value()) <= one
            &&& exact < -one ==> moved.value() == 0
            &&& exact > 481 * one ==> moved.value() == one
        }),
{
    let u = exp2(149) as int;
    let w = exp2(129) as int;
    lemma_units();
    lemma_whole_value(0);
    lemma_whole_value(1);
    assert(0 * u == 0 && 1 * u == u);
    assert(zero(false).is_finite() && zero(false).value() == 0) by {
        assert(zero(false).mantissa() == 0);
    }
    arith::law_order_is_by_value(zero(false), s);
    arith::law_order_is_by_value(s, zero(false));
    arith::law_order_is_by_value(whole_single(1), s);
    arith::law_order_is_by_value(s, whole_single(1));
    let exact = 480 * x + d * u;
    let sv = s.value();
    assert(-960 * w <= 480 * sv - exact <= 960 * w) by (nonlinear_arith)
        requires
            exact == 480 * x + d * u,
            x == w * k + r,
            0 <= r < w,
            low <= high <= low + 1,
            480 * low <= 0x10_0000 * d <= 480 * high,
            (k + low) * w <= sv <= (k + 1 + high) * w,
            u == 0x10_0000 * w,
    ;
}

/// Whether `after` is `before`, moved by `pixels` parts of 480: up to a thousandth of
/// a pixel where that is on the display, else at the edge.
pub open spec fn is_moved(before: Single, after: Single, pixels: int) -> bool {
    let one = exp2(149) as int;
    let exact = 480 * before.value() + pixels * one;
    &&& after.is_finite()
    &&& 0 <= exact <= 480 * one ==> 1000 * (480 * after.value() - exact) <= one && 1000 * (exact
        - 480 * after.value()) <= one
    &&& exact < -one ==> after.value() == 0
    &&& exact > 481 * one ==> after.value() == one
}

/// Whether a position is on the display.
pub open spec fn is_position(x: Single) -> bool {
    x.is_finite() && 0 <= x.value() <= exp2(149)
}

/// A reading that is moved takes its value and its label along: both to the side by
/// the same number of pixels, and both down by the same number.
pub proof fn law_reading_moves_as_a_whole(
    l: layout::LayoutView,
    id: Seq<char>,
    at: int,
    dx: Single,
    dy: Single,
    right: int,
    down: int,
)
    requires
        0 <= at < l.custom_slots.len(),
        l.custom_slots[at].sensor_id == id,
        forall|i: int| 0 <= i < at ==> (#[trigger] l.custom_slots[i]).sensor_id != id,
        is_position(l.custom_slots[at].value_cx_norm),
        is_position(l.custom_slots[at].value_cy_norm),
        is_position(l.custom_slots[at].label_cx_norm),
        is_position(l.custom_slots[at].label_cy_norm),
        dx.is_finite(),
        dy.is_finite(),
        dx.value() == right * exp2(149),
        dy.value() == down * exp2(149),
        -480 <= right <= 480,
        -480 <= down <= 480,
    ensures
        ({
            let before = l.custom_slots[at];
            let after = l.moved(id, dx, dy).custom_slots[at];
            &&& is_moved(before.value_cx_norm, after.value_cx_norm, right)
            &&& is_moved(before.label_cx_norm, after.label_cx_norm, right)
            &&& is_moved(before.value_cy_norm, after.value_cy_norm, down)
            &&& is_moved(before.label_cy_norm, after.label_cy_norm, down)
            &&& after.sensor_id == id
            &&& l.moved(id, dx, dy).preset == l.preset
            &&& l.moved(id, dx, dy).max_visible == l.max_visible
        }),
{
    let s = l.custom_slots[at];
    layout::lemma_has_slot(l.custom_slots, id, at);
    layout::lemma_slot_position(l.custom_slots, id);
    law_position_moves_by_pixels(s.value_cx_norm, dx, right);
    law_position_moves_by_pixels(s.label_cx_norm, dx, right);
    law_position_moves_by_pixels(s.value_cy_norm, dy, down);
    law_position_moves_by_pixels(s.label_cy_norm, dy, down);
}

// ── Readings ─────────────────────────────────────────────────────────────────

/// Whether `a` differs from `b` by at most one part in 2 to the power of 24.
spec fn is_close(a: int, b: int) -> bool {
    0x100_0000 * (a - b) <= b && 0x100_0000 * (b - a) <= b
}

/// Whether `a` differs from `b` by at most one part in two million.
pub open spec fn is_near(a: int, b: int) -> bool {
    2_000_000 * (a - b) <= b && 2_000_000 * (b - a) <= b
}

proof fn lemma_multiple(k: int, a: int, b: int)
    requires
        k >= 0,
        is_close(a, b),
    ensures
        is_close(k * a, k * b),
{
    assert(0x100_0000 * (k * a - k * b) <= k * b && 0x100_0000 * (k * b - k * a) <= k * b)
        by (nonlinear_arith)
        requires
            k >= 0,
            0x100_0000 * (a - b) <= b,
            0x100_0000 * (b - a) <= b,
    ;
}

proof fn lemma_divided(k: int, a: int, b: int)
    requires
        k > 0,
        is_close(k * a, k * b),
    ensures
        is_close(a, b),
{
    assert(0x100_0000 * (a - b) <= b && 0x100_0000 * (b - a) <= b) by (nonlinear_arith)
        requires
            k > 0,
            0x100_0000 * (k * a - k * b) <= k * b,
            0x100_0000 * (k * b - k * a) <= k * b,
    ;
}

/// 2 to the power of 100.
spec fn large() -> int {
    0x10_0000_0000_0000_0000_0000_0000
}

proof fn lemma_large()
    ensures
        exp2(149) >= large(),
        exp2(240) >= 0x400_0000_0000_0000_0000_0000 * exp2(149),
{
    let a = exp2(50);
    reveal_with_fuel(exp2, 51);
    assert(a == 0x4_0000_0000_0000);
    single::lemma_exp2_sum(50, 50);
    assert(0x4_0000_0000_0000 * 0x4_0000_0000_0000 == large()) by (nonlinear_arith);
    single::lemma_exp2_grows(100, 149);
    single::lemma_exp2_sum(90, 149);
    single::lemma_exp2_sum(50, 40);
    single::lemma_exp2_numbers();
    assert(exp2(90) == 0x4_0000_0000_0000 * 0x100_0000_0000);
    assert(0x4_0000_0000_0000 * 0x100_0000_0000 == 0x400_0000_0000_0000_0000_0000)
        by (nonlinear_arith);
    single::lemma_exp2_grows(239, 240);
}

/// A whole number is close to the number nearest to it.
proof fn lemma_counted(n: nat)
    requires
        0 < n <= u64::MAX,
    ensures
        counted(n).is_finite(),
        !counted(n).is_negative(),
        is_close(counted(n).magnitude() as int, (n * exp2(149)) as int),
        exp2(149) <= 2 * counted(n).magnitude() <= 0x4_0000_0000_0000_0000 * exp2(149),
{
    let u = exp2(149);
    let wide = exp2(240);
    lemma_large();
    assert(1 * 0x80_0000 <= n * u < 1 * wide && u <= n * u <= 0x1_0000_0000_0000_0000 * u)
        by (nonlinear_arith)
        requires
            0 < n <= 0xffff_ffff_ffff_ffff,
            u >= large(),
            large() >= 0x80_0000,
            wide >= 0x400_0000_0000_0000_0000_0000 * u,
    ;
    arith::law_rounding_is_close(n * u, 1, false);
    assert(counted(n).magnitude() * 1 == counted(n).magnitude());
}

/// A quotient of positive numbers that is neither tiny nor huge.
proof fn lemma_quotient(x: Single, y: Single)
    requires
        x.is_finite(),
        y.is_finite(),
        !x.is_negative(),
        !y.is_negative(),
        0 < y.magnitude(),
        y.magnitude() * 0x80_0000 <= x.magnitude() * exp2(149) < y.magnitude() * exp2(240),
    ensures
        x.ratio(y).is_finite(),
        !x.ratio(y).is_negative(),
        is_close(
            (x.ratio(y).magnitude() * y.magnitude()) as int,
            (x.magnitude() * exp2(149)) as int,
        ),
{
    arith::law_rounding_is_close(x.magnitude() * exp2(149), y.magnitude(), false);
}

proof fn lemma_sizes(a: int, b: int, u: int, wide: int)
    requires
        u >= large(),
        wide >= 0x400_0000_0000_0000_0000_0000 * u,
        u <= 2 * a <= 0x4_0000_0000_0000_0000 * u,
        u <= 2 * b <= 0x4_0000_0000_0000_0000 * u,
    ensures
        0 < b,
        b * 0x80_0000 <= a * u < b * wide,
{
    assert(b * 0x80_0000 <= a * u) by (nonlinear_arith)
        requires
            u <= 2 * a,
            b <= 0x2_0000_0000_0000_0000 * u,
            u >= 0x10_0000_0000_0000_0000_0000_0000,
    ;
    assert(a * u < b * wide) by (nonlinear_arith)
        requires
            a <= 0x2_0000_0000_0000_0000 * u,
            u <= 2 * b,
            wide >= 0x400_0000_0000_0000_0000_0000 * u,
            u > 0,
    ;
}

/// How large the quotient of two counts is.
proof fn lemma_quotient_size(a: int, b: int, q: int, u: int, most: int)
    requires
        u >= large(),
        u <= 2 * a <= 0x4_0000_0000_0000_0000 * u,
        u <= 2 * b <= most * u,
        is_close(q * b, a * u),
        q >= 0,
        most > 0,
    ensures
        u <= 4 * (most * q),
        q <= 0x8_0000_0000_0000_0000 * u,
{
    assert(a * u <= 2 * (q * b) && q * b <= 2 * (a * u)) by {
        assert(a * u >= 0) by (nonlinear_arith)
            requires
                a >= 0,
                u >= 0,
        ;
    }
    assert(u <= 4 * (most * q)) by (nonlinear_arith)
        requires
            a * u <= 2 * (q * b),
            u <= 2 * a,
            2 * b <= most * u,
            q >= 0,
            u > 0,
    ;
    assert(q <= 0x8_0000_0000_0000_0000 * u) by (nonlinear_arith)
        requires
            q * b <= 2 * (a * u),
            a <= 0x2_0000_0000_0000_0000 * u,
            u <= 2 * b,
            q >= 0,
            u > 0,
    ;
}

/// Degrees and counts of up to 24 bits are shown as they are.
pub proof fn law_whole_readings_are_exact(d: i32, n: u64)
    requires
        -0x100_0000 < d < 0x100_0000,
        n < 0x100_0000,
    ensures
        sensors::Reading::Degrees(d).value() matches Some(v) && v.is_finite() && v.value() == d
            * exp2(149),
        sensors::Reading::Count(n).value() matches Some(v) && v.is_finite() && v.value() == n
            * exp2(149),
{
    lemma_whole_value(n as nat);
    let p = (if d < 0 {
        -d
    } else {
        d as int
    }) as nat;
    lemma_whole_value(p);
    arith::lemma_negated(counted(p));
    assert(-(p * exp2(149)) == (-p) * exp2(149)) by (nonlinear_arith);
}

/// Thousandths and millionths are shown as that part of their number.
pub proof fn law_small_units_are_divided(m: u32, n: u64)
    requires
        m > 0,
        n > 0,
    ensures
        sensors::Reading::Milli(m).value() matches Some(v) && v.is_finite() && is_near(
            1000 * v.value(),
            m * exp2(149),
        ),
        sensors::Reading::Micro(n).value() matches Some(v) && v.is_finite() && is_near(
            1_000_000 * v.value(),
            n * exp2(149),
        ),
{
    lemma_divided_by(m as nat, 1000);
    lemma_divided_by(n as nat, 1_000_000);
}

proof fn lemma_divided_by(n: nat, k: nat)
    requires
        0 < n <= u64::MAX,
        0 < k <= 1_000_000,
    ensures
        ({
            let v = counted(n).ratio(counted(k));
            &&& v.is_finite()
            &&& is_near(k * v.value(), (n * exp2(149)) as int)
        }),
{
    let u = exp2(149) as int;
    let x = counted(n);
    let y = counted(k);
    let v = x.ratio(y);
    lemma_counted(n);
    lemma_counted(k);
    lemma_whole_value(k);
    lemma_large();
    lemma_sizes(x.magnitude() as int, y.magnitude() as int, u, exp2(240) as int);
    lemma_quotient(x, y);
    let r = v.magnitude() as int;
    let a = x.magnitude() as int;
    assert(r * (k * u) == u * (k * r) && a * u == u * a) by (nonlinear_arith);
    lemma_divided(u, k * r, a);
    assert(is_close(k * r, a) && is_close(a, n * u));
    assert(n * u >= 0) by (nonlinear_arith)
        requires
            u > 0,
    ;
}

/// A share is shown as a percentage: a hundred times the part, divided by the
/// whole.
#[verifier::rlimit(40)]
pub proof fn law_share_is_a_percentage(part: u64, whole: u64)
    requires
        0 < part,
        0 < whole,
    ensures
        (sensors::Reading::Share { part, whole }).value() matches Some(v) && v.is_finite()
            && is_near(v.value() * whole, 100 * (part * exp2(149))),
{
    let u = exp2(149) as int;
    let x = counted(part as nat);
    let y = counted(whole as nat);
    let r = x.ratio(y);
    let v = r.product(counted(100));
    lemma_counted(part as nat);
    lemma_counted(whole as nat);
    lemma_large();
    let wide = exp2(240) as int;
    let a = x.magnitude() as int;
    let b = y.magnitude() as int;
    lemma_sizes(a, b, u, wide);
    lemma_quotient(x, y);
    let q = r.magnitude() as int;
    lemma_quotient_size(a, b, q, u, 0x4_0000_0000_0000_0000);
    lemma_whole_value(100);
    assert(u * 0x80_0000 <= q * (100 * u) < u * wide && q * (100 * u) == u * (100 * q))
        by (nonlinear_arith)
        requires
            q >= 0x80_0000,
            q <= 0x8_0000_0000_0000_0000 * u,
            wide >= 0x400_0000_0000_0000_0000_0000 * u,
            u > 0,
    ;
    arith::law_rounding_is_close((q * (100 * u)) as nat, u as nat, false);
    let p = v.magnitude() as int;
    assert(p * u == u * p) by (nonlinear_arith);
    lemma_divided(u, p, 100 * q);
    lemma_chain(part as int, whole as int, a, b, 100 * q, p, 100, u, q);
}

/// A part over a whole, times a factor.
proof fn lemma_chain(
    part: int,
    whole: int,
    a: int,
    b: int,
    most: int,
    p: int,
    k: int,
    u: int,
    q: int,
)
    requires
        u > 0,
        k > 0,
        part > 0,
        whole > 0,
        q >= 0,
        most == k * q,
        is_close(a, part * u),
        is_close(b, whole * u),
        is_close(q * b, a * u),
        is_close(p, most),
    ensures
        is_near(p * whole, k * (part * u)),
{
    let t0 = k * u * (part * u);
    let t1 = k * u * a;
    let t2 = k * (q * b);
    let t3 = k * q * (whole * u);
    let t4 = (whole * u) * p;
    assert(k * u >= 0 && k * q >= 0 && whole * u >= 0) by (nonlinear_arith)
        requires
            k > 0,
            u > 0,
            q >= 0,
            whole > 0,
    ;
    lemma_multiple(k * u, a, part * u);
    lemma_multiple(k, q * b, a * u);
    assert(k * (a * u) == t1) by (nonlinear_arith)
        requires
            t1 == k * u * a,
    ;
    lemma_multiple(k * q, b, whole * u);
    assert(k * q * b == t2) by (nonlinear_arith)
        requires
            t2 == k * (q * b),
    ;
    lemma_multiple(whole * u, p, k * q);
    assert((whole * u) * (k * q) == t3) by (nonlinear_arith)
        requires
            t3 == k * q * (whole * u),
    ;
    assert(t0 >= 0) by (nonlinear_arith)
        requires
            t0 == k * u * (part * u),
            k * u >= 0,
            part > 0,
            u > 0,
    ;
    assert(2_000_000 * (t4 - t0) <= t0 && 2_000_000 * (t0 - t4) <= t0);
    assert(t4 == u * (p * whole) && t0 == u * (k * (part * u))) by (nonlinear_arith)
        requires
            t4 == (whole * u) * p,
            t0 == k * u * (part * u),
    ;
    let x = p * whole;
    let y = k * (part * u);
    assert(2_000_000 * (x - y) <= y && 2_000_000 * (y - x) <= y) by (nonlinear_arith)
        requires
            2_000_000 * (u * x - u * y) <= u * y,
            2_000_000 * (u * y - u * x) <= u * y,
            u > 0,
    ;
}

/// A frequency is shown as the average in GHz of frequencies in kHz.
#[verifier::rlimit(40)]
pub proof fn law_frequency_is_an_average(total: u64, count: u32)
    requires
        0 < total,
        0 < count,
    ensures
        (sensors::Reading::Frequency { total, count }).value() matches Some(v) && v.is_finite()
            && is_near(1_000_000 * (v.value() * count), total * exp2(149)),
{
    let u = exp2(149) as int;
    let wide = exp2(240) as int;
    let x = counted(total as nat);
    let y = counted(count as nat);
    let r = x.ratio(y);
    let v = r.ratio(counted(1_000_000));
    lemma_counted(total as nat);
    lemma_counted(count as nat);
    lemma_large();
    let a = x.magnitude() as int;
    let b = y.magnitude() as int;
    lemma_sizes(a, b, u, wide);
    lemma_quotient(x, y);
    let q = r.magnitude() as int;
    assert(2 * b <= 0x4_0000_0000 * u) by (nonlinear_arith)
        requires
            0x100_0000 * (b - count * u) <= count * u,
            count <= 0xffff_ffff,
            u > 0,
    ;
    lemma_quotient_size(a, b, q, u, 0x4_0000_0000);
    lemma_whole_value(1_000_000);
    assert(1_000_000 * u * 0x80_0000 <= q * u < 1_000_000 * u * wide) by (nonlinear_arith)
        requires
            u <= 4 * (0x4_0000_0000 * q),
            q <= 0x8_0000_0000_0000_0000 * u,
            u >= 0x10_0000_0000_0000_0000_0000_0000,
            wide >= 0x400_0000_0000_0000_0000_0000 * u,
    ;
    lemma_quotient(r, counted(1_000_000));
    let p = v.magnitude() as int;
    assert(p * (1_000_000 * u) == u * (1_000_000 * p) && q * u == u * q) by (nonlinear_arith);
    lemma_divided(u, 1_000_000 * p, q);
    lemma_chain(total as int, count as int, a, b, q, 1_000_000 * p, 1, u, q);
    assert(1_000_000 * p * count == 1_000_000 * (p * count)) by (nonlinear_arith);
    assert(1 * (total * u) == total * u);
}

// ── Anchors ──────────────────────────────────────────────────────────────────

/// Removing an anchor keeps the others in their order, and never leaves fewer than
/// two of a map that had two.
pub proof fn law_two_anchors_stay(map: Seq<ColorPoint>, index: int, i: int)
    requires
        0 <= index < map.len(),
        2 <= map.len(),
    ensures
        color::without_point(map, index).len() >= 2,
        color::without_point(map, index).len() >= map.len() - 1,
        map.len() > 2 ==> color::without_point(map, index).len() == map.len() - 1,
        map.len() > 2 && 0 <= i < index ==> color::without_point(map, index)[i] == map[i],
        map.len() > 2 && index <= i < map.len() - 1 ==> color::without_point(map, index)[i] == map[i + 1],
        map.len() == 2 ==> color::without_point(map, index) == map,
{
}

/// A new anchor goes on as far beyond the last one as that is beyond the one before
/// it, where both are whole numbers.
pub proof fn law_new_anchor_keeps_the_step(map: Seq<ColorPoint>, x: int, y: int)
    requires
        map.len() >= 2,
        map[map.len() - 2].value.is_finite(),
        map.last().value.is_finite(),
        map[map.len() - 2].value.value() == x * exp2(149),
        map.last().value.value() == y * exp2(149),
        x <= y,
        y - x < 0x80_0000,
        -0x80_0000 < y < 0x80_0000,
    ensures
        color::continued(map).is_finite(),
        color::continued(map).value() == (y + (y - x)) * exp2(149),
{
    let u = exp2(149) as int;
    let a = map[map.len() - 2].value;
    let b = map.last().value;
    let z = y + (y - x);
    let n = (if z < 0 {
        -z
    } else {
        z
    }) as nat;
    lemma_distance(a, b, x, y);
    arith::law_whole_numbers_are_exact(n, z < 0);
    let exact = arith::with_sign(z < 0, arith::nearest_bits(n * exp2(149), 1));
    assert(-(n * u) == (-n) * u) by (nonlinear_arith);
    assert(y * u + (y - x) * u == z * u) by (nonlinear_arith)
        requires
            z == y + (y - x),
    ;
    arith::law_sum_keeps_order(b, b.sum(a.negated()), exact, exact);
}

} // verus!
