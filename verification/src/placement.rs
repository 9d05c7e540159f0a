//! Where the background picture stands on the display, and how large it is there.

use crate::arith;
use crate::arith::{counted, nearest_bits, with_sign};
use crate::backdrop;
use crate::config;
use crate::config::ImageFit;
use crate::media;
use crate::renderer;
use crate::single;
use crate::single::{exp2, quotient_single, whole_single, Single};
use vstd::prelude::*;

verus! {

// ── Halves ───────────────────────────────────────────────────────────────────

/// Half of a whole number.
spec fn half_of(n: int) -> Single {
    with_sign(
        n < 0,
        nearest_bits(
            (if n < 0 {
                -n
            } else {
                n
            }) as nat * exp2(148),
            1,
        ),
    )
}

proof fn lemma_unit()
    ensures
        exp2(149) == 2 * exp2(148),
        exp2(150) == 4 * exp2(148),
        exp2(148) >= 0x1_0000_0000_0000_0000,
{
    single::lemma_exp2_numbers();
    single::lemma_exp2_grows(64, 148);
    single::lemma_exp2_sum(32, 32);
    assert(0x1_0000_0000 * 0x1_0000_0000 == 0x1_0000_0000_0000_0000) by (nonlinear_arith);
    assert(exp2(149) == 2 * exp2(148));
    assert(exp2(150) == 2 * exp2(149));
}

proof fn lemma_half(n: int)
    requires
        -0x100_0000 < n < 0x100_0000,
    ensures
        half_of(n).is_finite(),
        half_of(n).value() == n * exp2(148),
{
    let p = (if n < 0 {
        -n
    } else {
        n
    }) as nat;
    arith::lemma_small_product(p, 148, n < 0);
    assert(-(p * exp2(148)) == (-p) * exp2(148)) by (nonlinear_arith);
}

proof fn lemma_whole(n: nat)
    requires
        n < 0x100_0000,
    ensures
        counted(n).is_finite(),
        !counted(n).is_negative(),
        counted(n).magnitude() == n * exp2(149),
        counted(n).value() == n * exp2(149),
        whole_single(n) == counted(n),
{
    arith::law_whole_numbers_are_exact(n, false);
    arith::lemma_whole_is_counted(n);
}

// ── Offset ───────────────────────────────────────────────────────────────────

/// 480 times a number lies between whole numbers that its exact value lies between.
proof fn lemma_times_side(s: Single, low: int, high: int)
    requires
        s.is_finite(),
        -480 <= low <= high <= 480,
        low * exp2(149) <= 480 * s.value() <= high * exp2(149),
    ensures
        s.product(counted(480)).is_finite(),
        low * exp2(149) <= s.product(counted(480)).value() <= high * exp2(149),
{
    let u = exp2(149) as int;
    let m = s.magnitude() as int;
    lemma_unit();
    lemma_whole(480);
    let (a, b) = if s.is_negative() {
        (-high, -low)
    } else {
        (low, high)
    };
    assert((-high) * u == -(high * u) && (-low) * u == -(low * u)) by (nonlinear_arith);
    assert(a * u <= 480 * m <= b * u);
    assert(b >= 0) by (nonlinear_arith)
        requires
            0 <= 480 * m <= b * u,
            u > 0,
    ;
    let c = if a < 0 {
        0
    } else {
        a
    };
    lemma_half(2 * c);
    lemma_half(2 * b);
    assert(2 * c * exp2(148) == c * u && 2 * b * exp2(148) == b * u) by (nonlinear_arith)
        requires
            u == 2 * exp2(148),
    ;
    assert(c * u <= 480 * m) by {
        if a < 0 {
            assert(0 * u == 0);
        }
    }
    assert(m * (480 * u) == 480 * m * u && c * u * u <= 480 * m * u <= b * u * u)
        by (nonlinear_arith)
        requires
            c * u <= 480 * m <= b * u,
            u > 0,
    ;
    arith::law_product_keeps_order(s, counted(480), half_of(2 * c), half_of(2 * b));
    assert(a * u <= c * u) by (nonlinear_arith)
        requires
            a <= c,
            u > 0,
    ;
}

/// Half of a number lies between halves that its exact value lies between.
proof fn lemma_halved(x: Single, low: int, high: int)
    requires
        x.is_finite(),
        -0x100_0000 < low <= high < 0x100_0000,
        low * exp2(149) <= x.value() <= high * exp2(149),
    ensures
        x.ratio(whole_single(2)).is_finite(),
        low * exp2(148) <= x.ratio(whole_single(2)).value() <= high * exp2(148),
{
    let u = exp2(149) as int;
    let h = exp2(148) as int;
    let m = x.magnitude() as int;
    lemma_unit();
    lemma_whole(2);
    let (a, b) = if x.is_negative() {
        (-high, -low)
    } else {
        (low, high)
    };
    assert((-high) * u == -(high * u) && (-low) * u == -(low * u)) by (nonlinear_arith);
    assert((-high) * h == -(high * h) && (-low) * h == -(low * h)) by (nonlinear_arith);
    assert(a * u <= m <= b * u);
    assert(b >= 0) by (nonlinear_arith)
        requires
            0 <= m <= b * u,
            u > 0,
    ;
    let c = if a < 0 {
        0
    } else {
        a
    };
    lemma_half(c);
    lemma_half(b);
    assert(c * u <= m) by {
        if a < 0 {
            assert(0 * u == 0);
        }
    }
    assert(c * h * (2 * u) <= m * u <= b * h * (2 * u)) by (nonlinear_arith)
        requires
            c * u <= m <= b * u,
            u == 2 * h,
            u > 0,
    ;
    arith::law_ratio_keeps_order(x, counted(2), half_of(c), half_of(b));
    assert(a * h <= c * h) by (nonlinear_arith)
        requires
            a <= c,
            h > 0,
    ;
}

/// Half of a whole number, rounded away from zero.
spec fn away(n: int) -> int {
    if n < 0 {
        -((1 - n) / 2)
    } else {
        (n + 1) / 2
    }
}

proof fn lemma_quotient_order(a: int, b: int, d: int)
    requires
        d > 0,
        a <= b,
    ensures
        a / d <= b / d,
{
    vstd::arithmetic::div_mod::lemma_div_is_ordered(a, b, d);
}

proof fn lemma_rounded(x: Single, low: int, high: int)
    requires
        x.is_finite(),
        -0x100_0000 < low <= high < 0x100_0000,
        low * exp2(148) <= x.value() <= high * exp2(148),
    ensures
        away(low) <= x.rounded(i64::MIN as int, i64::MAX as int) <= away(high),
{
    let h = exp2(148) as int;
    let m = x.magnitude() as int;
    lemma_unit();
    let (a, b) = if x.is_negative() {
        (-high, -low)
    } else {
        (low, high)
    };
    assert((-high) * h == -(high * h) && (-low) * h == -(low * h)) by (nonlinear_arith);
    assert(a * h <= m <= b * h);
    assert(b >= 0) by (nonlinear_arith)
        requires
            0 <= m <= b * h,
            h > 0,
    ;
    let whole = (2 * m + 2 * h) / (4 * h);
    assert(whole <= (b + 1) / 2) by {
        lemma_halves(m, b, h);
    }
    assert(whole >= 0) by {
        vstd::arithmetic::div_mod::lemma_div_pos_is_pos(2 * m + 2 * h, 4 * h);
    }
    if a > 0 {
        assert(whole >= (a + 1) / 2) by {
            lemma_halves(m, a, h);
        }
    }
}

proof fn lemma_halves(m: int, n: int, h: int)
    requires
        h > 0,
        m >= 0,
        n >= 0,
    ensures
        m <= n * h ==> (2 * m + 2 * h) / (4 * h) <= (n + 1) / 2,
        n * h <= m ==> (n + 1) / 2 <= (2 * m + 2 * h) / (4 * h),
{
    let v = 2 * (n + 1) * h;
    assert(v == 2 * (n * h) + 2 * h) by (nonlinear_arith)
        requires
            v == 2 * (n + 1) * h,
    ;
    let q = (n + 1) / 2;
    let r = (n + 1) % 2;
    assert(v / (4 * h) == q) by {
        assert(v == q * (4 * h) + 2 * h * r) by (nonlinear_arith)
            requires
                v == 2 * (n + 1) * h,
                n + 1 == 2 * q + r,
        ;
        assert(0 <= 2 * h * r < 4 * h) by (nonlinear_arith)
            requires
                0 <= r < 2,
                h > 0,
        ;
        vstd::arithmetic::div_mod::lemma_fundamental_div_mod_converse(v, 4 * h, q, 2 * h * r);
    }
    if m <= n * h {
        lemma_quotient_order(2 * m + 2 * h, v, 4 * h);
    }
    if n * h <= m {
        lemma_quotient_order(v, 2 * m + 2 * h, 4 * h);
    }
}

/// Where a picture of this length begins.
#[verifier::opaque]
spec fn begins(length: nat, shift: Single) -> int {
    backdrop::offset_of(length, shift)
}

proof fn lemma_begins(length: nat, shift: Single, low: int, high: int)
    requires
        length <= 0xff_0000,
        !shift.is_nan(),
        -480 <= low <= high <= 480,
        low * exp2(149) <= 480 * moved_by(shift) <= high * exp2(149),
    ensures
        away(480 - length + low) <= begins(length, shift) <= away(480 - length + high),
{
    let held = shift.clamped(whole_single(1).negated(), whole_single(1));
    assert(held.is_finite() && held.value() == moved_by(shift)) by {
        lemma_held(shift);
    }
    lemma_offset(length, shift, held, low, high);
    reveal(begins);
}

/// Where a picture begins, if the part of the display by which it is moved lies
/// between `low` and `high` of 480 parts.
#[verifier::rlimit(40)]
proof fn lemma_offset(length: nat, shift: Single, held: Single, low: int, high: int)
    requires
        length <= 0xff_0000,
        held == shift.clamped(whole_single(1).negated(), whole_single(1)),
        held.is_finite(),
        -480 <= low <= high <= 480,
        low * exp2(149) <= 480 * held.value() <= high * exp2(149),
    ensures
        away(480 - length + low) <= backdrop::offset_of(length, shift) <= away(
            480 - length + high,
        ),
{
    let u = exp2(149) as int;
    let h = exp2(148) as int;
    let d = 480 - length;
    let free = counted(480).sum(counted(length).negated());
    let middle = free.ratio(whole_single(2));
    let part = held.product(counted(480));
    let moved = part.ratio(whole_single(2));
    lemma_unit();
    assert(free.is_finite() && free.value() == d * u) by {
        lemma_whole(480);
        lemma_whole(length);
        arith::lemma_negated(counted(length));
        let n = (if d < 0 {
            -d
        } else {
            d
        }) as nat;
        arith::law_whole_numbers_are_exact(n, d < 0);
        let exact = with_sign(d < 0, nearest_bits(n * exp2(149), 1));
        assert(-(n * u) == (-n) * u) by (nonlinear_arith);
        assert(exact.value() == d * u);
        assert(480 * u - length * u == d * u) by (nonlinear_arith)
            requires
                d == 480 - length,
        ;
        arith::law_sum_keeps_order(counted(480), counted(length).negated(), exact, exact);
    }
    lemma_halved(free, d, d);
    lemma_times_side(held, low, high);
    lemma_halved(part, low, high);
    lemma_half(d + low);
    lemma_half(d + high);
    assert((d + low) * h == d * h + low * h && (d + high) * h == d * h + high * h)
        by (nonlinear_arith);
    arith::law_sum_keeps_order(middle, moved, half_of(d + low), half_of(d + high));
    lemma_rounded(middle.sum(moved), d + low, d + high);
}

/// How far a picture is moved, in multiples of 2 to the power of -149: by its
/// shift, but by no more than one half of the display either way.
pub open spec fn moved_by(shift: Single) -> int {
    let one = exp2(149) as int;
    if shift.is_infinite() {
        if shift.is_negative() {
            -one
        } else {
            one
        }
    } else if shift.value() > one {
        one
    } else if shift.value() < -one {
        -one
    } else {
        shift.value()
    }
}

proof fn lemma_held(shift: Single)
    requires
        !shift.is_nan(),
    ensures
        ({
            let held = shift.clamped(whole_single(1).negated(), whole_single(1));
            &&& held.is_finite()
            &&& held.value() == moved_by(shift)
        }),
{
    let one = whole_single(1);
    let u = exp2(149) as int;
    lemma_whole(1);
    assert(1 * u == u);
    arith::lemma_negated(one);
    if shift.is_finite() {
        arith::law_order_is_by_value(shift, one.negated());
        arith::law_order_is_by_value(one, shift);
    }
}

/// A picture stands in the middle of the display, moved by its shift times one
/// half of the display, up to a pixel. It stands there exactly where that is a
/// whole number of pixels.
#[verifier::rlimit(60)]
pub proof fn law_offset_follows_shift(length: nat, shift: Single, parts: int)
    requires
        length <= 0xff_0000,
        !shift.is_nan(),
    ensures
        ({
            let one = exp2(149) as int;
            let twice = 2 * backdrop::offset_of(length, shift);
            let exact = (480 - length) * one + 480 * moved_by(shift);
            &&& exact - 2 * one <= twice * one <= exact + 2 * one
            &&& 480 * moved_by(shift) == parts * one && (480 - length + parts) % 2 == 0 ==> twice
                == 480 - length + parts
        }),
{
    assert(backdrop::offset_of(length, shift) == begins(length, shift)) by {
        reveal(begins);
    }
    lemma_follows(length, shift, parts, begins(length, shift));
}

proof fn lemma_follows(length: nat, shift: Single, parts: int, off: int)
    requires
        length <= 0xff_0000,
        !shift.is_nan(),
        off == begins(length, shift),
    ensures
        ({
            let one = exp2(149) as int;
            let exact = (480 - length) * one + 480 * moved_by(shift);
            &&& exact - 2 * one <= 2 * off * one <= exact + 2 * one
            &&& 480 * moved_by(shift) == parts * one && (480 - length + parts) % 2 == 0 ==> 2 * off
                == 480 - length + parts
        }),
{
    let u = exp2(149) as int;
    let s = 480 * moved_by(shift);
    lemma_unit();
    let (low, high) = lemma_parts(s, u);
    lemma_begins(length, shift, low, high);
    lemma_near(480 - length, off, s, low, high, u);
    if s == parts * u && (480 - length + parts) % 2 == 0 {
        assert(-480 <= parts <= 480) by (nonlinear_arith)
            requires
                -480 * u <= parts * u <= 480 * u,
                u > 0,
        ;
        lemma_begins(length, shift, parts, parts);
    }
}

/// The whole numbers of units next to `s`.
proof fn lemma_parts(s: int, u: int) -> (res: (int, int))
    requires
        u > 0,
        -480 * u <= s <= 480 * u,
    ensures
        -480 <= res.0 <= res.1 <= 480,
        res.1 <= res.0 + 1,
        res.0 * u <= s <= res.1 * u,
{
    let low = s / u;
    let r = s % u;
    vstd::arithmetic::div_mod::lemma_fundamental_div_mod(s, u);
    let high = if r == 0 {
        low
    } else {
        low + 1
    };
    assert(low * u <= s <= high * u) by (nonlinear_arith)
        requires
            s == u * low + r,
            0 <= r < u,
            high == (if r == 0 {
                low
            } else {
                low + 1
            }),
    ;
    assert(-480 <= low && high <= 480) by (nonlinear_arith)
        requires
            -480 * u <= s <= 480 * u,
            s == u * low + r,
            0 <= r < u,
            high == (if r == 0 {
                low
            } else {
                low + 1
            }),
            u > 0,
    ;
    (low, high)
}

proof fn lemma_near(d: int, off: int, s: int, low: int, high: int, u: int)
    requires
        u > 0,
        low <= high <= low + 1,
        low * u <= s <= high * u,
        away(d + low) <= off <= away(d + high),
    ensures
        d * u + s - 2 * u <= 2 * off * u <= d * u + s + 2 * u,
{
    assert(d + low - 1 <= 2 * off <= d + high + 1);
    assert(d * u + s - 2 * u <= 2 * off * u <= d * u + s + 2 * u) by (nonlinear_arith)
        requires
            d + low - 1 <= 2 * off <= d + high + 1,
            high <= low + 1,
            low * u <= s <= high * u,
            u > 0,
    ;
}

/// A picture without a shift stands in the middle: on both sides as much of the
/// display is left free, or of the picture cut off, up to one pixel.
#[verifier::rlimit(60)]
pub proof fn law_unmoved_picture_is_centered(length: nat, shift: Single)
    requires
        length <= 0xff_0000,
        shift.is_finite(),
        shift.value() == 0,
    ensures
        ({
            let before = backdrop::offset_of(length, shift);
            let after = 480 - (before + length);
            &&& -1 <= before - after <= 1
            &&& length % 2 == 0 ==> before == after
        }),
{
    assert(backdrop::offset_of(length, shift) == begins(length, shift)) by {
        reveal(begins);
    }
    lemma_centered(length, shift, begins(length, shift));
}

proof fn lemma_centered(length: nat, shift: Single, off: int)
    requires
        length <= 0xff_0000,
        shift.is_finite(),
        shift.value() == 0,
        off == begins(length, shift),
    ensures
        -1 <= 2 * off + length - 480 <= 1,
        length % 2 == 0 ==> 2 * off + length == 480,
{
    lemma_unit();
    assert(0 * exp2(149) == 0);
    lemma_begins(length, shift, 0, 0);
}

/// Where a picture begins, with or without a shift.
proof fn lemma_begins_near(length: nat, shift: Single, off: int)
    requires
        length <= 0xff_0000,
        !shift.is_nan(),
        off == begins(length, shift),
    ensures
        ({
            let one = exp2(149) as int;
            let exact = (480 - length) * one + 480 * moved_by(shift);
            &&& exact - 2 * one <= 2 * off * one <= exact + 2 * one
            &&& shift.is_finite() && shift.value() == 0 && length % 2 == 0 ==> 2 * off == 480
                - length
        }),
{
    lemma_follows(length, shift, 0, off);
    if shift.is_finite() && shift.value() == 0 {
        lemma_centered(length, shift, off);
    }
}

// ── Pixels ───────────────────────────────────────────────────────────────────

/// The channel `c` of the pixel in column `x` and row `y`.
pub open spec fn channel_at(p: media::CanvasView, x: int, y: int, c: int) -> u8 {
    p.pixels[3 * (y * p.width + x) + c]
}

proof fn lemma_pixel_index(x: int, y: int, c: int)
    requires
        0 <= x < 480,
        0 <= y < 480,
        0 <= c < 3,
    ensures
        ({
            let i = 3 * (y * 480 + x) + c;
            &&& i / 3 % 480 == x
            &&& i / 3 / 480 == y
            &&& i % 3 == c
            &&& 0 <= i < 3 * 480 * 480
        }),
{
}

/// The picture is laid onto the background color: the pixel of the display in a
/// column and a row is the pixel of the scaled picture that many columns and rows
/// after its beginning, which follows from its width and its shift to the side, and
/// from its height and its shift downwards. Where the picture does not reach, the
/// display has the background color.
#[verifier::rlimit(100)]
pub proof fn law_picture_is_laid_onto_color(
    b: config::BackgroundView,
    source: media::CanvasView,
    scaled: media::CanvasView,
    res: media::CanvasView,
    x: int,
    y: int,
    c: int,
) -> (at: (int, int))
    requires
        backdrop::is_placed(b, source, scaled, res),
        scaled.width <= 0xff_0000,
        scaled.height <= 0xff_0000,
        !b.offset_x.is_nan(),
        !b.offset_y.is_nan(),
        0 <= x < 480,
        0 <= y < 480,
        0 <= c < 3,
    ensures
        ({
            let one = exp2(149) as int;
            let column = (480 - scaled.width) * one + 480 * moved_by(b.offset_x);
            let row = (480 - scaled.height) * one + 480 * moved_by(b.offset_y);
            &&& column - 2 * one <= 2 * (x - at.0) * one <= column + 2 * one
            &&& row - 2 * one <= 2 * (y - at.1) * one <= row + 2 * one
            &&& b.offset_x.is_finite() && b.offset_x.value() == 0 && scaled.width % 2 == 0 ==> 2
                * (x - at.0) == 480 - scaled.width
            &&& b.offset_y.is_finite() && b.offset_y.value() == 0 && scaled.height % 2 == 0 ==> 2
                * (y - at.1) == 480 - scaled.height
            &&& 0 <= at.0 < scaled.width && 0 <= at.1 < scaled.height ==> channel_at(res, x, y, c)
                == channel_at(scaled, at.0, at.1, c)
            &&& !(0 <= at.0 < scaled.width && 0 <= at.1 < scaled.height) ==> channel_at(
                res,
                x,
                y,
                c,
            ) == b.background_color[c]
        }),
{
    let left = backdrop::offset_of(scaled.width, b.offset_x);
    let top = backdrop::offset_of(scaled.height, b.offset_y);
    assert(left == begins(scaled.width, b.offset_x) && top == begins(scaled.height, b.offset_y)) by {
        reveal(begins);
    }
    lemma_begins_near(scaled.width, b.offset_x, left);
    lemma_begins_near(scaled.height, b.offset_y, top);
    lemma_overlaid(b, scaled, res, x, y, c);
    (x - left, y - top)
}

// ── Size ─────────────────────────────────────────────────────────────────────

/// One twentieth.
proof fn lemma_twentieth()
    ensures
        ({
            let q = quotient_single(1, 20);
            &&& q.is_finite()
            &&& !q.is_negative()
            &&& q.value() == 13421773 * exp2(121)
            &&& exp2(149) == 0x1000_0000 * exp2(121)
            &&& exp2(121) > 0
        }),
{
    single::lemma_twentieth_bits();
    single::lemma_exp2_sum(28, 121);
    single::lemma_exp2_grows(0, 121);
    reveal_with_fuel(exp2, 29);
    let q = quotient_single(1, 20);
    assert(q.bits == 0x3d4c_cccd);
    assert(q.mantissa() == 13421773);
    assert(q.shift() == 121);
}

/// The zoom of a picture in multiples of 2 to the power of -149: between one
/// twentieth, or what is nearest to it, and eight.
pub open spec fn zoomed_by(zoom: Single) -> int {
    let one = exp2(149) as int;
    if zoom.value() > 8 * one {
        8 * one
    } else if zoom.value() < quotient_single(1, 20).value() {
        quotient_single(1, 20).value()
    } else {
        zoom.value()
    }
}

proof fn lemma_zoom(b: config::BackgroundView)
    requires
        b.zoom.is_finite(),
    ensures
        backdrop::zoom_of(b).is_finite(),
        !backdrop::zoom_of(b).is_negative(),
        backdrop::zoom_of(b).value() == zoomed_by(b.zoom),
        backdrop::zoom_of(b).magnitude() == zoomed_by(b.zoom),
        exp2(149) <= 32 * zoomed_by(b.zoom) <= 256 * exp2(149),
{
    lemma_twentieth();
    lemma_whole(8);
    arith::law_order_is_by_value(b.zoom, quotient_single(1, 20));
    arith::law_order_is_by_value(whole_single(8), b.zoom);
}

/// Whether `a` differs from `b` by at most one part in 2 to the power of 24.
spec fn is_close(a: int, b: int) -> bool {
    0x100_0000 * (a - b) <= b && 0x100_0000 * (b - a) <= b
}

proof fn lemma_close_multiple(k: int, a: int, b: int)
    requires
        k >= 0,
        is_close(a, b),
    ensures
        is_close(k * a, k * b),
{
    assert(0x100_0000 * (k * a - k * b) <= k * b && 0x100_0000 * (k * b - k * a) <= k * b)
        by (nonlinear_arith)
        requires
            k >= 0,
            0x100_0000 * (a - b) <= b,
            0x100_0000 * (b - a) <= b,
    ;
}

proof fn lemma_close_part(k: int, a: int, b: int)
    requires
        k > 0,
        is_close(k * a, k * b),
    ensures
        is_close(a, b),
{
    assert(0x100_0000 * (a - b) <= b && 0x100_0000 * (b - a) <= b) by (nonlinear_arith)
        requires
            k > 0,
            0x100_0000 * (k * a - k * b) <= k * b,
            0x100_0000 * (k * b - k * a) <= k * b,
    ;
}

proof fn lemma_large_unit()
    ensures
        exp2(149) >= 0x1_0000_0000_0000_0000,
        exp2(240) >= 0x1_0000_0000_0000_0000 * exp2(149),
{
    lemma_unit();
    single::lemma_exp2_sum(91, 149);
    single::lemma_exp2_grows(64, 91);
    single::lemma_exp2_sum(32, 32);
    single::lemma_exp2_numbers();
    let a = exp2(91);
    let b = exp2(149);
    assert(0x1_0000_0000 * 0x1_0000_0000 == 0x1_0000_0000_0000_0000) by (nonlinear_arith);
    assert(a * b >= 0x1_0000_0000_0000_0000 * b) by (nonlinear_arith)
        requires
            a >= 0x1_0000_0000_0000_0000,
    ;
}

/// A product that is neither tiny nor huge is close to its exact value.
proof fn lemma_product_is_close(x: Single, y: Single)
    requires
        x.is_finite(),
        y.is_finite(),
        !x.is_negative(),
        !y.is_negative(),
        exp2(149) * 0x80_0000 <= x.magnitude() * y.magnitude() < exp2(149) * exp2(240),
    ensures
        x.product(y).is_finite(),
        !x.product(y).is_negative(),
        is_close(
            (x.product(y).magnitude() * exp2(149)) as int,
            (x.magnitude() * y.magnitude()) as int,
        ),
{
    lemma_unit();
    arith::law_rounding_is_close(x.magnitude() * y.magnitude(), exp2(149), false);
}

/// How much a side of `m` pixels is scaled to fill the display.
proof fn lemma_share(m: nat)
    requires
        0 < m < 0x100_0000,
    ensures
        ({
            let f = counted(480).ratio(counted(m));
            &&& f.is_finite()
            &&& !f.is_negative()
            &&& is_close((f.magnitude() * m) as int, (480 * exp2(149)) as int)
        }),
{
    let u = exp2(149);
    let f = counted(480).ratio(counted(m));
    lemma_large_unit();
    lemma_whole(480);
    lemma_whole(m);
    let num = 480 * u * u;
    let den = m * u;
    let wide = exp2(240);
    assert(den > 0 && den * 0x80_0000 <= num) by (nonlinear_arith)
        requires
            0 < m < 0x100_0000,
            num == 480 * u * u,
            den == m * u,
            u >= 0x1_0000_0000_0000_0000,
    ;
    assert(num < den * wide) by (nonlinear_arith)
        requires
            0 < m,
            num == 480 * u * u,
            den == m * u,
            u > 0,
            wide >= 0x1_0000_0000_0000_0000 * u,
    ;
    arith::law_rounding_is_close(num, den, false);
    let g = f.magnitude();
    assert(u * (g * m) == g * den && u * (480 * u) == num) by (nonlinear_arith)
        requires
            den == m * u,
            num == 480 * u * u,
    ;
    lemma_close_part(u as int, (g * m) as int, (480 * u) as int);
}

/// A side of `n` pixels, scaled as a side of `m` pixels that is to fill the display
/// and then zoomed.
#[verifier::rlimit(40)]
proof fn lemma_scaled_side(f: Single, z: Single, n: nat, m: nat)
    requires
        f.is_finite(),
        !f.is_negative(),
        z.is_finite(),
        !z.is_negative(),
        exp2(149) <= 32 * z.magnitude() <= 256 * exp2(149),
        0 < n < 0x100_0000,
        0 < m < 0x100_0000,
        is_close((f.magnitude() * m) as int, (480 * exp2(149)) as int),
    ensures
        ({
            let p = counted(n).product(f.product(z));
            let exact = 480 * n * z.magnitude();
            &&& f.product(z).is_finite()
            &&& !f.product(z).is_negative()
            &&& p.is_finite()
            &&& !p.is_negative()
            &&& 0x40_0000 * (m * p.magnitude() - exact) <= exact
            &&& 0x40_0000 * (exact - m * p.magnitude()) <= exact
        }),
{
    let u = exp2(149) as int;
    let wide = exp2(240) as int;
    let fm = f.magnitude() as int;
    let zm = z.magnitude() as int;
    let g = f.product(z);
    let p = counted(n).product(g);
    lemma_large_unit();
    lemma_whole(n);
    assert(479 * u <= fm * m <= 481 * u);
    lemma_share_bounds(fm, zm, m as int, u, wide);
    lemma_product_is_close(f, z);
    let gm = g.magnitude() as int;
    assert(is_close(gm * u, fm * zm));
    lemma_part_bounds(gm, n as int, fm * zm, u, wide);
    assert(counted(n).magnitude() * g.magnitude() == n * u * gm);
    lemma_product_is_close(counted(n), g);
    let pm = p.magnitude() as int;
    lemma_close_sides(pm, gm, fm, zm, n as int, m as int, u);
}

proof fn lemma_share_bounds(f: int, z: int, m: int, u: int, wide: int)
    requires
        0 < m < 0x100_0000,
        u >= 0x1_0000_0000_0000_0000,
        wide >= 0x1_0000_0000_0000_0000 * u,
        479 * u <= f * m <= 481 * u,
        u <= 32 * z <= 256 * u,
        f >= 0,
    ensures
        f <= 481 * u,
        u * 0x80_0000 <= f * z < u * wide,
        u * u <= 0x4000_0000 * (f * z),
        f * z <= 3848 * (u * u),
{
    assert(f <= f * m) by (nonlinear_arith)
        requires
            f >= 0,
            m >= 1,
    ;
    assert(u <= 0x10_0000 * f) by (nonlinear_arith)
        requires
            479 * u <= f * m,
            0 < m < 0x100_0000,
            f >= 0,
            u > 0,
    ;
    assert(u * u <= (0x10_0000 * f) * (32 * z)) by (nonlinear_arith)
        requires
            0 < u <= 0x10_0000 * f,
            u <= 32 * z,
    ;
    assert((0x10_0000 * f) * (32 * z) == 0x200_0000 * (f * z)) by (nonlinear_arith);
    assert(f * z <= 3848 * (u * u)) by (nonlinear_arith)
        requires
            0 <= f <= 481 * u,
            0 <= z <= 8 * u,
    ;
    assert(u * 0x80_0000 * 0x4000_0000 <= u * u) by (nonlinear_arith)
        requires
            u >= 0x1_0000_0000_0000_0000,
    ;
    assert(3848 * (u * u) < u * wide) by (nonlinear_arith)
        requires
            wide >= 0x1_0000_0000_0000_0000 * u,
            u > 0,
    ;
}

proof fn lemma_part_bounds(g: int, n: int, exact: int, u: int, wide: int)
    requires
        0 < n < 0x100_0000,
        u >= 0x1_0000_0000_0000_0000,
        wide >= 0x1_0000_0000_0000_0000 * u,
        is_close(g * u, exact),
        u * u <= 0x4000_0000 * exact,
        exact <= 3848 * (u * u),
        g >= 0,
    ensures
        u * 0x80_0000 <= n * u * g < u * wide,
{
    assert(g * u <= 4000 * (u * u));
    assert(u * u <= 0x8000_0000 * (g * u));
    assert(g <= 4000 * u) by (nonlinear_arith)
        requires
            g * u <= 4000 * (u * u),
            u > 0,
    ;
    assert(u <= 0x8000_0000 * g) by (nonlinear_arith)
        requires
            u * u <= 0x8000_0000 * (g * u),
            u > 0,
    ;
    assert(g >= 0x80_0000);
    assert(u * 0x80_0000 <= n * u * g) by (nonlinear_arith)
        requires
            n >= 1,
            g >= 0x80_0000,
            u > 0,
    ;
    assert(n * u * g < u * wide) by (nonlinear_arith)
        requires
            0 < n < 0x100_0000,
            0 <= g <= 4000 * u,
            wide >= 0x1_0000_0000_0000_0000 * u,
            u > 0,
    ;
}

proof fn lemma_close_sides(p: int, g: int, f: int, z: int, n: int, m: int, u: int)
    requires
        0 < n,
        0 < m,
        0 < u,
        0 <= z,
        0 <= f,
        0 <= g,
        is_close(f * m, 480 * u),
        is_close(g * u, f * z),
        is_close(p * u, n * u * g),
    ensures
        0x40_0000 * (m * p - 480 * n * z) <= 480 * n * z,
        0x40_0000 * (480 * n * z - m * p) <= 480 * n * z,
{
    let exact = 480 * n * z;
    assert(n * z >= 0 && n * m >= 0) by (nonlinear_arith)
        requires
            n > 0,
            m > 0,
            z >= 0,
    ;
    lemma_close_multiple(n * z, f * m, 480 * u);
    lemma_close_multiple(n * m, g * u, f * z);
    lemma_close_multiple(m, p * u, n * u * g);
    assert((n * z) * (480 * u) == u * exact) by (nonlinear_arith)
        requires
            exact == 480 * n * z,
    ;
    assert((n * z) * (f * m) == (n * m) * (f * z)) by (nonlinear_arith);
    assert((n * m) * (g * u) == m * (n * u * g)) by (nonlinear_arith);
    assert(m * (p * u) == u * (m * p)) by (nonlinear_arith);
    assert(u * exact >= 0) by (nonlinear_arith)
        requires
            exact == 480 * n * z,
            n * z >= 0,
            u > 0,
    ;
    let t = u * exact;
    let q = u * (m * p);
    assert(0x40_0000 * (q - t) <= t && 0x40_0000 * (t - q) <= t);
    assert(0x40_0000 * (m * p - exact) <= exact && 0x40_0000 * (exact - m * p) <= exact)
        by (nonlinear_arith)
        requires
            0x40_0000 * (u * (m * p) - u * exact) <= u * exact,
            0x40_0000 * (u * exact - u * (m * p)) <= u * exact,
            u > 0,
    ;
}

/// A length in whole pixels.
proof fn lemma_pixels(p: Single, m: int, exact: int)
    requires
        p.is_finite(),
        !p.is_negative(),
        0 < m,
        0x40_0000 * (m * p.magnitude() - exact) <= exact,
        0x40_0000 * (exact - m * p.magnitude()) <= exact,
        exact <= 0x10_0000 * (m * exp2(149)),
    ensures
        ({
            let n = backdrop::pixels_of(p);
            let unit = m * exp2(149);
            &&& 2 * unit <= exact ==> 4 * (n * unit - exact) <= 3 * unit
            &&& 2 * unit <= exact ==> 4 * (exact - n * unit) <= 3 * unit
            &&& exact < 2 * unit ==> 1 <= n <= 2
        }),
{
    let u = exp2(149) as int;
    let x = p.magnitude() as int;
    let unit = m * u;
    lemma_unit();
    let whole = (2 * x + u) / (2 * u);
    vstd::arithmetic::div_mod::lemma_fundamental_div_mod(2 * x + u, 2 * u);
    let r = (2 * x + u) % (2 * u);
    assert(m * x >= 0) by (nonlinear_arith)
        requires
            m > 0,
            x >= 0,
    ;
    assert(2 * (whole * unit) - 2 * (m * x) <= unit && 2 * (m * x) - 2 * (whole * unit) <= unit)
        by (nonlinear_arith)
        requires
            2 * x + u == 2 * u * whole + r,
            0 <= r < 2 * u,
            unit == m * u,
            m > 0,
    ;
    assert(0 <= whole <= 0x20_0000) by (nonlinear_arith)
        requires
            2 * (whole * unit) <= unit + 4 * (0x10_0000 * unit),
            2 * (whole * unit) >= -unit,
            unit == m * u,
            m > 0,
            u > 0,
    ;
    assert(p.rounded(0, 0xffff_ffff) == whole);
    assert(unit > 0) by (nonlinear_arith)
        requires
            unit == m * u,
            m > 0,
            u > 0,
    ;
    if 2 * unit <= exact {
        assert(whole >= 1) by (nonlinear_arith)
            requires
                2 * (whole * unit) > 0,
                unit > 0,
        ;
    } else {
        assert(whole <= 2) by (nonlinear_arith)
            requires
                2 * (whole * unit) < 6 * unit,
                unit > 0,
        ;
    }
}

/// The side that is to fill the display: the shorter one of a picture that covers
/// it, the longer one of a picture that fits into it.
pub open spec fn leading_side(fit: ImageFit, width: nat, height: nat) -> nat {
    if (fit == ImageFit::Cover) == (width <= height) {
        width
    } else {
        height
    }
}

/// The factor by which a picture is scaled before it is zoomed.
spec fn plain_factor(fit: ImageFit, width: nat, height: nat) -> Single {
    let across = counted(480).ratio(counted(width));
    let down = counted(480).ratio(counted(height));
    if fit == ImageFit::Cover {
        across.larger(down)
    } else {
        across.smaller(down)
    }
}

/// A longer side is scaled by a smaller factor.
proof fn lemma_shares_order(m: nat, n: nat)
    requires
        0 < m <= n < 0x100_0000,
    ensures
        counted(480).ratio(counted(n)).magnitude() <= counted(480).ratio(counted(m)).magnitude(),
{
    let u = exp2(149);
    lemma_unit();
    lemma_whole(480);
    lemma_whole(m);
    lemma_whole(n);
    lemma_share(m);
    lemma_share(n);
    assert(480 * u * u * (m * u) <= 480 * u * u * (n * u) && 0 < m * u && 0 < n * u)
        by (nonlinear_arith)
        requires
            0 < m <= n,
            u > 0,
    ;
    lemma_fractions_order(480 * u * u, n * u, 480 * u * u, m * u);
}

/// Of two fractions the smaller is rounded to no more than the larger.
proof fn lemma_fractions_order(a: nat, b: nat, c: nat, d: nat)
    requires
        0 < b,
        0 < d,
        a * d <= c * b,
        with_sign(false, nearest_bits(a, b)).is_finite(),
        with_sign(false, nearest_bits(c, d)).is_finite(),
    ensures
        with_sign(false, nearest_bits(a, b)).magnitude() <= with_sign(
            false,
            nearest_bits(c, d),
        ).magnitude(),
{
    arith::lemma_nearest_order(a, b, c, d);
    let x = with_sign(false, nearest_bits(a, b));
    let y = with_sign(false, nearest_bits(c, d));
    assert(x.bits == nearest_bits(a, b) && y.bits == nearest_bits(c, d));
    arith::lemma_magnitude_order(x, y);
}

proof fn lemma_plain_factor(fit: ImageFit, width: nat, height: nat)
    requires
        fit != ImageFit::Stretch,
        0 < width < 0x100_0000,
        0 < height < 0x100_0000,
    ensures
        ({
            let f = plain_factor(fit, width, height);
            &&& f.is_finite()
            &&& !f.is_negative()
            &&& is_close(
                (f.magnitude() * leading_side(fit, width, height)) as int,
                (480 * exp2(149)) as int,
            )
        }),
{
    let across = counted(480).ratio(counted(width));
    let down = counted(480).ratio(counted(height));
    lemma_share(width);
    lemma_share(height);
    if width <= height {
        lemma_shares_order(width, height);
    } else {
        lemma_shares_order(height, width);
    }
    arith::law_order_is_by_value(across, down);
    arith::law_order_is_by_value(down, across);
}

/// A side of a picture that keeps its shape, in whole pixels.
#[verifier::opaque]
spec fn side_of(b: config::BackgroundView, width: nat, height: nat, n: nat) -> int {
    backdrop::pixels_of(counted(n).product(backdrop::factor_of(b, width, height)))
}

proof fn lemma_side(b: config::BackgroundView, width: nat, height: nat, n: nat)
    requires
        b.fit != ImageFit::Stretch,
        b.zoom.is_finite(),
        0 < width < 0x100_0000,
        0 < height < 0x100_0000,
        0 < n < 0x100_0000,
    ensures
        ({
            let unit = leading_side(b.fit, width, height) * exp2(149);
            let exact = 480 * n * zoomed_by(b.zoom);
            let side = side_of(b, width, height, n);
            &&& 2 * unit <= exact <= 0x10_0000 * unit ==> 4 * (side * unit - exact) <= 3 * unit
            &&& 2 * unit <= exact <= 0x10_0000 * unit ==> 4 * (exact - side * unit) <= 3 * unit
            &&& exact < 2 * unit ==> 1 <= side <= 2
        }),
{
    let m = leading_side(b.fit, width, height);
    let f = plain_factor(b.fit, width, height);
    let z = backdrop::zoom_of(b);
    lemma_plain_factor(b.fit, width, height);
    lemma_zoom(b);
    lemma_scaled_side(f, z, n, m);
    let p = counted(n).product(f.product(z));
    let exact = 480 * n * zoomed_by(b.zoom);
    assert(backdrop::factor_of(b, width, height) == f.product(z));
    if exact <= 0x10_0000 * (m * exp2(149)) {
        lemma_pixels(p, m as int, exact);
    }
    reveal(side_of);
}

proof fn lemma_sides_order(b: config::BackgroundView, width: nat, height: nat, n: nat, k: nat)
    requires
        b.fit != ImageFit::Stretch,
        b.zoom.is_finite(),
        0 < width < 0x100_0000,
        0 < height < 0x100_0000,
        0 < n <= k < 0x100_0000,
    ensures
        1 <= side_of(b, width, height, n) <= side_of(b, width, height, k),
{
    let u = exp2(149);
    let m = leading_side(b.fit, width, height);
    let f = plain_factor(b.fit, width, height);
    let z = backdrop::zoom_of(b);
    lemma_unit();
    lemma_plain_factor(b.fit, width, height);
    lemma_zoom(b);
    lemma_scaled_side(f, z, n, m);
    lemma_scaled_side(f, z, k, m);
    let g = f.product(z);
    assert(backdrop::factor_of(b, width, height) == g);
    lemma_multiples_order(g, n, k);
    let x = counted(n).product(g);
    let y = counted(k).product(g);
    assert(backdrop::pixels_of(x) <= backdrop::pixels_of(y)) by {
        lemma_pixels_order(x, y);
    }
    reveal(side_of);
}

proof fn lemma_multiples_order(g: Single, n: nat, k: nat)
    requires
        g.is_finite(),
        !g.is_negative(),
        0 < n <= k < 0x100_0000,
        counted(n).product(g).is_finite(),
        counted(k).product(g).is_finite(),
    ensures
        counted(n).product(g).magnitude() <= counted(k).product(g).magnitude(),
{
    let u = exp2(149);
    let gm = g.magnitude();
    lemma_unit();
    lemma_whole(n);
    lemma_whole(k);
    assert(n * u * gm * u <= k * u * gm * u) by (nonlinear_arith)
        requires
            n <= k,
    ;
    lemma_fractions_order(n * u * gm, u, k * u * gm, u);
}

proof fn lemma_pixels_order(x: Single, y: Single)
    requires
        x.is_finite(),
        y.is_finite(),
        !x.is_negative(),
        !y.is_negative(),
        x.magnitude() <= y.magnitude(),
    ensures
        backdrop::pixels_of(x) <= backdrop::pixels_of(y),
{
    lemma_unit();
    lemma_quotient_order(
        (2 * x.magnitude() + exp2(149)) as int,
        (2 * y.magnitude() + exp2(149)) as int,
        exp2(150) as int,
    );
}

/// The size of a picture that keeps its shape: the side that is to fill the display
/// is as long as the display times the zoom, and the other side is longer or
/// shorter in the same proportion as before, each up to three quarters of a pixel.
#[verifier::rlimit(60)]
pub proof fn law_picture_keeps_shape(b: config::BackgroundView, width: nat, height: nat)
    requires
        b.fit != ImageFit::Stretch,
        b.zoom.is_finite(),
        0 < width < 0x100_0000,
        0 < height < 0x100_0000,
    ensures
        ({
            let one = exp2(149) as int;
            let zoom = zoomed_by(b.zoom);
            let (w, h) = backdrop::size_of(b, width, height);
            let lead = leading_side(b.fit, width, height);
            let fill = leading_side(b.fit, w as nat, h as nat);
            &&& width <= height ==> 1 <= w <= h
            &&& height <= width ==> 1 <= h <= w
            &&& 4 * (fill * one - 480 * zoom) <= 3 * one
            &&& 4 * (480 * zoom - fill * one) <= 3 * one
            &&& is_in_proportion(w, width, lead, zoom)
            &&& is_in_proportion(h, height, lead, zoom)
        }),
{
    assert(backdrop::size_of(b, width, height) == (
        side_of(b, width, height, width),
        side_of(b, width, height, height),
    )) by {
        reveal(side_of);
    }
    lemma_keeps_shape(
        b,
        width,
        height,
        side_of(b, width, height, width),
        side_of(b, width, height, height),
    );
}

/// Whether a side of `before` pixels becomes one of `after` pixels where a side of
/// `lead` pixels becomes 480 times the zoom, up to three quarters of a pixel. A
/// side that would become shorter than two pixels has one or two. Of a side that
/// would become longer than a million nothing is said.
pub open spec fn is_in_proportion(after: int, before: nat, lead: nat, zoom: int) -> bool {
    let unit = lead * exp2(149);
    let exact = 480 * before * zoom;
    if exact < 2 * unit {
        1 <= after <= 2
    } else {
        exact <= 0x10_0000 * unit ==> 4 * (after * unit - exact) <= 3 * unit && 4 * (exact - after
            * unit) <= 3 * unit
    }
}

proof fn lemma_keeps_shape(b: config::BackgroundView, width: nat, height: nat, w: int, h: int)
    requires
        b.fit != ImageFit::Stretch,
        b.zoom.is_finite(),
        0 < width < 0x100_0000,
        0 < height < 0x100_0000,
        w == side_of(b, width, height, width),
        h == side_of(b, width, height, height),
    ensures
        ({
            let one = exp2(149) as int;
            let zoom = zoomed_by(b.zoom);
            let lead = leading_side(b.fit, width, height);
            let fill = leading_side(b.fit, w as nat, h as nat);
            &&& width <= height ==> 1 <= w <= h
            &&& height <= width ==> 1 <= h <= w
            &&& 4 * (fill * one - 480 * zoom) <= 3 * one
            &&& 4 * (480 * zoom - fill * one) <= 3 * one
            &&& is_in_proportion(w, width, lead, zoom)
            &&& is_in_proportion(h, height, lead, zoom)
        }),
{
    let one = exp2(149) as int;
    let zoom = zoomed_by(b.zoom);
    let lead = leading_side(b.fit, width, height) as int;
    lemma_side(b, width, height, width);
    lemma_side(b, width, height, height);
    if width <= height {
        lemma_sides_order(b, width, height, width, height);
    }
    if height <= width {
        lemma_sides_order(b, width, height, height, width);
    }
    assert(one <= 32 * zoom <= 256 * one) by {
        lemma_zoom(b);
    }
    let fill = leading_side(b.fit, w as nat, h as nat) as int;
    assert(fill == (if lead == width {
        w
    } else {
        h
    }));
    let unit = lead * one;
    assert(2 * unit <= 480 * lead * zoom <= 0x10_0000 * unit) by (nonlinear_arith)
        requires
            unit == lead * one,
            one <= 32 * zoom <= 256 * one,
            lead > 0,
    ;
    assert(4 * (fill * one - 480 * zoom) <= 3 * one && 4 * (480 * zoom - fill * one) <= 3 * one)
        by (nonlinear_arith)
        requires
            4 * (fill * unit - 480 * lead * zoom) <= 3 * unit,
            4 * (480 * lead * zoom - fill * unit) <= 3 * unit,
            unit == lead * one,
            lead > 0,
    ;
}

/// A stretched picture is as wide and as high as the display times the zoom, up to
/// three quarters of a pixel, whatever its shape was.
#[verifier::rlimit(60)]
pub proof fn law_stretched_picture_is_square(b: config::BackgroundView, width: nat, height: nat)
    requires
        b.fit == ImageFit::Stretch,
        b.zoom.is_finite(),
    ensures
        ({
            let one = exp2(149) as int;
            let exact = 480 * zoomed_by(b.zoom);
            let (w, h) = backdrop::size_of(b, width, height);
            &&& w == h
            &&& w >= 1
            &&& 4 * (w * one - exact) <= 3 * one
            &&& 4 * (exact - w * one) <= 3 * one
        }),
{
    let u = exp2(149) as int;
    let wide = exp2(240) as int;
    let z = backdrop::zoom_of(b);
    let p = counted(480).product(z);
    let zm = z.magnitude() as int;
    lemma_large_unit();
    lemma_zoom(b);
    lemma_whole(480);
    assert(u * 0x80_0000 <= 480 * u * zm < u * wide) by (nonlinear_arith)
        requires
            u <= 32 * zm <= 256 * u,
            u >= 0x1_0000_0000_0000_0000,
            wide >= 0x1_0000_0000_0000_0000 * u,
    ;
    lemma_product_is_close(counted(480), z);
    let pm = p.magnitude() as int;
    assert(u * pm == pm * u && u * (480 * zm) == 480 * u * zm) by (nonlinear_arith);
    lemma_close_part(u, pm, 480 * zm);
    assert(1 * pm == pm && 1 * exp2(149) == exp2(149));
    lemma_pixels(p, 1, 480 * zm);
}

/// A picture that covers the display and is not made smaller has at least the size
/// of the display.
#[verifier::rlimit(60)]
pub proof fn law_cover_is_large_enough(b: config::BackgroundView, width: nat, height: nat)
    requires
        b.fit == ImageFit::Cover,
        b.zoom.is_finite(),
        b.zoom.value() >= exp2(149),
        0 < width < 0x100_0000,
        0 < height < 0x100_0000,
    ensures
        backdrop::size_of(b, width, height).0 >= 480,
        backdrop::size_of(b, width, height).1 >= 480,
        b.zoom.value() == exp2(149) && width <= height ==> backdrop::size_of(b, width, height).0
            == 480,
        b.zoom.value() == exp2(149) && height <= width ==> backdrop::size_of(b, width, height).1
            == 480,
{
    let one = exp2(149) as int;
    let (w, h) = backdrop::size_of(b, width, height);
    law_picture_keeps_shape(b, width, height);
    lemma_twentieth();
    let fill = leading_side(b.fit, w as nat, h as nat) as int;
    let zoom = zoomed_by(b.zoom);
    assert(fill >= 480) by (nonlinear_arith)
        requires
            4 * (480 * zoom - fill * one) <= 3 * one,
            zoom >= one,
            one > 0,
    ;
    if b.zoom.value() == one {
        assert(fill <= 480) by (nonlinear_arith)
            requires
                4 * (fill * one - 480 * one) <= 3 * one,
                one > 0,
        ;
    }
}

/// A picture that fits into the display and is not made larger is nowhere longer
/// than the display.
#[verifier::rlimit(60)]
pub proof fn law_contain_is_small_enough(b: config::BackgroundView, width: nat, height: nat)
    requires
        b.fit == ImageFit::Contain,
        b.zoom.is_finite(),
        b.zoom.value() <= exp2(149),
        0 < width < 0x100_0000,
        0 < height < 0x100_0000,
    ensures
        1 <= backdrop::size_of(b, width, height).0 <= 480,
        1 <= backdrop::size_of(b, width, height).1 <= 480,
        b.zoom.value() == exp2(149) && width >= height ==> backdrop::size_of(b, width, height).0
            == 480,
        b.zoom.value() == exp2(149) && height >= width ==> backdrop::size_of(b, width, height).1
            == 480,
{
    let one = exp2(149) as int;
    let (w, h) = backdrop::size_of(b, width, height);
    law_picture_keeps_shape(b, width, height);
    lemma_twentieth();
    let fill = leading_side(b.fit, w as nat, h as nat) as int;
    let zoom = zoomed_by(b.zoom);
    assert(fill <= 480) by (nonlinear_arith)
        requires
            4 * (fill * one - 480 * zoom) <= 3 * one,
            zoom <= one,
            one > 0,
    ;
    if b.zoom.value() == one {
        assert(fill >= 480) by (nonlinear_arith)
            requires
                4 * (480 * one - fill * one) <= 3 * one,
                one > 0,
        ;
    }
}

/// A picture that covers the display, is not made smaller and is not moved leaves
/// no part of the display free: every pixel of the display is one of the scaled
/// picture.
#[verifier::rlimit(80)]
pub proof fn law_cover_fills_display(
    b: config::BackgroundView,
    source: media::CanvasView,
    scaled: media::CanvasView,
    res: media::CanvasView,
    x: int,
    y: int,
    c: int,
) -> (at: (int, int))
    requires
        backdrop::is_placed(b, source, scaled, res),
        b.fit == ImageFit::Cover,
        b.zoom.is_finite(),
        b.zoom.value() >= exp2(149),
        0 < source.width < 0x100_0000,
        0 < source.height < 0x100_0000,
        scaled.width <= 0xff_0000,
        scaled.height <= 0xff_0000,
        b.offset_x.is_finite(),
        b.offset_x.value() == 0,
        b.offset_y.is_finite(),
        b.offset_y.value() == 0,
        0 <= x < 480,
        0 <= y < 480,
        0 <= c < 3,
    ensures
        0 <= at.0 < scaled.width,
        0 <= at.1 < scaled.height,
        channel_at(res, x, y, c) == channel_at(scaled, at.0, at.1, c),
{
    law_cover_is_large_enough(b, source.width, source.height);
    lemma_overlaid(b, scaled, res, x, y, c);
    law_unmoved_picture_is_centered(scaled.width, b.offset_x);
    law_unmoved_picture_is_centered(scaled.height, b.offset_y);
    (
        x - backdrop::offset_of(scaled.width, b.offset_x),
        y - backdrop::offset_of(scaled.height, b.offset_y),
    )
}

/// A picture that fits into the display, is not made larger and is not moved is
/// shown whole: every pixel of the scaled picture is one of the display.
#[verifier::rlimit(80)]
pub proof fn law_contain_shows_whole_picture(
    b: config::BackgroundView,
    source: media::CanvasView,
    scaled: media::CanvasView,
    res: media::CanvasView,
    x: int,
    y: int,
    c: int,
) -> (at: (int, int))
    requires
        backdrop::is_placed(b, source, scaled, res),
        b.fit == ImageFit::Contain,
        b.zoom.is_finite(),
        b.zoom.value() <= exp2(149),
        0 < source.width < 0x100_0000,
        0 < source.height < 0x100_0000,
        b.offset_x.is_finite(),
        b.offset_x.value() == 0,
        b.offset_y.is_finite(),
        b.offset_y.value() == 0,
        0 <= x < scaled.width,
        0 <= y < scaled.height,
        0 <= c < 3,
    ensures
        0 <= at.0 < 480,
        0 <= at.1 < 480,
        channel_at(res, at.0, at.1, c) == channel_at(scaled, x, y, c),
{
    law_contain_is_small_enough(b, source.width, source.height);
    law_unmoved_picture_is_centered(scaled.width, b.offset_x);
    law_unmoved_picture_is_centered(scaled.height, b.offset_y);
    let left = backdrop::offset_of(scaled.width, b.offset_x);
    let top = backdrop::offset_of(scaled.height, b.offset_y);
    lemma_overlaid(b, scaled, res, x + left, y + top, c);
    (x + left, y + top)
}

#[verifier::rlimit(60)]
proof fn lemma_overlaid(
    b: config::BackgroundView,
    scaled: media::CanvasView,
    res: media::CanvasView,
    x: int,
    y: int,
    c: int,
)
    requires
        res == renderer::overlaid(
            media::plain(480, 480, b.background_color),
            scaled,
            backdrop::offset_of(scaled.width, b.offset_x),
            backdrop::offset_of(scaled.height, b.offset_y),
        ),
        0 <= x < 480,
        0 <= y < 480,
        0 <= c < 3,
    ensures
        ({
            let px = x - backdrop::offset_of(scaled.width, b.offset_x);
            let py = y - backdrop::offset_of(scaled.height, b.offset_y);
            channel_at(res, x, y, c) == if 0 <= px < scaled.width && 0 <= py < scaled.height {
                channel_at(scaled, px, py, c)
            } else {
                b.background_color[c]
            }
        }),
{
    lemma_pixel_index(x, y, c);
    let i = 3 * (y * 480 + x) + c;
    let blank = media::plain(480, 480, b.background_color);
    assert(blank.pixels.len() == 3 * 480 * 480);
    assert(blank.pixels[i] == b.background_color[c]);
}

} // verus!
