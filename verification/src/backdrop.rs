//! The background picture: how it is scaled, placed and darkened.

use crate::arith;
use crate::arith::counted;
use crate::config;
use crate::config::{BackgroundConfig, ImageFit};
use crate::media;
use crate::media::{is_scalable, resize, Canvas};
use crate::renderer;
use crate::renderer::place_background;
use crate::single;
use crate::single::{exp2, quotient_single, whole_single, Single};
use vstd::prelude::*;

verus! {

// ── Size ─────────────────────────────────────────────────────────────────────

/// How far a picture is zoomed.
pub open spec fn zoom_of(b: config::BackgroundView) -> Single {
    b.zoom.clamped(quotient_single(1, 20), whole_single(8))
}

/// A length in whole pixels, at least one.
pub open spec fn pixels_of(x: Single) -> int {
    if x.rounded(0, 0xffff_ffff) < 1 {
        1
    } else {
        x.rounded(0, 0xffff_ffff)
    }
}

/// The factor by which a picture is scaled where it keeps its shape: the larger
/// factor covers the display, the smaller one fits into it.
pub open spec fn factor_of(b: config::BackgroundView, width: nat, height: nat) -> Single {
    let across = counted(480).ratio(counted(width));
    let down = counted(480).ratio(counted(height));
    if b.fit == ImageFit::Cover {
        across.larger(down).product(zoom_of(b))
    } else {
        across.smaller(down).product(zoom_of(b))
    }
}

/// The size to which a picture is scaled.
pub open spec fn size_of(b: config::BackgroundView, width: nat, height: nat) -> (int, int) {
    if b.fit == ImageFit::Stretch {
        let side = pixels_of(counted(480).product(zoom_of(b)));
        (side, side)
    } else {
        let factor = factor_of(b, width, height);
        (
            pixels_of(counted(width).product(factor)),
            pixels_of(counted(height).product(factor)),
        )
    }
}

fn whole_pixels(x: Single) -> (res: u32)
    ensures
        res == pixels_of(x),
{
    let n: i64 = x.round(0, 0xffff_ffff);
    if n < 1 {
        1
    } else {
        n as u32
    }
}

/// The size to which a picture of this size is scaled.
pub fn scaled_size(config: &BackgroundConfig, width: u32, height: u32) -> (res: (u32, u32))
    ensures
        (res.0 as int, res.1 as int) == size_of(config@, width as nat, height as nat),
        res.0 > 0,
        res.1 > 0,
{
    let zoom: Single = config.zoom.clamp(Single::quotient(1, 20), Single::whole(8));
    let side: Single = Single::count(480);
    let w: Single = Single::count(width as u64);
    let h: Single = Single::count(height as u64);
    let across: Single = side.over(w);
    let down: Single = side.over(h);
    match config.fit {
        ImageFit::Cover => {
            let factor: Single = across.max(down).times(zoom);
            (whole_pixels(w.times(factor)), whole_pixels(h.times(factor)))
        },
        ImageFit::Contain => {
            let factor: Single = across.min(down).times(zoom);
            (whole_pixels(w.times(factor)), whole_pixels(h.times(factor)))
        },
        ImageFit::Stretch => {
            let n: u32 = whole_pixels(side.times(zoom));
            (n, n)
        },
    }
}

// ── Place ────────────────────────────────────────────────────────────────────

/// Where a picture of this length begins: in the middle, moved by up to half of
/// the display.
pub open spec fn offset_of(length: nat, shift: Single) -> int {
    let middle = counted(480).sum(counted(length).negated()).ratio(whole_single(2));
    let moved = shift.clamped(whole_single(1).negated(), whole_single(1)).product(
        counted(480),
    ).ratio(whole_single(2));
    middle.sum(moved).rounded(i64::MIN as int, i64::MAX as int)
}

fn offset(length: u32, shift: Single) -> (res: i64)
    ensures
        res == offset_of(length as nat, shift),
{
    let side: Single = Single::count(480);
    let one: Single = Single::whole(1);
    let two: Single = Single::whole(2);
    let middle: Single = side.plus(Single::count(length as u64).minus()).over(two);
    let moved: Single = shift.clamp(one.minus(), one).times(side).over(two);
    middle.plus(moved).round(i64::MIN, i64::MAX)
}

/// The display with a picture that was scaled to its size.
pub open spec fn is_placed(
    b: config::BackgroundView,
    source: media::CanvasView,
    scaled: media::CanvasView,
    res: media::CanvasView,
) -> bool {
    let (w, h) = size_of(b, source.width, source.height);
    &&& media::is_scaled(source, scaled, w as nat, h as nat)
    &&& res == renderer::overlaid(
        media::plain(480, 480, b.background_color),
        scaled,
        offset_of(w as nat, b.offset_x),
        offset_of(h as nat, b.offset_y),
    )
}

/// Whether a picture has pixels.
pub open spec fn has_pixels(source: media::CanvasView) -> bool {
    source.width != 0 && source.height != 0
}

/// Whether a picture can be scaled to the size that the settings ask for, if it
/// has pixels.
pub open spec fn can_place(b: config::BackgroundView, source: media::CanvasView) -> bool {
    let (w, h) = size_of(b, source.width, source.height);
    has_pixels(source) ==> media::can_scale(source, w as nat, h as nat)
}

/// Tests whether a picture can be scaled to the size that the settings ask for, if
/// it has pixels.
pub fn is_placeable(config: &BackgroundConfig, source: &Canvas) -> (res: bool)
    ensures
        res == can_place(config@, source@),
{
    if source.width == 0 || source.height == 0 {
        return true;
    }
    let (w, h): (u32, u32) = scaled_size(config, source.width, source.height);
    is_scalable(source, w, h)
}

/// Scales a picture and lays it onto a display of the background color. A picture
/// without pixels is not placed.
pub fn place_picture(config: &BackgroundConfig, source: &Canvas) -> (res: Option<Canvas>)
    requires
        source@.wf(),
        can_place(config@, source@),
    ensures
        res is Some == has_pixels(source@),
        res matches Some(c) ==> {
            &&& exists|scaled: media::CanvasView| is_placed(config@, source@, scaled, c@)
            &&& c@.width == 480
            &&& c@.height == 480
            &&& c@.wf()
        },
{
    if source.width == 0 || source.height == 0 {
        return None;
    }
    let (w, h): (u32, u32) = scaled_size(config, source.width, source.height);
    let scaled: Canvas = resize(source, w, h);
    let x: i64 = offset(w, config.offset_x);
    let y: i64 = offset(h, config.offset_y);
    let res: Canvas = place_background(&scaled, config.background_color, x, y);
    assert(is_placed(config@, source@, scaled@, res@));
    Some(res)
}

// ── Blur ─────────────────────────────────────────────────────────────────────

/// How far the picture is blurred, up to 50, or not at all.
pub open spec fn blur_of(b: config::BackgroundView) -> Option<Single> {
    if quotient_single(1, 100).lt(b.blur_sigma) {
        Some(b.blur_sigma.clamped(arith::zero(false), whole_single(50)))
    } else {
        None
    }
}

/// How far the picture is blurred, up to 50, or not at all.
pub fn blur_radius(config: &BackgroundConfig) -> (res: Option<Single>)
    ensures
        res == (if quotient_single(1, 100).lt(config@.blur_sigma) {
            Some(config@.blur_sigma.clamped(arith::zero(false), whole_single(50)))
        } else {
            None
        }),
        res == blur_of(config@),
{
    if Single::quotient(1, 100).below(config.blur_sigma) {
        Some(config.blur_sigma.clamp(Single { bits: 0 }, Single::whole(50)))
    } else {
        None
    }
}

// ── Shade ────────────────────────────────────────────────────────────────────

/// A channel of the picture over the background color, darkened.
pub open spec fn shaded(p: u8, color: u8, opacity: u8, alpha: u8) -> u8 {
    let full = counted(255);
    let share = counted(opacity as nat).ratio(full);
    let rest = whole_single(1).sum(share.negated());
    let light = counted((255 - alpha) as nat).ratio(full);
    let blended = counted(p as nat).product(share).sum(counted(color as nat).product(rest));
    blended.product(light).clamped(arith::zero(false), full).truncated(0, 255) as u8
}

/// The picture over the background color, darkened.
pub open spec fn shade_of(b: config::BackgroundView, source: media::CanvasView) -> media::CanvasView {
    media::CanvasView {
        width: source.width,
        height: source.height,
        pixels: Seq::new(
            source.pixels.len(),
            |i: int|
                shaded(source.pixels[i], b.background_color[i % 3], b.opacity, b.overlay_alpha),
        ),
    }
}

fn shade_channel(p: u8, color: u8, opacity: u8, alpha: u8) -> (res: u8)
    ensures
        res == shaded(p, color, opacity, alpha),
{
    let full: Single = Single::count(255);
    let share: Single = Single::count(opacity as u64).over(full);
    let rest: Single = Single::whole(1).plus(share.minus());
    let light: Single = Single::count((255 - alpha) as u64).over(full);
    let part: Single = Single::count(p as u64).times(share);
    let blended: Single = part.plus(Single::count(color as u64).times(rest));
    blended.times(light).clamp(Single { bits: 0 }, full).truncate(0, 255) as u8
}

/// What becomes of each value of a channel.
fn shade_table(color: u8, opacity: u8, alpha: u8) -> (res: Vec<u8>)
    ensures
        res@.len() == 256,
        forall|p: int| 0 <= p < 256 ==> #[trigger] res@[p] == shaded(p as u8, color, opacity, alpha),
{
    let mut res: Vec<u8> = Vec::new();
    let mut p: usize = 0;
    while p < 256
        invariant
            p <= 256,
            res@.len() == p,
            forall|k: int|
                0 <= k < p ==> #[trigger] res@[k] == shaded(k as u8, color, opacity, alpha),
        decreases 256 - p,
    {
        res.push(shade_channel(p as u8, color, opacity, alpha));
        p = p + 1;
    }
    res
}

/// Lays the picture over the background color and darkens it.
#[verifier::rlimit(40)]
pub fn shade(config: &BackgroundConfig, source: &Canvas) -> (res: Canvas)
    ensures
        res@ == shade_of(config@, source@),
{
    let tables: [Vec<u8>; 3] = [
        shade_table(config.background_color[0], config.opacity, config.overlay_alpha),
        shade_table(config.background_color[1], config.opacity, config.overlay_alpha),
        shade_table(config.background_color[2], config.opacity, config.overlay_alpha),
    ];
    let mut pixels: Vec<u8> = Vec::new();
    let mut i: usize = 0;
    while i < source.pixels.len()
        invariant
            i <= source.pixels@.len(),
            pixels@.len() == i,
            forall|k: int|
                0 <= k < i ==> #[trigger] pixels@[k] == tables@[k % 3]@[source.pixels@[k] as int],
            forall|c: int| 0 <= c < 3 ==> (#[trigger] tables@[c])@.len() == 256,
        decreases source.pixels@.len() - i,
    {
        let p: u8 = source.pixels[i];
        assert(tables@[i as int % 3]@.len() == 256);
        pixels.push(tables[i % 3][p as usize]);
        i = i + 1;
    }
    let res = Canvas { width: source.width, height: source.height, pixels };
    assert(res@.pixels =~= shade_of(config@, source@).pixels);
    res
}

/// A channel and its value.
proof fn lemma_count(n: nat)
    requires
        n <= 255,
    ensures
        counted(n).is_finite(),
        !counted(n).is_negative(),
        counted(n).magnitude() == n * exp2(149),
{
    arith::law_whole_numbers_are_exact(n, false);
}

/// A finite number times one is the number.
proof fn lemma_times_one(x: Single)
    requires
        x.is_finite(),
        !x.is_negative(),
    ensures
        x.product(counted(1)).is_finite(),
        !x.product(counted(1)).is_negative(),
        x.product(counted(1)).magnitude() == x.magnitude(),
{
    lemma_count(1);
    assert(1 * exp2(149) == exp2(149)) by (nonlinear_arith);
    arith::law_product_keeps_order(x, counted(1), x, x);
}

/// A finite number times zero is zero.
proof fn lemma_times_zero(x: Single, y: Single)
    requires
        x.is_finite(),
        y.is_finite(),
        y.magnitude() == 0,
    ensures
        x.product(y).is_finite(),
        x.product(y).magnitude() == 0,
{
    lemma_count(0);
    assert(0 * exp2(149) == 0 && x.magnitude() * y.magnitude() == 0) by (nonlinear_arith)
        requires
            y.magnitude() == 0,
    ;
    arith::law_product_keeps_order(x, y, counted(0), counted(0));
}

/// What is left of one when one is taken away.
proof fn lemma_no_rest()
    ensures
        whole_single(1).sum(counted(1).negated()).is_finite(),
        whole_single(1).sum(counted(1).negated()).magnitude() == 0,
{
    let back = counted(1).negated();
    lemma_count(0);
    lemma_count(1);
    arith::lemma_whole_is_counted(1);
    arith::lemma_negated(counted(1));
    assert(0 * exp2(149) == 0);
    arith::law_sum_keeps_order(counted(1), back, counted(0), counted(0));
}

proof fn lemma_full_share()
    ensures
        counted(255).ratio(counted(255)) == counted(1),
{
    lemma_count(255);
    single::lemma_exp2_numbers();
    single::lemma_exp2_grows(0, 149);
    arith::law_ratio_of_equals(counted(255));
}

/// What a channel becomes that is clamped and cut off.
proof fn lemma_cut(x: Single, p: u8)
    requires
        x.is_finite(),
        x.value() == p * exp2(149),
    ensures
        x.clamped(arith::zero(false), counted(255)).truncated(0, 255) == p,
{
    let unit = exp2(149);
    single::lemma_exp2_numbers();
    single::lemma_exp2_grows(0, 149);
    lemma_count(0);
    lemma_count(255);
    assert(0 <= p * unit <= 255 * unit) by (nonlinear_arith)
        requires
            p <= 255,
    ;
    arith::lemma_whole_is_counted(0);
    assert(single::quotient_bits(0, 1) == 0);
    assert(arith::zero(false) == counted(0));
    assert(0 * unit == 0);
    arith::law_order_is_by_value(counted(0), x);
    arith::law_order_is_by_value(x, counted(255));
    vstd::arithmetic::div_mod::lemma_div_by_multiple(p as int, unit as int);
    assert(x.magnitude() == p * unit);
}

/// A picture that covers the background and is not darkened keeps its pixels.
pub proof fn law_clear_picture_is_kept(b: config::BackgroundView, source: media::CanvasView)
    requires
        b.opacity == 255,
        b.overlay_alpha == 0,
    ensures
        shade_of(b, source) == source,
{
    assert forall|p: u8, c: u8| #[trigger] shaded(p, c, 255, 0) == p by {
        lemma_clear_channel(p, c);
    }
    assert(shade_of(b, source).pixels =~= source.pixels);
}

#[verifier::rlimit(40)]
proof fn lemma_clear_channel(p: u8, c: u8)
    ensures
        shaded(p, c, 255, 0) == p,
{
    let one = counted(1);
    let x = counted(p as nat);
    let rest = whole_single(1).sum(one.negated());
    let part = x.product(one);
    let other = counted(c as nat).product(rest);
    let blended = part.sum(other);
    lemma_full_share();
    lemma_count(p as nat);
    lemma_count(c as nat);
    lemma_no_rest();
    lemma_times_one(x);
    lemma_times_zero(counted(c as nat), rest);
    arith::law_sum_keeps_order(part, other, x, x);
    lemma_plain_times_one(blended, p);
    lemma_cut(blended.product(one), p);
}

/// A picture of which nothing is left, and which is not darkened, shows the background
/// color.
pub proof fn law_hidden_picture_shows_color(
    b: config::BackgroundView,
    source: media::CanvasView,
    i: int,
)
    requires
        b.opacity == 0,
        b.overlay_alpha == 0,
        0 <= i < source.pixels.len(),
    ensures
        shade_of(b, source).pixels[i] == b.background_color[i % 3],
{
    lemma_hidden_channel(source.pixels[i], b.background_color[i % 3]);
}

#[verifier::rlimit(40)]
proof fn lemma_hidden_channel(p: u8, c: u8)
    ensures
        shaded(p, c, 0, 0) == c,
{
    let one = counted(1);
    let share = counted(0).ratio(counted(255));
    let rest = whole_single(1).sum(share.negated());
    let x = counted(c as nat);
    let part = counted(p as nat).product(share);
    let other = x.product(rest);
    let blended = part.sum(other);
    lemma_no_light();
    lemma_full_share();
    lemma_count(0);
    lemma_count(1);
    lemma_count(p as nat);
    lemma_count(c as nat);
    arith::lemma_negated(share);
    arith::lemma_whole_is_counted(1);
    arith::law_sum_keeps_order(one, share.negated(), one, one);
    lemma_times_zero(counted(p as nat), share);
    assert(1 * exp2(149) == exp2(149)) by (nonlinear_arith);
    assert(rest.magnitude() == exp2(149));
    arith::law_product_keeps_order(x, rest, x, x);
    assert(c * exp2(149) >= 0) by (nonlinear_arith);
    arith::law_sum_keeps_order(part, other, x, x);
    lemma_plain_times_one(blended, c);
    lemma_cut(blended.product(one), c);
}

proof fn lemma_plain_times_one(x: Single, p: u8)
    requires
        x.is_finite(),
        x.value() == p * exp2(149),
    ensures
        x.product(counted(1)).is_finite(),
        x.product(counted(1)).value() == p * exp2(149),
{
    lemma_count(1);
    lemma_count(p as nat);
    assert(1 * exp2(149) == exp2(149)) by (nonlinear_arith);
    assert(p * exp2(149) >= 0) by (nonlinear_arith);
    assert(x.magnitude() == p * exp2(149));
    arith::law_product_keeps_order(x, counted(1), counted(p as nat), counted(p as nat));
}

/// A picture that is darkened completely is black.
pub proof fn law_covered_picture_is_black(
    b: config::BackgroundView,
    source: media::CanvasView,
    i: int,
)
    requires
        b.overlay_alpha == 255,
        0 <= i < source.pixels.len(),
    ensures
        shade_of(b, source).pixels[i] == 0,
{
    lemma_dark_channel(source.pixels[i], b.background_color[i % 3], b.opacity);
}

/// An opacity is a number from 0 to 1, and so is what it leaves.
#[verifier::rlimit(40)]
proof fn lemma_shares(opacity: u8)
    ensures
        ({
            let share = counted(opacity as nat).ratio(counted(255));
            let rest = whole_single(1).sum(share.negated());
            &&& share.is_finite()
            &&& rest.is_finite()
            &&& share.magnitude() <= exp2(149)
            &&& rest.magnitude() <= exp2(149)
        }),
{
    let unit = exp2(149);
    let x = counted(opacity as nat);
    let full = counted(255);
    let one = counted(1);
    let none = counted(0);
    single::lemma_exp2_numbers();
    single::lemma_exp2_grows(0, 149);
    lemma_count(opacity as nat);
    lemma_count(255);
    lemma_count(1);
    lemma_count(0);
    assert(1 * unit == unit && 0 * unit == 0) by (nonlinear_arith);
    assert(0 <= (opacity * unit) * unit <= unit * (255 * unit)) by (nonlinear_arith)
        requires
            opacity <= 255,
    ;
    assert(0 * (255 * unit) == 0) by (nonlinear_arith);
    arith::law_ratio_keeps_order(x, full, none, one);
    let share = x.ratio(full);
    arith::lemma_negated(share);
    arith::lemma_whole_is_counted(1);
    arith::law_sum_keeps_order(one, share.negated(), none, one);
}

#[verifier::rlimit(40)]
proof fn lemma_dark_channel(p: u8, c: u8, opacity: u8)
    ensures
        shaded(p, c, opacity, 255) == 0,
{
    let share = counted(opacity as nat).ratio(counted(255));
    let rest = whole_single(1).sum(share.negated());
    let blended = counted(p as nat).product(share).sum(counted(c as nat).product(rest));
    assert(blended.is_finite()) by {
        lemma_blended(p, c, share, rest, opacity);
    }
    lemma_dark(blended);
    assert((255 - 255u8) as nat == 0);
}

proof fn lemma_dark(x: Single)
    requires
        x.is_finite(),
    ensures
        x.product(counted(0).ratio(counted(255))).clamped(
            arith::zero(false),
            counted(255),
        ).truncated(0, 255) == 0,
{
    let light = counted(0).ratio(counted(255));
    assert(light.is_finite() && light.magnitude() == 0) by {
        lemma_no_light();
    }
    lemma_times_zero(x, light);
    assert(0 * exp2(149) == 0);
    lemma_cut(x.product(light), 0);
}

#[verifier::rlimit(40)]
proof fn lemma_blended(p: u8, c: u8, share: Single, rest: Single, opacity: u8)
    requires
        share == counted(opacity as nat).ratio(counted(255)),
        rest == whole_single(1).sum(share.negated()),
    ensures
        counted(p as nat).product(share).sum(counted(c as nat).product(rest)).is_finite(),
{
    let unit = exp2(149);
    let x = counted(p as nat);
    let y = counted(c as nat);
    assert(share.is_finite() && share.magnitude() <= unit && rest.is_finite() && rest.magnitude()
        <= unit) by {
        lemma_shares(opacity);
    }
    assert(p * unit <= 255 * unit && c * unit <= 255 * unit) by (nonlinear_arith)
        requires
            p <= 255,
            c <= 255,
    ;
    lemma_count(p as nat);
    lemma_count(c as nat);
    lemma_part(x, share);
    lemma_part(y, rest);
    lemma_finite_sum(x.product(share), y.product(rest));
}

proof fn lemma_part(x: Single, share: Single)
    requires
        x.is_finite(),
        share.is_finite(),
        x.magnitude() <= 255 * exp2(149),
        share.magnitude() <= exp2(149),
    ensures
        x.product(share).is_finite(),
        x.product(share).magnitude() <= 255 * exp2(149),
{
    let unit = exp2(149);
    lemma_count(255);
    lemma_count(0);
    let m = x.magnitude();
    let n = share.magnitude();
    assert(0 * unit == 0);
    assert(0 <= m * n <= (255 * unit) * unit) by (nonlinear_arith)
        requires
            m <= 255 * unit,
            n <= unit,
    ;
    arith::law_product_keeps_order(x, share, counted(0), counted(255));
}

proof fn lemma_finite_sum(x: Single, y: Single)
    requires
        x.is_finite(),
        y.is_finite(),
        x.magnitude() <= 255 * exp2(149),
        y.magnitude() <= 255 * exp2(149),
    ensures
        x.sum(y).is_finite(),
{
    let high = counted(510);
    arith::law_whole_numbers_are_exact(510, false);
    arith::lemma_negated(high);
    arith::law_sum_keeps_order(x, y, high.negated(), high);
}

proof fn lemma_no_light()
    ensures
        counted(0).ratio(counted(255)).is_finite(),
        counted(0).ratio(counted(255)).magnitude() == 0,
{
    let unit = exp2(149);
    single::lemma_exp2_numbers();
    single::lemma_exp2_grows(0, 149);
    lemma_count(0);
    lemma_count(255);
    assert(0 * unit == 0 && 0 * (255 * unit) == 0) by (nonlinear_arith);
    arith::law_ratio_keeps_order(counted(0), counted(255), counted(0), counted(0));
}

} // verus!
