//! Color maps: which color stands for which value.

use crate::arith;
use crate::order;
use crate::order::stable_order;
use crate::single;
use crate::single::{exp2, quotient_single, whole_single, Single};
use vstd::prelude::*;

verus! {

/// An anchor of a color map.
#[derive(Clone, Copy, Debug)]
pub struct ColorPoint {
    pub value: Single,
    pub color: [u8; 3],
}

/// Where a value falls in a color map.
pub enum Band {
    /// The value has this color.
    Solid([u8; 3]),
    /// The color is blended linearly between the anchors `from` and `from + 1`.
    Blend { from: usize },
}

/// Whether the value lies between the anchors `i` and `i + 1`.
pub open spec fn in_window(value: Single, map: Seq<ColorPoint>, i: int) -> bool {
    map[i].value.le(value) && value.le(map[i + 1].value)
}

/// The first window, from `i` on, that the value lies in.
pub open spec fn first_window(value: Single, map: Seq<ColorPoint>, i: int) -> Option<int>
    decreases map.len() - i,
{
    if i + 1 >= map.len() {
        None
    } else if in_window(value, map, i) {
        Some(i)
    } else {
        first_window(value, map, i + 1)
    }
}

/// The color of a value: gray where the map is empty, the first or last color
/// at or beyond the ends, and a blend in between.
pub open spec fn band(value: Single, map: Seq<ColorPoint>) -> Band {
    if map.len() == 0 {
        Band::Solid([200, 200, 200])
    } else if map.len() == 1 || value.le(map[0].value) {
        Band::Solid(map[0].color)
    } else if map.last().value.le(value) {
        Band::Solid(map.last().color)
    } else {
        match first_window(value, map, 0) {
            Some(i) => Band::Blend { from: i as usize },
            None => Band::Solid(map.last().color),
        }
    }
}

/// Whether the anchors are in ascending order.
pub open spec fn is_sorted(map: Seq<ColorPoint>) -> bool {
    forall|i: int, j: int|
        0 <= i <= j < map.len() ==> (#[trigger] map[i]).value.le((#[trigger] map[j]).value)
}

/// How far the value lies on the way from `a` to `b`, from 0 to 1.
pub open spec fn share(value: Single, a: Single, b: Single) -> Single {
    let from = a.negated();
    value.sum(from).ratio(b.sum(from)).clamped(arith::zero(false), whole_single(1))
}

/// A color channel on the way from `a` to `b`.
pub open spec fn mixed(a: u8, b: u8, t: Single) -> u8 {
    let from = arith::counted(a as nat);
    let way = arith::counted(b as nat).sum(from.negated());
    from.sum(way.product(t)).rounded(0, 255) as u8
}

/// A color on the way from `a` to `b`.
pub open spec fn mixed_color(a: [u8; 3], b: [u8; 3], t: Single) -> [u8; 3] {
    [mixed(a[0], b[0], t), mixed(a[1], b[1], t), mixed(a[2], b[2], t)]
}

/// The color of a value.
pub open spec fn color_at(value: Single, map: Seq<ColorPoint>) -> [u8; 3] {
    match band(value, map) {
        Band::Solid(color) => color,
        Band::Blend { from } => {
            let a = map[from as int];
            let b = map[from + 1];
            mixed_color(a.color, b.color, share(value, a.value, b.value))
        },
    }
}

fn share_of(value: Single, a: Single, b: Single) -> (res: Single)
    ensures
        res == share(value, a, b),
{
    let start: Single = a.minus();
    value.plus(start).over(b.plus(start)).clamp(Single { bits: 0 }, Single::whole(1))
}

fn mix(a: u8, b: u8, t: Single) -> (res: u8)
    ensures
        res == mixed(a, b, t),
{
    let from: Single = Single::count(a as u64);
    let way: Single = Single::count(b as u64).plus(from.minus());
    from.plus(way.times(t)).round(0, 255) as u8
}

/// Blends two colors.
fn lerp_color(a: [u8; 3], b: [u8; 3], t: Single) -> (res: [u8; 3])
    ensures
        res == mixed_color(a, b, t),
{
    let res: [u8; 3] = [mix(a[0], b[0], t), mix(a[1], b[1], t), mix(a[2], b[2], t)];
    assert(res@ == mixed_color(a, b, t)@);
    res
}

/// Finds the color of a value.
pub fn interpolate_color(value: Single, map: &[ColorPoint]) -> (res: [u8; 3])
    ensures
        res == color_at(value, map@),
{
    match find_band(value, map) {
        Band::Solid(color) => color,
        Band::Blend { from } => {
            let a = map[from];
            let b = map[from + 1];
            lerp_color(a.color, b.color, share_of(value, a.value, b.value))
        },
    }
}

fn find_band(value: Single, map: &[ColorPoint]) -> (res: Band)
    ensures
        res == band(value, map@),
        res matches Band::Blend { from } ==> from + 1 < map@.len(),
{
    if map.len() == 0 {
        return Band::Solid([200, 200, 200]);
    }
    if map.len() == 1 || value.at_most(map[0].value) {
        return Band::Solid(map[0].color);
    }
    let last = map.len() - 1;
    if map[last].value.at_most(value) {
        return Band::Solid(map[last].color);
    }
    let mut i: usize = 0;
    while i < last
        invariant
            last + 1 == map@.len(),
            last >= 1,
            !value.le(map@[0].value),
            !map@[last as int].value.le(value),
            i <= last,
            first_window(value, map@, 0) == first_window(value, map@, i as int),
        decreases last - i,
    {
        if map[i].value.at_most(value) && value.at_most(map[i + 1].value) {
            return Band::Blend { from: i };
        }
        i = i + 1;
    }
    Band::Solid(map[last].color)
}

proof fn lemma_first_window(value: Single, map: Seq<ColorPoint>, i: int)
    requires
        0 <= i,
    ensures
        match first_window(value, map, i) {
            Some(k) => i <= k && k + 1 < map.len() && in_window(value, map, k),
            None => forall|k: int| i <= k && k + 1 < map.len() ==> !in_window(value, map, k),
        },
    decreases map.len() - i,
{
    if i + 1 < map.len() && !in_window(value, map, i) {
        lemma_first_window(value, map, i + 1);
    }
}

/// A value always gets a color: a blend names two neighboring anchors that the
/// value lies between.
pub proof fn law_blend_is_between_anchors(value: Single, map: Seq<ColorPoint>)
    requires
        map.len() <= usize::MAX,
    ensures
        band(value, map) matches Band::Blend { from } ==> from + 1 < map.len() && in_window(
            value,
            map,
            from as int,
        ),
{
    lemma_first_window(value, map, 0);
}

/// With a sorted map and a number, a value at or below the first anchor has
/// the first color, one at or above the last has the last color, and every
/// value in between is blended.
pub proof fn law_sorted_map_covers_values(value: Single, map: Seq<ColorPoint>)
    requires
        is_sorted(map),
        2 <= map.len() <= usize::MAX,
        !value.is_nan(),
    ensures
        value.le(map[0].value) ==> band(value, map) == Band::Solid(map[0].color),
        !value.le(map[0].value) && map.last().value.le(value) ==> band(value, map) == Band::Solid(
            map.last().color,
        ),
        !value.le(map[0].value) && !map.last().value.le(value) ==> band(value, map) is Blend,
{
    if !value.le(map[0].value) && !map.last().value.le(value) {
        assert(map[0].value.le(map[map.len() - 1].value));
        lemma_window_exists(value, map, 0);
    }
}

proof fn lemma_window_exists(value: Single, map: Seq<ColorPoint>, i: int)
    requires
        is_sorted(map),
        0 <= i,
        i + 1 < map.len(),
        !value.is_nan(),
        map[i].value.le(value),
        !map.last().value.le(value),
    ensures
        first_window(value, map, i) is Some,
    decreases map.len() - i,
{
    assert(map[i + 1].value.le(map[map.len() - 1].value));
    if !in_window(value, map, i) {
        if i + 2 == map.len() {
            assert(map[i + 1] == map.last());
        } else {
            lemma_window_exists(value, map, i + 1);
        }
    }
}

/// A channel as a number.
proof fn lemma_channel(a: u8)
    ensures
        arith::counted(a as nat).is_finite(),
        arith::counted(a as nat).value() == a * exp2(149),
{
    arith::law_whole_numbers_are_exact(a as nat, false);
}

/// The way from one channel to the other is exact.
proof fn lemma_way(a: u8, b: u8)
    ensures
        ({
            let way = arith::counted(b as nat).sum(arith::counted(a as nat).negated());
            &&& way.is_finite()
            &&& way.value() == (b - a) * exp2(149)
        }),
{
    let unit = exp2(149);
    let from = arith::counted(a as nat);
    let to = arith::counted(b as nat);
    lemma_channel(a);
    lemma_channel(b);
    arith::lemma_negated(from);
    assert(b * unit - a * unit == (b - a) * unit) by (nonlinear_arith);
    let n: nat = if b >= a {
        (b - a) as nat
    } else {
        (a - b) as nat
    };
    arith::law_whole_numbers_are_exact(n, b < a);
    assert(b < a ==> -(n * unit) == (b - a) * unit) by (nonlinear_arith)
        requires
            b < a ==> n == a - b,
    ;
    let exact = arith::with_sign(b < a, arith::nearest_bits(n * unit, 1));
    arith::law_sum_keeps_order(to, from.negated(), exact, exact);
}

/// A part of the way lies between nothing and all of it.
proof fn lemma_part(way: Single, t: Single)
    requires
        way.is_finite(),
        t.is_finite(),
        0 <= t.value() <= exp2(149),
    ensures
        way.product(t).is_finite(),
        way.value() >= 0 ==> 0 <= way.product(t).value() <= way.value(),
        way.value() <= 0 ==> way.value() <= way.product(t).value() <= 0,
        t.value() == 0 ==> way.product(t).value() == 0,
        t.value() == exp2(149) ==> way.product(t).value() == way.value(),
{
    let unit = exp2(149);
    let size = t.magnitude();
    let whole = way.magnitude();
    single::lemma_exp2_numbers();
    single::lemma_exp2_grows(0, 149);
    arith::lemma_negated(way);
    arith::law_whole_numbers_are_exact(0, false);
    let none = arith::counted(0);
    assert(0 * unit == 0);
    let all = if way.is_negative() {
        way.negated()
    } else {
        way
    };
    assert(all.value() == whole);
    assert(size <= unit);
    assert(0 <= whole * size <= whole * unit) by (nonlinear_arith)
        requires
            size <= unit,
    ;
    arith::law_product_keeps_order(way, t, none, all);
    if size == 0 {
        assert(whole * size == 0) by (nonlinear_arith)
            requires
                size == 0,
        ;
        arith::law_product_keeps_order(way, t, none, none);
    } else if size == unit {
        arith::law_product_keeps_order(way, t, all, all);
    }
}

/// What `mixed` computes for a share from 0 to 1.
#[verifier::rlimit(40)]
proof fn lemma_mixed(a: u8, b: u8, t: Single)
    requires
        t.is_finite(),
        0 <= t.value() <= exp2(149),
    ensures
        a <= b ==> a <= mixed(a, b, t) <= b,
        b <= a ==> b <= mixed(a, b, t) <= a,
        t.value() == 0 ==> mixed(a, b, t) == a,
        t.value() == exp2(149) ==> mixed(a, b, t) == b,
{
    let unit = exp2(149);
    single::lemma_exp2_numbers();
    single::lemma_exp2_grows(0, 149);
    let from = arith::counted(a as nat);
    let to = arith::counted(b as nat);
    lemma_channel(a);
    lemma_channel(b);
    lemma_way(a, b);
    let way = to.sum(from.negated());
    lemma_part(way, t);
    let part = way.product(t);
    let sum = from.sum(part);
    assert((b - a) * unit == b * unit - a * unit) by (nonlinear_arith);
    assert(a <= b ==> (b - a) * unit >= 0) by (nonlinear_arith);
    assert(b <= a ==> (b - a) * unit <= 0) by (nonlinear_arith);
    if a <= b {
        arith::law_sum_keeps_order(from, part, from, to);
        arith::law_rounding_keeps_order(sum, a as int, b as int);
    } else {
        arith::law_sum_keeps_order(from, part, to, from);
        arith::law_rounding_keeps_order(sum, b as int, a as int);
    }
    if t.value() == 0 {
        arith::law_sum_keeps_order(from, part, from, from);
        arith::law_rounding_keeps_order(sum, a as int, a as int);
    } else if t.value() == unit {
        arith::law_sum_keeps_order(from, part, to, to);
        arith::law_rounding_keeps_order(sum, b as int, b as int);
    }
}

proof fn lemma_one()
    ensures
        whole_single(1) == arith::counted(1),
        whole_single(1).is_finite(),
        !whole_single(1).is_negative(),
        whole_single(1).magnitude() == exp2(149),
{
    arith::lemma_whole_is_counted(1);
    assert(1 * exp2(149) == exp2(149)) by (nonlinear_arith);
    arith::law_whole_numbers_are_exact(1, false);
}

/// The share of a value between two anchors.
#[verifier::rlimit(80)]
proof fn lemma_share(value: Single, a: Single, b: Single)
    ensures
        share(value, a, b).is_nan() || (share(value, a, b).is_finite() && 0 <= share(
            value,
            a,
            b,
        ).value() <= exp2(149)),
{
    let t = share(value, a, b);
    let none = arith::zero(false);
    let one = whole_single(1);
    lemma_one();
    arith::law_whole_numbers_are_exact(0, false);
    arith::lemma_whole_is_counted(0);
    assert(single::quotient_bits(0, 1) == 0);
    assert(none == arith::counted(0));
    assert(0 * exp2(149) == 0);
    if !t.is_nan() {
        assert(none.le(t) && t.le(one));
        assert(t.is_finite());
        arith::law_order_is_by_value(none, t);
        arith::law_order_is_by_value(t, one);
    }
}

/// Between two finite anchors whose distance is finite, the share is a number.
#[verifier::rlimit(40)]
pub proof fn law_share_is_number(value: Single, a: Single, b: Single)
    requires
        has_finite_distance(a, b),
        !a.same(b),
        a.le(value),
        value.le(b),
    ensures
        !share(value, a, b).is_nan(),
{
    let start = a.negated();
    assert(start.is_finite()) by {
        arith::lemma_negated(a);
    }
    assert(b.sum(start).magnitude() != 0) by {
        arith::law_difference_of_unequal(b, a);
    }
    assert(value.is_finite());
    arith::law_sum_is_number(value, start);
    arith::law_ratio_is_number(value.sum(start), b.sum(start));
    assert(whole_single(1).is_finite()) by {
        lemma_one();
    }
    lemma_clamped(value.sum(start).ratio(b.sum(start)), arith::zero(false), whole_single(1));
}

proof fn lemma_clamped(x: Single, low: Single, high: Single)
    requires
        !x.is_nan(),
        !low.is_nan(),
        !high.is_nan(),
    ensures
        !x.clamped(low, high).is_nan(),
{
}

/// A value at the second anchor has all of its color.
#[verifier::rlimit(40)]
proof fn lemma_share_at_anchor(a: Single, b: Single)
    requires
        has_finite_distance(a, b),
        !b.same(a),
    ensures
        share(b, a, b) == whole_single(1),
{
    let way = b.sum(a.negated());
    assert(way.magnitude() != 0) by {
        arith::law_difference_of_unequal(b, a);
    }
    assert(way.ratio(way) == arith::counted(1)) by {
        arith::law_ratio_of_equals(way);
    }
    assert(whole_single(1) == arith::counted(1) && whole_single(1).is_finite() && !whole_single(
        1,
    ).is_negative()) by {
        lemma_one();
    }
    lemma_clamped_to_itself(whole_single(1));
}

proof fn lemma_clamped_to_itself(x: Single)
    requires
        x.is_finite(),
        !x.is_negative(),
    ensures
        x.clamped(arith::zero(false), x) == x,
{
}

/// Each channel of a blended color lies between those of the two anchors.
pub proof fn law_color_is_between_anchors(value: Single, a: ColorPoint, b: ColorPoint, i: int)
    requires
        !share(value, a.value, b.value).is_nan(),
        0 <= i < 3,
    ensures
        ({
            let c = mixed_color(a.color, b.color, share(value, a.value, b.value))[i];
            &&& a.color[i] <= b.color[i] ==> a.color[i] <= c <= b.color[i]
            &&& b.color[i] <= a.color[i] ==> b.color[i] <= c <= a.color[i]
        }),
{
    let t = share(value, a.value, b.value);
    lemma_share(value, a.value, b.value);
    lemma_mixed(a.color[i], b.color[i], t);
    assert(mixed_color(a.color, b.color, t)[i] == mixed(a.color[i], b.color[i], t));
}

/// In a sorted map of distinct anchors, a value at an anchor has the color of the
/// anchor, if the distance to the anchor before it is finite.
#[verifier::rlimit(80)]
pub proof fn law_anchor_has_its_color(map: Seq<ColorPoint>, i: int)
    requires
        map.len() <= usize::MAX,
        is_sorted(map),
        0 <= i < map.len(),
        forall|j: int, k: int|
            0 <= j < k < map.len() ==> !(#[trigger] map[j]).value.same((#[trigger] map[k]).value),
        0 < i < map.len() - 1 ==> has_finite_distance(map[i - 1].value, map[i].value),
    ensures
        color_at(map[i].value, map) == map[i].color,
{
    lemma_band_of_anchor(map, i);
    if 0 < i < map.len() - 1 {
        let a = map[i - 1];
        let b = map[i];
        assert(!a.value.same(b.value));
        lemma_blend_at_anchor(a, b);
    }
}

/// Whether two numbers and their distance are finite.
pub open spec fn has_finite_distance(a: Single, b: Single) -> bool {
    a.is_finite() && b.is_finite() && b.sum(a.negated()).is_finite()
}

proof fn lemma_blend_at_anchor(a: ColorPoint, b: ColorPoint)
    requires
        has_finite_distance(a.value, b.value),
        !a.value.same(b.value),
    ensures
        mixed_color(a.color, b.color, share(b.value, a.value, b.value)) == b.color,
{
    assert(share(b.value, a.value, b.value) == whole_single(1)) by {
        lemma_share_at_anchor(a.value, b.value);
    }
    lemma_mixed_whole(a.color, b.color);
}

proof fn lemma_band_of_anchor(map: Seq<ColorPoint>, i: int)
    requires
        map.len() <= usize::MAX,
        is_sorted(map),
        0 <= i < map.len(),
        forall|j: int, k: int|
            0 <= j < k < map.len() ==> !(#[trigger] map[j]).value.same((#[trigger] map[k]).value),
    ensures
        band(map[i].value, map) == (if 0 < i < map.len() - 1 {
            Band::Blend { from: (i - 1) as usize }
        } else {
            Band::Solid(map[i].color)
        }),
{
    let value = map[i].value;
    assert(value.le(value));
    if 0 < i {
        assert(map[0].value.le(value) && !map[0].value.same(value));
    }
    if 0 < i < map.len() - 1 {
        assert(value.le(map[map.len() - 1].value) && !value.same(map[map.len() - 1].value));
        lemma_window_of_anchor(map, i, 0);
    }
}

proof fn lemma_mixed_whole(a: [u8; 3], b: [u8; 3])
    ensures
        mixed_color(a, b, whole_single(1)) == b,
{
    let one = whole_single(1);
    assert(one.is_finite() && one.value() == exp2(149)) by {
        lemma_one();
    }
    assert(mixed(a[0], b[0], one) == b[0]) by {
        lemma_mixed(a[0], b[0], one);
    }
    assert(mixed(a[1], b[1], one) == b[1]) by {
        lemma_mixed(a[1], b[1], one);
    }
    assert(mixed(a[2], b[2], one) == b[2]) by {
        lemma_mixed(a[2], b[2], one);
    }
    assert(mixed_color(a, b, one)@ =~= b@);
}

proof fn lemma_window_of_anchor(map: Seq<ColorPoint>, i: int, from: int)
    requires
        is_sorted(map),
        0 <= from < i < map.len() - 1,
        forall|j: int, k: int|
            0 <= j < k < map.len() ==> !(#[trigger] map[j]).value.same((#[trigger] map[k]).value),
    ensures
        first_window(map[i].value, map, from) == Some(i - 1),
    decreases i - from,
{
    assert(map[from].value.le(map[i].value));
    assert(map[from + 1].value.le(map[i].value));
    if from + 1 < i {
        assert(!map[from + 1].value.same(map[i].value));
        lemma_window_of_anchor(map, i, from + 1);
    } else {
        assert(map[i].value.le(map[from + 1].value));
    }
}

// ── Editing ──────────────────────────────────────────────────────────────────

/// The sorting keys of the anchors.
pub open spec fn point_keys(map: Seq<ColorPoint>) -> Seq<Seq<i64>> {
    Seq::new(map.len(), |i: int| seq![map[i].value.key() as i64])
}

/// Whether every anchor stands at a number.
pub open spec fn all_numbers(map: Seq<ColorPoint>) -> bool {
    forall|i: int| 0 <= i < map.len() ==> !(#[trigger] map[i]).value.is_nan()
}

/// Whether `sorted` is what a stable sort by value makes of `map`.
pub open spec fn is_sort_of(sorted: Seq<ColorPoint>, map: Seq<ColorPoint>) -> bool {
    exists|order: Seq<usize>|
        #[trigger] order::is_stable_order(order, point_keys(map)) && sorted == Seq::new(
            map.len(),
            |i: int| map[order[i] as int],
        )
}

/// Tests whether every anchor stands at a number.
pub fn all_numbers_test(map: &[ColorPoint]) -> (res: bool)
    ensures
        res == all_numbers(map@),
{
    let mut i: usize = 0;
    while i < map.len()
        invariant
            i <= map@.len(),
            forall|k: int| 0 <= k < i ==> !(#[trigger] map@[k]).value.is_nan(),
        decreases map@.len() - i,
    {
        if map[i].value.nan_test() {
            return false;
        }
        i = i + 1;
    }
    true
}

/// Sorts the anchors by value; anchors at the same value keep their order.
pub fn sort_color_map(map: &mut Vec<ColorPoint>)
    requires
        all_numbers(old(map)@),
    ensures
        is_sort_of(final(map)@, old(map)@),
        is_sorted(final(map)@),
{
    let mut keys: Vec<Vec<i64>> = Vec::new();
    let mut i: usize = 0;
    while i < map.len()
        invariant
            i <= map@.len(),
            map@ == old(map)@,
            keys@.len() == i,
            forall|k: int| 0 <= k < i ==> (#[trigger] keys@[k])@ == point_keys(map@)[k],
        decreases map@.len() - i,
    {
        let mut key: Vec<i64> = Vec::new();
        key.push(map[i].value.sort_key());
        assert(key@ == point_keys(map@)[i as int]);
        keys.push(key);
        i = i + 1;
    }
    assert(order::key_seqs(keys@) == point_keys(map@));
    let order = stable_order(&keys);
    let mut sorted: Vec<ColorPoint> = Vec::new();
    let ghost before = map@;
    let mut j: usize = 0;
    while j < order.len()
        invariant
            j <= order@.len(),
            map@ == before,
            order::is_stable_order(order@, point_keys(before)),
            sorted@ == Seq::new(j as nat, |k: int| before[order@[k] as int]),
        decreases order@.len() - j,
    {
        assert(order@[j as int] < point_keys(before).len());
        sorted.push(map[order[j]]);
        j = j + 1;
    }
    proof {
        assert(is_sort_of(sorted@, before));
        let ks = point_keys(before);
        assert forall|a: int, b: int| 0 <= a <= b < sorted@.len() implies (
        #[trigger] sorted@[a]).value.le((#[trigger] sorted@[b]).value) by {
            let x = order@[a] as int;
            let y = order@[b] as int;
            assert(!before[x].value.is_nan() && !before[y].value.is_nan());
            if a < b {
                assert(order::before(ks, x, y));
                assert(order::lex_le(ks[x], ks[y]));
                assert(ks[x][0] <= ks[y][0]);
            }
        }
    }
    *map = sorted;
}

/// A color map after an anchor was to be removed. At least two stay.
pub open spec fn without_point(map: Seq<ColorPoint>, index: int) -> Seq<ColorPoint> {
    if map.len() > 2 {
        map.remove(index)
    } else {
        map
    }
}

/// Removes an anchor. A map of two anchors or fewer keeps them.
pub fn remove_color_point(map: &mut Vec<ColorPoint>, index: usize)
    requires
        index < old(map)@.len(),
    ensures
        final(map)@ == (if old(map)@.len() > 2 {
            old(map)@.remove(index as int)
        } else {
            old(map)@
        }),
        final(map)@ == without_point(old(map)@, index as int),
{
    if map.len() > 2 {
        map.remove(index);
    }
}

/// The value of an anchor that continues the steps of the map: as far from the
/// last anchor as that is from the one before it.
pub open spec fn continued(map: Seq<ColorPoint>) -> Single {
    if map.len() == 0 {
        whole_single(50)
    } else if map.len() == 1 {
        map[0].value.sum(whole_single(10))
    } else {
        let last = map.last().value;
        last.sum(last.sum(map[map.len() - 2].value.negated()))
    }
}

/// The value of an anchor that continues the steps of the map.
pub fn continued_value(map: &[ColorPoint]) -> (res: Single)
    ensures
        res == continued(map@),
{
    if map.len() == 0 {
        Single::whole(50)
    } else if map.len() == 1 {
        map[0].value.plus(Single::whole(10))
    } else {
        let last: Single = map[map.len() - 1].value;
        let step: Single = last.plus(map[map.len() - 2].value.minus());
        last.plus(step)
    }
}

/// The value of an anchor ten beyond the last.
pub fn later_value(map: &[ColorPoint]) -> (res: Single)
    ensures
        res == (if map@.len() == 0 {
            whole_single(50)
        } else {
            map@.last().value.sum(whole_single(10))
        }),
{
    if map.len() == 0 {
        Single::whole(50)
    } else {
        map[map.len() - 1].value.plus(Single::whole(10))
    }
}

/// Adds a gray anchor.
pub fn add_color_point(map: &mut Vec<ColorPoint>, value: Single)
    ensures
        final(map)@ == old(map)@.push(ColorPoint { value, color: [200, 200, 200] }),
{
    map.push(ColorPoint { value, color: [200, 200, 200] });
}

// ── Gradients ────────────────────────────────────────────────────────────────

/// The colors at `count` points from `low` towards `high`, of which the point
/// `parts` would be `high` itself.
pub open spec fn gradient(
    map: Seq<ColorPoint>,
    low: Single,
    high: Single,
    count: nat,
    parts: nat,
) -> Seq<[u8; 3]> {
    Seq::new(
        count,
        |i: int|
            {
                let t = quotient_single(i as nat, parts);
                color_at(low.sum(t.product(high.sum(low.negated()))), map)
            },
    )
}

fn draw_gradient(map: &[ColorPoint], low: Single, high: Single, count: u32, parts: u32) -> (res: Vec<
    [u8; 3],
>)
    requires
        0 < parts <= 1000,
        count <= 1000,
    ensures
        res@ == gradient(map@, low, high, count as nat, parts as nat),
{
    let way: Single = high.plus(low.minus());
    let mut res: Vec<[u8; 3]> = Vec::new();
    let mut i: u32 = 0;
    while i < count
        invariant
            i <= count <= 1000,
            0 < parts <= 1000,
            way == high.sum(low.negated()),
            res@ == gradient(map@, low, high, i as nat, parts as nat),
        decreases count - i,
    {
        let t: Single = Single::quotient(i, parts);
        res.push(interpolate_color(low.plus(t.times(way)), map));
        assert(res@ =~= gradient(map@, low, high, (i + 1) as nat, parts as nat));
        i = i + 1;
    }
    res
}

/// The colors of a bar of 80 segments from the first anchor to the last.
pub fn bar_colors(map: &[ColorPoint]) -> (res: Vec<[u8; 3]>)
    requires
        map@.len() > 0,
    ensures
        res@ == gradient(map@, map@[0].value, map@.last().value, 80, 79),
{
    draw_gradient(map, map[0].value, map[map.len() - 1].value, 80, 79)
}

/// The distance from one to the next number.
pub open spec fn tiny_single() -> Single {
    Single { bits: 0x3400_0000 }
}

/// The end of a strip: the last anchor, or just above the first.
pub open spec fn strip_end(map: Seq<ColorPoint>) -> Single {
    map.last().value.larger(map[0].value.sum(tiny_single()))
}

fn end_of_strip(map: &[ColorPoint]) -> (res: Single)
    requires
        map@.len() > 0,
    ensures
        res == strip_end(map@),
{
    map[map.len() - 1].value.max(map[0].value.plus(Single { bits: 0x3400_0000 }))
}

/// The colors of a strip of 100 segments that begins at the first anchor.
pub fn strip_colors(map: &[ColorPoint]) -> (res: Vec<[u8; 3]>)
    requires
        map@.len() > 0,
    ensures
        res@ == gradient(map@, map@[0].value, strip_end(map@), 100, 100),
{
    draw_gradient(map, map[0].value, end_of_strip(map), 100, 100)
}

/// Where a value is marked on a strip, from 0 to 1.
pub fn strip_mark(map: &[ColorPoint], value: Single) -> (res: Single)
    requires
        map@.len() > 0,
    ensures
        res == share(value, map@[0].value, strip_end(map@)),
{
    share_of(value, map[0].value, end_of_strip(map))
}

// ── Intensities ──────────────────────────────────────────────────────────────

/// The intensities of a color, each from 0 to 1.
pub fn to_f32(c: [u8; 3]) -> (res: [Single; 3])
    ensures
        forall|i: int| 0 <= i < 3 ==> #[trigger] res[i] == quotient_single(c[i] as nat, 255),
{
    [
        Single::quotient(c[0] as u32, 255),
        Single::quotient(c[1] as u32, 255),
        Single::quotient(c[2] as u32, 255),
    ]
}

/// The color of these intensities. Intensities below 0 and above 1 are taken
/// for 0 and 1.
pub fn from_f32(c: [Single; 3]) -> (res: [u8; 3])
    ensures
        forall|i: int| 0 <= i < 3 ==> #[trigger] res[i] == c[i].channel(),
{
    [c[0].to_channel(), c[1].to_channel(), c[2].to_channel()]
}

} // verus!
