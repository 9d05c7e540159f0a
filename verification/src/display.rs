//! What is seen on the display: which readings, where, in which words and colors.

use crate::arith;
use crate::arith::counted;
use crate::color;
use crate::config;
use crate::layout;
use crate::layout::{LayoutPreset, LayoutView, PlacedView};
use crate::renderer;
use crate::single::Single;
use vstd::prelude::*;

verus! {

// ── Captions ─────────────────────────────────────────────────────────────────

proof fn lemma_pushed<A>(earlier: Seq<A>, first: A, second: A)
    ensures
        earlier.push(first).push(second).len() == earlier.len() + 2,
        earlier.push(first).push(second)[earlier.len() as int] == first,
        earlier.push(first).push(second)[(earlier.len() + 1) as int] == second,
        forall|i: int|
            0 <= i < earlier.len() ==> #[trigger] earlier.push(first).push(second)[i]
                == earlier[i],
{
}

#[verifier::rlimit(60)]
proof fn lemma_captions(
    sensors: Seq<config::SensorView>,
    items: Seq<renderer::DrawView>,
    k: int,
)
    requires
        0 <= k < items.len(),
    ensures
        renderer::captions(sensors, items).len() == 2 * items.len(),
        renderer::captions(sensors, items)[2 * k] == renderer::value_caption(
            sensors[items[k].sensor],
            items[k],
        ),
        renderer::captions(sensors, items)[2 * k + 1] == renderer::label_caption(
            sensors[items[k].sensor],
            items[k],
        ),
    decreases items.len(),
{
    let before = items.drop_last();
    let sensor = sensors[items.last().sensor];
    let earlier = renderer::captions(sensors, before);
    let value = renderer::value_caption(sensor, items.last());
    let label = renderer::label_caption(sensor, items.last());
    assert(earlier.len() == 2 * before.len()) by {
        if before.len() > 0 {
            lemma_captions(sensors, before, 0);
        }
    }
    if k < before.len() {
        lemma_captions(sensors, before, k);
        assert(before[k] == items[k]);
    }
    lemma_pushed(earlier, value, label);
}

/// Every reading that is drawn stands at one of the places of the layout.
proof fn lemma_at_place(
    sensors: Seq<config::SensorView>,
    readings: Map<Seq<char>, Single>,
    slots: Seq<PlacedView>,
    k: int,
) -> (m: int)
    requires
        0 <= k < renderer::drawn(sensors, readings, slots).len(),
    ensures
        0 <= m < slots.len(),
        renderer::drawn(sensors, readings, slots)[k].slot == slots[m],
    decreases slots.len(),
{
    let before = renderer::drawn(sensors, readings, slots.drop_last());
    if k < before.len() {
        lemma_at_place(sensors, readings, slots.drop_last(), k)
    } else {
        slots.len() - 1
    }
}

/// The two captions of a reading: for each reading that is drawn there is a place
/// of the layout, an enabled sensor with the id of the place and a value of that
/// id, such that the first caption is the value in its color at the place for
/// values, and the second the label of the sensor in its color at the place for
/// labels.
pub proof fn law_captions_stand_at_their_places(
    c: config::ConfigView,
    readings: Map<Seq<char>, Single>,
    k: int,
) -> (res: (int, int))
    requires
        0 <= k < renderer::picture(c, readings).len(),
    ensures
        ({
            let texts = renderer::captions(c.sensors, renderer::picture(c, readings));
            let places = c.layout.places(c.shown_ids());
            let place = places[res.0];
            let sensor = c.sensors[res.1];
            let value = readings[place.sensor_id];
            &&& texts.len() == 2 * renderer::picture(c, readings).len()
            &&& 0 <= res.0 < places.len()
            &&& 0 <= res.1 < c.sensors.len()
            &&& sensor.id == place.sensor_id
            &&& sensor.enabled
            &&& readings.contains_key(place.sensor_id)
            &&& texts[2 * k].cx == place.value_cx
            &&& texts[2 * k].y == place.value_y
            &&& texts[2 * k].size == place.value_fs
            &&& texts[2 * k].text == renderer::formatted(sensor.unit, value)
            &&& texts[2 * k].color == color::color_at(value, sensor.color_map)
            &&& texts[2 * k + 1].cx == place.label_cx
            &&& texts[2 * k + 1].y == place.label_y
            &&& texts[2 * k + 1].size == place.label_fs
            &&& texts[2 * k + 1].text == sensor.label
            &&& texts[2 * k + 1].color == sensor.label_color
        }),
{
    let places = c.layout.places(c.shown_ids());
    let items = renderer::picture(c, readings);
    lemma_captions(c.sensors, items, k);
    renderer::lemma_drawn(c.sensors, readings, places, k);
    let m = lemma_at_place(c.sensors, readings, places, k);
    config::lemma_sensor_position(c.sensors, items[k].slot.sensor_id);
    (m, items[k].sensor)
}

/// Every place of the layout whose sensor is enabled and has a value is drawn, in
/// the order of the places.
pub proof fn law_all_places_are_drawn(
    c: config::ConfigView,
    readings: Map<Seq<char>, Single>,
    m: int,
) -> (k: int)
    requires
        0 <= m < c.layout.places(c.shown_ids()).len(),
        renderer::is_drawn(c.sensors, readings, c.layout.places(c.shown_ids())[m]),
    ensures
        0 <= k < renderer::picture(c, readings).len(),
        k <= m,
        renderer::picture(c, readings)[k].slot == c.layout.places(c.shown_ids())[m],
{
    lemma_place_is_drawn(c.sensors, readings, c.layout.places(c.shown_ids()), m)
}

proof fn lemma_place_is_drawn(
    sensors: Seq<config::SensorView>,
    readings: Map<Seq<char>, Single>,
    slots: Seq<PlacedView>,
    m: int,
) -> (k: int)
    requires
        0 <= m < slots.len(),
        renderer::is_drawn(sensors, readings, slots[m]),
    ensures
        0 <= k < renderer::drawn(sensors, readings, slots).len(),
        k <= m,
        renderer::drawn(sensors, readings, slots)[k].slot == slots[m],
    decreases slots.len(),
{
    let before = slots.drop_last();
    lemma_drawn_len(sensors, readings, before);
    if m < before.len() {
        lemma_place_is_drawn(sensors, readings, before, m)
    } else {
        renderer::drawn(sensors, readings, slots).len() - 1
    }
}

proof fn lemma_drawn_len(
    sensors: Seq<config::SensorView>,
    readings: Map<Seq<char>, Single>,
    slots: Seq<PlacedView>,
)
    ensures
        renderer::drawn(sensors, readings, slots).len() <= slots.len(),
    decreases slots.len(),
{
    if slots.len() > 0 {
        lemma_drawn_len(sensors, readings, slots.drop_last());
    }
}

// ── Places ───────────────────────────────────────────────────────────────────

/// Where the value or the label of a place stands.
pub open spec fn spot(p: PlacedView, label: bool) -> (int, int) {
    if label {
        (p.label_cx, p.label_y)
    } else {
        (p.value_cx, p.value_y)
    }
}

proof fn lemma_grid_place(shown: Seq<Seq<char>>, rows: int, lower: bool, i: int)
    requires
        rows == 2 || rows == 3,
        lower ==> rows == 2,
        0 <= i < layout::grid(shown, 2, rows, lower).len(),
    ensures
        ({
            let p = layout::grid(shown, 2, rows, lower)[i];
            let y = if lower {
                290 + 90 * (i / 2)
            } else if rows == 2 {
                150 + 190 * (i / 2)
            } else {
                110 + 130 * (i / 2)
            };
            &&& p.value_cx == (if i % 2 == 0 {
                145int
            } else {
                335
            })
            &&& p.label_cx == p.value_cx
            &&& p.value_y == y
            &&& p.label_y == y + 36
            &&& 0 <= i / 2 < rows
        }),
{
    assert(0 <= i % 2 < 2);
    assert(0 <= i / 2 < rows);
}

/// In the presets no two captions stand at the same spot: neither those of one
/// reading nor those of two.
pub proof fn law_preset_spots_differ(
    l: LayoutView,
    ids: Seq<Seq<char>>,
    i: int,
    a: bool,
    j: int,
    b: bool,
)
    requires
        l.preset != LayoutPreset::Custom,
        0 <= i < l.places(ids).len(),
        0 <= j < l.places(ids).len(),
        i != j || a != b,
    ensures
        spot(l.places(ids)[i], a) != spot(l.places(ids)[j], b),
{
    let shown = l.shown(ids);
    match l.preset {
        LayoutPreset::Classic => {},
        LayoutPreset::Grid2x3 => {
            lemma_grid_place(shown, 3, false, i);
            lemma_grid_place(shown, 3, false, j);
        },
        LayoutPreset::BigTop => {
            let rest = shown.skip(1);
            if i > 0 {
                assert(layout::big_top(shown)[i] == layout::grid(rest, 2, 2, true)[i - 1]);
                lemma_grid_place(rest, 2, true, i - 1);
            }
            if j > 0 {
                assert(layout::big_top(shown)[j] == layout::grid(rest, 2, 2, true)[j - 1]);
                lemma_grid_place(rest, 2, true, j - 1);
            }
        },
        LayoutPreset::Custom => {},
    }
}

/// How many readings each preset can show.
pub open spec fn room(preset: LayoutPreset) -> nat {
    match preset {
        LayoutPreset::BigTop => 5,
        _ => 6,
    }
}

/// A preset shows as many of the readings, from the first on, as are allowed and
/// fit, each in the place of its turn.
pub proof fn law_presets_show_first_readings(l: LayoutView, ids: Seq<Seq<char>>, i: int)
    requires
        l.preset != LayoutPreset::Custom,
        l.max_visible >= 0,
    ensures
        l.places(ids).len() == (if ids.len() <= l.max_visible && ids.len() <= room(l.preset) {
            ids.len() as int
        } else if l.max_visible <= room(l.preset) {
            l.max_visible
        } else {
            room(l.preset) as int
        }),
        0 <= i < l.places(ids).len() ==> l.places(ids)[i].sensor_id == ids[i],
{
    if 0 <= i < l.places(ids).len() {
        layout::lemma_preset_place(l, ids, i);
    }
}

/// The classic arrangement: two readings in the middle, the first of which is the
/// largest of all, and two rows of two below, each with its left and its right
/// reading at the same distance from the middle.
pub proof fn law_classic_is_symmetric(ids: Seq<Seq<char>>)
    requires
        ids.len() >= 6,
    ensures
        ({
            let p = layout::classic(ids);
            &&& p.len() == 6
            &&& p[0].value_cx == 240 && p[1].value_cx == 240
            &&& p[0].label_cx == 240 && p[1].label_cx == 240
            &&& p[2].value_cx + p[3].value_cx == 480 && p[4].value_cx + p[5].value_cx == 480
            &&& p[2].label_cx == p[2].value_cx && p[3].label_cx == p[3].value_cx
            &&& p[4].label_cx == p[4].value_cx && p[5].label_cx == p[5].value_cx
            &&& p[2].value_cx == p[4].value_cx < 240
            &&& p[2].value_y == p[3].value_y && p[4].value_y == p[5].value_y
            &&& p[2].label_y == p[3].label_y && p[4].label_y == p[5].label_y
            &&& p[0].value_y < p[1].value_y < p[2].value_y < p[4].value_y
            &&& p[0].label_y < p[0].value_y && p[1].label_y < p[1].value_y
            &&& p[2].value_y < p[2].label_y < p[4].value_y < p[4].label_y
            &&& forall|i: int| 0 < i < 6 ==> (#[trigger] p[i]).value_fs.lt(p[0].value_fs)
            &&& forall|i: int| 0 <= i < 6 ==> (#[trigger] p[i]).label_fs.lt(p[i].value_fs)
        }),
{
    let p = layout::classic(ids);
    lemma_sizes();
    assert forall|i: int| 0 < i < 6 implies (#[trigger] p[i]).value_fs.lt(p[0].value_fs) by {
        assert(i == 1 || i == 2 || i == 3 || i == 4 || i == 5);
    }
    assert forall|i: int| 0 <= i < 6 implies (#[trigger] p[i]).label_fs.lt(p[i].value_fs) by {
        assert(i == 0 || i == 1 || i == 2 || i == 3 || i == 4 || i == 5);
    }
}

proof fn lemma_sizes()
    ensures
        crate::single::whole_single(44).lt(crate::single::whole_single(118)),
        crate::single::whole_single(58).lt(crate::single::whole_single(118)),
        crate::single::whole_single(46).lt(crate::single::whole_single(118)),
        crate::single::whole_single(22).lt(crate::single::whole_single(44)),
        crate::single::whole_single(27).lt(crate::single::whole_single(58)),
        crate::single::whole_single(22).lt(crate::single::whole_single(46)),
{
    crate::single::law_whole_order(44, 118);
    crate::single::law_whole_order(58, 118);
    crate::single::law_whole_order(46, 118);
    crate::single::law_whole_order(22, 44);
    crate::single::law_whole_order(27, 58);
    crate::single::law_whole_order(22, 46);
}

/// The grid of three rows: left and right readings of a row stand at the same
/// distance from the middle, rows and columns are evenly spaced, and each label
/// stands below its value.
pub proof fn law_grid_is_even(ids: Seq<Seq<char>>, i: int)
    requires
        0 <= i < 4,
        ids.len() >= 6,
    ensures
        ({
            let p = layout::grid(ids, 2, 3, false);
            &&& p.len() == 6
            &&& p[i].value_cx == p[i + 2].value_cx
            &&& p[i + 2].value_y - p[i].value_y == p[2].value_y - p[0].value_y
            &&& p[2].value_y > p[0].label_y
            &&& p[0].value_y + p[4].value_y == 480
            &&& i % 2 == 0 ==> p[i].value_cx + p[i + 1].value_cx == 480 && p[i].value_cx < 240
                && p[i].value_y == p[i + 1].value_y
            &&& p[i].label_cx == p[i].value_cx
            &&& p[i].value_y < p[i].label_y
            &&& p[i].label_fs.lt(p[i].value_fs)
        }),
{
    lemma_sizes();
    lemma_grid_place(ids, 3, false, i);
    lemma_grid_place(ids, 3, false, i + 1);
    lemma_grid_place(ids, 3, false, i + 2);
    lemma_grid_place(ids, 3, false, 0);
    lemma_grid_place(ids, 3, false, 2);
    lemma_grid_place(ids, 3, false, 4);
}

proof fn lemma_custom_place(
    ids: Seq<Seq<char>>,
    slots: Seq<layout::LayoutSlotView>,
    i: int,
) -> (k: int)
    requires
        0 <= i < ids.len(),
        layout::has_slot(slots, ids[i]),
    ensures
        0 <= k < layout::custom(ids, slots).len(),
        k <= i,
        layout::custom(ids, slots)[k] == layout::to_pixels(
            slots[layout::slot_position(slots, ids[i])],
        ),
    decreases ids.len(),
{
    let before = ids.drop_last();
    lemma_custom_len(before, slots);
    if i < before.len() {
        lemma_custom_place(before, slots, i)
    } else {
        layout::custom(ids, slots).len() - 1
    }
}

proof fn lemma_custom_len(ids: Seq<Seq<char>>, slots: Seq<layout::LayoutSlotView>)
    ensures
        layout::custom(ids, slots).len() <= ids.len(),
    decreases ids.len(),
{
    if ids.len() > 0 {
        lemma_custom_len(ids.drop_last(), slots);
    }
}

/// The custom arrangement: a shown reading with a slot of its own stands where the
/// slot says, each of its four normalized positions taken as a part of 480 pixels,
/// in the font sizes of the slot.
pub proof fn law_custom_slots_are_used(l: LayoutView, ids: Seq<Seq<char>>, i: int, j: int) -> (k: int)
    requires
        l.preset == LayoutPreset::Custom,
        0 <= i < l.shown(ids).len(),
        0 <= j < l.custom_slots.len(),
        l.custom_slots[j].sensor_id == l.shown(ids)[i],
        forall|m: int|
            0 <= m < j ==> (#[trigger] l.custom_slots[m]).sensor_id != l.shown(ids)[i],
    ensures
        0 <= k < l.places(ids).len(),
        ({
            let p = l.places(ids)[k];
            let s = l.custom_slots[j];
            let low = i32::MIN as int;
            let high = i32::MAX as int;
            &&& p.sensor_id == s.sensor_id
            &&& p.value_cx == s.value_cx_norm.product(counted(480)).truncated(low, high)
            &&& p.value_y == s.value_cy_norm.product(counted(480)).truncated(low, high)
            &&& p.label_cx == s.label_cx_norm.product(counted(480)).truncated(low, high)
            &&& p.label_y == s.label_cy_norm.product(counted(480)).truncated(low, high)
            &&& p.value_fs == s.value_font_size
            &&& p.label_fs == s.label_font_size
        }),
{
    let id = l.shown(ids)[i];
    let slots = l.custom_slots;
    layout::lemma_slot_position(slots, id);
    let at = layout::slot_position(slots, id);
    if at > j {
        assert(slots[j].sensor_id != id);
    } else if at < j {
        assert(slots[at].sensor_id == id);
    }
    let s = slots[j];
    arith::law_pixel_is_product(s.value_cx_norm);
    arith::law_pixel_is_product(s.value_cy_norm);
    arith::law_pixel_is_product(s.label_cx_norm);
    arith::law_pixel_is_product(s.label_cy_norm);
    lemma_custom_place(l.shown(ids), slots, i)
}

/// The big reading stands above a grid of two rows, in each of which the left and
/// the right reading stand at the same distance from the middle, the earlier one on
/// the left.
pub proof fn law_big_top_is_even(ids: Seq<Seq<char>>)
    requires
        ids.len() >= 5,
    ensures
        ({
            let p = layout::big_top(ids);
            &&& p.len() == 5
            &&& p[1].value_cx + p[2].value_cx == 480 && p[1].value_cx < 240
            &&& p[3].value_cx == p[1].value_cx && p[4].value_cx == p[2].value_cx
            &&& p[1].value_y == p[2].value_y && p[3].value_y == p[4].value_y
            &&& p[0].label_y < p[0].value_y < p[1].value_y < p[1].label_y < p[3].value_y
                < p[3].label_y
            &&& forall|i: int|
                0 <= i < 5 ==> (#[trigger] p[i]).label_cx == p[i].value_cx
        }),
{
    let p = layout::big_top(ids);
    let rest = ids.skip(1);
    let g = layout::grid(rest, 2, 2, true);
    assert(p[1] == g[0] && p[2] == g[1] && p[3] == g[2] && p[4] == g[3]);
    lemma_grid_place(rest, 2, true, 0);
    lemma_grid_place(rest, 2, true, 1);
    lemma_grid_place(rest, 2, true, 2);
    lemma_grid_place(rest, 2, true, 3);
    assert forall|i: int| 0 <= i < 5 implies (#[trigger] p[i]).label_cx == p[i].value_cx by {
        assert(i == 0 || i == 1 || i == 2 || i == 3 || i == 4);
    }
}

} // verus!
