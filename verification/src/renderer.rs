//! What is drawn on the display.

use crate::color;
use crate::config;
use crate::config::{BackgroundConfig, Config};
use crate::fixed;
use crate::fixed::fixed_text;
use crate::layout;
use crate::layout::{LayoutPreset, ResolvedSlot};
use crate::media;
use crate::media::Canvas;
use crate::single;
use crate::single::Single;
use crate::table::Table;
use crate::text;
use crate::text::same_text;
use vstd::prelude::*;

verus! {

// ── Values ───────────────────────────────────────────────────────────────────

/// The number of decimals of values of a unit.
pub open spec fn decimals_of(unit: Seq<char>) -> nat {
    if unit == "°C"@ || unit == "%"@ || unit == "W"@ {
        0
    } else if unit == "GHz"@ {
        2
    } else {
        1
    }
}

/// What follows a value of a unit.
pub open spec fn suffix_of(unit: Seq<char>) -> Seq<char> {
    if unit == "°C"@ {
        "°C"@
    } else if unit == "%"@ {
        "%"@
    } else if unit == "GHz"@ || unit == "GB"@ {
        "G"@
    } else if unit == "W"@ {
        "W"@
    } else {
        ""@
    }
}

/// A value with its unit. Watts are held at 999.
pub open spec fn formatted(unit: Seq<char>, value: Single) -> Seq<char> {
    let shown = if unit == "W"@ {
        value.smaller(single::whole_single(999))
    } else {
        value
    };
    fixed::fixed(shown, decimals_of(unit)) + suffix_of(unit)
}

/// Writes a value with its unit.
pub fn format_value(unit: &str, value: Single) -> (res: String)
    ensures
        res@ == formatted(unit@, value),
{
    proof {
        reveal_strlit("°C");
        reveal_strlit("%");
        reveal_strlit("GHz");
        reveal_strlit("W");
        reveal_strlit("GB");
        reveal_strlit("");
        assert("%"@[0] != "W"@[0]);
        assert("°C"@[0] != "GB"@[0]);
    }
    if same_text(unit, "°C") {
        with_suffix(value, 0, "°C")
    } else if same_text(unit, "%") {
        with_suffix(value, 0, "%")
    } else if same_text(unit, "GHz") {
        with_suffix(value, 2, "G")
    } else if same_text(unit, "W") {
        with_suffix(value.min(Single::whole(999)), 0, "W")
    } else if same_text(unit, "GB") {
        with_suffix(value, 1, "G")
    } else {
        with_suffix(value, 1, "")
    }
}

fn with_suffix(value: Single, decimals: usize, suffix: &str) -> (res: String)
    requires
        decimals <= 2,
    ensures
        res@ == fixed::fixed(value, decimals as nat) + suffix@,
{
    let mut res: String = fixed_text(value, decimals);
    res.append(suffix);
    res
}

// ── Readings ─────────────────────────────────────────────────────────────────

/// A reading to draw: the position of its sensor in the configuration, its
/// value and its place.
#[derive(Clone, Debug)]
pub struct DrawItem {
    pub sensor: usize,
    pub value: Single,
    pub slot: ResolvedSlot,
}

/// What a `DrawItem` holds.
pub struct DrawView {
    pub sensor: int,
    pub value: Single,
    pub slot: layout::PlacedView,
}

impl View for DrawItem {
    type V = DrawView;

    open spec fn view(&self) -> DrawView {
        DrawView { sensor: self.sensor as int, value: self.value, slot: self.slot@ }
    }
}

/// What a list of `DrawItem`s holds.
pub open spec fn draw_views(v: Seq<DrawItem>) -> Seq<DrawView> {
    Seq::new(v.len(), |i: int| v[i]@)
}

/// Whether the reading at a place is drawn: its sensor is known and enabled,
/// and there is a value.
pub open spec fn is_drawn(
    sensors: Seq<config::SensorView>,
    readings: Map<Seq<char>, Single>,
    slot: layout::PlacedView,
) -> bool {
    &&& config::has_sensor(sensors, slot.sensor_id)
    &&& sensors[config::sensor_position(sensors, slot.sensor_id)].enabled
    &&& readings.contains_key(slot.sensor_id)
}

/// The readings that are drawn at these places.
pub open spec fn drawn(
    sensors: Seq<config::SensorView>,
    readings: Map<Seq<char>, Single>,
    slots: Seq<layout::PlacedView>,
) -> Seq<DrawView>
    decreases slots.len(),
{
    if slots.len() == 0 {
        seq![]
    } else {
        let before = drawn(sensors, readings, slots.drop_last());
        let slot = slots.last();
        if is_drawn(sensors, readings, slot) {
            before.push(
                DrawView {
                    sensor: config::sensor_position(sensors, slot.sensor_id),
                    value: readings[slot.sensor_id],
                    slot,
                },
            )
        } else {
            before
        }
    }
}

/// The readings that are drawn for a configuration.
pub open spec fn picture(config: config::ConfigView, readings: Map<Seq<char>, Single>) -> Seq<
    DrawView,
> {
    drawn(config.sensors, readings, config.layout.places(config.shown_ids()))
}

fn copy_slot(s: &ResolvedSlot) -> (res: ResolvedSlot)
    ensures
        res@ == s@,
{
    ResolvedSlot {
        sensor_id: s.sensor_id.clone(),
        value_cx: s.value_cx,
        value_y: s.value_y,
        value_fs: s.value_fs,
        label_cx: s.label_cx,
        label_y: s.label_y,
        label_fs: s.label_fs,
    }
}

/// The places of the shown readings of a configuration.
pub fn visible_slots(config: &Config) -> (res: Vec<ResolvedSlot>)
    ensures
        layout::placed_views(res@) == config@.layout.places(config@.shown_ids()),
{
    let ids = config.enabled_sensor_ids();
    let mut refs: Vec<&str> = Vec::new();
    let mut i: usize = 0;
    while i < ids.len()
        invariant
            i <= ids@.len(),
            refs@.len() == i,
            forall|k: int| 0 <= k < i ==> (#[trigger] refs@[k])@ == ids@[k]@,
        decreases ids@.len() - i,
    {
        refs.push(ids[i].as_str());
        i = i + 1;
    }
    assert(layout::id_texts(refs@) =~= text::texts(ids@));
    config.layout.preset_slots(refs.as_slice())
}

/// Chooses the readings to draw.
pub fn draw_plan(config: &Config, readings: &Table<Single>) -> (res: Vec<DrawItem>)
    ensures
        draw_views(res@) == picture(config@, readings@),
{
    let slots = visible_slots(config);
    let ghost all = layout::placed_views(slots@);
    let ghost sensors = config@.sensors;
    let mut res: Vec<DrawItem> = Vec::new();
    let mut i: usize = 0;
    assert(draw_views(res@) =~= drawn(sensors, readings@, all.take(0)));
    while i < slots.len()
        invariant
            i <= slots@.len(),
            all == layout::placed_views(slots@),
            sensors == config@.sensors,
            draw_views(res@) == drawn(sensors, readings@, all.take(i as int)),
        decreases slots@.len() - i,
    {
        let slot = &slots[i];
        assert(all.take(i + 1).drop_last() =~= all.take(i as int));
        assert(all.take(i + 1).last() == slot@);
        let at = config.find(slot.sensor_id.as_str());
        if at < config.sensors.len() && config.sensors[at].enabled {
            if let Some(value) = readings.get(slot.sensor_id.as_str()) {
                let ghost before = res@;
                let item = DrawItem { sensor: at, value: *value, slot: copy_slot(slot) };
                let ghost view = item@;
                res.push(item);
                assert(draw_views(res@) =~= draw_views(before).push(view));
            }
        }
        i = i + 1;
    }
    assert(all.take(i as int) =~= all);
    res
}

proof fn lemma_drawn_len(
    sensors: Seq<config::SensorView>,
    readings: Map<Seq<char>, Single>,
    slots: Seq<layout::PlacedView>,
)
    ensures
        drawn(sensors, readings, slots).len() <= slots.len(),
    decreases slots.len(),
{
    if slots.len() > 0 {
        lemma_drawn_len(sensors, readings, slots.drop_last());
    }
}

/// Only readings of enabled sensors that have a value are drawn, and no more
/// than `max_visible`.
pub proof fn law_picture_shows_enabled_readings(
    config: config::ConfigView,
    readings: Map<Seq<char>, Single>,
    i: int,
)
    requires
        config.layout.max_visible >= 0,
        0 <= i < picture(config, readings).len(),
    ensures
        picture(config, readings).len() <= config.layout.max_visible,
        is_drawn(config.sensors, readings, picture(config, readings)[i].slot),
        picture(config, readings)[i].value == readings[picture(config, readings)[i].slot.sensor_id],
        picture(config, readings)[i].sensor == config::sensor_position(
            config.sensors,
            picture(config, readings)[i].slot.sensor_id,
        ),
{
    let slots = config.layout.places(config.shown_ids());
    layout::law_places_are_capped(config.layout, config.shown_ids());
    lemma_drawn_len(config.sensors, readings, slots);
    lemma_drawn(config.sensors, readings, slots, i);
}

pub proof fn lemma_drawn(
    sensors: Seq<config::SensorView>,
    readings: Map<Seq<char>, Single>,
    slots: Seq<layout::PlacedView>,
    i: int,
)
    requires
        0 <= i < drawn(sensors, readings, slots).len(),
    ensures
        is_drawn(sensors, readings, drawn(sensors, readings, slots)[i].slot),
        drawn(sensors, readings, slots)[i].value == readings[drawn(
            sensors,
            readings,
            slots,
        )[i].slot.sensor_id],
        drawn(sensors, readings, slots)[i].sensor == config::sensor_position(
            sensors,
            drawn(sensors, readings, slots)[i].slot.sensor_id,
        ),
    decreases slots.len(),
{
    if slots.len() > 0 {
        let before = drawn(sensors, readings, slots.drop_last());
        if i < before.len() {
            lemma_drawn(sensors, readings, slots.drop_last(), i);
        }
    }
}

/// A text on the display: its middle, its top, its size and its color.
#[derive(Clone, Debug)]
pub struct Caption {
    pub text: String,
    pub cx: i32,
    pub y: i32,
    pub size: Single,
    pub color: [u8; 3],
}

/// What a `Caption` holds.
pub struct CaptionView {
    pub text: Seq<char>,
    pub cx: int,
    pub y: int,
    pub size: Single,
    pub color: [u8; 3],
}

impl View for Caption {
    type V = CaptionView;

    open spec fn view(&self) -> CaptionView {
        CaptionView {
            text: self.text@,
            cx: self.cx as int,
            y: self.y as int,
            size: self.size,
            color: self.color,
        }
    }
}

/// What a list of `Caption`s holds.
pub open spec fn caption_views(v: Seq<Caption>) -> Seq<CaptionView> {
    Seq::new(v.len(), |i: int| v[i]@)
}

/// The text of a value.
pub open spec fn value_caption(s: config::SensorView, d: DrawView) -> CaptionView {
    CaptionView {
        text: formatted(s.unit, d.value),
        cx: d.slot.value_cx,
        y: d.slot.value_y,
        size: d.slot.value_fs,
        color: color::color_at(d.value, s.color_map),
    }
}

/// The text of a label.
pub open spec fn label_caption(s: config::SensorView, d: DrawView) -> CaptionView {
    CaptionView {
        text: s.label,
        cx: d.slot.label_cx,
        y: d.slot.label_y,
        size: d.slot.label_fs,
        color: s.label_color,
    }
}

/// The texts on the display: of each reading its value and then its label.
pub open spec fn captions(sensors: Seq<config::SensorView>, items: Seq<DrawView>) -> Seq<
    CaptionView,
>
    decreases items.len(),
{
    if items.len() == 0 {
        seq![]
    } else {
        let d = items.last();
        let s = sensors[d.sensor];
        captions(sensors, items.drop_last()).push(value_caption(s, d)).push(label_caption(s, d))
    }
}

/// Writes the texts on the display.
pub fn write_captions(config: &Config, readings: &Table<Single>) -> (res: Vec<Caption>)
    ensures
        caption_views(res@) == captions(config@.sensors, picture(config@, readings@)),
{
    let plan: Vec<DrawItem> = draw_plan(config, readings);
    let ghost items = draw_views(plan@);
    let ghost sensors = config@.sensors;
    let mut res: Vec<Caption> = Vec::new();
    let mut i: usize = 0;
    assert(items.take(0) =~= seq![]);
    assert(caption_views(res@) =~= captions(sensors, items.take(0)));
    while i < plan.len()
        invariant
            i <= plan@.len(),
            items == draw_views(plan@),
            items == picture(config@, readings@),
            sensors == config@.sensors,
            caption_views(res@) == captions(sensors, items.take(i as int)),
        decreases plan@.len() - i,
    {
        let item = &plan[i];
        assert(items[i as int] == item@);
        proof {
            let slots = config@.layout.places(config@.shown_ids());
            lemma_drawn(sensors, readings@, slots, i as int);
        }
        let sensor = &config.sensors[item.sensor];
        assert(sensor@ == sensors[item@.sensor]);
        let ghost before = res@;
        let value = Caption {
            text: format_value(sensor.unit.as_str(), item.value),
            cx: item.slot.value_cx,
            y: item.slot.value_y,
            size: item.slot.value_fs,
            color: sensor.value_color(item.value),
        };
        let label = Caption {
            text: sensor.label.clone(),
            cx: item.slot.label_cx,
            y: item.slot.label_y,
            size: item.slot.label_fs,
            color: sensor.label_color,
        };
        let ghost first = value@;
        let ghost second = label@;
        res.push(value);
        res.push(label);
        proof {
            assert(items.take(i + 1).drop_last() =~= items.take(i as int));
            assert(items.take(i + 1).last() == item@);
            assert(caption_views(res@) =~= caption_views(before).push(first).push(second));
        }
        i = i + 1;
    }
    assert(items.take(i as int) =~= items);
    res
}

/// Whether the classic divider line is drawn.
pub fn has_divider(config: &Config) -> (res: bool)
    ensures
        res == (config@.layout.preset == LayoutPreset::Classic),
{
    config.layout.preset == LayoutPreset::Classic
}

/// Whether the picture is shown as it is, without rotation.
pub fn is_upright(config: &Config) -> (res: bool)
    ensures
        res == config@.rotation.same(single::whole_single(0)),
{
    config.rotation.equals(Single::whole(0))
}

// ── Background ───────────────────────────────────────────────────────────────

/// What is to be done with the background picture that is kept ready.
#[derive(Clone, Copy, Debug, PartialEq, Eq, Structural)]
pub enum CacheStep {
    /// It is still the right one.
    Keep,
    /// There is none any more.
    Drop,
    /// It has to be loaded; if that fails there is none.
    Load,
}

/// Decides about the background picture that is kept ready, made for the
/// configuration `cached`.
pub open spec fn cache_step(
    cached: Option<config::BackgroundView>,
    current: config::BackgroundView,
) -> CacheStep {
    if cached matches Some(c) && config::same_background(c, current) {
        CacheStep::Keep
    } else if current.image_path is Some {
        CacheStep::Load
    } else {
        CacheStep::Drop
    }
}

/// The picture `bottom` with `top` laid over it at (`x`, `y`).
pub open spec fn overlaid(
    bottom: media::CanvasView,
    top: media::CanvasView,
    x: int,
    y: int,
) -> media::CanvasView {
    media::CanvasView {
        width: bottom.width,
        height: bottom.height,
        pixels: Seq::new(
            bottom.pixels.len(),
            |i: int|
                {
                    let px = i / 3 % (bottom.width as int) - x;
                    let py = i / 3 / (bottom.width as int) - y;
                    if 0 <= px < top.width && 0 <= py < top.height {
                        top.pixels[3 * (py * top.width + px) + i % 3]
                    } else {
                        bottom.pixels[i]
                    }
                },
        ),
    }
}

/// `image::imageops::overlay`: the pixels of `top` replace those of `bottom`
/// where the two overlap.
#[verifier::external_body]
fn overlay(bottom: &Canvas, top: &Canvas, x: i64, y: i64) -> (res: Canvas)
    requires
        bottom@.wf(),
        top@.wf(),
    ensures
        res@ == overlaid(bottom@, top@, x as int, y as int),
{
    let below = bottom.pixels.clone();
    let mut out = image::RgbImage::from_raw(bottom.width, bottom.height, below).unwrap_or_default();
    let above = top.pixels.clone();
    let upper = image::RgbImage::from_raw(top.width, top.height, above).unwrap_or_default();
    image::imageops::overlay(&mut out, &upper, x, y);
    Canvas { width: out.width(), height: out.height(), pixels: out.into_raw() }
}

/// Lays a picture onto a display filled with one color.
pub fn place_background(scaled: &Canvas, color: [u8; 3], x: i64, y: i64) -> (res: Canvas)
    requires
        scaled@.wf(),
    ensures
        res@ == overlaid(media::plain(480, 480, color), scaled@, x as int, y as int),
        res@.wf(),
{
    let base = Canvas::from_pixel(480, 480, color);
    overlay(&base, scaled, x, y)
}

/// The pixels of a picture after a filled circle has been drawn.
pub uninterp spec fn circle_on(
    width: nat,
    height: nat,
    pixels: Seq<u8>,
    cx: int,
    cy: int,
    radius: int,
    color: Seq<u8>,
) -> Seq<u8>;

/// `imageproc::drawing::draw_filled_circle_mut`: a filled circle is drawn on a
/// picture, whose size stays the same.
#[verifier::external_body]
fn fill_circle(canvas: &Canvas, cx: i32, cy: i32, radius: i32, color: [u8; 3]) -> (res: Canvas)
    requires
        canvas@.wf(),
        canvas.width <= 65535,
        canvas.height <= 65535,
        0 <= cx <= 65535,
        0 <= cy <= 65535,
        0 <= radius <= 65535,
    ensures
        res@.width == canvas@.width,
        res@.height == canvas@.height,
        res@.wf(),
        res@.pixels == circle_on(
            canvas@.width,
            canvas@.height,
            canvas@.pixels,
            cx as int,
            cy as int,
            radius as int,
            color@,
        ),
{
    let pixels = canvas.pixels.clone();
    let mut out = image::RgbImage::from_raw(canvas.width, canvas.height, pixels).unwrap_or_default();
    imageproc::drawing::draw_filled_circle_mut(&mut out, (cx, cy), radius, image::Rgb(color));
    Canvas { width: out.width(), height: out.height(), pixels: out.into_raw() }
}

/// The layer below the readings where there is no background picture: a dark
/// display with a slightly lighter disc.
pub open spec fn plain_base() -> media::CanvasView {
    media::CanvasView {
        width: 480,
        height: 480,
        pixels: circle_on(
            480,
            480,
            media::plain(480, 480, [10, 10, 20]).pixels,
            240,
            240,
            238,
            seq![15, 15, 28],
        ),
    }
}

/// Draws pictures, and keeps the background picture ready together with the
/// settings that it was made for.
#[derive(Clone, Debug)]
pub struct Renderer {
    pub bg_cache: Option<(BackgroundConfig, Canvas)>,
}

impl Renderer {
    /// The settings of the background picture that is kept ready.
    pub open spec fn cached(self) -> Option<config::BackgroundView> {
        match self.bg_cache {
            Some(c) => Some(c.0@),
            None => None,
        }
    }

    /// The background picture that is kept ready.
    pub open spec fn background(self) -> Option<media::CanvasView> {
        match self.bg_cache {
            Some(c) => Some(c.1@),
            None => None,
        }
    }

    /// No background picture is kept ready.
    pub fn new() -> (res: Renderer)
        ensures
            res.bg_cache is None,
    {
        Renderer { bg_cache: None }
    }

    /// What is to be done with the background picture for these settings.
    pub fn background_step(&self, current: &BackgroundConfig) -> (res: CacheStep)
        ensures
            res == cache_step(self.cached(), current@),
    {
        if let Some(c) = &self.bg_cache {
            if c.0.equals(current) {
                return CacheStep::Keep;
            }
        }
        if current.image_path.is_some() {
            CacheStep::Load
        } else {
            CacheStep::Drop
        }
    }

    /// Brings the background picture up to date. `loaded` is the picture for
    /// these settings where one has to be loaded, or none if that failed.
    pub fn update_bg_cache(&mut self, current: &BackgroundConfig, loaded: Option<Canvas>)
        ensures
            match cache_step(old(self).cached(), current@) {
                CacheStep::Keep => *final(self) == *old(self),
                CacheStep::Drop => final(self).bg_cache is None,
                CacheStep::Load => match loaded {
                    Some(c) => final(self).cached() == Some(current@) && final(self).background()
                        == Some(c@),
                    None => final(self).bg_cache is None,
                },
            },
    {
        match self.background_step(current) {
            CacheStep::Keep => {},
            CacheStep::Drop => {
                self.bg_cache = None;
            },
            CacheStep::Load => {
                self.bg_cache = match loaded {
                    Some(c) => Some((current.copy(), c)),
                    None => None,
                };
            },
        }
    }

    /// The layer below the readings: the background picture as it is, or the
    /// plain base.
    pub fn base_layer(&self) -> (res: Canvas)
        ensures
            res@ == (match self.background() {
                Some(b) => b,
                None => plain_base(),
            }),
            self.bg_cache is None ==> res@.wf(),
    {
        match &self.bg_cache {
            Some(c) => copy_canvas(&c.1),
            None => {
                let color: [u8; 3] = [15, 15, 28];
                assert(color@ =~= seq![15, 15, 28]);
                let base = Canvas::from_pixel(480, 480, [10, 10, 20]);
                let res = fill_circle(&base, 240, 240, 238, color);
                assert(res@ =~= plain_base());
                res
            },
        }
    }
}

/// A background picture that was loaded is kept as long as its settings stay
/// the same.
pub proof fn law_loaded_background_is_kept(settings: config::BackgroundView)
    requires
        !settings.zoom.is_nan(),
        !settings.offset_x.is_nan(),
        !settings.offset_y.is_nan(),
        !settings.blur_sigma.is_nan(),
    ensures
        cache_step(Some(settings), settings) == CacheStep::Keep,
{
}

fn copy_canvas(c: &Canvas) -> (res: Canvas)
    ensures
        res@ == c@,
{
    let mut pixels: Vec<u8> = Vec::new();
    let mut i: usize = 0;
    while i < c.pixels.len()
        invariant
            i <= c.pixels@.len(),
            pixels@ == c.pixels@.take(i as int),
        decreases c.pixels@.len() - i,
    {
        pixels.push(c.pixels[i]);
        i = i + 1;
    }
    assert(c.pixels@.take(i as int) =~= c.pixels@);
    Canvas { width: c.width, height: c.height, pixels }
}

// ── Values ───────────────────────────────────────────────────────────────────

/// A value is written with its unit: with the whole symbol of degrees, percent and
/// watts, with the first letter of gigahertz and gigabytes, and with none
/// otherwise. Before it stands the number, with two decimals for gigahertz, with
/// none for degrees, percent and watts, and with one otherwise. No more than 999
/// watts are shown.
pub proof fn law_value_is_written_with_unit(unit: Seq<char>, value: Single)
    ensures
        ({
            let s = formatted(unit, value);
            let whole = unit == "°C"@ || unit == "%"@ || unit == "W"@;
            let large = unit == "GHz"@ || unit == "GB"@;
            let suffix = if whole {
                unit
            } else if large {
                unit.take(1)
            } else {
                seq![]
            };
            let decimals: nat = if whole {
                0
            } else if unit == "GHz"@ {
                2
            } else {
                1
            };
            &&& text::ends_with(s, suffix)
            &&& unit != "W"@ ==> s.take(s.len() - suffix.len()) == fixed::fixed(value, decimals)
            &&& unit == "W"@ && value.lt(single::whole_single(999)) ==> s.take(
                s.len() - suffix.len(),
            ) == fixed::fixed(value, 0)
            &&& unit == "W"@ && single::whole_single(999).le(value) ==> s == "999W"@
        }),
{
    reveal_strlit("°C");
    reveal_strlit("%");
    reveal_strlit("W");
    reveal_strlit("G");
    reveal_strlit("GHz");
    reveal_strlit("GB");
    reveal_strlit("");
    let s = formatted(unit, value);
    let shown = if unit == "W"@ {
        value.smaller(single::whole_single(999))
    } else {
        value
    };
    let number = fixed::fixed(shown, decimals_of(unit));
    let suffix = suffix_of(unit);
    assert(s.take(number.len() as int) =~= number);
    assert(s.skip(number.len() as int) =~= suffix);
    assert(unit == "GHz"@ ==> unit.take(1) =~= "G"@);
    assert(unit == "GB"@ ==> unit.take(1) =~= "G"@);
    assert(!(unit == "°C"@ || unit == "%"@ || unit == "W"@ || unit == "GHz"@ || unit == "GB"@)
        ==> suffix =~= seq![]);
    if unit == "W"@ && single::whole_single(999).le(value) {
        lemma_most_watts();
        assert(shown.key() == single::whole_single(999).key());
        assert(shown == single::whole_single(999));
    }
}

proof fn lemma_most_watts()
    ensures
        fixed::fixed(single::whole_single(999), 0) + "W"@ == "999W"@,
        single::whole_single(999).key() > 0,
{
    let x = single::whole_single(999);
    let u = single::exp2(149);
    crate::arith::law_whole_numbers_are_exact(999, false);
    crate::arith::lemma_whole_is_counted(999);
    single::lemma_exp2_numbers();
    single::lemma_exp2_grows(0, 149);
    assert(fixed::exp10(0) == 1);
    assert(x.magnitude() * 1 == 999 * u);
    vstd::arithmetic::div_mod::lemma_fundamental_div_mod_converse(
        (999 * u) as int,
        u as int,
        999,
        0,
    );
    assert(single::round_even(999 * u, u) == 999);
    assert(999nat / 1 == 999);
    reveal_with_fuel(text::decimal, 4);
    reveal_strlit("999W");
    reveal_strlit("W");
    assert(text::decimal(999) =~= seq!['9', '9', '9']);
    assert(fixed::fixed(x, 0) =~= seq!['9', '9', '9']);
    assert(fixed::fixed(x, 0) + "W"@ =~= "999W"@);
    assert(u > 0);
    assert(x.bits != 0) by {
        if x.bits == 0 {
            assert(x.mantissa() == 0);
            assert(x.magnitude() == 0);
        }
    }
}

} // verus!
