//! The configuration of the display.

use crate::color;
use crate::color::{from_f32, interpolate_color, to_f32, ColorPoint};
use crate::layout;
use crate::layout::{LayoutConfig, LayoutSlot};
use crate::paths;
use crate::paths::join_path;
use crate::single;
use crate::single::Single;
use crate::text;
use crate::text::{
    chars_of, join_words, same_text, split_lines, split_words, stripped, text_of, trimmed_start,
    CharSet,
};
use vstd::prelude::*;

verus! {

// ── Sensors ──────────────────────────────────────────────────────────────────

/// How one reading is shown.
#[derive(Clone, Debug)]
pub struct SensorConfig {
    pub id: String,
    pub enabled: bool,
    pub label: String,
    pub unit: String,
    pub label_color: [u8; 3],
    pub color_map: Vec<ColorPoint>,
}

/// What a `SensorConfig` holds.
#[verifier::ext_equal]
pub struct SensorView {
    pub id: Seq<char>,
    pub enabled: bool,
    pub label: Seq<char>,
    pub unit: Seq<char>,
    pub label_color: [u8; 3],
    pub color_map: Seq<ColorPoint>,
}

impl View for SensorConfig {
    type V = SensorView;

    open spec fn view(&self) -> SensorView {
        SensorView {
            id: self.id@,
            enabled: self.enabled,
            label: self.label@,
            unit: self.unit@,
            label_color: self.label_color,
            color_map: self.color_map@,
        }
    }
}

/// What a list of `SensorConfig`s holds.
pub open spec fn sensor_views(v: Seq<SensorConfig>) -> Seq<SensorView> {
    Seq::new(v.len(), |i: int| v[i]@)
}

/// A copy of a color map.
pub fn copy_color_map(map: &Vec<ColorPoint>) -> (res: Vec<ColorPoint>)
    ensures
        res@ == map@,
{
    let mut res: Vec<ColorPoint> = Vec::new();
    let mut i: usize = 0;
    while i < map.len()
        invariant
            i <= map@.len(),
            res@ == map@.take(i as int),
        decreases map@.len() - i,
    {
        res.push(map[i]);
        i = i + 1;
    }
    assert(map@.take(i as int) == map@);
    res
}

impl SensorConfig {
    /// The intensities of the label color, each from 0 to 1.
    pub fn label_color_f32(&self) -> (res: [Single; 3])
        ensures
            forall|i: int|
                0 <= i < 3 ==> #[trigger] res[i] == single::quotient_single(
                    self.label_color[i] as nat,
                    255,
                ),
    {
        to_f32(self.label_color)
    }

    /// Sets the label color to these intensities.
    pub fn set_label_from_f32(&mut self, c: [Single; 3])
        ensures
            forall|i: int| 0 <= i < 3 ==> #[trigger] final(self).label_color[i] == c[i].channel(),
            final(self)@ == (SensorView { label_color: final(self).label_color, ..old(self)@ }),
    {
        self.label_color = from_f32(c);
    }

    /// The color of a value of this sensor.
    pub fn value_color(&self, value: Single) -> (res: [u8; 3])
        ensures
            res == color::color_at(value, self.color_map@),
    {
        interpolate_color(value, self.color_map.as_slice())
    }

    /// A copy of this configuration.
    pub fn copy(&self) -> (res: SensorConfig)
        ensures
            res@ == self@,
    {
        SensorConfig {
            id: self.id.clone(),
            enabled: self.enabled,
            label: self.label.clone(),
            unit: self.unit.clone(),
            label_color: self.label_color,
            color_map: copy_color_map(&self.color_map),
        }
    }
}

// ── Background ───────────────────────────────────────────────────────────────

/// How a picture is fitted to the display.
#[derive(Clone, Copy, Debug, PartialEq, Eq, Structural)]
pub enum ImageFit {
    Cover,
    Contain,
    Stretch,
}

impl Default for ImageFit {
    fn default() -> (res: Self)
        ensures
            res == ImageFit::Cover,
    {
        ImageFit::Cover
    }
}

/// What is shown behind the readings.
#[derive(Clone, Debug)]
pub struct BackgroundConfig {
    pub image_path: Option<String>,
    pub fit: ImageFit,
    pub overlay_alpha: u8,
    pub zoom: Single,
    pub offset_x: Single,
    pub offset_y: Single,
    pub blur_sigma: Single,
    pub opacity: u8,
    pub background_color: [u8; 3],
}

/// What a `BackgroundConfig` holds.
#[verifier::ext_equal]
pub struct BackgroundView {
    pub image_path: Option<Seq<char>>,
    pub fit: ImageFit,
    pub overlay_alpha: u8,
    pub zoom: Single,
    pub offset_x: Single,
    pub offset_y: Single,
    pub blur_sigma: Single,
    pub opacity: u8,
    pub background_color: [u8; 3],
}

impl View for BackgroundConfig {
    type V = BackgroundView;

    open spec fn view(&self) -> BackgroundView {
        BackgroundView {
            image_path: text::opt_text(self.image_path),
            fit: self.fit,
            overlay_alpha: self.overlay_alpha,
            zoom: self.zoom,
            offset_x: self.offset_x,
            offset_y: self.offset_y,
            blur_sigma: self.blur_sigma,
            opacity: self.opacity,
            background_color: self.background_color,
        }
    }
}

/// The background that a new configuration has: no picture, and settings that
/// leave a picture as it is but for a light darkening.
pub open spec fn default_background() -> BackgroundView {
    BackgroundView {
        image_path: None,
        fit: ImageFit::Cover,
        overlay_alpha: 80,
        zoom: single::whole_single(1),
        offset_x: single::whole_single(0),
        offset_y: single::whole_single(0),
        blur_sigma: single::whole_single(0),
        opacity: 255,
        background_color: [0, 0, 0],
    }
}

impl Default for BackgroundConfig {
    fn default() -> (res: Self)
        ensures
            res@ == default_background(),
    {
        BackgroundConfig {
            image_path: None,
            fit: ImageFit::Cover,
            overlay_alpha: 80,
            zoom: Single::whole(1),
            offset_x: Single::whole(0),
            offset_y: Single::whole(0),
            blur_sigma: Single::whole(0),
            opacity: 255,
            background_color: [0, 0, 0],
        }
    }
}

/// A copy of an optional string.
pub fn copy_text(s: &Option<String>) -> (res: Option<String>)
    ensures
        text::opt_text(res) == text::opt_text(*s),
{
    match s {
        Some(t) => Some(t.clone()),
        None => None,
    }
}

impl BackgroundConfig {
    /// A copy of this configuration.
    pub fn copy(&self) -> (res: BackgroundConfig)
        ensures
            res@ == self@,
    {
        BackgroundConfig {
            image_path: copy_text(&self.image_path),
            fit: self.fit,
            overlay_alpha: self.overlay_alpha,
            zoom: self.zoom,
            offset_x: self.offset_x,
            offset_y: self.offset_y,
            blur_sigma: self.blur_sigma,
            opacity: self.opacity,
            background_color: self.background_color,
        }
    }

    /// Resets everything but the picture.
    pub fn reset(&mut self)
        ensures
            final(self)@ == (BackgroundView {
                image_path: old(self)@.image_path,
                ..default_background()
            }),
            final(self)@ == reset_background(old(self)@),
    {
        let image_path = copy_text(&self.image_path);
        *self = BackgroundConfig::default();
        self.image_path = image_path;
    }
}

/// A background after everything but its picture was reset.
pub open spec fn reset_background(b: BackgroundView) -> BackgroundView {
    BackgroundView { image_path: b.image_path, ..default_background() }
}

// ── Equality ─────────────────────────────────────────────────────────────────

/// Whether two backgrounds are equal. Numbers are compared by value, so nothing
/// equals what is not a number.
pub open spec fn same_background(a: BackgroundView, b: BackgroundView) -> bool {
    &&& a.image_path == b.image_path
    &&& a.fit == b.fit
    &&& a.overlay_alpha == b.overlay_alpha
    &&& a.zoom.same(b.zoom)
    &&& a.offset_x.same(b.offset_x)
    &&& a.offset_y.same(b.offset_y)
    &&& a.blur_sigma.same(b.blur_sigma)
    &&& a.opacity == b.opacity
    &&& a.background_color == b.background_color
}

/// Whether two color maps are equal.
pub open spec fn same_map(a: Seq<ColorPoint>, b: Seq<ColorPoint>) -> bool {
    &&& a.len() == b.len()
    &&& forall|i: int|
        0 <= i < a.len() ==> (#[trigger] a[i]).value.same(b[i].value) && a[i].color == b[i].color
}

/// Whether two sensors are equal.
pub open spec fn same_sensor(a: SensorView, b: SensorView) -> bool {
    &&& a.id == b.id
    &&& a.enabled == b.enabled
    &&& a.label == b.label
    &&& a.unit == b.unit
    &&& a.label_color == b.label_color
    &&& same_map(a.color_map, b.color_map)
}

/// Whether two places are equal.
pub open spec fn same_slot(a: layout::LayoutSlotView, b: layout::LayoutSlotView) -> bool {
    &&& a.sensor_id == b.sensor_id
    &&& a.value_cx_norm.same(b.value_cx_norm)
    &&& a.value_cy_norm.same(b.value_cy_norm)
    &&& a.label_cx_norm.same(b.label_cx_norm)
    &&& a.label_cy_norm.same(b.label_cy_norm)
    &&& a.value_font_size.same(b.value_font_size)
    &&& a.label_font_size.same(b.label_font_size)
}

/// Whether two arrangements are equal.
pub open spec fn same_layout(a: layout::LayoutView, b: layout::LayoutView) -> bool {
    &&& a.preset == b.preset
    &&& a.max_visible == b.max_visible
    &&& a.custom_slots.len() == b.custom_slots.len()
    &&& forall|i: int|
        0 <= i < a.custom_slots.len() ==> same_slot(#[trigger] a.custom_slots[i], b.custom_slots[i])
}

/// Whether two configurations are equal.
pub open spec fn same_config(a: ConfigView, b: ConfigView) -> bool {
    &&& a.rotation.same(b.rotation)
    &&& same_background(a.background, b.background)
    &&& same_layout(a.layout, b.layout)
    &&& a.sensors.len() == b.sensors.len()
    &&& forall|i: int| 0 <= i < a.sensors.len() ==> same_sensor(#[trigger] a.sensors[i], b.sensors[i])
}

fn same_optional(a: &Option<String>, b: &Option<String>) -> (res: bool)
    ensures
        res == (text::opt_text(*a) == text::opt_text(*b)),
{
    match (a, b) {
        (Some(x), Some(y)) => same_text(x.as_str(), y.as_str()),
        (None, None) => true,
        _ => false,
    }
}

fn same_color(a: [u8; 3], b: [u8; 3]) -> (res: bool)
    ensures
        res == (a == b),
{
    let res = a[0] == b[0] && a[1] == b[1] && a[2] == b[2];
    proof {
        if res {
            assert(a =~= b);
        }
    }
    res
}

impl BackgroundConfig {
    /// Tests two backgrounds for equality.
    pub fn equals(&self, other: &BackgroundConfig) -> (res: bool)
        ensures
            res == same_background(self@, other@),
    {
        same_optional(&self.image_path, &other.image_path) && self.fit == other.fit
            && self.overlay_alpha == other.overlay_alpha && self.zoom.equals(other.zoom)
            && self.offset_x.equals(other.offset_x) && self.offset_y.equals(other.offset_y)
            && self.blur_sigma.equals(other.blur_sigma) && self.opacity == other.opacity
            && same_color(self.background_color, other.background_color)
    }
}

fn equal_maps(a: &Vec<ColorPoint>, b: &Vec<ColorPoint>) -> (res: bool)
    ensures
        res == same_map(a@, b@),
{
    if a.len() != b.len() {
        return false;
    }
    let mut i: usize = 0;
    while i < a.len()
        invariant
            i <= a@.len(),
            a@.len() == b@.len(),
            forall|k: int|
                0 <= k < i ==> (#[trigger] a@[k]).value.same(b@[k].value) && a@[k].color == b@[k].color,
        decreases a@.len() - i,
    {
        if !a[i].value.equals(b[i].value) || !same_color(a[i].color, b[i].color) {
            assert(!(a@[i as int].value.same(b@[i as int].value) && a@[i as int].color
                == b@[i as int].color));
            return false;
        }
        i = i + 1;
    }
    true
}

fn equal_sensors(a: &SensorConfig, b: &SensorConfig) -> (res: bool)
    ensures
        res == same_sensor(a@, b@),
{
    same_text(a.id.as_str(), b.id.as_str()) && a.enabled == b.enabled && same_text(
        a.label.as_str(),
        b.label.as_str(),
    ) && same_text(a.unit.as_str(), b.unit.as_str()) && same_color(a.label_color, b.label_color)
        && equal_maps(&a.color_map, &b.color_map)
}

fn equal_slots(a: &LayoutSlot, b: &LayoutSlot) -> (res: bool)
    ensures
        res == same_slot(a@, b@),
{
    same_text(a.sensor_id.as_str(), b.sensor_id.as_str()) && a.value_cx_norm.equals(b.value_cx_norm)
        && a.value_cy_norm.equals(b.value_cy_norm) && a.label_cx_norm.equals(b.label_cx_norm)
        && a.label_cy_norm.equals(b.label_cy_norm) && a.value_font_size.equals(b.value_font_size)
        && a.label_font_size.equals(b.label_font_size)
}

fn equal_layouts(a: &LayoutConfig, b: &LayoutConfig) -> (res: bool)
    ensures
        res == same_layout(a@, b@),
{
    if a.preset != b.preset || a.max_visible != b.max_visible || a.custom_slots.len()
        != b.custom_slots.len() {
        return false;
    }
    let mut i: usize = 0;
    while i < a.custom_slots.len()
        invariant
            i <= a.custom_slots@.len(),
            a.preset == b.preset,
            a.max_visible == b.max_visible,
            a.custom_slots@.len() == b.custom_slots@.len(),
            forall|k: int|
                0 <= k < i ==> same_slot(#[trigger] a@.custom_slots[k], b@.custom_slots[k]),
        decreases a.custom_slots@.len() - i,
    {
        if !equal_slots(&a.custom_slots[i], &b.custom_slots[i]) {
            assert(!same_slot(a@.custom_slots[i as int], b@.custom_slots[i as int]));
            return false;
        }
        i = i + 1;
    }
    true
}

// ── Default color maps ───────────────────────────────────────────────────────

/// Three anchors from a calm color over amber to red.
pub open spec fn three_points(a: Single, calm: [u8; 3], b: Single, c: Single) -> Seq<ColorPoint> {
    seq![
        ColorPoint { value: a, color: calm },
        ColorPoint { value: b, color: [255, 200, 0] },
        ColorPoint { value: c, color: [255, 55, 55] },
    ]
}

/// Colors of a temperature that is warm and hot at these degrees.
pub open spec fn temp_map(warm: nat, hot: nat) -> Seq<ColorPoint> {
    three_points(
        single::whole_single((warm - 20) as nat),
        [80, 220, 80],
        single::whole_single(warm),
        single::whole_single(hot),
    )
}

/// Colors of a percentage.
pub open spec fn pct_map() -> Seq<ColorPoint> {
    three_points(
        single::whole_single(20),
        [80, 220, 80],
        single::whole_single(60),
        single::whole_single(90),
    )
}

/// Colors of a power draw that is medium and high at these watts. It is low at
/// two fifths of the medium value.
pub open spec fn power_map(mid: nat, high: nat) -> Seq<ColorPoint> {
    three_points(
        single::whole_single(mid * 2 / 5),
        [80, 220, 80],
        single::whole_single(mid),
        single::whole_single(high),
    )
}

/// Colors of the coolant temperature.
pub open spec fn coolant_map() -> Seq<ColorPoint> {
    three_points(
        single::whole_single(25),
        [80, 200, 255],
        single::whole_single(35),
        single::whole_single(45),
    )
}

/// Colors of the processor frequency.
pub open spec fn freq_map() -> Seq<ColorPoint> {
    seq![
        ColorPoint { value: single::whole_single(2), color: [80, 160, 255] },
        ColorPoint { value: single::whole_single(4), color: [200, 200, 220] },
        ColorPoint { value: single::quotient_single(11, 2), color: [255, 220, 80] },
    ]
}

fn make_three_points(a: u32, calm: [u8; 3], b: u32, c: u32) -> (res: Vec<ColorPoint>)
    requires
        a < 16777216,
        b < 16777216,
        c < 16777216,
    ensures
        res@ == three_points(
            single::whole_single(a as nat),
            calm,
            single::whole_single(b as nat),
            single::whole_single(c as nat),
        ),
{
    let mut res: Vec<ColorPoint> = Vec::new();
    res.push(ColorPoint { value: Single::whole(a), color: calm });
    res.push(ColorPoint { value: Single::whole(b), color: [255, 200, 0] });
    res.push(ColorPoint { value: Single::whole(c), color: [255, 55, 55] });
    res
}

fn make_temp_map(warm: u32, hot: u32) -> (res: Vec<ColorPoint>)
    requires
        20 <= warm < 16777216,
        hot < 16777216,
    ensures
        res@ == temp_map(warm as nat, hot as nat),
{
    make_three_points(warm - 20, [80, 220, 80], warm, hot)
}

fn make_pct_map() -> (res: Vec<ColorPoint>)
    ensures
        res@ == pct_map(),
{
    make_three_points(20, [80, 220, 80], 60, 90)
}

fn make_power_map(mid: u32, high: u32) -> (res: Vec<ColorPoint>)
    requires
        mid < 16777216,
        high < 16777216,
    ensures
        res@ == power_map(mid as nat, high as nat),
{
    make_three_points(mid * 2 / 5, [80, 220, 80], mid, high)
}

fn make_coolant_map() -> (res: Vec<ColorPoint>)
    ensures
        res@ == coolant_map(),
{
    make_three_points(25, [80, 200, 255], 35, 45)
}

fn make_freq_map() -> (res: Vec<ColorPoint>)
    ensures
        res@ == freq_map(),
{
    let mut res: Vec<ColorPoint> = Vec::new();
    res.push(ColorPoint { value: Single::whole(2), color: [80, 160, 255] });
    res.push(ColorPoint { value: Single::whole(4), color: [200, 200, 220] });
    res.push(ColorPoint { value: Single::quotient(11, 2), color: [255, 220, 80] });
    res
}

// ── Default sensors ──────────────────────────────────────────────────────────

/// A sensor with the usual label color.
pub open spec fn sensor(
    id: Seq<char>,
    label: Seq<char>,
    unit: Seq<char>,
    enabled: bool,
    map: Seq<ColorPoint>,
) -> SensorView {
    SensorView { id, enabled, label, unit, label_color: [150, 150, 185], color_map: map }
}

/// All sensors. The first six are enabled.
pub open spec fn default_sensors(cpu_label: Seq<char>) -> Seq<SensorView> {
    seq![
        sensor("cpu_temp"@, cpu_label, "°C"@, true, temp_map(65, 85)),
        sensor("coolant"@, "COOLANT"@, "°C"@, true, coolant_map()),
        sensor("cpu_freq"@, "CPU FREQ"@, "GHz"@, true, freq_map()),
        sensor("cpu_util"@, "CPU UTIL"@, "%"@, true, pct_map()),
        sensor("cpu_power"@, "CPU PWR"@, "W"@, true, power_map(90, 150)),
        sensor("gpu_temp"@, "GPU TEMP"@, "°C"@, true, temp_map(70, 90)),
        sensor("gpu_util"@, "GPU UTIL"@, "%"@, false, pct_map()),
        sensor("gpu_power"@, "GPU PWR"@, "W"@, false, power_map(100, 200)),
        sensor("gpu_vram_pct"@, "VRAM"@, "%"@, false, pct_map()),
        sensor("gpu_hotspot_temp"@, "GPU HOT"@, "°C"@, false, temp_map(80, 100)),
        sensor("igpu_temp"@, "iGPU TEMP"@, "°C"@, false, temp_map(60, 80)),
        sensor("igpu_util"@, "iGPU UTIL"@, "%"@, false, pct_map()),
        sensor("igpu_power"@, "iGPU PWR"@, "W"@, false, power_map(15, 35)),
        sensor("igpu_vram_pct"@, "iVRAM"@, "%"@, false, pct_map()),
        sensor("ram_used_pct"@, "RAM"@, "%"@, false, pct_map()),
        sensor("nvme0_temp"@, "NVMe 0"@, "°C"@, false, temp_map(50, 65)),
        sensor("nvme1_temp"@, "NVMe 1"@, "°C"@, false, temp_map(50, 65)),
        sensor("nvme2_temp"@, "NVMe 2"@, "°C"@, false, temp_map(50, 65)),
        sensor("dimm0_temp"@, "DIMM 0"@, "°C"@, false, temp_map(40, 55)),
        sensor("dimm1_temp"@, "DIMM 1"@, "°C"@, false, temp_map(40, 55)),
    ]
}

fn push_sensor(
    out: &mut Vec<SensorConfig>,
    id: &str,
    label: &str,
    unit: &str,
    enabled: bool,
    map: Vec<ColorPoint>,
)
    ensures
        sensor_views(final(out)@) == sensor_views(old(out)@).push(
            sensor(id@, label@, unit@, enabled, map@),
        ),
{
    out.push(
        SensorConfig {
            id: id.to_string(),
            enabled,
            label: label.to_string(),
            unit: unit.to_string(),
            label_color: [150, 150, 185],
            color_map: map,
        },
    );
    assert(out@.last()@ == sensor(id@, label@, unit@, enabled, map@));
    assert(sensor_views(out@) =~= sensor_views(old(out)@).push(
        sensor(id@, label@, unit@, enabled, map@),
    ));
}

fn make_default_sensors(cpu_label: &str) -> (res: Vec<SensorConfig>)
    ensures
        sensor_views(res@) == default_sensors(cpu_label@),
{
    let mut res: Vec<SensorConfig> = Vec::new();
    assert(sensor_views(res@) =~= Seq::empty());
    push_sensor(&mut res, "cpu_temp", cpu_label, "°C", true, make_temp_map(65, 85));
    push_sensor(&mut res, "coolant", "COOLANT", "°C", true, make_coolant_map());
    push_sensor(&mut res, "cpu_freq", "CPU FREQ", "GHz", true, make_freq_map());
    push_sensor(&mut res, "cpu_util", "CPU UTIL", "%", true, make_pct_map());
    push_sensor(&mut res, "cpu_power", "CPU PWR", "W", true, make_power_map(90, 150));
    push_sensor(&mut res, "gpu_temp", "GPU TEMP", "°C", true, make_temp_map(70, 90));
    push_sensor(&mut res, "gpu_util", "GPU UTIL", "%", false, make_pct_map());
    push_sensor(&mut res, "gpu_power", "GPU PWR", "W", false, make_power_map(100, 200));
    push_sensor(&mut res, "gpu_vram_pct", "VRAM", "%", false, make_pct_map());
    push_sensor(&mut res, "gpu_hotspot_temp", "GPU HOT", "°C", false, make_temp_map(80, 100));
    push_sensor(&mut res, "igpu_temp", "iGPU TEMP", "°C", false, make_temp_map(60, 80));
    push_sensor(&mut res, "igpu_util", "iGPU UTIL", "%", false, make_pct_map());
    push_sensor(&mut res, "igpu_power", "iGPU PWR", "W", false, make_power_map(15, 35));
    push_sensor(&mut res, "igpu_vram_pct", "iVRAM", "%", false, make_pct_map());
    push_sensor(&mut res, "ram_used_pct", "RAM", "%", false, make_pct_map());
    push_sensor(&mut res, "nvme0_temp", "NVMe 0", "°C", false, make_temp_map(50, 65));
    push_sensor(&mut res, "nvme1_temp", "NVMe 1", "°C", false, make_temp_map(50, 65));
    push_sensor(&mut res, "nvme2_temp", "NVMe 2", "°C", false, make_temp_map(50, 65));
    push_sensor(&mut res, "dimm0_temp", "DIMM 0", "°C", false, make_temp_map(40, 55));
    push_sensor(&mut res, "dimm1_temp", "DIMM 1", "°C", false, make_temp_map(40, 55));
    res
}

// ── Processor label ──────────────────────────────────────────────────────────

/// Whether a word begins the name of a processor family.
pub open spec fn is_anchor(w: Seq<char>) -> bool {
    w == "Ryzen"@ || w == "Core"@ || w == "EPYC"@ || w == "Threadripper"@ || w == "Xeon"@ || w
        == "Athlon"@ || w == "Celeron"@
}

/// The position of the first family word, or the number of words.
pub open spec fn anchor_position(words: Seq<Seq<char>>) -> int
    decreases words.len(),
{
    if words.len() == 0 || is_anchor(words[0]) {
        0
    } else {
        1 + anchor_position(words.skip(1))
    }
}

/// A short name for a processor: up to four words from the family word on, or
/// else the last three words.
pub open spec fn short_name(words: Seq<Seq<char>>) -> Seq<char> {
    let at = anchor_position(words);
    let len = words.len() as int;
    if at < len {
        text::join(
            words.subrange(
                at,
                if at + 4 <= len {
                    at + 4
                } else {
                    len
                },
            ),
            seq![' '],
        )
    } else if len >= 3 {
        text::join(words.subrange(len - 3, len), seq![' '])
    } else {
        text::join(words, seq![' '])
    }
}

/// The label made from the first line that gives a model name.
pub open spec fn label_of_lines(lines: Seq<Seq<char>>) -> Seq<char>
    decreases lines.len(),
{
    if lines.len() == 0 {
        "CPU"@
    } else {
        match text::strip(lines[0], "model name"@) {
            Some(rest) => short_name(text::words(text::trim_start(rest, CharSet::Lead))),
            None => label_of_lines(lines.skip(1)),
        }
    }
}

/// The processor label for the contents of `/proc/cpuinfo`.
pub open spec fn cpu_label(cpuinfo: Option<Seq<char>>) -> Seq<char> {
    match cpuinfo {
        Some(s) => label_of_lines(text::lines(s)),
        None => "CPU"@,
    }
}

fn anchor_test(w: &[char]) -> (res: bool)
    ensures
        res == is_anchor(w@),
{
    let word = text_of(w);
    let s = word.as_str();
    same_text(s, "Ryzen") || same_text(s, "Core") || same_text(s, "EPYC") || same_text(
        s,
        "Threadripper",
    ) || same_text(s, "Xeon") || same_text(s, "Athlon") || same_text(s, "Celeron")
}

fn find_anchor(words: &Vec<Vec<char>>) -> (res: usize)
    ensures
        res == anchor_position(text::seqs(words@)),
        res <= words@.len(),
{
    let ghost all = text::seqs(words@);
    let mut i: usize = 0;
    assert(all.skip(0) =~= all);
    while i < words.len()
        invariant
            i <= words@.len(),
            all == text::seqs(words@),
            anchor_position(all) == i + anchor_position(all.skip(i as int)),
        decreases words@.len() - i,
    {
        assert(all.skip(i as int)[0] == words@[i as int]@);
        if anchor_test(words[i].as_slice()) {
            return i;
        }
        assert(all.skip(i as int).skip(1) =~= all.skip(i + 1));
        i = i + 1;
    }
    i
}

fn short_name_of(words: &Vec<Vec<char>>) -> (res: Vec<char>)
    ensures
        res@ == short_name(text::seqs(words@)),
{
    let ghost all = text::seqs(words@);
    let len = words.len();
    let at = find_anchor(words);
    if at < len {
        let to: usize = if len - at >= 4 {
            at + 4
        } else {
            len
        };
        join_words(words.as_slice(), at, to)
    } else if len >= 3 {
        join_words(words.as_slice(), len - 3, len)
    } else {
        assert(all.subrange(0, len as int) =~= all);
        join_words(words.as_slice(), 0, len)
    }
}

/// The processor label for the contents of `/proc/cpuinfo`.
pub fn default_cpu_label(cpuinfo: Option<&str>) -> (res: String)
    ensures
        res@ == cpu_label(text::opt_str(cpuinfo)),
{
    let content = match cpuinfo {
        Some(s) => s,
        None => {
            return "CPU".to_string();
        },
    };
    let ghost label = cpu_label(Some(content@));
    let chars = chars_of(content);
    let lines = split_lines(chars.as_slice());
    let ghost all = text::seqs(lines@);
    let mut i: usize = 0;
    assert(all.skip(0) =~= all);
    while i < lines.len()
        invariant
            i <= lines@.len(),
            all == text::seqs(lines@),
            label == cpu_label(text::opt_str(cpuinfo)),
            label == label_of_lines(all.skip(i as int)),
        decreases lines@.len() - i,
    {
        assert(all.skip(i as int)[0] == lines@[i as int]@);
        if let Some(rest) = stripped(lines[i].as_slice(), "model name") {
            let name = trimmed_start(rest.as_slice(), CharSet::Lead);
            let words = split_words(name.as_slice());
            let label = short_name_of(&words);
            return text_of(label.as_slice());
        }
        assert(all.skip(i as int).skip(1) =~= all.skip(i + 1));
        i = i + 1;
    }
    "CPU".to_string()
}

// ── Config ───────────────────────────────────────────────────────────────────

/// The configuration of the display.
#[derive(Clone, Debug)]
pub struct Config {
    pub rotation: Single,
    pub background: BackgroundConfig,
    pub layout: LayoutConfig,
    pub sensors: Vec<SensorConfig>,
}

/// What a `Config` holds.
#[verifier::ext_equal]
pub struct ConfigView {
    pub rotation: Single,
    pub background: BackgroundView,
    pub layout: layout::LayoutView,
    pub sensors: Seq<SensorView>,
}

impl View for Config {
    type V = ConfigView;

    open spec fn view(&self) -> ConfigView {
        ConfigView {
            rotation: self.rotation,
            background: self.background@,
            layout: self.layout@,
            sensors: sensor_views(self.sensors@),
        }
    }
}

/// The configuration that a new installation has.
pub open spec fn default_config(cpu_label: Seq<char>) -> ConfigView {
    ConfigView {
        rotation: single::whole_single(180),
        background: default_background(),
        layout: layout::default_layout(),
        sensors: default_sensors(cpu_label),
    }
}

/// The position of the first sensor with this id, or the number of sensors.
pub open spec fn sensor_position(sensors: Seq<SensorView>, id: Seq<char>) -> int
    decreases sensors.len(),
{
    if sensors.len() == 0 || sensors[0].id == id {
        0
    } else {
        1 + sensor_position(sensors.skip(1), id)
    }
}

/// Whether there is a sensor with this id.
pub open spec fn has_sensor(sensors: Seq<SensorView>, id: Seq<char>) -> bool {
    sensor_position(sensors, id) < sensors.len()
}

/// `sensors`, with each of the first `n` defaults appended whose id is missing.
pub open spec fn migrated(sensors: Seq<SensorView>, defaults: Seq<SensorView>, n: int) -> Seq<
    SensorView,
>
    decreases n,
{
    if n <= 0 {
        sensors
    } else {
        let before = migrated(sensors, defaults, n - 1);
        if has_sensor(before, defaults[n - 1].id) {
            before
        } else {
            before.push(defaults[n - 1])
        }
    }
}

/// The ids of the enabled sensors.
pub open spec fn enabled_ids(sensors: Seq<SensorView>) -> Seq<Seq<char>>
    decreases sensors.len(),
{
    if sensors.len() == 0 {
        seq![]
    } else if sensors.last().enabled {
        enabled_ids(sensors.drop_last()).push(sensors.last().id)
    } else {
        enabled_ids(sensors.drop_last())
    }
}

impl ConfigView {
    /// The ids of the enabled sensors that are shown.
    pub open spec fn shown_ids(self) -> Seq<Seq<char>> {
        self.layout.shown(enabled_ids(self.sensors))
    }
}

pub proof fn lemma_sensor_position(sensors: Seq<SensorView>, id: Seq<char>)
    ensures
        0 <= sensor_position(sensors, id) <= sensors.len(),
        sensor_position(sensors, id) < sensors.len() ==> sensors[sensor_position(sensors, id)].id
            == id,
        forall|i: int| 0 <= i < sensor_position(sensors, id) ==> (#[trigger] sensors[i]).id != id,
    decreases sensors.len(),
{
    if sensors.len() > 0 && sensors[0].id != id {
        lemma_sensor_position(sensors.skip(1), id);
        assert forall|i: int| 0 <= i < sensor_position(sensors, id) implies (
        #[trigger] sensors[i]).id != id by {
            if i > 0 {
                assert(sensors.skip(1)[i - 1] == sensors[i]);
            }
        }
    }
}

fn find_sensor(sensors: &Vec<SensorConfig>, id: &str) -> (res: usize)
    ensures
        res == sensor_position(sensor_views(sensors@), id@),
        res <= sensors@.len(),
{
    let ghost all = sensor_views(sensors@);
    let mut i: usize = 0;
    assert(all.skip(0) =~= all);
    while i < sensors.len()
        invariant
            i <= sensors@.len(),
            all == sensor_views(sensors@),
            sensor_position(all, id@) == i + sensor_position(all.skip(i as int), id@),
        decreases sensors@.len() - i,
    {
        assert(all.skip(i as int)[0] == sensors@[i as int]@);
        if same_text(sensors[i].id.as_str(), id) {
            return i;
        }
        assert(all.skip(i as int).skip(1) =~= all.skip(i + 1));
        i = i + 1;
    }
    i
}

impl Config {
    /// The configuration of a new installation on a machine with this
    /// processor label.
    pub fn with_cpu_label(cpu_label: &str) -> (res: Config)
        ensures
            res@ == default_config(cpu_label@),
    {
        Config {
            rotation: Single::whole(180),
            background: BackgroundConfig::default(),
            layout: LayoutConfig::default(),
            sensors: make_default_sensors(cpu_label),
        }
    }

    /// Appends the default sensors that are missing. Returns whether any was.
    pub fn migrate_sensors(&mut self, cpu_label: &str) -> (res: bool)
        ensures
            final(self)@ == (ConfigView {
                sensors: migrated(
                    old(self)@.sensors,
                    default_sensors(cpu_label@),
                    default_sensors(cpu_label@).len() as int,
                ),
                ..old(self)@
            }),
            res == (final(self)@.sensors.len() > old(self)@.sensors.len()),
    {
        let defaults = make_default_sensors(cpu_label);
        let ghost defs = default_sensors(cpu_label@);
        let ghost start = self@;
        let mut added = false;
        let mut i: usize = 0;
        while i < defaults.len()
            invariant
                i <= defaults@.len(),
                defs == sensor_views(defaults@),
                self@.rotation == start.rotation,
                self@.background == start.background,
                self@.layout == start.layout,
                self@.sensors == migrated(start.sensors, defs, i as int),
                self@.sensors.len() >= start.sensors.len(),
                added == (self@.sensors.len() > start.sensors.len()),
            decreases defaults@.len() - i,
        {
            let def = &defaults[i];
            let at = find_sensor(&self.sensors, def.id.as_str());
            assert(defs[i as int] == def@);
            if at == self.sensors.len() {
                let ghost before = self.sensors@;
                self.sensors.push(def.copy());
                assert(self.sensors@.last()@ == def@);
                assert(sensor_views(self.sensors@) =~= sensor_views(before).push(def@));
                added = true;
            }
            i = i + 1;
        }
        added
    }

    /// The ids of the enabled sensors in order, at most `layout.max_visible`.
    pub fn enabled_sensor_ids(&self) -> (res: Vec<String>)
        ensures
            text::texts(res@) == self@.shown_ids(),
    {
        let ghost all = sensor_views(self.sensors@);
        let max = self.layout.max_visible;
        let mut res: Vec<String> = Vec::new();
        let mut i: usize = 0;
        assert(text::texts(res@) =~= enabled_ids(all.take(0)));
        while i < self.sensors.len() && res.len() < max
            invariant
                i <= self.sensors@.len(),
                all == sensor_views(self.sensors@),
                res@.len() <= max,
                text::texts(res@) == enabled_ids(all.take(i as int)),
            decreases self.sensors@.len() - i,
        {
            assert(all.take(i + 1).drop_last() =~= all.take(i as int));
            assert(all.take(i + 1).last() == self.sensors@[i as int]@);
            if self.sensors[i].enabled {
                let ghost before = res@;
                res.push(self.sensors[i].id.clone());
                assert(text::texts(res@) =~= text::texts(before).push(all[i as int].id));
            }
            i = i + 1;
        }
        proof {
            lemma_enabled_prefix(all, i as int);
            if i == all.len() {
                assert(all.take(i as int) =~= all);
            }
            assert(text::texts(res@) =~= self@.shown_ids());
        }
        res
    }

    /// The first sensor with this id.
    pub fn sensor_by_id(&self, id: &str) -> (res: Option<&SensorConfig>)
        ensures
            res is Some == has_sensor(self@.sensors, id@),
            res matches Some(s) ==> s@ == self@.sensors[sensor_position(self@.sensors, id@)],
    {
        let at = find_sensor(&self.sensors, id);
        if at < self.sensors.len() {
            proof {
                lemma_sensor_position(self@.sensors, id@);
            }
            Some(&self.sensors[at])
        } else {
            None
        }
    }

    /// The position of the first sensor with this id, or the number of sensors.
    pub fn find(&self, id: &str) -> (res: usize)
        ensures
            res == sensor_position(self@.sensors, id@),
            res <= self.sensors@.len(),
    {
        find_sensor(&self.sensors, id)
    }

    /// The number of enabled sensors.
    pub fn enabled_count(&self) -> (res: usize)
        ensures
            res == enabled_ids(self@.sensors).len(),
    {
        let ghost all = sensor_views(self.sensors@);
        let mut n: usize = 0;
        let mut i: usize = 0;
        while i < self.sensors.len()
            invariant
                i <= self.sensors@.len(),
                n <= i,
                all == sensor_views(self.sensors@),
                n == enabled_ids(all.take(i as int)).len(),
            decreases self.sensors@.len() - i,
        {
            assert(all.take(i + 1).drop_last() =~= all.take(i as int));
            assert(all.take(i + 1).last() == self.sensors@[i as int]@);
            if self.sensors[i].enabled {
                n = n + 1;
            }
            i = i + 1;
        }
        assert(all.take(i as int) =~= all);
        n
    }

    /// Moves a sensor one place up or down. The first cannot move up nor the
    /// last down.
    pub fn move_sensor(&mut self, index: usize, up: bool)
        requires
            index < old(self)@.sensors.len(),
        ensures
            final(self)@ == (ConfigView {
                sensors: moved(old(self)@.sensors, index as int, up),
                ..old(self)@
            }),
    {
        let ghost before = self.sensors@;
        if up && index > 0 {
            swap_sensors(&mut self.sensors, index - 1, index);
        } else if !up && index < self.sensors.len() - 1 {
            swap_sensors(&mut self.sensors, index, index + 1);
        }
        assert(sensor_views(self.sensors@) =~= moved(sensor_views(before), index as int, up));
    }

    /// The default of a sensor: the default sensor with its id, or the sensor
    /// itself if there is none.
    pub fn default_of(entry: &SensorConfig, cpu_label: &str) -> (res: SensorConfig)
        ensures
            res@ == ({
                let defs = default_sensors(cpu_label@);
                if has_sensor(defs, entry@.id) {
                    defs[sensor_position(defs, entry@.id)]
                } else {
                    entry@
                }
            }),
            res@ == default_entry(entry@, cpu_label@),
    {
        let defaults = Config::with_cpu_label(cpu_label);
        match defaults.sensor_by_id(entry.id.as_str()) {
            Some(s) => s.copy(),
            None => entry.copy(),
        }
    }

    /// A copy of this configuration.
    pub fn copy(&self) -> (res: Config)
        ensures
            res@ == self@,
    {
        let mut slots: Vec<LayoutSlot> = Vec::new();
        let mut i: usize = 0;
        while i < self.layout.custom_slots.len()
            invariant
                i <= self.layout.custom_slots@.len(),
                slots@.len() == i,
                forall|k: int|
                    0 <= k < i ==> (#[trigger] slots@[k])@ == self.layout.custom_slots@[k]@,
            decreases self.layout.custom_slots@.len() - i,
        {
            slots.push(self.layout.custom_slots[i].copy());
            i = i + 1;
        }
        let mut sensors: Vec<SensorConfig> = Vec::new();
        let mut j: usize = 0;
        while j < self.sensors.len()
            invariant
                j <= self.sensors@.len(),
                sensors@.len() == j,
                forall|k: int| 0 <= k < j ==> (#[trigger] sensors@[k])@ == self.sensors@[k]@,
            decreases self.sensors@.len() - j,
        {
            sensors.push(self.sensors[j].copy());
            j = j + 1;
        }
        let res = Config {
            rotation: self.rotation,
            background: self.background.copy(),
            layout: LayoutConfig {
                preset: self.layout.preset,
                max_visible: self.layout.max_visible,
                custom_slots: slots,
            },
            sensors,
        };
        assert(res@.layout.custom_slots =~= self@.layout.custom_slots);
        assert(res@.sensors =~= self@.sensors);
        res
    }

    /// Tests two configurations for equality.
    pub fn equals(&self, other: &Config) -> (res: bool)
        ensures
            res == same_config(self@, other@),
    {
        if !self.rotation.equals(other.rotation) || !self.background.equals(&other.background)
            || !equal_layouts(&self.layout, &other.layout) || self.sensors.len()
            != other.sensors.len() {
            return false;
        }
        let mut i: usize = 0;
        while i < self.sensors.len()
            invariant
                i <= self.sensors@.len(),
                self@.rotation.same(other@.rotation),
                same_background(self@.background, other@.background),
                same_layout(self@.layout, other@.layout),
                self.sensors@.len() == other.sensors@.len(),
                forall|k: int|
                    0 <= k < i ==> same_sensor(#[trigger] self@.sensors[k], other@.sensors[k]),
            decreases self.sensors@.len() - i,
        {
            if !equal_sensors(&self.sensors[i], &other.sensors[i]) {
                assert(!same_sensor(self@.sensors[i as int], other@.sensors[i as int]));
                return false;
            }
            i = i + 1;
        }
        true
    }
}

/// The default of a sensor, or the sensor itself if there is none with its id.
pub open spec fn default_entry(entry: SensorView, cpu_label: Seq<char>) -> SensorView {
    let defs = default_sensors(cpu_label);
    if has_sensor(defs, entry.id) {
        defs[sensor_position(defs, entry.id)]
    } else {
        entry
    }
}

/// `sensors` after one of them has moved.
pub open spec fn moved(sensors: Seq<SensorView>, index: int, up: bool) -> Seq<SensorView> {
    if up && index > 0 {
        sensors.update(index - 1, sensors[index]).update(index, sensors[index - 1])
    } else if !up && index + 1 < sensors.len() {
        sensors.update(index, sensors[index + 1]).update(index + 1, sensors[index])
    } else {
        sensors
    }
}

fn swap_sensors(sensors: &mut Vec<SensorConfig>, a: usize, b: usize)
    requires
        a < b < old(sensors)@.len(),
    ensures
        sensor_views(final(sensors)@) == sensor_views(old(sensors)@).update(
            a as int,
            old(sensors)@[b as int]@,
        ).update(b as int, old(sensors)@[a as int]@),
{
    let ghost before = sensors@;
    let x = sensors[a].copy();
    let y = sensors[b].copy();
    sensors.set(a, y);
    sensors.set(b, x);
    assert(sensor_views(sensors@) =~= sensor_views(before).update(
        a as int,
        before[b as int]@,
    ).update(b as int, before[a as int]@));
}

/// Where the configuration is stored, in the user's configuration directory if
/// it is known.
pub open spec fn config_path(config_dir: Option<Seq<char>>) -> Seq<char> {
    let base = match config_dir {
        Some(d) => d,
        None => "."@,
    };
    paths::join(paths::join(base, "th420-display"@), "config.toml"@)
}

/// Where the configuration is stored.
pub fn default_config_path(config_dir: Option<&str>) -> (res: String)
    ensures
        res@ == config_path(text::opt_str(config_dir)),
{
    let base = match config_dir {
        Some(d) => d,
        None => ".",
    };
    let dir = join_path(base, "th420-display");
    join_path(dir.as_str(), "config.toml")
}

// ── Laws ─────────────────────────────────────────────────────────────────────

proof fn lemma_enabled_len(sensors: Seq<SensorView>, i: int)
    requires
        0 <= i <= sensors.len(),
    ensures
        enabled_ids(sensors.take(i)).len() <= enabled_ids(sensors).len(),
        enabled_ids(sensors).take(enabled_ids(sensors.take(i)).len() as int) == enabled_ids(
            sensors.take(i),
        ),
    decreases sensors.len() - i,
{
    if i == sensors.len() {
        assert(sensors.take(i) =~= sensors);
        assert(enabled_ids(sensors).take(enabled_ids(sensors).len() as int) =~= enabled_ids(sensors));
    } else {
        lemma_enabled_len(sensors, i + 1);
        let a = enabled_ids(sensors.take(i));
        let b = enabled_ids(sensors.take(i + 1));
        assert(sensors.take(i + 1).drop_last() =~= sensors.take(i));
        assert(b.take(a.len() as int) =~= a);
        assert(enabled_ids(sensors).take(a.len() as int) =~= b.take(a.len() as int));
    }
}

/// The enabled ids of a prefix are a prefix of the enabled ids.
proof fn lemma_enabled_prefix(sensors: Seq<SensorView>, i: int)
    requires
        0 <= i <= sensors.len(),
    ensures
        ({
            let part = enabled_ids(sensors.take(i));
            part.len() <= enabled_ids(sensors).len() && part == enabled_ids(sensors).take(
                part.len() as int,
            )
        }),
{
    lemma_enabled_len(sensors, i);
}

/// At most `max_visible` ids are shown, and each is the id of an enabled sensor.
pub proof fn law_shown_ids_are_enabled(config: ConfigView, k: int)
    requires
        config.layout.max_visible >= 0,
        0 <= k < config.shown_ids().len(),
    ensures
        config.shown_ids().len() <= config.layout.max_visible,
        exists|i: int|
            0 <= i < config.sensors.len() && (#[trigger] config.sensors[i]).enabled
                && config.sensors[i].id == config.shown_ids()[k],
{
    lemma_enabled_origin(config.sensors, k);
    let i = choose|i: int|
        0 <= i < config.sensors.len() && (#[trigger] config.sensors[i]).enabled
            && config.sensors[i].id == enabled_ids(config.sensors)[k];
    assert(config.sensors[i].enabled);
}

proof fn lemma_enabled_origin(sensors: Seq<SensorView>, k: int)
    requires
        0 <= k < enabled_ids(sensors).len(),
    ensures
        exists|i: int|
            0 <= i < sensors.len() && (#[trigger] sensors[i]).enabled && sensors[i].id
                == enabled_ids(sensors)[k],
    decreases sensors.len(),
{
    if sensors.len() > 0 {
        let rest = sensors.drop_last();
        if k < enabled_ids(rest).len() {
            lemma_enabled_origin(rest, k);
            let i = choose|i: int|
                0 <= i < rest.len() && (#[trigger] rest[i]).enabled && rest[i].id == enabled_ids(rest)[k];
            assert(sensors[i] == rest[i]);
        } else {
            assert(sensors[sensors.len() - 1].enabled);
        }
    }
}

proof fn lemma_has_sensor(sensors: Seq<SensorView>, id: Seq<char>, at: int)
    requires
        0 <= at < sensors.len(),
        sensors[at].id == id,
    ensures
        has_sensor(sensors, id),
{
    lemma_sensor_position(sensors, id);
}

proof fn lemma_has_sensor_in_longer(a: Seq<SensorView>, b: Seq<SensorView>, id: Seq<char>)
    requires
        a.len() <= b.len(),
        b.take(a.len() as int) == a,
        has_sensor(a, id),
    ensures
        has_sensor(b, id),
{
    lemma_sensor_position(a, id);
    let p = sensor_position(a, id);
    assert(b[p] == a[p]);
    lemma_has_sensor(b, id, p);
}

/// Migration keeps every sensor that is there, as it is and in its place.
pub proof fn law_migration_preserves(
    sensors: Seq<SensorView>,
    defaults: Seq<SensorView>,
    n: int,
)
    requires
        0 <= n <= defaults.len(),
    ensures
        sensors.len() <= migrated(sensors, defaults, n).len(),
        migrated(sensors, defaults, n).take(sensors.len() as int) == sensors,
    decreases n,
{
    if n > 0 {
        law_migration_preserves(sensors, defaults, n - 1);
        let before = migrated(sensors, defaults, n - 1);
        let after = migrated(sensors, defaults, n);
        assert(after.take(sensors.len() as int) =~= before.take(sensors.len() as int));
    } else {
        assert(sensors.take(sensors.len() as int) =~= sensors);
    }
}

/// After migration every default sensor is there.
pub proof fn law_migration_completes(
    sensors: Seq<SensorView>,
    defaults: Seq<SensorView>,
    n: int,
    i: int,
)
    requires
        0 <= i < n <= defaults.len(),
    ensures
        has_sensor(migrated(sensors, defaults, n), defaults[i].id),
    decreases n,
{
    let before = migrated(sensors, defaults, n - 1);
    let after = migrated(sensors, defaults, n);
    if i == n - 1 {
        if !has_sensor(before, defaults[i].id) {
            lemma_has_sensor(after, defaults[i].id, before.len() as int);
        }
    } else {
        law_migration_completes(sensors, defaults, n - 1, i);
        assert(after.take(before.len() as int) =~= before);
        lemma_has_sensor_in_longer(before, after, defaults[i].id);
    }
}

/// A configuration that has every default sensor is not changed by migration.
pub proof fn law_migration_of_complete_config(
    sensors: Seq<SensorView>,
    defaults: Seq<SensorView>,
    n: int,
)
    requires
        0 <= n <= defaults.len(),
        forall|i: int| 0 <= i < n ==> has_sensor(sensors, (#[trigger] defaults[i]).id),
    ensures
        migrated(sensors, defaults, n) == sensors,
    decreases n,
{
    if n > 0 {
        law_migration_of_complete_config(sensors, defaults, n - 1);
        assert(has_sensor(sensors, defaults[n - 1].id));
    }
}

/// Migrating twice is the same as migrating once.
pub proof fn law_migration_twice(sensors: Seq<SensorView>, defaults: Seq<SensorView>)
    ensures
        ({
            let n = defaults.len() as int;
            let once = migrated(sensors, defaults, n);
            migrated(once, defaults, n) == once
        }),
{
    let n = defaults.len() as int;
    let once = migrated(sensors, defaults, n);
    assert forall|i: int| 0 <= i < n implies has_sensor(once, (#[trigger] defaults[i]).id) by {
        law_migration_completes(sensors, defaults, n, i);
    }
    law_migration_of_complete_config(once, defaults, n);
}

/// Moving a sensor up and then down again restores the order.
pub proof fn law_move_up_then_down(sensors: Seq<SensorView>, index: int)
    requires
        0 < index < sensors.len(),
    ensures
        moved(moved(sensors, index, true), index - 1, false) == sensors,
{
    assert(moved(moved(sensors, index, true), index - 1, false) =~= sensors);
}

/// Every color map of the default configuration is in ascending order.
#[verifier::rlimit(100)]
pub proof fn law_default_maps_are_sorted(cpu_label: Seq<char>, i: int)
    requires
        0 <= i < default_sensors(cpu_label).len(),
    ensures
        color::is_sorted(default_sensors(cpu_label)[i].color_map),
{
    lemma_three_sorted(45, 65, 85);
    lemma_three_sorted(25, 35, 45);
    lemma_three_sorted(20, 60, 90);
    lemma_three_sorted(36, 90, 150);
    lemma_three_sorted(50, 70, 90);
    lemma_three_sorted(40, 100, 200);
    lemma_three_sorted(60, 80, 100);
    lemma_three_sorted(40, 60, 80);
    lemma_three_sorted(6, 15, 35);
    lemma_three_sorted(30, 50, 65);
    lemma_three_sorted(20, 40, 55);
    lemma_freq_sorted();
}

proof fn lemma_three_sorted(a: nat, b: nat, c: nat)
    requires
        0 < a <= b <= c < 16777216,
    ensures
        forall|calm: [u8; 3]|
            color::is_sorted(
                #[trigger] three_points(
                    single::whole_single(a),
                    calm,
                    single::whole_single(b),
                    single::whole_single(c),
                ),
            ),
{
    single::law_whole_order(a, b);
    single::law_whole_order(b, c);
    single::law_whole_order(a, c);
    single::law_whole_order(a, a);
    single::law_whole_order(b, b);
    single::law_whole_order(c, c);
}

proof fn lemma_freq_sorted()
    ensures
        color::is_sorted(freq_map()),
{
    single::law_whole_order(2, 2);
    single::law_whole_order(4, 4);
    single::law_whole_order(2, 4);
    single::lemma_five_and_a_half();
}

// ── Turns and changes ────────────────────────────────────────────────────────

/// How many of the first `n` sensors are enabled.
pub open spec fn enabled_before(sensors: Seq<SensorView>, n: int) -> nat
    decreases n,
{
    if n <= 0 {
        0
    } else {
        enabled_before(sensors, n - 1) + if sensors[n - 1].enabled {
            1nat
        } else {
            0
        }
    }
}

proof fn lemma_enabled_count(sensors: Seq<SensorView>, n: int)
    requires
        0 <= n <= sensors.len(),
    ensures
        enabled_ids(sensors.take(n)).len() == enabled_before(sensors, n),
    decreases n,
{
    if n > 0 {
        assert(sensors.take(n).drop_last() =~= sensors.take(n - 1));
        assert(sensors.take(n).last() == sensors[n - 1]);
        lemma_enabled_count(sensors, n - 1);
    }
}

proof fn lemma_enabled_start(sensors: Seq<SensorView>, n: int, m: int, k: int)
    requires
        0 <= n <= m <= sensors.len(),
        0 <= k < enabled_ids(sensors.take(n)).len(),
    ensures
        k < enabled_ids(sensors.take(m)).len(),
        enabled_ids(sensors.take(m))[k] == enabled_ids(sensors.take(n))[k],
    decreases m,
{
    if n < m {
        assert(sensors.take(m).drop_last() =~= sensors.take(m - 1));
        lemma_enabled_start(sensors, n, m - 1, k);
    }
}

/// Every enabled sensor has its turn, in the order of the list: it comes after as
/// many others as are enabled before it. No other sensor has one.
pub proof fn law_enabled_sensors_take_turns(sensors: Seq<SensorView>, i: int)
    requires
        0 <= i < sensors.len(),
    ensures
        enabled_ids(sensors).len() == enabled_before(sensors, sensors.len() as int),
        sensors[i].enabled ==> enabled_before(sensors, i) < enabled_ids(sensors).len()
            && enabled_ids(sensors)[enabled_before(sensors, i) as int] == sensors[i].id,
{
    let n = sensors.len() as int;
    assert(sensors.take(n) =~= sensors);
    lemma_enabled_count(sensors, n);
    lemma_enabled_count(sensors, i);
    if sensors[i].enabled {
        assert(sensors.take(i + 1).drop_last() =~= sensors.take(i));
        assert(sensors.take(i + 1).last() == sensors[i]);
        lemma_enabled_start(sensors, i + 1, n, enabled_before(sensors, i) as int);
    }
}

/// A sensor that is moved up changes places with the one before it, and one that is
/// moved down with the one after it; all others stay.
pub proof fn law_sensor_changes_places(sensors: Seq<SensorView>, index: int, up: bool, i: int)
    requires
        0 <= index < sensors.len(),
        0 <= i < sensors.len(),
    ensures
        moved(sensors, index, up).len() == sensors.len(),
        up && index > 0 ==> moved(sensors, index, up)[index - 1] == sensors[index] && moved(
            sensors,
            index,
            up,
        )[index] == sensors[index - 1],
        !up && index < sensors.len() - 1 ==> moved(sensors, index, up)[index + 1] == sensors[index]
            && moved(sensors, index, up)[index] == sensors[index + 1],
        i != index && i != (if up {
            index - 1
        } else {
            index + 1
        }) ==> moved(sensors, index, up)[i] == sensors[i],
{
}

/// Configurations count as the same only if they agree in everything that is drawn
/// behind the readings.
pub proof fn law_background_changes_are_noticed(a: ConfigView, b: ConfigView)
    requires
        same_config(a, b),
    ensures
        a.background.image_path == b.background.image_path,
        a.background.fit == b.background.fit,
        a.background.overlay_alpha == b.background.overlay_alpha,
        a.background.opacity == b.background.opacity,
        a.background.background_color == b.background.background_color,
        is_equal(a.background.zoom, b.background.zoom),
        is_equal(a.background.offset_x, b.background.offset_x),
        is_equal(a.background.offset_y, b.background.offset_y),
        is_equal(a.background.blur_sigma, b.background.blur_sigma),
        is_equal(a.rotation, b.rotation),
{
}

/// Configurations count as the same only if they agree in the sensors and their
/// colors.
pub proof fn law_sensor_changes_are_noticed(a: ConfigView, b: ConfigView, i: int, k: int)
    requires
        same_config(a, b),
        0 <= i < a.sensors.len(),
    ensures
        a.sensors.len() == b.sensors.len(),
        a.sensors[i].id == b.sensors[i].id,
        a.sensors[i].enabled == b.sensors[i].enabled,
        a.sensors[i].label == b.sensors[i].label,
        a.sensors[i].unit == b.sensors[i].unit,
        a.sensors[i].label_color == b.sensors[i].label_color,
        a.sensors[i].color_map.len() == b.sensors[i].color_map.len(),
        0 <= k < a.sensors[i].color_map.len() ==> a.sensors[i].color_map[k].color
            == b.sensors[i].color_map[k].color && is_equal(
            a.sensors[i].color_map[k].value,
            b.sensors[i].color_map[k].value,
        ),
{
    assert(same_sensor(a.sensors[i], b.sensors[i]));
    if 0 <= k < a.sensors[i].color_map.len() {
        assert(a.sensors[i].color_map[k].value.same(b.sensors[i].color_map[k].value));
    }
}

/// Configurations count as the same only if they agree in the layout and its slots.
pub proof fn law_layout_changes_are_noticed(a: ConfigView, b: ConfigView, i: int)
    requires
        same_config(a, b),
    ensures
        a.layout.preset == b.layout.preset,
        a.layout.max_visible == b.layout.max_visible,
        a.layout.custom_slots.len() == b.layout.custom_slots.len(),
        0 <= i < a.layout.custom_slots.len() ==> ({
            let s = a.layout.custom_slots[i];
            let t = b.layout.custom_slots[i];
            &&& s.sensor_id == t.sensor_id
            &&& is_equal(s.value_cx_norm, t.value_cx_norm)
            &&& is_equal(s.value_cy_norm, t.value_cy_norm)
            &&& is_equal(s.label_cx_norm, t.label_cx_norm)
            &&& is_equal(s.label_cy_norm, t.label_cy_norm)
            &&& is_equal(s.value_font_size, t.value_font_size)
            &&& is_equal(s.label_font_size, t.label_font_size)
        }),
{
    if 0 <= i < a.layout.custom_slots.len() {
        assert(same_slot(a.layout.custom_slots[i], b.layout.custom_slots[i]));
    }
}

/// Whether two numbers are the same number: encoded alike, or both zero.
pub open spec fn is_equal(x: Single, y: Single) -> bool {
    x.bits == y.bits || (x.bits % 0x8000_0000 == 0 && y.bits % 0x8000_0000 == 0)
}

proof fn lemma_anchor(words: Seq<Seq<char>>, k: int)
    requires
        0 <= k < words.len(),
        is_anchor(words[k]),
        forall|i: int| 0 <= i < k ==> !is_anchor(#[trigger] words[i]),
    ensures
        anchor_position(words) == k,
    decreases k,
{
    if k > 0 {
        assert(!is_anchor(words[0]));
        assert(words.skip(1)[k - 1] == words[k]);
        assert forall|i: int| 0 <= i < k - 1 implies !is_anchor(#[trigger] words.skip(1)[i]) by {
            assert(words.skip(1)[i] == words[i + 1]);
        }
        lemma_anchor(words.skip(1), k - 1);
    }
}

/// The name of a processor begins at the word for its family and has up to four
/// words: what stands before or after does not matter.
pub proof fn law_processor_name_begins_at_family(
    before: Seq<Seq<char>>,
    name: Seq<Seq<char>>,
    after: Seq<Seq<char>>,
)
    requires
        forall|i: int| 0 <= i < before.len() ==> !is_anchor(#[trigger] before[i]),
        0 < name.len() <= 4,
        is_anchor(name[0]),
        name.len() < 4 ==> after.len() == 0,
    ensures
        short_name(before + name + after) == text::join(name, seq![' ']),
{
    let words = before + name + after;
    let k = before.len() as int;
    assert(words[k] == name[0]);
    assert forall|i: int| 0 <= i < k implies !is_anchor(#[trigger] words[i]) by {
        assert(words[i] == before[i]);
    }
    lemma_anchor(words, k);
    assert(words.subrange(k, k + name.len()) =~= name);
}

} // verus!
