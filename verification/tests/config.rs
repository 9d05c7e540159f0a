use th420_display::color::{
    add_color_point, all_numbers_test, bar_colors, continued_value, from_f32, interpolate_color,
    later_value, remove_color_point, sort_color_map, strip_colors, strip_mark, to_f32, ColorPoint,
};
use th420_display::config::{
    default_config_path, default_cpu_label, BackgroundConfig, Config, ImageFit, SensorConfig,
};
use th420_display::layout::{
    nearest_slot, LayoutConfig, LayoutPreset, LayoutSlot, StartPosition,
};
use th420_display::single::Single;

fn single(x: f32) -> Single {
    Single { bits: x.to_bits() }
}

fn float(x: Single) -> f32 {
    f32::from_bits(x.bits)
}

fn point(value: f32, color: [u8; 3]) -> ColorPoint {
    ColorPoint { value: single(value), color }
}

fn default_config() -> Config {
    Config::with_cpu_label("CPU")
}

fn color_of(value: f32, map: &[ColorPoint]) -> [u8; 3] {
    interpolate_color(single(value), map)
}

fn three_point_map() -> Vec<ColorPoint> {
    vec![
        point(45.0, [80, 220, 80]),
        point(65.0, [255, 200, 0]),
        point(85.0, [255, 55, 55]),
    ]
}

fn test_sensor() -> SensorConfig {
    SensorConfig {
        id: "test".to_string(),
        enabled: true,
        label: "Test".to_string(),
        unit: "°C".to_string(),
        label_color: [150, 150, 185],
        color_map: three_point_map(),
    }
}

#[test]
fn interpolate_empty_map_returns_default_gray() {
    assert_eq!(color_of(50.0, &[]), [200, 200, 200]);
}

#[test]
fn interpolate_single_point_always_returns_that_color() {
    let map = vec![point(50.0, [100, 150, 200])];
    assert_eq!(color_of(0.0, &map), [100, 150, 200]);
    assert_eq!(color_of(50.0, &map), [100, 150, 200]);
    assert_eq!(color_of(999.0, &map), [100, 150, 200]);
}

#[test]
fn interpolate_below_min_clamps_to_first_color() {
    let map = three_point_map();
    assert_eq!(color_of(0.0, &map), [80, 220, 80]);
    assert_eq!(color_of(-50.0, &map), [80, 220, 80]);
}

#[test]
fn interpolate_above_max_clamps_to_last_color() {
    let map = three_point_map();
    assert_eq!(color_of(100.0, &map), [255, 55, 55]);
    assert_eq!(color_of(150.0, &map), [255, 55, 55]);
    assert_eq!(color_of(999.0, &map), [255, 55, 55]);
}

#[test]
fn interpolate_at_exact_anchors_returns_anchor_color() {
    let map = three_point_map();
    assert_eq!(color_of(45.0, &map), [80, 220, 80]);
    assert_eq!(color_of(65.0, &map), [255, 200, 0]);
    assert_eq!(color_of(85.0, &map), [255, 55, 55]);
}

#[test]
fn interpolate_midpoint_is_between_neighbor_colors() {
    let map = three_point_map();
    let mid = color_of(55.0, &map);
    assert!(mid[0] > 80 && mid[0] < 255, "R={}", mid[0]);
    assert!(mid[1] >= 200 && mid[1] <= 220, "G={}", mid[1]);
    assert!(mid[2] < 80, "B={}", mid[2]);
}

/// A color blended in floating point.
fn blended(value: f32, a: &ColorPoint, b: &ColorPoint) -> [u8; 3] {
    let t = (value - float(a.value)) / (float(b.value) - float(a.value));
    let t = t.clamp(0.0, 1.0);
    let mix = |i: usize| {
        (a.color[i] as f32 + (b.color[i] as f32 - a.color[i] as f32) * t).round() as u8
    };
    [mix(0), mix(1), mix(2)]
}

#[test]
fn blends_are_those_of_floating_point() {
    let map = three_point_map();
    assert_eq!(color_of(55.0, &map), [168, 210, 40]);
    assert_eq!(color_of(65.5, &map), [255, 196, 1]);
    assert_eq!(color_of(85.0, &map), [255, 55, 55]);
    assert_eq!(color_of(f32::NAN, &map), [255, 55, 55]);
    assert_eq!(color_of(-0.0, &map), [80, 220, 80]);
    let mut value = 45.03_f32;
    while value < 85.0 {
        let from = if value <= 65.0 { 0 } else { 1 };
        assert_eq!(color_of(value, &map), blended(value, &map[from], &map[from + 1]), "{value}");
        value += 0.07;
    }
}

#[test]
fn blends_of_endless_anchors_have_no_share() {
    let map = vec![point(f32::NEG_INFINITY, [10, 20, 30]), point(f32::INFINITY, [40, 50, 60])];
    assert_eq!(color_of(7.0, &map), [0, 0, 0]);
    assert_eq!(color_of(7.0, &map), blended(7.0, &map[0], &map[1]));
    let map = vec![point(0.0, [10, 20, 30]), point(f32::INFINITY, [40, 50, 60])];
    assert_eq!(color_of(7.0, &map), [10, 20, 30]);
}

#[test]
fn to_f32_from_f32_roundtrip_within_one_lsb() {
    for v in [0u8, 1, 64, 127, 128, 200, 254, 255] {
        let orig = [v, v.wrapping_add(13), v.wrapping_add(47)];
        let f = to_f32(orig);
        let back = from_f32(f);
        for i in 0..3 {
            let diff = (orig[i] as i16 - back[i] as i16).abs();
            assert!(diff <= 1, "channel {i}: {} → {}", orig[i], back[i]);
        }
    }
}

#[test]
fn from_f32_clamps_out_of_range_values() {
    assert_eq!(from_f32([single(2.0), single(-0.5), single(1.0)]), [255, 0, 255]);
}

#[test]
fn intensities_are_those_of_single_precision() {
    for v in 0..=255u8 {
        let f = to_f32([v, 0, 255]);
        assert_eq!(float(f[0]), v as f32 / 255.0);
        assert_eq!(from_f32(f)[0], (v as f32 / 255.0 * 255.0).clamp(0.0, 255.0) as u8);
    }
    let mut bits: u32 = 0;
    for step in 0..100_000u32 {
        let x = f32::from_bits(bits);
        let want = (x * 255.0).clamp(0.0, 255.0) as u8;
        assert_eq!(from_f32([Single { bits }; 3]), [want; 3], "{x}");
        bits = bits.wrapping_add(42_949 + step % 5);
    }
}

#[test]
fn label_colors_are_set_by_intensity() {
    let mut sc = test_sensor();
    let f = sc.label_color_f32();
    assert_eq!(float(f[2]), 185.0 / 255.0);
    sc.set_label_from_f32([single(1.0), single(0.5), single(f32::NAN)]);
    assert_eq!(sc.label_color, [255, 127, 0]);
    assert_eq!(sc.id, "test");
}

#[test]
fn value_color_at_normal_temp() {
    let sc = test_sensor();
    assert_eq!(sc.value_color(single(45.0)), [80, 220, 80]);
    assert_eq!(sc.value_color(single(85.0)), [255, 55, 55]);
}

#[test]
fn value_color_triple_digit_temp_clamps_to_max_no_panic() {
    let sc = test_sensor();
    assert_eq!(sc.value_color(single(105.0)), [255, 55, 55]);
    assert_eq!(sc.value_color(single(200.0)), [255, 55, 55]);
}

#[test]
fn value_color_zero_and_negative_clamp_to_min_no_panic() {
    let sc = test_sensor();
    assert_eq!(sc.value_color(single(0.0)), [80, 220, 80]);
    assert_eq!(sc.value_color(single(-5.0)), [80, 220, 80]);
}

#[test]
fn color_map_sort_preserves_gradient_order() {
    let mut map = vec![
        point(85.0, [255, 55, 55]),
        point(45.0, [80, 220, 80]),
        point(65.0, [255, 200, 0]),
    ];
    sort_color_map(&mut map);
    let values: Vec<f32> = map.iter().map(|p| float(p.value)).collect();
    assert_eq!(values, [45.0, 65.0, 85.0]);
}

#[test]
fn color_map_sort_is_stable() {
    let mut map = vec![point(1.0, [1, 0, 0]), point(-2.5, [2, 0, 0]), point(1.0, [3, 0, 0])];
    assert!(all_numbers_test(&map));
    sort_color_map(&mut map);
    let colors: Vec<u8> = map.iter().map(|p| p.color[0]).collect();
    assert_eq!(colors, [2, 1, 3]);
    assert!(!all_numbers_test(&[point(f32::NAN, [0, 0, 0])]));
}

#[test]
fn color_points_are_added_and_removed() {
    let mut map = three_point_map();
    add_color_point(&mut map, single(105.0));
    assert_eq!(map.len(), 4);
    assert_eq!(map[3].color, [200, 200, 200]);
    remove_color_point(&mut map, 0);
    remove_color_point(&mut map, 0);
    assert_eq!(map.len(), 2);
    remove_color_point(&mut map, 0);
    assert_eq!(map.len(), 2);
    assert_eq!(float(map[0].value), 85.0);
}

#[test]
fn default_config_color_maps_are_sorted() {
    let cfg = default_config();
    for sc in &cfg.sensors {
        for w in sc.color_map.windows(2) {
            assert!(
                float(w[0].value) <= float(w[1].value),
                "sensor '{}' map not sorted: {} > {}",
                sc.id,
                float(w[0].value),
                float(w[1].value)
            );
        }
    }
}

#[test]
fn default_config_original_sensors_enabled() {
    let cfg = default_config();
    for id in ["cpu_temp", "coolant", "cpu_freq", "cpu_util", "cpu_power", "gpu_temp"] {
        assert!(
            cfg.sensors.iter().find(|s| s.id == id).map(|s| s.enabled).unwrap_or(false),
            "sensor '{id}' should be enabled by default"
        );
    }
}

#[test]
fn default_config_new_sensors_disabled() {
    let cfg = default_config();
    for id in [
        "gpu_util", "gpu_power", "gpu_vram_pct", "gpu_hotspot_temp", "igpu_temp", "igpu_util",
        "igpu_power", "igpu_vram_pct", "ram_used_pct", "nvme0_temp", "dimm0_temp",
    ] {
        assert!(
            !cfg.sensors.iter().find(|s| s.id == id).map(|s| s.enabled).unwrap_or(true),
            "sensor '{id}' should be disabled by default"
        );
    }
}

#[test]
fn default_config_has_exact_values() {
    let cfg = Config::with_cpu_label("Ryzen 7 7800X3D");
    assert_eq!(float(cfg.rotation), 180.0);
    assert_eq!(cfg.layout.preset, LayoutPreset::Classic);
    assert_eq!(cfg.layout.max_visible, 6);
    assert_eq!(cfg.background.fit, ImageFit::Cover);
    assert_eq!(cfg.background.overlay_alpha, 80);
    assert_eq!(float(cfg.background.zoom), 1.0);
    assert_eq!(cfg.background.opacity, 255);
    assert_eq!(cfg.sensors.len(), 20);
    assert_eq!(cfg.sensors[0].label, "Ryzen 7 7800X3D");
    assert_eq!(cfg.sensors[0].label_color, [150, 150, 185]);
    let values = |id: &str| -> Vec<f32> {
        cfg.sensor_by_id(id).unwrap().color_map.iter().map(|p| float(p.value)).collect()
    };
    assert_eq!(values("cpu_temp"), [45.0, 65.0, 85.0]);
    assert_eq!(values("cpu_freq"), [2.0, 4.0, 5.5]);
    assert_eq!(values("cpu_power"), [90.0 * 0.4, 90.0, 150.0]);
    assert_eq!(values("gpu_power"), [100.0 * 0.4, 100.0, 200.0]);
    assert_eq!(values("igpu_power"), [15.0 * 0.4, 15.0, 35.0]);
    assert_eq!(values("cpu_util"), [20.0, 60.0, 90.0]);
    assert_eq!(values("dimm1_temp"), [20.0, 40.0, 55.0]);
    assert_eq!(cfg.sensor_by_id("coolant").unwrap().color_map[0].color, [80, 200, 255]);
    assert_eq!(cfg.sensor_by_id("cpu_freq").unwrap().unit, "GHz");
}

#[test]
fn enabled_sensor_ids_respects_max_visible() {
    let mut cfg = default_config();
    cfg.layout.max_visible = 3;
    let ids = cfg.enabled_sensor_ids();
    assert!(ids.len() <= 3);
}

#[test]
fn enabled_sensor_ids_are_in_order() {
    let mut cfg = default_config();
    assert_eq!(cfg.enabled_count(), 6);
    cfg.layout.max_visible = 3;
    assert_eq!(cfg.enabled_sensor_ids(), ["cpu_temp", "coolant", "cpu_freq"]);
    cfg.sensors[1].enabled = false;
    assert_eq!(cfg.enabled_sensor_ids(), ["cpu_temp", "cpu_freq", "cpu_util"]);
    cfg.layout.max_visible = 0;
    assert!(cfg.enabled_sensor_ids().is_empty());
    assert_eq!(cfg.enabled_count(), 5);
}

#[test]
fn sensor_by_id_finds_existing() {
    let cfg = default_config();
    assert!(cfg.sensor_by_id("cpu_temp").is_some());
    assert!(cfg.sensor_by_id("nonexistent").is_none());
}

#[test]
fn classic_preset_6_sensors_returns_6_slots() {
    let layout = LayoutConfig::default();
    let ids = ["cpu_temp", "coolant", "cpu_freq", "cpu_util", "cpu_power", "gpu_temp"];
    assert_eq!(layout.preset_slots(&ids).len(), 6);
}

#[test]
fn classic_preset_first_slot_matches_original_cpu_temp_position() {
    let layout = LayoutConfig::default();
    let slots = layout.preset_slots(&["cpu_temp", "coolant"]);
    assert_eq!(slots[0].value_cx, 240);
    assert_eq!(slots[0].value_y, 83);
    assert!((float(slots[0].value_fs) - 118.0).abs() < 0.1);
}

#[test]
fn grid2x3_preset_returns_correct_slot_count() {
    let mut layout = LayoutConfig::default();
    layout.preset = LayoutPreset::Grid2x3;
    let ids = ["a", "b", "c", "d", "e", "f"];
    assert_eq!(layout.preset_slots(&ids).len(), 6);
}

#[test]
fn big_top_first_slot_has_larger_font_than_rest() {
    let mut layout = LayoutConfig::default();
    layout.preset = LayoutPreset::BigTop;
    let ids = ["cpu_temp", "gpu_temp", "cpu_util", "cpu_power"];
    let slots = layout.preset_slots(&ids);
    assert!(!slots.is_empty());
    let max_rest = slots[1..].iter().map(|s| float(s.value_fs) as i32).max().unwrap_or(0);
    assert!(float(slots[0].value_fs) as i32 > max_rest);
}

#[test]
fn max_visible_limits_slot_count() {
    let layout =
        LayoutConfig { preset: LayoutPreset::Grid2x3, max_visible: 2, custom_slots: vec![] };
    let ids = ["a", "b", "c", "d", "e", "f"];
    assert_eq!(layout.preset_slots(&ids).len(), 2);
}

#[test]
fn custom_slots_map_normalized_to_pixels() {
    let layout = LayoutConfig {
        preset: LayoutPreset::Custom,
        max_visible: 1,
        custom_slots: vec![LayoutSlot {
            sensor_id: "x".to_string(),
            value_cx_norm: single(0.5),
            value_cy_norm: single(0.5),
            label_cx_norm: single(0.5),
            label_cy_norm: single(0.6),
            value_font_size: single(60.0),
            label_font_size: single(24.0),
        }],
    };
    let slots = layout.preset_slots(&["x"]);
    assert_eq!(slots[0].value_cx, 240);
    assert_eq!(slots[0].value_y, 240);
    assert_eq!(slots[0].label_y, 288);
}

#[test]
fn preset_tables_are_exact() {
    let ids = ["a", "b", "c", "d", "e", "f", "g", "h"];
    let table = |preset: LayoutPreset| -> Vec<(i32, i32, i32, i32, i32, i32)> {
        let layout = LayoutConfig { preset, max_visible: 8, custom_slots: vec![] };
        layout
            .preset_slots(&ids)
            .iter()
            .map(|s| {
                (
                    s.value_cx,
                    s.value_y,
                    float(s.value_fs) as i32,
                    s.label_cx,
                    s.label_y,
                    float(s.label_fs) as i32,
                )
            })
            .collect()
    };
    assert_eq!(
        table(LayoutPreset::Classic),
        [
            (240, 83, 118, 240, 35, 46),
            (240, 210, 44, 240, 196, 22),
            (145, 272, 58, 145, 334, 27),
            (335, 272, 58, 335, 334, 27),
            (145, 368, 58, 145, 430, 27),
            (335, 368, 58, 335, 430, 27),
        ]
    );
    assert_eq!(
        table(LayoutPreset::Grid2x3),
        [
            (145, 110, 46, 145, 146, 22),
            (335, 110, 46, 335, 146, 22),
            (145, 240, 46, 145, 276, 22),
            (335, 240, 46, 335, 276, 22),
            (145, 370, 46, 145, 406, 22),
            (335, 370, 46, 335, 406, 22),
        ]
    );
    assert_eq!(
        table(LayoutPreset::BigTop),
        [
            (240, 100, 80, 240, 50, 36),
            (145, 290, 46, 145, 326, 22),
            (335, 290, 46, 335, 326, 22),
            (145, 380, 46, 145, 416, 22),
            (335, 380, 46, 335, 416, 22),
        ]
    );
    assert!(table(LayoutPreset::Custom).is_empty());
}

fn start(n: f32) -> StartPosition {
    StartPosition {
        value_cx: single(n),
        value_cy: single(n),
        label_cx: single(n),
        label_cy: single(n),
        value_font_size: single(52.0),
        label_font_size: single(24.0),
    }
}

#[test]
fn switching_to_custom_keeps_places() {
    for preset in [LayoutPreset::Classic, LayoutPreset::Grid2x3, LayoutPreset::BigTop] {
        let ids = ["a", "b", "c", "d", "e", "f", "g"];
        let mut layout = LayoutConfig { preset, max_visible: 7, custom_slots: vec![] };
        let before = layout.preset_slots(&ids);
        let starts: Vec<StartPosition> = (0..7).map(|n| start(0.1 * n as f32)).collect();
        layout.ensure_custom_layout(&ids, &starts);
        assert_eq!(layout.preset, LayoutPreset::Custom);
        let after = layout.preset_slots(&ids);
        assert_eq!(after.len(), 7);
        for (a, b) in before.iter().zip(&after) {
            assert_eq!(format!("{a:?}"), format!("{b:?}"));
        }
        // A second switch changes nothing.
        let once = format!("{layout:?}");
        layout.ensure_custom_layout(&ids, &starts);
        assert_eq!(format!("{layout:?}"), once);
    }
}

#[test]
fn missing_slots_start_in_the_middle() {
    let mut layout = LayoutConfig::default();
    layout.ensure_slots(&["a", "b", "a"]);
    assert_eq!(layout.custom_slots.len(), 2);
    let s = &layout.custom_slots[1];
    assert_eq!(s.sensor_id, "b");
    assert_eq!(float(s.value_cx_norm), 0.5);
    assert_eq!(float(s.value_cy_norm), 0.45);
    assert_eq!(float(s.label_cx_norm), 0.5);
    assert_eq!(float(s.label_cy_norm), 0.52);
    assert_eq!(float(s.value_font_size), 58.0);
    assert_eq!(float(s.label_font_size), 27.0);
    assert_eq!(layout.preset, LayoutPreset::Classic);
}

#[test]
fn nearest_slot_is_within_reach() {
    let far: Vec<Single> = [70.1, 100.0, f32::NAN].iter().map(|&d| single(d)).collect();
    assert_eq!(nearest_slot(&far), None);
    let near: Vec<Single> = [80.0, 70.0, 12.5, 12.5].iter().map(|&d| single(d)).collect();
    assert_eq!(nearest_slot(&near), Some(2));
    assert_eq!(nearest_slot(&[]), None);
}

#[test]
fn migrate_adds_sensors_missing_from_old_config() {
    let mut cfg = default_config();
    cfg.sensors.retain(|s| s.id != "igpu_temp" && s.id != "gpu_hotspot_temp");
    assert!(cfg.sensor_by_id("igpu_temp").is_none());
    assert!(cfg.sensor_by_id("gpu_hotspot_temp").is_none());

    let migrated = cfg.migrate_sensors("CPU");

    assert!(migrated, "should report sensors were added");
    assert!(cfg.sensor_by_id("igpu_temp").is_some());
    assert!(cfg.sensor_by_id("gpu_hotspot_temp").is_some());
}

#[test]
fn migrate_idempotent_on_complete_config() {
    let mut cfg = default_config();
    let count_before = cfg.sensors.len();
    assert!(!cfg.migrate_sensors("CPU"), "complete config needs no migration");
    assert_eq!(cfg.sensors.len(), count_before);
}

#[test]
fn migrate_preserves_existing_sensor_customisation() {
    let mut cfg = default_config();
    if let Some(s) = cfg.sensors.iter_mut().find(|s| s.id == "cpu_temp") {
        s.label = "MY CPU".to_string();
        s.enabled = false;
    }
    cfg.sensors.retain(|s| s.id != "igpu_temp");

    cfg.migrate_sensors("CPU");

    let cpu = cfg.sensor_by_id("cpu_temp").unwrap();
    assert_eq!(cpu.label, "MY CPU", "existing label must be preserved");
    assert!(!cpu.enabled, "existing enabled flag must be preserved");
    assert!(cfg.sensor_by_id("igpu_temp").is_some(), "missing sensor must be added");
}

#[test]
fn migrating_an_empty_config_gives_all_sensors() {
    let mut cfg = default_config();
    cfg.sensors.clear();
    assert!(cfg.migrate_sensors("Label"));
    assert_eq!(cfg.sensors.len(), 20);
    assert_eq!(cfg.sensors[0].label, "Label");
    assert!(!cfg.migrate_sensors("Other"));
    assert_eq!(cfg.sensors[0].label, "Label");
}

#[test]
fn sensors_move_up_and_down() {
    let mut cfg = default_config();
    let order = |c: &Config| -> Vec<String> {
        c.sensors.iter().take(3).map(|s| s.id.clone()).collect()
    };
    cfg.move_sensor(1, true);
    assert_eq!(order(&cfg), ["coolant", "cpu_temp", "cpu_freq"]);
    cfg.move_sensor(0, false);
    assert_eq!(order(&cfg), ["cpu_temp", "coolant", "cpu_freq"]);
    cfg.move_sensor(0, true);
    assert_eq!(order(&cfg), ["cpu_temp", "coolant", "cpu_freq"]);
    let last = cfg.sensors.len() - 1;
    cfg.move_sensor(last, false);
    assert_eq!(cfg.sensors[last].id, "dimm1_temp");
}

#[test]
fn sensors_can_be_reset_to_their_default() {
    let mut cfg = default_config();
    cfg.sensors[3].label = "Changed".to_string();
    let reset = Config::default_of(&cfg.sensors[3], "CPU");
    assert_eq!(reset.label, "CPU UTIL");
    let own = test_sensor();
    assert_eq!(Config::default_of(&own, "CPU").label, "Test");
}

#[test]
fn equality_compares_numbers_by_value() {
    let a = default_config();
    let mut b = a.copy();
    assert!(a.equals(&b));
    b.rotation = single(0.0);
    assert!(!a.equals(&b));
    let mut c = b.copy();
    c.rotation = single(-0.0);
    assert!(b.equals(&c));
    c.rotation = single(f32::NAN);
    assert!(!c.equals(&c));
    let mut d = a.copy();
    d.sensors[2].color_map[1].color = [1, 2, 3];
    assert!(!a.equals(&d));
    let mut e = a.copy();
    e.background.image_path = Some("x.png".to_string());
    assert!(!a.equals(&e));
    let mut f = a.copy();
    f.layout.ensure_slots(&["a"]);
    assert!(!a.equals(&f));
}

#[test]
fn background_reset_keeps_the_picture() {
    let mut bg = BackgroundConfig::default();
    bg.image_path = Some("a.png".to_string());
    bg.fit = ImageFit::Stretch;
    bg.overlay_alpha = 3;
    bg.reset();
    assert_eq!(bg.image_path.as_deref(), Some("a.png"));
    assert_eq!(bg.fit, ImageFit::Cover);
    assert_eq!(bg.overlay_alpha, 80);
}

#[test]
fn processor_labels_are_short() {
    let label = |name: &str| default_cpu_label(Some(&format!("processor\t: 0\nmodel name\t: {name}\n")));
    assert_eq!(label("AMD Ryzen 7 7800X3D 8-Core Processor"), "Ryzen 7 7800X3D 8-Core");
    assert_eq!(label("Intel(R) Core(TM) i7-9700K CPU @ 3.60GHz"), "CPU @ 3.60GHz");
    assert_eq!(label("Weird Chip"), "Weird Chip");
    assert_eq!(label("Chip"), "Chip");
    assert_eq!(label("A Very Weird Chip"), "Very Weird Chip");
    assert_eq!(label(""), "");
    assert_eq!(default_cpu_label(Some("model name : Weird Chip\n")), "Weird Chip");
    assert_eq!(label("AMD EPYC"), "EPYC");
    assert_eq!(default_cpu_label(Some("flags: none\n")), "CPU");
    assert_eq!(default_cpu_label(None), "CPU");
}

#[test]
fn config_path_is_in_the_config_directory() {
    assert_eq!(
        default_config_path(Some("/home/u/.config")),
        "/home/u/.config/th420-display/config.toml"
    );
    assert_eq!(default_config_path(None), "./th420-display/config.toml");
}

#[test]
fn anchors_are_continued() {
    let map = three_point_map();
    assert_eq!(float(continued_value(&map)), 105.0);
    assert_eq!(float(continued_value(&map[..1])), 55.0);
    assert_eq!(float(continued_value(&[])), 50.0);
    assert_eq!(float(later_value(&map)), 95.0);
    assert_eq!(float(later_value(&[])), 50.0);
}

#[test]
fn gradients_show_the_map() {
    let map = three_point_map();
    let bar = bar_colors(&map);
    assert_eq!(bar.len(), 80);
    assert_eq!((bar[0], bar[79]), ([80, 220, 80], [255, 55, 55]));
    for (i, c) in bar.iter().enumerate() {
        let t = i as f32 / 79.0;
        assert_eq!(*c, color_of(45.0 + t * (85.0 - 45.0), &map));
    }
    let strip = strip_colors(&map);
    assert_eq!(strip.len(), 100);
    assert_eq!(strip[50], [255, 200, 0]);
    assert_eq!(float(strip_mark(&map, single(55.0))), 0.25);
    assert_eq!(float(strip_mark(&map, single(99.0))), 1.0);
    let flat = vec![point(1.0, [1, 2, 3]), point(1.0, [4, 5, 6])];
    assert_eq!(strip_colors(&flat)[0], [1, 2, 3]);
    assert_eq!(strip_colors(&flat)[99], [4, 5, 6]);
}

#[test]
fn colors_stay_between_their_anchors() {
    let map = vec![point(-3.0, [0, 255, 17]), point(0.1, [255, 3, 17])];
    for i in 0..400 {
        let value = -3.0 + i as f32 * 0.0079;
        let [r, g, b] = color_of(value, &map);
        assert!(g >= 3 && b == 17, "{value}: {r} {g} {b}");
    }
}

#[test]
fn big_top_keeps_to_its_halves() {
    let ids = ["a", "b", "c", "d", "e", "f"];
    let layout =
        LayoutConfig { preset: LayoutPreset::BigTop, max_visible: 6, custom_slots: vec![] };
    let slots = layout.preset_slots(&ids);
    assert_eq!(slots.len(), 5);
    assert!(slots[0].value_y < 240 && slots[0].label_y < 240);
    for slot in &slots[1..] {
        assert!((240..480).contains(&slot.value_y), "{slot:?}");
        assert!((240..480).contains(&slot.label_y), "{slot:?}");
        assert!(float(slot.value_fs) < float(slots[0].value_fs));
    }
}
