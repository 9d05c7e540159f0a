use th420_display::config::{BackgroundConfig, Config};
use th420_display::fixed::fixed_text;
use th420_display::layout::LayoutPreset;
use th420_display::media::Canvas;
use th420_display::renderer::{
    draw_plan, format_value, has_divider, is_upright, place_background, visible_slots,
    write_captions, CacheStep, Renderer,
};
use th420_display::single::Single;
use th420_display::table::Table;

fn single(x: f32) -> Single {
    Single { bits: x.to_bits() }
}

fn readings(pairs: &[(&str, f32)]) -> Table<Single> {
    let mut t = Table::new();
    for (id, value) in pairs {
        t.insert(id, single(*value));
    }
    t
}

fn written(unit: &str, value: f32) -> String {
    format_value(unit, single(value))
}

#[test]
fn format_value_celsius() {
    assert_eq!(written("°C", 55.6), "56°C");
    assert_eq!(written("°C", 105.0), "105°C");
}

#[test]
fn format_value_percent() {
    assert_eq!(written("%", 42.7), "43%");
}

#[test]
fn format_value_ghz() {
    assert_eq!(written("GHz", 3.8), "3.80G");
}

#[test]
fn format_value_watts_capped_at_999() {
    assert_eq!(written("W", 9999.0), "999W");
    assert_eq!(written("W", 65.0), "65W");
}

#[test]
fn other_units_are_written_too() {
    assert_eq!(written("GB", 1.25), "1.2G");
    assert_eq!(written("GB", 1.75), "1.8G");
    assert_eq!(written("rpm", 7.0), "7.0");
    assert_eq!(written("W", f32::NAN), "999W");
    assert_eq!(written("°C", f32::NAN), "NaN°C");
}

#[test]
fn numbers_are_written_like_those_of_std() {
    let mut seed: u64 = 0x2545_f491_4f6c_dd1d;
    let mut samples: Vec<f32> = vec![
        0.0, -0.0, 0.5, 1.5, 2.5, -2.5, 0.05, 0.25, 0.35, 0.125, 99.995, 999.5, 1.0e-20, 1.0e-45,
        16777216.0, 1.0e10, 3.4028235e38, -3.4028235e38, f32::INFINITY, f32::NEG_INFINITY, f32::NAN,
    ];
    for _ in 0..20_000 {
        seed ^= seed << 13;
        seed ^= seed >> 7;
        seed ^= seed << 17;
        samples.push(f32::from_bits(seed as u32));
        samples.push((seed >> 40) as f32 / 1024.0 - 3000.0);
    }
    for x in samples {
        for decimals in 0..3 {
            assert_eq!(fixed_text(single(x), decimals), format!("{x:.decimals$}"));
        }
    }
}

#[test]
fn readings_are_drawn_at_their_places() {
    let config = Config::with_cpu_label("CPU");
    let plan = draw_plan(&config, &readings(&[("gpu_temp", 62.0), ("cpu_temp", 55.0), ("x", 1.0)]));
    assert_eq!(plan.len(), 2);
    assert_eq!(plan[0].slot.sensor_id, "cpu_temp");
    assert_eq!((plan[0].slot.value_cx, plan[0].slot.value_y), (240, 83));
    assert_eq!(plan[0].value.bits, 55.0f32.to_bits());
    assert_eq!(plan[0].sensor, 0);
    assert_eq!(plan[1].slot.sensor_id, "gpu_temp");
    assert_eq!((plan[1].slot.value_cx, plan[1].slot.value_y), (335, 368));
    assert_eq!(plan[1].sensor, 5);
    assert!(draw_plan(&config, &readings(&[])).is_empty());
}

#[test]
fn disabled_sensors_are_not_drawn() {
    let mut config = Config::with_cpu_label("CPU");
    assert_eq!(visible_slots(&config).len(), 6);
    for s in &mut config.sensors {
        s.enabled = false;
    }
    assert!(visible_slots(&config).is_empty());
    assert!(draw_plan(&config, &readings(&[("cpu_temp", 55.0)])).is_empty());
}

#[test]
fn divider_and_rotation() {
    let mut config = Config::with_cpu_label("CPU");
    assert!(has_divider(&config));
    assert!(!is_upright(&config));
    config.layout.preset = LayoutPreset::BigTop;
    config.rotation = single(-0.0);
    assert!(!has_divider(&config));
    assert!(is_upright(&config));
}

#[test]
fn background_is_loaded_when_it_changes() {
    let picture = || Some(Canvas::from_pixel(480, 480, [7, 7, 7]));
    let mut renderer = Renderer::new();
    let mut now = BackgroundConfig::default();
    assert_eq!(renderer.background_step(&now), CacheStep::Drop);
    renderer.update_bg_cache(&now, picture());
    assert!(renderer.bg_cache.is_none());
    now.image_path = Some("a.png".to_string());
    assert_eq!(renderer.background_step(&now), CacheStep::Load);
    renderer.update_bg_cache(&now, picture());
    assert_eq!(renderer.background_step(&now), CacheStep::Keep);
    assert_eq!(renderer.base_layer().pixels, picture().unwrap().pixels);
    renderer.update_bg_cache(&now, None);
    assert!(renderer.bg_cache.is_some());
    now.zoom = single(2.0);
    assert_eq!(renderer.background_step(&now), CacheStep::Load);
    renderer.update_bg_cache(&now, None);
    assert!(renderer.bg_cache.is_none());
    renderer.update_bg_cache(&now, picture());
    now.image_path = None;
    assert_eq!(renderer.background_step(&now), CacheStep::Drop);
    renderer.update_bg_cache(&now, picture());
    assert!(renderer.bg_cache.is_none());
    // What is not a number never equals itself.
    now.image_path = Some("a.png".to_string());
    now.zoom = single(f32::NAN);
    renderer.update_bg_cache(&now, picture());
    assert_eq!(renderer.background_step(&now), CacheStep::Load);
}

#[test]
fn backgrounds_are_placed() {
    let mut top = Canvas::from_pixel(2, 2, [1, 2, 3]);
    top.pixels[9] = 77;
    let at = |c: &Canvas, x: usize, y: usize| -> [u8; 3] {
        let i = 3 * (y * 480 + x);
        [c.pixels[i], c.pixels[i + 1], c.pixels[i + 2]]
    };
    let placed = place_background(&top, [9, 9, 9], 10, 20);
    assert_eq!((placed.width, placed.height), (480, 480));
    assert_eq!(at(&placed, 9, 20), [9, 9, 9]);
    assert_eq!(at(&placed, 10, 20), [1, 2, 3]);
    assert_eq!(at(&placed, 11, 21), [77, 2, 3]);
    assert_eq!(at(&placed, 12, 21), [9, 9, 9]);
    let shifted = place_background(&top, [9, 9, 9], -1, -1);
    assert_eq!(at(&shifted, 0, 0), [77, 2, 3]);
    assert_eq!(at(&shifted, 1, 0), [9, 9, 9]);
    let outside = place_background(&top, [9, 9, 9], i64::MIN, i64::MAX);
    assert_eq!(outside.pixels, Canvas::from_pixel(480, 480, [9, 9, 9]).pixels);
}

#[test]
fn plain_base_is_a_disc() {
    let base = Renderer::new().base_layer();
    let at = |x: usize, y: usize| base.pixels[3 * (y * 480 + x)];
    assert_eq!(at(0, 0), 10);
    assert_eq!(at(240, 240), 15);
    assert_eq!(at(240, 2), 15);
    assert_eq!(at(240, 1), 10);
}

#[test]
fn captions_hold_value_and_label() {
    let config = Config::with_cpu_label("Ryzen");
    let captions = write_captions(&config, &readings(&[("cpu_temp", 65.0), ("gpu_temp", 62.4)]));
    assert_eq!(captions.len(), 4);
    assert_eq!(captions[0].text, "65°C");
    assert_eq!((captions[0].cx, captions[0].y), (240, 83));
    assert_eq!(captions[0].color, config.sensors[0].value_color(single(65.0)));
    assert_eq!(captions[1].text, config.sensors[0].label);
    assert_eq!(captions[1].color, config.sensors[0].label_color);
    assert_eq!(captions[2].text, "62°C");
    assert!(write_captions(&config, &readings(&[])).is_empty());
}
