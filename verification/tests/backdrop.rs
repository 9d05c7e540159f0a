use th420_display::backdrop::{blur_radius, is_placeable, place_picture, scaled_size, shade};
use th420_display::config::{BackgroundConfig, ImageFit};
use th420_display::media::Canvas;
use th420_display::single::Single;

fn single(x: f32) -> Single {
    Single { bits: x.to_bits() }
}

/// What is shown of a picture of one color.
fn shown(background: &BackgroundConfig, width: u32, height: u32, color: [u8; 3]) -> Canvas {
    let source = Canvas::from_pixel(width, height, color);
    shade(background, &place_picture(background, &source).expect("a picture"))
}

#[test]
fn load_background_cover_produces_480x480() {
    let background = BackgroundConfig { fit: ImageFit::Cover, ..Default::default() };
    let img = shown(&background, 800, 600, [100, 150, 200]);
    assert_eq!((img.width, img.height), (480, 480));
}

#[test]
fn load_background_contain_produces_480x480() {
    let background =
        BackgroundConfig { fit: ImageFit::Contain, overlay_alpha: 128, ..Default::default() };
    let img = shown(&background, 300, 300, [50, 100, 150]);
    assert_eq!((img.width, img.height), (480, 480));
}

#[test]
fn pictures_are_scaled_to_the_display() {
    let mut b = BackgroundConfig { zoom: single(1.0), ..Default::default() };
    b.fit = ImageFit::Cover;
    assert_eq!(scaled_size(&b, 800, 600), (640, 480));
    assert_eq!(scaled_size(&b, 600, 801), (480, 641));
    b.fit = ImageFit::Contain;
    assert_eq!(scaled_size(&b, 800, 600), (480, 360));
    assert_eq!(scaled_size(&b, 100_000, 1), (480, 1));
    b.fit = ImageFit::Stretch;
    assert_eq!(scaled_size(&b, 7, 9), (480, 480));
    b.zoom = single(1.5);
    assert_eq!(scaled_size(&b, 7, 9), (720, 720));
    b.zoom = single(100.0);
    assert_eq!(scaled_size(&b, 7, 9), (3840, 3840));
    b.zoom = single(0.0);
    assert_eq!(scaled_size(&b, 7, 9), (24, 24));
    b.zoom = single(f32::NAN);
    assert_eq!(scaled_size(&b, 7, 9), (1, 1));
}

#[test]
fn sizes_are_those_of_floating_point() {
    for zoom in [0.05_f32, 0.3, 0.77, 1.0, 1.3, 7.9] {
        for (w, h) in [(800_u32, 600_u32), (1, 1), (1920, 1080), (37, 4001), (16_777_217, 3)] {
            for fit in [ImageFit::Cover, ImageFit::Contain] {
                let (across, down) = (480.0 / w as f32, 480.0 / h as f32);
                let factor = if fit == ImageFit::Cover { across.max(down) } else { across.min(down) };
                let scale = factor * zoom;
                let whole = |x: u32| (x as f32 * scale).round().max(1.0) as u32;
                let b = BackgroundConfig { fit, zoom: single(zoom), ..Default::default() };
                assert_eq!(scaled_size(&b, w, h), (whole(w), whole(h)), "{w} {h} {zoom}");
            }
        }
    }
}

fn pixel(c: &Canvas, x: usize, y: usize) -> [u8; 3] {
    let at = 3 * (y * c.width as usize + x);
    [c.pixels[at], c.pixels[at + 1], c.pixels[at + 2]]
}

#[test]
fn pictures_are_moved_from_the_middle() {
    let mut b = BackgroundConfig {
        fit: ImageFit::Stretch,
        zoom: single(0.5),
        overlay_alpha: 0,
        background_color: [1, 2, 3],
        ..Default::default()
    };
    let source = Canvas::from_pixel(240, 240, [9, 9, 9]);
    let placed = place_picture(&b, &source).expect("a picture");
    assert_eq!(pixel(&placed, 119, 240), [1, 2, 3]);
    assert_eq!(pixel(&placed, 120, 120), [9, 9, 9]);
    assert_eq!(pixel(&placed, 359, 359), [9, 9, 9]);
    assert_eq!(pixel(&placed, 360, 240), [1, 2, 3]);
    b.offset_x = single(0.25);
    b.offset_y = single(-7.0);
    let placed = place_picture(&b, &source).expect("a picture");
    assert_eq!(pixel(&placed, 179, 0), [1, 2, 3]);
    assert_eq!(pixel(&placed, 180, 0), [9, 9, 9]);
    assert_eq!(pixel(&placed, 180, 119), [9, 9, 9]);
    assert_eq!(pixel(&placed, 180, 120), [1, 2, 3]);
}

#[test]
fn blur_is_bounded() {
    let radius = |x: f32| {
        let b = BackgroundConfig { blur_sigma: single(x), ..Default::default() };
        blur_radius(&b).map(|r| f32::from_bits(r.bits))
    };
    assert_eq!(radius(0.0), None);
    assert_eq!(radius(0.01), None);
    assert_eq!(radius(0.011), Some(0.011));
    assert_eq!(radius(400.0), Some(50.0));
    assert_eq!(radius(f32::NAN), None);
}

#[test]
fn shades_are_those_of_floating_point() {
    for opacity in [0_u8, 1, 77, 128, 200, 255] {
        for overlay_alpha in [0_u8, 3, 100, 254, 255] {
            let b = BackgroundConfig {
                opacity,
                overlay_alpha,
                background_color: [10, 128, 255],
                ..Default::default()
            };
            let pixels: Vec<u8> = (0..768).map(|i: usize| (i / 3) as u8).collect();
            let source = Canvas { width: 16, height: 16, pixels };
            let res = shade(&b, &source);
            let share = opacity as f32 / 255.0;
            let darken = (255 - overlay_alpha as u16) as f32 / 255.0;
            for i in 0..768 {
                let color = b.background_color[i % 3] as f32;
                let blended = source.pixels[i] as f32 * share + color * (1.0 - share);
                let expected = (blended * darken).clamp(0.0, 255.0) as u8;
                assert_eq!(res.pixels[i], expected, "{opacity} {overlay_alpha} {i}");
            }
        }
    }
}

#[test]
fn clear_and_covered_pictures() {
    let mut b = BackgroundConfig { opacity: 255, overlay_alpha: 0, ..Default::default() };
    let source = Canvas::from_pixel(4, 4, [7, 77, 177]);
    assert_eq!(shade(&b, &source).pixels, source.pixels);
    b.overlay_alpha = 255;
    assert!(shade(&b, &source).pixels.iter().all(|p| *p == 0));
}

#[test]
fn pictures_without_pixels_are_not_placed() {
    let b = BackgroundConfig::default();
    for (width, height) in [(0, 0), (0, 7), (7, 0)] {
        let empty = Canvas { width, height, pixels: Vec::new() };
        assert!(is_placeable(&b, &empty));
        assert!(place_picture(&b, &empty).is_none());
    }
    assert!(!is_placeable(&b, &Canvas { width: 16_777_217, height: 1, pixels: Vec::new() }));
}
