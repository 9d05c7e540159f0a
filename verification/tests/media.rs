use th420_display::media::{
    boot_frames, decode_boot_gif, decode_gif, encode_boot_canvas, encode_boot_jpeg, encode_canvas,
    encode_rgb_jpeg, gif_info, inspect_gif, is_scalable, live_frames, resize, Canvas, FrameDelay,
    MediaError, RawFrame,
};

fn gif(colors_and_delays: &[([u8; 3], u32)]) -> Vec<u8> {
    let mut data = Vec::new();
    let mut encoder = image::codecs::gif::GifEncoder::new(&mut data);
    for (c, ms) in colors_and_delays {
        let buffer = image::RgbaImage::from_pixel(6, 4, image::Rgba([c[0], c[1], c[2], 255]));
        let delay = image::Delay::from_numer_denom_ms(*ms, 1);
        encoder.encode_frame(image::Frame::from_parts(buffer, 0, 0, delay)).unwrap();
    }
    drop(encoder);
    data
}

fn raw(numer: u32, denom: u32) -> RawFrame {
    RawFrame { width: 2, height: 1, rgba: vec![255, 0, 0, 0, 0, 0, 255, 9], numer, denom }
}

fn average(jpeg: &[u8]) -> [u64; 3] {
    let picture = image::load_from_memory(jpeg).unwrap().into_rgb8();
    let mut sum = [0u64; 3];
    for p in picture.pixels() {
        for i in 0..3 {
            sum[i] += u64::from(p[i]);
        }
    }
    sum.map(|s| s / (480 * 480))
}

fn close(a: u64, b: u64) -> bool {
    a.abs_diff(b) <= 4
}

#[test]
fn jpeg_encoders_produce_decodable_480_square_images() {
    let source = Canvas::from_pixel(16, 8, [20, 40, 60]);
    for encoded in [encode_rgb_jpeg(&source), encode_boot_jpeg(&source)] {
        let decoded = image::load_from_memory(&encoded.unwrap()).unwrap();
        assert_eq!((decoded.width(), decoded.height()), (480, 480));
    }
}

#[test]
fn encoders_keep_the_picture() {
    let source = Canvas::from_pixel(16, 8, [200, 100, 50]);
    for encoded in [encode_rgb_jpeg(&source), encode_boot_jpeg(&source)] {
        let got = average(&encoded.unwrap());
        assert!(close(got[0], 200) && close(got[1], 100) && close(got[2], 50), "{got:?}");
    }
    let full = Canvas::from_pixel(480, 480, [1, 2, 3]);
    assert_eq!(encode_rgb_jpeg(&full).unwrap(), encode_canvas(&full).unwrap());
    assert_eq!(encode_boot_jpeg(&full).unwrap(), encode_boot_canvas(&full).unwrap());
    assert_ne!(encode_canvas(&full).unwrap(), encode_boot_canvas(&full).unwrap());
    assert_eq!(&encode_canvas(&full).unwrap()[..2], &[0xff, 0xd8]);
}

#[test]
fn encoders_match_their_crates() {
    let mut picture = Canvas::from_pixel(7, 5, [0, 0, 0]);
    for (i, p) in picture.pixels.iter_mut().enumerate() {
        *p = (i * 37 % 256) as u8;
    }
    let buffer = image::RgbImage::from_raw(7, 5, picture.pixels.clone()).unwrap();
    let mut want = std::io::Cursor::new(Vec::new());
    buffer.write_to(&mut want, image::ImageFormat::Jpeg).unwrap();
    assert_eq!(encode_canvas(&picture).unwrap(), want.into_inner());
    let mut want = Vec::new();
    let mut encoder = jpeg_encoder::Encoder::new(&mut want, 75);
    encoder.set_sampling_factor(jpeg_encoder::SamplingFactor::F_2_2);
    encoder.encode(&picture.pixels, 7, 5, jpeg_encoder::ColorType::Rgb).unwrap();
    assert_eq!(encode_boot_canvas(&picture).unwrap(), want);
}

#[test]
fn scaling_gives_the_size_asked_for() {
    let source = Canvas::from_pixel(3, 5, [9, 90, 200]);
    let scaled = resize(&source, 8, 2);
    assert_eq!((scaled.width, scaled.height), (8, 2));
    assert_eq!(scaled.pixels, Canvas::from_pixel(8, 2, [9, 90, 200]).pixels);
    assert_eq!(resize(&source, 3, 5).pixels, source.pixels);
    let empty = Canvas::from_pixel(0, 5, [9, 9, 9]);
    assert_eq!(resize(&empty, 2, 2).pixels, [0; 12]);
}

#[test]
fn live_animations_keep_their_delays() {
    let frames = decode_gif(&gif(&[([255, 0, 0], 100), ([0, 0, 255], 250)])).unwrap();
    assert_eq!(frames.len(), 2);
    assert_eq!(frames[0].delay, FrameDelay::Fraction { numer: 100, denom: 1 });
    assert_eq!(frames[1].delay, FrameDelay::Fraction { numer: 250, denom: 1 });
    let first = average(&frames[0].jpeg);
    assert!(close(first[0], 255) && close(first[2], 0), "{first:?}");
    let second = average(&frames[1].jpeg);
    assert!(close(second[0], 0) && close(second[2], 255), "{second:?}");
    // A delay that is no number is taken for the usual one.
    let odd = live_frames(&[raw(5, 0)]).unwrap();
    assert_eq!(odd[0].delay, FrameDelay::Usual);
    assert!(live_frames(&[]).unwrap().is_empty());
}

#[test]
fn transparency_is_dropped() {
    let live = live_frames(&[raw(100, 1)]).unwrap();
    let mut plain = Canvas::from_pixel(2, 1, [255, 0, 0]);
    plain.pixels = vec![255, 0, 0, 0, 0, 255];
    assert_eq!(live[0].jpeg, encode_rgb_jpeg(&plain).unwrap());
}

#[test]
fn boot_animations_have_one_delay() {
    let boot = decode_boot_gif(&gif(&[([255, 0, 0], 100), ([0, 0, 255], 100)])).unwrap();
    assert_eq!(boot.delay_ms, 100);
    assert_eq!(boot.frames.len(), 2);
    assert!(close(average(&boot.frames[1])[2], 255));
    let mixed = decode_boot_gif(&gif(&[([255, 0, 0], 100), ([0, 0, 255], 110)])).unwrap_err();
    assert!(matches!(mixed, MediaError::MixedDelays));
    assert_eq!(mixed.message(), "boot GIF must use one uniform frame delay");
    let short = decode_boot_gif(&gif(&[([255, 0, 0], 70)])).unwrap_err();
    assert!(matches!(short, MediaError::ShortDelay));
    assert_eq!(short.message(), "boot GIF frame delay must be at least 80 ms");
}

#[test]
fn boot_delays_are_checked_in_order() {
    let inexact = boot_frames(&[raw(100, 1), raw(201, 2), raw(10, 1)]).unwrap_err();
    assert!(matches!(inexact, MediaError::InexactDelay));
    assert_eq!(
        inexact.message(),
        "boot GIF frame delays must be an exact number of milliseconds"
    );
    assert!(matches!(boot_frames(&[raw(1, 0)]).unwrap_err(), MediaError::InexactDelay));
    assert_eq!(boot_frames(&[raw(160, 2)]).unwrap().delay_ms, 80);
    let none = boot_frames(&[]).unwrap_err();
    assert!(matches!(none, MediaError::NoBootFrames));
    assert_eq!(none.message(), "boot GIF has no frames");
}

#[test]
fn broken_animations_are_refused() {
    let e = decode_gif(b"no animation").unwrap_err();
    assert!(matches!(e, MediaError::Decode(_)));
    assert!(!e.message().is_empty());
    assert!(matches!(decode_boot_gif(&[]).unwrap_err(), MediaError::Decode(_)));
    assert!(matches!(inspect_gif(&[], 0).unwrap_err(), MediaError::Decode(_)));
    assert_eq!(MediaError::Encode("full".to_string()).message(), "full");
}

#[test]
fn animations_are_described() {
    let data = gif(&[([255, 0, 0], 100), ([0, 0, 255], 100)]);
    let info = inspect_gif(&data, 5000).unwrap();
    assert_eq!((info.frames, info.file_size), (2, 5000));
    assert_eq!(info.uniform_delay_ms, Some(100));
    assert!(info.fits_boot());
    assert_eq!(info.lines(), ["2 frames · 4 KiB", "Frame delay: 100 ms"]);
    assert!(info.warnings().is_empty());

    let info = gif_info(&[raw(50, 1), raw(301, 2), raw(9, 0)], 1024).unwrap();
    assert_eq!((info.min_delay_ms, info.max_delay_ms), (0, 150));
    assert_eq!(info.lines(), ["3 frames · 1 KiB", "Variable delays: 0–150 ms"]);
    assert!(!info.fits_boot());
    assert_eq!(
        info.warnings(),
        [
            "Boot animation requires one uniform frame delay.",
            "Boot animation frame delay must be at least 80 ms."
        ]
    );
    let none = gif_info(&[], 0).unwrap_err();
    assert!(matches!(none, MediaError::NoFrames));
    assert_eq!(none.message(), "GIF contains no frames");
}

#[test]
fn scaling_is_bounded_by_memory() {
    let small = Canvas { width: 800, height: 600, pixels: Vec::new() };
    assert!(is_scalable(&small, 480, 480));
    let wide = Canvas { width: u32::MAX, height: 1, pixels: Vec::new() };
    assert!(!is_scalable(&wide, 480, u32::MAX));
    assert!(!is_scalable(&small, u32::MAX, u32::MAX));
    let row = |width: u32| Canvas { width, height: 1, pixels: Vec::new() };
    assert!(is_scalable(&row(16_777_216), 480, 480));
    assert!(!is_scalable(&row(16_777_217), 480, 480));
    assert!(!is_scalable(&row(33_554_435), 67_108_864, 1));
    assert!(is_scalable(&row(33_554_435), 33_554_435, 1));
    assert!(is_scalable(&row(0), 33_554_435, 1));
}
