use th420_display::boot::build_boot_container;
use th420_display::cli::{
    boot_args, brightness_args, format_rgb, frame_period, live_frames_args, live_gif_args,
    operation, parse_rgb, prepare_boot, settings, standby_args, status_args, time_left,
    validate_cli, BootError, Cli, CliError, Operation, Playback, Setting,
};
use th420_display::error::DeviceError;

fn cli() -> Cli {
    Cli {
        interval: 800,
        config: None,
        upload_standby: None,
        standby_brightness: None,
        pump_temp_color: None,
        upload_boot: None,
        play_live_frames: vec![],
        play_live_gif: None,
        live_fps: 24,
        live_loops: 1,
        live_brightness: 80,
    }
}

#[test]
fn parses_rgb_with_or_without_hash() {
    assert_eq!(parse_rgb("#0055ff").unwrap(), [0, 0x55, 0xff]);
    assert_eq!(parse_rgb("ff0000").unwrap(), [0xff, 0, 0]);
}

#[test]
fn rejects_invalid_rgb() {
    assert!(parse_rgb("#0f0").is_err());
    assert!(parse_rgb("#00ff0z").is_err());
}

#[test]
fn colors_read_back() {
    for color in [[0, 0, 0], [1, 2, 3], [0x0a, 0xb0, 0xff], [16, 160, 99]] {
        assert_eq!(parse_rgb(&format_rgb(color)).unwrap(), color);
    }
    assert_eq!(format_rgb([0, 0x5a, 0xff]), "#005aff");
    assert_eq!(parse_rgb("AbCdEf").unwrap(), [0xab, 0xcd, 0xef]);
    for bad in ["", "#", "##00000", "#0000000", "é0000", "+12345"] {
        assert_eq!(parse_rgb(bad).unwrap_err(), CliError::BadColor);
    }
    assert_eq!(CliError::BadColor.message(), "color must use #RRGGBB format");
}

#[test]
fn cli_validation_rejects_conflicting_operations() {
    let mut options = cli();
    options.pump_temp_color = Some("#ffffff".into());
    assert!(validate_cli(&options).is_err());

    let mut options = cli();
    options.upload_boot = Some("boot.gif".into());
    options.upload_standby = Some("standby.png".into());
    assert!(validate_cli(&options).is_err());

    let mut options = cli();
    options.play_live_frames.push("one.png".into());
    options.play_live_gif = Some("live.gif".into());
    assert!(validate_cli(&options).is_err());
}

#[test]
fn cli_validation_accepts_one_operation_at_a_time() {
    let mut options = cli();
    options.upload_standby = Some("standby.png".into());
    options.pump_temp_color = Some("#0055ff".into());
    options.standby_brightness = Some(80);
    assert!(validate_cli(&options).is_ok());
}

#[test]
fn cli_validation_names_the_conflict() {
    let mut options = cli();
    options.pump_temp_color = Some("#ffffff".into());
    options.upload_boot = Some("boot.gif".into());
    assert_eq!(validate_cli(&options).unwrap_err(), CliError::ColorWithoutStandby);
    options.upload_standby = Some("standby.png".into());
    assert_eq!(validate_cli(&options).unwrap_err(), CliError::BootWithOthers);
    options.upload_boot = None;
    options.play_live_gif = Some("live.gif".into());
    assert_eq!(validate_cli(&options).unwrap_err(), CliError::LiveWithSettings);
    options.play_live_frames.push("one.png".into());
    assert_eq!(validate_cli(&options).unwrap_err(), CliError::FramesAndGif);
    assert_eq!(
        CliError::ColorWithoutStandby.message(),
        "--pump-temp-color requires --upload-standby to commit the color"
    );
    assert_eq!(
        CliError::BootWithOthers.message(),
        "--upload-boot cannot be combined with other display operations"
    );
    assert_eq!(
        CliError::FramesAndGif.message(),
        "--play-live-frames and --play-live-gif are mutually exclusive"
    );
    assert_eq!(
        CliError::LiveWithSettings.message(),
        "live playback cannot be combined with persistent settings"
    );
    assert_eq!(CliError::GifWithoutFrames.message(), "GIF contains no frames");
}

#[test]
fn options_ask_for_one_operation() {
    assert_eq!(operation(&cli()), Operation::RunDaemon);
    let mut options = cli();
    options.standby_brightness = Some(0);
    assert_eq!(operation(&options), Operation::ApplySettings);
    let mut options = cli();
    options.upload_boot = Some("boot.gif".into());
    assert_eq!(operation(&options), Operation::UploadBoot);
    let mut options = cli();
    options.play_live_gif = Some("live.gif".into());
    assert_eq!(operation(&options), Operation::PlayGif);
    let mut options = cli();
    options.play_live_frames.push("one.png".into());
    assert_eq!(operation(&options), Operation::PlayFrames);
}

#[test]
fn boot_containers_are_limited() {
    let frames = vec![vec![1u8; 100], vec![2u8; 50]];
    assert_eq!(prepare_boot(&frames).unwrap(), build_boot_container(&frames).unwrap());
    // Header, table entry, record name and trailer take 72 bytes.
    assert_eq!(prepare_boot(&[vec![1u8; 5_242_880 - 72]]).unwrap().len(), 5_242_880);
    let e = prepare_boot(&[vec![1u8; 5_242_880 - 71]]).unwrap_err();
    assert_eq!(e, BootError::OverLimit);
    assert_eq!(e.message(), "boot container exceeds the conservative 5 MiB limit");
    let e = prepare_boot(&[]).unwrap_err();
    assert_eq!(e, BootError::Device(DeviceError::NoBootFrames));
    assert_eq!(e.message(), "boot GIF has no frames");
}

#[test]
fn frames_are_held_for_their_time() {
    assert_eq!(time_left(800, 300), 500);
    assert_eq!(time_left(800, 800), 0);
    assert_eq!(time_left(800, 900), 0);
}

#[test]
fn jobs_have_their_options() {
    assert_eq!(status_args(), ["--status"]);
    assert_eq!(brightness_args(80), ["--standby-brightness", "80"]);
    assert_eq!(
        standby_args("a.png", [255, 0, 16]),
        ["--upload-standby", "a.png", "--pump-temp-color", "#ff0010"]
    );
    assert_eq!(boot_args("b.gif"), ["--upload-boot", "b.gif"]);
    assert_eq!(
        live_gif_args("c.gif", false, 10_000, 5),
        ["--play-live-gif", "c.gif", "--live-loops", "10000", "--live-brightness", "5"]
    );
    assert_eq!(live_gif_args("c.gif", true, 7, 5)[3], "0");
    assert_eq!(
        live_frames_args(&["x".to_string(), "y".to_string()], 24, false, 2, 100),
        [
            "--play-live-frames", "x", "y", "--live-fps", "24", "--live-loops", "2",
            "--live-brightness", "100"
        ]
    );
}

#[test]
fn color_is_staged_before_the_upload() {
    let mut options = cli();
    assert!(settings(&options).unwrap().is_empty());
    options.upload_standby = Some("standby.png".into());
    options.pump_temp_color = Some("#0055ff".into());
    options.standby_brightness = Some(80);
    assert_eq!(
        settings(&options).unwrap(),
        [Setting::Color([0, 0x55, 0xff]), Setting::Standby, Setting::Brightness(80)]
    );
    options.pump_temp_color = Some("blue".into());
    assert_eq!(settings(&options).unwrap_err(), CliError::BadColor);
}

#[test]
fn periods_are_those_of_floating_point() {
    assert_eq!(frame_period(24), 41_666_667);
    assert_eq!(frame_period(60), 16_666_667);
    for fps in 1..=u8::MAX {
        let period = std::time::Duration::from_secs_f64(1.0 / f64::from(fps));
        assert_eq!(u128::from(frame_period(fps)), period.as_nanos(), "{fps}");
    }
}

#[test]
fn streams_play_all_frames_of_all_loops() {
    let played = |frames: usize, loops: usize| {
        let mut playback = Playback::start();
        let mut sent = Vec::new();
        while let Some(i) = playback.next_frame(frames, loops) {
            sent.push(i);
        }
        sent
    };
    assert_eq!(played(3, 2), [0, 1, 2, 0, 1, 2]);
    assert_eq!(played(1, 3), [0, 0, 0]);
    assert!(played(3, 0).is_empty());
    assert!(played(0, 4).is_empty());
}
