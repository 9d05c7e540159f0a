//! Command line options: which operation they ask for, and how other programs
//! write them.

use crate::boot;
use crate::boot::build_boot_container;
use crate::bytes;
use crate::error::DeviceError;
use crate::text;
use crate::text::{chars_of, number_text};
use vstd::prelude::*;

verus! {

/// The largest boot container that is uploaded.
pub const MAX_BOOT_CONTAINER_SIZE: usize = 5_242_880;

/// The command line options.
#[derive(Clone, Debug)]
pub struct Cli {
    pub interval: u64,
    pub config: Option<String>,
    pub upload_standby: Option<String>,
    pub standby_brightness: Option<u8>,
    pub pump_temp_color: Option<String>,
    pub upload_boot: Option<String>,
    pub play_live_frames: Vec<String>,
    pub play_live_gif: Option<String>,
    pub live_fps: u8,
    pub live_loops: usize,
    pub live_brightness: u8,
}

/// Why the options are refused.
#[derive(Clone, Copy, Debug, PartialEq, Eq, Structural)]
pub enum CliError {
    ColorWithoutStandby,
    BootWithOthers,
    FramesAndGif,
    LiveWithSettings,
    BadColor,
    GifWithoutFrames,
}

impl CliError {
    /// The text shown for an error.
    pub open spec fn text(self) -> Seq<char> {
        match self {
            CliError::ColorWithoutStandby => {
                "--pump-temp-color requires --upload-standby to commit the color"@
            },
            CliError::BootWithOthers => {
                "--upload-boot cannot be combined with other display operations"@
            },
            CliError::FramesAndGif => {
                "--play-live-frames and --play-live-gif are mutually exclusive"@
            },
            CliError::LiveWithSettings => {
                "live playback cannot be combined with persistent settings"@
            },
            CliError::BadColor => "color must use #RRGGBB format"@,
            CliError::GifWithoutFrames => "GIF contains no frames"@,
        }
    }

    /// The text shown for this error.
    pub fn message(self) -> (res: &'static str)
        ensures
            res@ == self.text(),
    {
        match self {
            CliError::ColorWithoutStandby => {
                "--pump-temp-color requires --upload-standby to commit the color"
            },
            CliError::BootWithOthers => {
                "--upload-boot cannot be combined with other display operations"
            },
            CliError::FramesAndGif => {
                "--play-live-frames and --play-live-gif are mutually exclusive"
            },
            CliError::LiveWithSettings => {
                "live playback cannot be combined with persistent settings"
            },
            CliError::BadColor => "color must use #RRGGBB format",
            CliError::GifWithoutFrames => "GIF contains no frames",
        }
    }
}

// ── Operations ───────────────────────────────────────────────────────────────

impl Cli {
    /// Whether the boot animation is to be replaced.
    pub open spec fn wants_boot(self) -> bool {
        self.upload_boot is Some
    }

    /// Whether an animation is to be played.
    pub open spec fn wants_gif(self) -> bool {
        self.play_live_gif is Some
    }

    /// Whether single pictures are to be played.
    pub open spec fn wants_frames(self) -> bool {
        self.play_live_frames@.len() > 0
    }

    /// Whether a persistent setting is to be changed.
    pub open spec fn wants_settings(self) -> bool {
        self.upload_standby is Some || self.standby_brightness is Some || self.pump_temp_color is Some
    }
}

/// Why options contradict each other, if so.
pub open spec fn cli_error(cli: Cli) -> Option<CliError> {
    if cli.pump_temp_color is Some && cli.upload_standby is None {
        Some(CliError::ColorWithoutStandby)
    } else if cli.wants_boot() && (cli.wants_settings() || cli.wants_frames() || cli.wants_gif()) {
        Some(CliError::BootWithOthers)
    } else if cli.wants_frames() && cli.wants_gif() {
        Some(CliError::FramesAndGif)
    } else if (cli.wants_frames() || cli.wants_gif()) && cli.wants_settings() {
        Some(CliError::LiveWithSettings)
    } else {
        None
    }
}

/// Refuses options that contradict each other.
pub fn validate_cli(cli: &Cli) -> (res: Result<(), CliError>)
    ensures
        match res {
            Ok(_) => cli_error(*cli) is None,
            Err(e) => cli_error(*cli) == Some(e),
        },
{
    let frames = cli.play_live_frames.len() > 0;
    let gif = cli.play_live_gif.is_some();
    let settings = cli.upload_standby.is_some() || cli.standby_brightness.is_some()
        || cli.pump_temp_color.is_some();
    if cli.pump_temp_color.is_some() && cli.upload_standby.is_none() {
        return Err(CliError::ColorWithoutStandby);
    }
    if cli.upload_boot.is_some() && (settings || frames || gif) {
        return Err(CliError::BootWithOthers);
    }
    if frames && gif {
        return Err(CliError::FramesAndGif);
    }
    if (frames || gif) && settings {
        return Err(CliError::LiveWithSettings);
    }
    Ok(())
}

/// Options that are accepted ask for one operation at most.
pub proof fn law_valid_options_ask_for_one_operation(cli: Cli)
    requires
        cli_error(cli) is None,
    ensures
        !(cli.wants_boot() && cli.wants_gif()),
        !(cli.wants_boot() && cli.wants_frames()),
        !(cli.wants_boot() && cli.wants_settings()),
        !(cli.wants_gif() && cli.wants_frames()),
        !(cli.wants_gif() && cli.wants_settings()),
        !(cli.wants_frames() && cli.wants_settings()),
{
}

/// What the program does.
#[derive(Clone, Copy, Debug, PartialEq, Eq, Structural)]
pub enum Operation {
    UploadBoot,
    PlayGif,
    PlayFrames,
    ApplySettings,
    RunDaemon,
}

/// What the program does with these options.
pub open spec fn operation_of(cli: Cli) -> Operation {
    if cli.wants_boot() {
        Operation::UploadBoot
    } else if cli.wants_gif() {
        Operation::PlayGif
    } else if cli.wants_frames() {
        Operation::PlayFrames
    } else if cli.wants_settings() {
        Operation::ApplySettings
    } else {
        Operation::RunDaemon
    }
}

/// What the program does with these options.
pub fn operation(cli: &Cli) -> (res: Operation)
    ensures
        res == operation_of(*cli),
        res == (if cli.wants_boot() {
            Operation::UploadBoot
        } else if cli.wants_gif() {
            Operation::PlayGif
        } else if cli.wants_frames() {
            Operation::PlayFrames
        } else if cli.wants_settings() {
            Operation::ApplySettings
        } else {
            Operation::RunDaemon
        }),
{
    if cli.upload_boot.is_some() {
        Operation::UploadBoot
    } else if cli.play_live_gif.is_some() {
        Operation::PlayGif
    } else if cli.play_live_frames.len() > 0 {
        Operation::PlayFrames
    } else if cli.upload_standby.is_some() || cli.standby_brightness.is_some()
        || cli.pump_temp_color.is_some() {
        Operation::ApplySettings
    } else {
        Operation::RunDaemon
    }
}

// ── Boot animations ──────────────────────────────────────────────────────────

/// Why a boot animation is not uploaded.
#[derive(Clone, Copy, Debug, PartialEq, Eq, Structural)]
pub enum BootError {
    Device(DeviceError),
    OverLimit,
}

impl BootError {
    /// The text shown for an error.
    pub open spec fn text(self) -> Seq<char> {
        match self {
            BootError::Device(e) => e.text(),
            BootError::OverLimit => "boot container exceeds the conservative 5 MiB limit"@,
        }
    }

    /// The text shown for this error.
    pub fn message(self) -> (res: &'static str)
        ensures
            res@ == self.text(),
    {
        match self {
            BootError::Device(e) => e.message(),
            BootError::OverLimit => "boot container exceeds the conservative 5 MiB limit",
        }
    }
}

/// Puts the frames of a boot animation into a container of at most 5 MiB.
pub fn prepare_boot(frames: &[Vec<u8>]) -> (res: Result<Vec<u8>, BootError>)
    ensures
        match res {
            Ok(c) => boot::boot_error(bytes::blobs(frames@)) is None && c@ == boot::container(
                bytes::blobs(frames@),
            ) && c@.len() <= 5_242_880,
            Err(BootError::Device(e)) => boot::boot_error(bytes::blobs(frames@)) == Some(e),
            Err(BootError::OverLimit) => boot::boot_error(bytes::blobs(frames@)) is None
                && boot::container(bytes::blobs(frames@)).len() > 5_242_880,
        },
{
    match build_boot_container(frames) {
        Ok(c) => if c.len() > MAX_BOOT_CONTAINER_SIZE {
            Err(BootError::OverLimit)
        } else {
            Ok(c)
        },
        Err(e) => Err(BootError::Device(e)),
    }
}

/// How far a live stream has come: the loops that are complete, and the next
/// frame of the loop that is being played.
#[derive(Clone, Copy, Debug)]
pub struct Playback {
    pub complete: usize,
    pub frame: usize,
}

impl Playback {
    /// How many frames of a stream of `frames` frames have been sent.
    pub open spec fn sent(self, frames: nat) -> nat {
        self.complete as nat * frames + self.frame as nat
    }

    /// The state before the first frame.
    pub fn start() -> (res: Playback)
        ensures
            res.complete == 0,
            res.frame == 0,
    {
        Playback { complete: 0, frame: 0 }
    }

    /// Whether a frame is left to be played. Every loop plays all frames, and
    /// there are exactly `loops` of them: a stream of zero loops plays nothing.
    pub open spec fn is_playing(self, frames: nat, loops: nat) -> bool {
        self.complete < loops && self.frame < frames
    }

    /// After the next frame was sent. What follows the last frame of a loop is the
    /// first.
    pub open spec fn advanced(self, frames: nat) -> Playback {
        if self.frame + 1 == frames {
            Playback { complete: (self.complete + 1) as usize, frame: 0 }
        } else {
            Playback { complete: self.complete, frame: (self.frame + 1) as usize }
        }
    }

    /// The position of the frame to send next, or none when all loops are played.
    pub fn next_frame(&mut self, frames: usize, loops: usize) -> (res: Option<usize>)
        ensures
            res == (if old(self).is_playing(frames as nat, loops as nat) {
                Some(old(self).frame)
            } else {
                None
            }),
            *final(self) == (if res is Some {
                old(self).advanced(frames as nat)
            } else {
                *old(self)
            }),
    {
        if self.complete >= loops || self.frame >= frames {
            return None;
        }
        let f: usize = self.frame;
        if f + 1 == frames {
            self.complete = self.complete + 1;
            self.frame = 0;
        } else {
            self.frame = f + 1;
        }
        Some(f)
    }
}

/// A live stream sends its frames in order, `loops` times over: as long as fewer
/// than `frames * loops` have been sent there is a next one, and each step sends
/// one.
pub proof fn law_stream_plays_all_loops(at: Playback, frames: nat, loops: nat)
    requires
        at.frame < frames,
        loops <= usize::MAX,
        frames <= usize::MAX,
    ensures
        at.is_playing(frames, loops) == (at.sent(frames) < frames * loops),
        at.frame == at.sent(frames) % frames,
        at.is_playing(frames, loops) ==> at.advanced(frames).sent(frames) == at.sent(frames) + 1
            && at.advanced(frames).frame < frames,
{
    let c = at.complete as nat;
    let f = at.frame as nat;
    vstd::arithmetic::div_mod::lemma_fundamental_div_mod_converse(
        (c * frames + f) as int,
        frames as int,
        c as int,
        f as int,
    );
    if c < loops {
        assert(c * frames + f < frames * loops) by (nonlinear_arith)
            requires
                c + 1 <= loops,
                f < frames,
        ;
    } else {
        assert(c * frames + f >= frames * loops) by (nonlinear_arith)
            requires
                c >= loops,
        ;
    }
    assert((c + 1) * frames == c * frames + frames) by (nonlinear_arith);
}

/// How many nanoseconds a picture is shown at this many pictures per second, to
/// the nearest.
pub fn frame_period(fps: u8) -> (res: u64)
    requires
        fps > 0,
    ensures
        res == (2_000_000_000 + fps) / (2 * fps as int),
        2 * (res * fps) <= 2_000_000_000 + fps,
        2_000_000_000 - fps < 2 * (res * fps),
{
    let n: u64 = 2_000_000_000 + fps as u64;
    let d: u64 = 2 * fps as u64;
    let res: u64 = n / d;
    proof {
        vstd::arithmetic::div_mod::lemma_fundamental_div_mod(n as int, d as int);
        assert(2 * (res * fps) == d * (n as int / d as int)) by (nonlinear_arith)
            requires
                d == 2 * fps,
                res == n as int / d as int,
        ;
    }
    res
}

/// The time left of a frame that is shown for `period` nanoseconds.
pub fn time_left(period: u64, elapsed: u64) -> (res: u64)
    ensures
        res == (if elapsed < period {
            period - elapsed
        } else {
            0
        }),
{
    if elapsed < period {
        period - elapsed
    } else {
        0
    }
}

// ── Colors ───────────────────────────────────────────────────────────────────

/// The value of a hexadecimal digit.
pub open spec fn hex_value(c: char) -> Option<int> {
    if '0' as u32 <= c as u32 <= '9' as u32 {
        Some(c as u32 - '0' as u32)
    } else if 'a' as u32 <= c as u32 <= 'f' as u32 {
        Some(c as u32 - 'a' as u32 + 10)
    } else if 'A' as u32 <= c as u32 <= 'F' as u32 {
        Some(c as u32 - 'A' as u32 + 10)
    } else {
        None
    }
}

/// The lower-case hexadecimal digit of a value.
pub open spec fn hex_digit(n: int) -> char {
    if n < 10 {
        (n + '0' as u32) as char
    } else {
        (n - 10 + 'a' as u32) as char
    }
}

/// The byte that the digits at `i` and `i + 1` stand for.
pub open spec fn hex_byte(s: Seq<char>, i: int) -> u8 {
    (hex_value(s[i])->0 * 16 + hex_value(s[i + 1])->0) as u8
}

/// A text without a leading `#`.
pub open spec fn without_hash(s: Seq<char>) -> Seq<char> {
    if s.len() > 0 && s[0] == '#' {
        s.skip(1)
    } else {
        s
    }
}

/// Whether a text consists of six hexadecimal digits.
pub open spec fn is_six_digits(t: Seq<char>) -> bool {
    t.len() == 6 && forall|i: int| 0 <= i < 6 ==> hex_value(#[trigger] t[i]) is Some
}

/// The color that six hexadecimal digits stand for, after an optional `#`.
pub open spec fn color_in(s: Seq<char>) -> Option<[u8; 3]> {
    let t = without_hash(s);
    if is_six_digits(t) {
        Some([hex_byte(t, 0), hex_byte(t, 2), hex_byte(t, 4)])
    } else {
        None
    }
}

/// A color as `#rrggbb`.
pub open spec fn color_text(c: [u8; 3]) -> Seq<char> {
    seq![
        '#',
        hex_digit(c[0] as int / 16),
        hex_digit(c[0] as int % 16),
        hex_digit(c[1] as int / 16),
        hex_digit(c[1] as int % 16),
        hex_digit(c[2] as int / 16),
        hex_digit(c[2] as int % 16),
    ]
}

fn hex_of(c: char) -> (res: Option<u8>)
    ensures
        match res {
            Some(v) => hex_value(c) == Some(v as int) && v < 16,
            None => hex_value(c) is None,
        },
{
    let code = c as u32;
    if '0' as u32 <= code && code <= '9' as u32 {
        Some((code - '0' as u32) as u8)
    } else if 'a' as u32 <= code && code <= 'f' as u32 {
        Some((code - 'a' as u32 + 10) as u8)
    } else if 'A' as u32 <= code && code <= 'F' as u32 {
        Some((code - 'A' as u32 + 10) as u8)
    } else {
        None
    }
}

fn digit_of(n: u8) -> (res: char)
    requires
        n < 16,
    ensures
        res == hex_digit(n as int),
{
    if n < 10 {
        (n + 48) as char
    } else {
        (n - 10 + 97) as char
    }
}

/// Reads a color in the form `#RRGGBB`; the `#` may be missing.
pub fn parse_rgb(value: &str) -> (res: Result<[u8; 3], CliError>)
    ensures
        match res {
            Ok(c) => color_in(value@) == Some(c),
            Err(e) => color_in(value@) is None && e == CliError::BadColor,
        },
{
    let chars = chars_of(value);
    let from: usize = if chars.len() > 0 && chars[0] == '#' {
        1
    } else {
        0
    };
    let ghost t = chars@.skip(from as int);
    assert(chars@.skip(0) =~= chars@);
    if chars.len() - from != 6 {
        return Err(CliError::BadColor);
    }
    let mut digits: [u8; 6] = [0, 0, 0, 0, 0, 0];
    let mut i: usize = 0;
    while i < 6
        invariant
            i <= 6,
            from <= 1,
            from + 6 == chars@.len(),
            t == chars@.skip(from as int),
            chars@ == value@,
            t == without_hash(value@),
            forall|k: int|
                0 <= k < i ==> hex_value(#[trigger] t[k]) == Some(digits@[k] as int) && digits@[k] < 16,
        decreases 6 - i,
    {
        assert(chars@[from + i] == t[i as int]);
        match hex_of(chars[from + i]) {
            Some(v) => {
                digits[i] = v;
            },
            None => {
                assert(hex_value(t[i as int]) is None);
                assert(!is_six_digits(t));
                return Err(CliError::BadColor);
            },
        }
        i = i + 1;
    }
    assert(hex_value(t[0]) == Some(digits@[0] as int) && hex_value(t[1]) == Some(digits@[1] as int));
    assert(hex_value(t[2]) == Some(digits@[2] as int) && hex_value(t[3]) == Some(digits@[3] as int));
    assert(hex_value(t[4]) == Some(digits@[4] as int) && hex_value(t[5]) == Some(digits@[5] as int));
    let res: [u8; 3] = [
        digits[0] * 16 + digits[1],
        digits[2] * 16 + digits[3],
        digits[4] * 16 + digits[5],
    ];
    assert(res =~= [hex_byte(t, 0), hex_byte(t, 2), hex_byte(t, 4)]);
    Ok(res)
}

/// Writes a color as `#rrggbb`.
pub fn format_rgb(c: [u8; 3]) -> (res: String)
    ensures
        res@ == color_text(c),
{
    let mut chars: Vec<char> = Vec::new();
    chars.push('#');
    let mut i: usize = 0;
    while i < 3
        invariant
            i <= 3,
            chars@ == color_text(c).take(1 + 2 * i),
        decreases 3 - i,
    {
        chars.push(digit_of(c[i] / 16));
        chars.push(digit_of(c[i] % 16));
        assert(chars@ =~= color_text(c).take(1 + 2 * (i + 1)));
        i = i + 1;
    }
    assert(color_text(c).take(7) =~= color_text(c));
    text::text_of(chars.as_slice())
}

proof fn lemma_hex_digit(n: int)
    requires
        0 <= n < 16,
    ensures
        hex_value(hex_digit(n)) == Some(n),
{
}

/// A color that is written and read back is the same color.
pub proof fn law_color_reads_back(c: [u8; 3])
    ensures
        color_in(color_text(c)) == Some(c),
{
    let s = color_text(c);
    let t = s.skip(1);
    lemma_hex_digit(c[0] as int / 16);
    lemma_hex_digit(c[0] as int % 16);
    lemma_hex_digit(c[1] as int / 16);
    lemma_hex_digit(c[1] as int % 16);
    lemma_hex_digit(c[2] as int / 16);
    lemma_hex_digit(c[2] as int % 16);
    assert(t[0] == s[1] && t[1] == s[2] && t[2] == s[3] && t[3] == s[4] && t[4] == s[5] && t[5]
        == s[6]);
    assert(hex_byte(t, 0) == c[0] && hex_byte(t, 2) == c[1] && hex_byte(t, 4) == c[2]);
    assert([hex_byte(t, 0), hex_byte(t, 2), hex_byte(t, 4)] =~= c);
}

// ── Persistent settings ──────────────────────────────────────────────────────

/// A persistent setting of the display.
#[derive(Clone, Copy, Debug, PartialEq, Eq)]
pub enum Setting {
    /// The color of the standby temperature.
    Color([u8; 3]),
    /// The standby picture.
    Standby,
    Brightness(u8),
}

/// The settings that options ask for, in the order in which they are made. There
/// are none if the color is not a color.
pub open spec fn settings_of(cli: Cli) -> Option<Seq<Setting>> {
    let color = match cli.pump_temp_color {
        Some(s) => match color_in(s@) {
            Some(c) => Some(seq![Setting::Color(c)]),
            None => None,
        },
        None => Some(seq![]),
    };
    let standby = if cli.upload_standby is Some {
        seq![Setting::Standby]
    } else {
        seq![]
    };
    let brightness = match cli.standby_brightness {
        Some(b) => seq![Setting::Brightness(b)],
        None => seq![],
    };
    match color {
        Some(c) => Some(c + standby + brightness),
        None => None,
    }
}

/// The settings that options ask for, in the order in which they are made.
pub fn settings(cli: &Cli) -> (res: Result<Vec<Setting>, CliError>)
    ensures
        match res {
            Ok(v) => settings_of(*cli) == Some(v@),
            Err(e) => settings_of(*cli) is None && e == CliError::BadColor,
        },
{
    let mut res: Vec<Setting> = Vec::new();
    if let Some(value) = &cli.pump_temp_color {
        match parse_rgb(value.as_str()) {
            Ok(c) => res.push(Setting::Color(c)),
            Err(e) => {
                return Err(e);
            },
        }
    }
    if cli.upload_standby.is_some() {
        res.push(Setting::Standby);
    }
    if let Some(b) = cli.standby_brightness {
        res.push(Setting::Brightness(b));
    }
    assert(res@ =~= settings_of(*cli)->0);
    Ok(res)
}

/// A color is staged right before the standby picture is uploaded, which commits
/// it.
pub proof fn law_color_is_staged_before_upload(cli: Cli)
    requires
        cli_error(cli) is None,
        cli.pump_temp_color is Some,
        settings_of(cli) is Some,
    ensures
        settings_of(cli)->0.len() >= 2,
        settings_of(cli)->0[0] is Color,
        settings_of(cli)->0[1] is Standby,
{
}

// ── Writing options ──────────────────────────────────────────────────────────

fn push_arg(out: &mut Vec<String>, arg: &str)
    ensures
        text::texts(final(out)@) == text::texts(old(out)@).push(arg@),
{
    let s = arg.to_string();
    out.push(s);
    assert(text::texts(out@) =~= text::texts(old(out)@).push(arg@));
}

/// Options that read the status of the display.
pub fn status_args() -> (res: Vec<String>)
    ensures
        text::texts(res@) == seq!["--status"@],
{
    let mut res: Vec<String> = Vec::new();
    assert(text::texts(res@) =~= Seq::empty());
    push_arg(&mut res, "--status");
    res
}

/// Options that set the brightness.
pub fn brightness_args(brightness: u8) -> (res: Vec<String>)
    ensures
        text::texts(res@) == seq!["--standby-brightness"@, text::decimal(brightness as nat)],
{
    let mut res: Vec<String> = Vec::new();
    assert(text::texts(res@) =~= Seq::empty());
    push_arg(&mut res, "--standby-brightness");
    push_arg(&mut res, number_text(brightness as u64).as_str());
    res
}

/// Options that upload a standby picture with a color.
pub fn standby_args(path: &str, color: [u8; 3]) -> (res: Vec<String>)
    ensures
        text::texts(res@) == seq![
            "--upload-standby"@,
            path@,
            "--pump-temp-color"@,
            color_text(color),
        ],
{
    let mut res: Vec<String> = Vec::new();
    assert(text::texts(res@) =~= Seq::empty());
    push_arg(&mut res, "--upload-standby");
    push_arg(&mut res, path);
    push_arg(&mut res, "--pump-temp-color");
    push_arg(&mut res, format_rgb(color).as_str());
    res
}

/// Options that upload a boot animation.
pub fn boot_args(path: &str) -> (res: Vec<String>)
    ensures
        text::texts(res@) == seq!["--upload-boot"@, path@],
{
    let mut res: Vec<String> = Vec::new();
    assert(text::texts(res@) =~= Seq::empty());
    push_arg(&mut res, "--upload-boot");
    push_arg(&mut res, path);
    res
}

/// The number of loops that is passed on: zero where the user asked to play until
/// stopped.
pub open spec fn loops_text(forever: bool, loops: nat) -> Seq<char> {
    if forever {
        "0"@
    } else {
        text::decimal(loops)
    }
}

fn push_loops(out: &mut Vec<String>, forever: bool, loops: u64)
    ensures
        text::texts(final(out)@) == text::texts(old(out)@).push("--live-loops"@).push(
            loops_text(forever, loops as nat),
        ),
{
    push_arg(out, "--live-loops");
    if forever {
        push_arg(out, "0");
    } else {
        push_arg(out, number_text(loops).as_str());
    }
}

/// Options that play an animation.
pub fn live_gif_args(path: &str, forever: bool, loops: u64, brightness: u8) -> (res: Vec<String>)
    ensures
        text::texts(res@) == seq![
            "--play-live-gif"@,
            path@,
            "--live-loops"@,
            loops_text(forever, loops as nat),
            "--live-brightness"@,
            text::decimal(brightness as nat),
        ],
{
    let mut res: Vec<String> = Vec::new();
    assert(text::texts(res@) =~= Seq::empty());
    push_arg(&mut res, "--play-live-gif");
    push_arg(&mut res, path);
    push_loops(&mut res, forever, loops);
    push_arg(&mut res, "--live-brightness");
    push_arg(&mut res, number_text(brightness as u64).as_str());
    res
}

/// Options that play single pictures.
pub fn live_frames_args(
    paths: &[String],
    fps: u8,
    forever: bool,
    loops: u64,
    brightness: u8,
) -> (res: Vec<String>)
    ensures
        text::texts(res@) == seq!["--play-live-frames"@] + text::texts(paths@) + seq![
            "--live-fps"@,
            text::decimal(fps as nat),
            "--live-loops"@,
            loops_text(forever, loops as nat),
            "--live-brightness"@,
            text::decimal(brightness as nat),
        ],
{
    let ghost all = text::texts(paths@);
    let mut res: Vec<String> = Vec::new();
    assert(text::texts(res@) =~= Seq::empty());
    push_arg(&mut res, "--play-live-frames");
    let mut i: usize = 0;
    assert(text::texts(res@) =~= seq!["--play-live-frames"@] + all.take(0));
    while i < paths.len()
        invariant
            i <= paths@.len(),
            all == text::texts(paths@),
            text::texts(res@) == seq!["--play-live-frames"@] + all.take(i as int),
        decreases paths@.len() - i,
    {
        push_arg(&mut res, paths[i].as_str());
        assert(text::texts(res@) =~= seq!["--play-live-frames"@] + all.take(i + 1));
        i = i + 1;
    }
    assert(all.take(i as int) =~= all);
    push_arg(&mut res, "--live-fps");
    push_arg(&mut res, number_text(fps as u64).as_str());
    push_loops(&mut res, forever, loops);
    push_arg(&mut res, "--live-brightness");
    push_arg(&mut res, number_text(brightness as u64).as_str());
    assert(text::texts(res@) =~= seq!["--play-live-frames"@] + all + seq![
        "--live-fps"@,
        text::decimal(fps as nat),
        "--live-loops"@,
        loops_text(forever, loops as nat),
        "--live-brightness"@,
        text::decimal(brightness as nat),
    ]);
    res
}

// ── Laws ─────────────────────────────────────────────────────────────────────

/// How many of the four kinds of operations are asked for.
pub open spec fn asked_for(cli: Cli) -> int {
    (if cli.upload_boot is Some {
        1int
    } else {
        0
    }) + (if cli.play_live_gif is Some {
        1int
    } else {
        0
    }) + (if cli.play_live_frames@.len() > 0 {
        1int
    } else {
        0
    }) + (if cli.upload_standby is Some || cli.standby_brightness is Some
        || cli.pump_temp_color is Some {
        1int
    } else {
        0
    })
}

/// Options are accepted exactly if they ask for no more than one kind of
/// operation, and give a color only with a standby picture.
pub proof fn law_which_options_are_accepted(cli: Cli)
    ensures
        cli_error(cli) is None <==> asked_for(cli) <= 1 && (cli.pump_temp_color is Some
            ==> cli.upload_standby is Some),
{
}

/// Each refusal tells what is wrong: a color that nothing commits, a boot animation
/// beside anything else, two ways of playing, or playing beside lasting settings.
pub proof fn law_refusal_tells_why(cli: Cli)
    ensures
        cli_error(cli) == Some(CliError::ColorWithoutStandby) ==> cli.pump_temp_color is Some
            && cli.upload_standby is None,
        cli_error(cli) == Some(CliError::BootWithOthers) ==> cli.upload_boot is Some && asked_for(
            cli,
        ) >= 2,
        cli_error(cli) == Some(CliError::FramesAndGif) ==> cli.play_live_gif is Some
            && cli.play_live_frames@.len() > 0 && cli.upload_boot is None,
        cli_error(cli) == Some(CliError::LiveWithSettings) ==> (cli.play_live_gif is Some
            || cli.play_live_frames@.len() > 0) && (cli.upload_standby is Some
            || cli.standby_brightness is Some) && cli.upload_boot is None,
        cli_error(cli) != Some(CliError::BadColor),
        cli_error(cli) != Some(CliError::GifWithoutFrames),
{
}

/// The first two digits of a color are its red part, the next two its green and
/// the last two its blue part, the higher digit first, in either case.
pub proof fn law_color_digits(s: Seq<char>, k: int)
    requires
        0 <= k < 3,
        color_in(s) is Some,
    ensures
        s.len() == 7 && s[0] == '#' || s.len() == 6,
        ({
            let at = s.len() - 6 + 2 * k;
            let c = color_in(s)->0[k];
            &&& is_hex(s[at], c as int / 16)
            &&& is_hex(s[at + 1], c as int % 16)
        }),
{
    let t = without_hash(s);
    let at = s.len() - 6 + 2 * k;
    assert(t[2 * k] == s[at] && t[2 * k + 1] == s[at + 1]);
    assert(hex_value(t[2 * k]) is Some && hex_value(t[2 * k + 1]) is Some);
    let a = hex_value(t[2 * k])->0;
    let b = hex_value(t[2 * k + 1])->0;
    assert(0 <= a < 16 && 0 <= b < 16);
    assert(color_in(s)->0[k] == hex_byte(t, 2 * k));
    assert(hex_byte(t, 2 * k) == a * 16 + b);
}

/// Whether a character is the hexadecimal digit `n`: of the ten digits, which begin
/// at 48, or of the letters, which begin at 97 and at 65.
pub open spec fn is_hex(c: char, n: int) -> bool {
    let code = c as u32;
    if n < 10 {
        0 <= n && code == 48 + n
    } else {
        n < 16 && (code == 97 + (n - 10) || code == 65 + (n - 10))
    }
}

/// The settings that are applied are those that are given, each once: the color
/// before the standby picture that commits it, the brightness last.
pub proof fn law_given_settings_are_applied(cli: Cli, b: u8)
    requires
        settings_of(cli) is Some,
    ensures
        ({
            let s = settings_of(cli)->0;
            &&& s.contains(Setting::Brightness(b)) <==> cli.standby_brightness == Some(b)
            &&& s.contains(Setting::Standby) <==> cli.upload_standby is Some
            &&& forall|c: [u8; 3]|
                #[trigger] s.contains(Setting::Color(c)) <==> cli.pump_temp_color is Some
                    && color_in(cli.pump_temp_color->0@) == Some(c)
            &&& s.no_duplicates()
            &&& cli.standby_brightness is Some ==> s.last() is Brightness
        }),
{
    let s = settings_of(cli)->0;
    let n = s.len() as int;
    if cli.standby_brightness is Some {
        assert(s[n - 1] == Setting::Brightness(cli.standby_brightness->0));
    }
    if cli.upload_standby is Some {
        let at: int = if cli.pump_temp_color is Some {
            1
        } else {
            0
        };
        assert(s[at] == Setting::Standby);
    }
    if cli.pump_temp_color is Some {
        assert(s[0] == Setting::Color(color_in(cli.pump_temp_color->0@)->0));
    }
}

/// Whether an option is given with this value.
pub open spec fn has_option(words: Seq<Seq<char>>, name: Seq<char>, value: Seq<char>) -> bool {
    exists|i: int|
        0 <= i < words.len() - 1 && #[trigger] words[i] == name && words[i + 1] == value
}

/// The program does what the options ask for, and without any runs as the daemon.
pub proof fn law_program_does_what_is_asked(cli: Cli)
    requires
        cli_error(cli) is None,
    ensures
        operation_of(cli) == Operation::UploadBoot <==> cli.upload_boot is Some,
        operation_of(cli) == Operation::PlayGif <==> cli.play_live_gif is Some,
        operation_of(cli) == Operation::PlayFrames <==> cli.play_live_frames@.len() > 0,
        operation_of(cli) == Operation::ApplySettings <==> cli.upload_standby is Some
            || cli.standby_brightness is Some || cli.pump_temp_color is Some,
        operation_of(cli) == Operation::RunDaemon <==> asked_for(cli) == 0,
{
}

} // verus!
