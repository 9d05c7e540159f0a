//! Pictures and animations.

use crate::text;
use crate::text::number_text;
use vstd::prelude::*;

verus! {

// ── Pictures ─────────────────────────────────────────────────────────────────

/// A picture with three bytes per pixel, row by row.
#[derive(Clone, Debug)]
pub struct Canvas {
    pub width: u32,
    pub height: u32,
    pub pixels: Vec<u8>,
}

/// What a `Canvas` holds.
#[verifier::ext_equal]
pub struct CanvasView {
    pub width: nat,
    pub height: nat,
    pub pixels: Seq<u8>,
}

impl View for Canvas {
    type V = CanvasView;

    open spec fn view(&self) -> CanvasView {
        CanvasView {
            width: self.width as nat,
            height: self.height as nat,
            pixels: self.pixels@,
        }
    }
}

impl CanvasView {
    /// There are as many bytes as the size asks for.
    pub open spec fn wf(self) -> bool {
        self.pixels.len() == self.width * self.height * 3
    }
}

/// A picture of one color.
pub open spec fn plain(width: nat, height: nat, color: [u8; 3]) -> CanvasView {
    CanvasView {
        width,
        height,
        pixels: Seq::new(width * height * 3, |i: int| color[i % 3]),
    }
}

impl Canvas {
    /// A picture of one color.
    pub fn from_pixel(width: u32, height: u32, color: [u8; 3]) -> (res: Canvas)
        requires
            width * height * 3 <= usize::MAX,
        ensures
            res@ == plain(width as nat, height as nat, color),
            res@.wf(),
    {
        proof {
            assert(width * height * 3 == (width * height) * 3);
            assert(0 <= width * height) by (nonlinear_arith)
                requires
                    width >= 0,
                    height >= 0,
            ;
        }
        let count: usize = if width == 0 || height == 0 {
            proof {
                assert(width * height == 0) by (nonlinear_arith)
                    requires
                        width == 0 || height == 0,
                ;
            }
            0
        } else {
            proof {
                assert(width <= width * height && height <= width * height) by (nonlinear_arith)
                    requires
                        width >= 1,
                        height >= 1,
                ;
            }
            width as usize * height as usize * 3
        };
        let mut pixels: Vec<u8> = Vec::new();
        let ghost all = plain(width as nat, height as nat, color).pixels;
        let mut i: usize = 0;
        while i < count
            invariant
                i <= count,
                count == all.len(),
                all == plain(width as nat, height as nat, color).pixels,
                pixels@ == all.take(i as int),
            decreases count - i,
        {
            pixels.push(color[i % 3]);
            i = i + 1;
            assert(pixels@ =~= all.take(i as int));
        }
        assert(all.take(i as int) =~= all);
        Canvas { width, height, pixels }
    }
}

// ── Errors ───────────────────────────────────────────────────────────────────

/// An error of the `image` crate.
#[verifier::external_type_specification]
#[verifier::external_body]
pub struct ExImageError(image::ImageError);

/// An error of the `jpeg_encoder` crate.
#[verifier::external_type_specification]
#[verifier::external_body]
pub struct ExEncodingError(jpeg_encoder::EncodingError);

/// Why a picture or an animation cannot be used.
#[derive(Clone, Debug)]
pub enum MediaError {
    /// The animation cannot be decoded; the text says why.
    Decode(String),
    /// A picture cannot be encoded; the text says why.
    Encode(String),
    InexactDelay,
    ShortDelay,
    MixedDelays,
    NoBootFrames,
    NoFrames,
}

/// The errors that a list of delays can cause.
#[derive(Clone, Copy, Debug, PartialEq, Eq, Structural)]
pub enum DelayError {
    Inexact,
    Short,
    Mixed,
    Missing,
}

impl MediaError {
    /// Whether this error stands for an error of the delays.
    pub open spec fn is_delay_error(self, e: DelayError) -> bool {
        match e {
            DelayError::Inexact => self is InexactDelay,
            DelayError::Short => self is ShortDelay,
            DelayError::Mixed => self is MixedDelays,
            DelayError::Missing => self is NoBootFrames,
        }
    }

    /// The text shown for an error.
    pub open spec fn text(self) -> Seq<char> {
        match self {
            MediaError::Decode(s) => s@,
            MediaError::Encode(s) => s@,
            MediaError::InexactDelay => {
                "boot GIF frame delays must be an exact number of milliseconds"@
            },
            MediaError::ShortDelay => "boot GIF frame delay must be at least 80 ms"@,
            MediaError::MixedDelays => "boot GIF must use one uniform frame delay"@,
            MediaError::NoBootFrames => "boot GIF has no frames"@,
            MediaError::NoFrames => "GIF contains no frames"@,
        }
    }

    /// The text shown for this error.
    pub fn message(&self) -> (res: String)
        ensures
            res@ == self.text(),
    {
        match self {
            MediaError::Decode(s) => s.clone(),
            MediaError::Encode(s) => s.clone(),
            MediaError::InexactDelay => {
                "boot GIF frame delays must be an exact number of milliseconds".to_string()
            },
            MediaError::ShortDelay => "boot GIF frame delay must be at least 80 ms".to_string(),
            MediaError::MixedDelays => "boot GIF must use one uniform frame delay".to_string(),
            MediaError::NoBootFrames => "boot GIF has no frames".to_string(),
            MediaError::NoFrames => "GIF contains no frames".to_string(),
        }
    }
}

/// `image::ImageError`'s `Display`: a text for an error. Nothing is claimed of
/// the text.
#[verifier::external_body]
fn image_error_text(e: &image::ImageError) -> (res: String)
{
    e.to_string()
}

/// `jpeg_encoder::EncodingError`'s `Display`: a text for an error. Nothing is
/// claimed of the text.
#[verifier::external_body]
fn encoding_error_text(e: &jpeg_encoder::EncodingError) -> (res: String)
{
    e.to_string()
}

// ── Scaling ──────────────────────────────────────────────────────────────────

/// Whether the pixels `result` are what `image::imageops::resize` with the Lanczos
/// filter can make of a picture at the size `w` by `h`. The pixels may differ
/// from machine to machine, so there can be more than one such result.
pub uninterp spec fn may_scale_to(
    width: nat,
    height: nat,
    pixels: Seq<u8>,
    w: nat,
    h: nat,
    result: Seq<u8>,
) -> bool;

/// What holds of every picture that `source` can become when it is scaled to
/// the given size.
pub open spec fn is_scaled(source: CanvasView, result: CanvasView, w: nat, h: nat) -> bool {
    &&& may_scale_to(source.width, source.height, source.pixels, w, h, result.pixels)
    &&& result.width == w
    &&& result.height == h
    &&& result.wf()
    &&& source.width == w && source.height == h ==> result == source
    &&& (source.width == 0 || source.height == 0) ==> result == plain(w, h, [0, 0, 0])
}

/// Whether scaling to this size computes new pixels, rather than copying or
/// leaving black.
pub open spec fn is_resampled(source: CanvasView, w: nat, h: nat) -> bool {
    source.width != 0 && source.height != 0 && (source.width != w || source.height != h)
}

/// Whether no side is longer than the longest range of whole numbers that single
/// precision holds exactly.
pub open spec fn has_exact_sides(source: CanvasView, w: nat, h: nat) -> bool {
    source.width <= 0x100_0000 && source.height <= 0x100_0000 && w <= 0x100_0000 && h <= 0x100_0000
}

/// Whether a picture can be scaled to this size: no more memory is needed than
/// can be addressed, and positions in the picture can be told apart.
pub open spec fn can_scale(source: CanvasView, w: nat, h: nat) -> bool {
    &&& source.width * h * 16 <= isize::MAX
    &&& w * h * 12 <= isize::MAX
    &&& is_resampled(source, w, h) ==> has_exact_sides(source, w, h)
}

/// Tests whether a picture can be scaled to this size.
pub fn is_scalable(source: &Canvas, width: u32, height: u32) -> (res: bool)
    ensures
        res == can_scale(source@, width as nat, height as nat),
{
    let limit: u128 = isize::MAX as u128;
    assert(source.width * height <= 0xffff_ffff * 0xffff_ffff) by (nonlinear_arith)
        requires
            source.width <= 0xffff_ffff,
            height <= 0xffff_ffff,
    ;
    assert(width * height <= 0xffff_ffff * 0xffff_ffff) by (nonlinear_arith)
        requires
            width <= 0xffff_ffff,
            height <= 0xffff_ffff,
    ;
    let rows: u128 = source.width as u128 * height as u128 * 16;
    let result: u128 = width as u128 * height as u128 * 12;
    let resampled: bool = source.width != 0 && source.height != 0 && (source.width != width
        || source.height != height);
    let exact: bool = source.width <= 0x100_0000 && source.height <= 0x100_0000 && width
        <= 0x100_0000 && height <= 0x100_0000;
    rows <= limit && result <= limit && (exact || !resampled)
}

/// `image::imageops::resize` with the Lanczos filter. The result has the size
/// that was asked for; a picture that has it already is copied, and one without
/// pixels becomes black. The pixels are one of the results that
/// `may_scale_to` names; which one rests on the sine function of the machine and
/// is left unsaid. Positions are computed in single precision: on sides beyond
/// 2 to the power of 24 all weights can be zero and the call panics, so such
/// pictures are left out unless nothing is resampled.
#[verifier::external_body]
fn resize_lanczos(source: &Canvas, width: u32, height: u32) -> (res: Canvas)
    requires
        source@.wf(),
        0 < width,
        0 < height,
        can_scale(source@, width as nat, height as nat),
    ensures
        may_scale_to(
            source@.width,
            source@.height,
            source@.pixels,
            width as nat,
            height as nat,
            res@.pixels,
        ),
        is_scaled(source@, res@, width as nat, height as nat),
{
    let pixels = source.pixels.clone();
    let image = image::RgbImage::from_raw(source.width, source.height, pixels).unwrap_or_default();
    let filter = image::imageops::FilterType::Lanczos3;
    let scaled = image::imageops::resize(&image, width, height, filter);
    Canvas { width: scaled.width(), height: scaled.height(), pixels: scaled.into_raw() }
}

/// Scales a picture.
pub fn resize(source: &Canvas, width: u32, height: u32) -> (res: Canvas)
    requires
        source@.wf(),
        0 < width,
        0 < height,
        can_scale(source@, width as nat, height as nat),
    ensures
        is_scaled(source@, res@, width as nat, height as nat),
{
    resize_lanczos(source, width, height)
}

// ── Encoding ─────────────────────────────────────────────────────────────────

/// The JPEG file that the `image` crate makes of a picture with its default
/// quality.
pub uninterp spec fn jpeg_of(width: nat, height: nat, pixels: Seq<u8>) -> Seq<u8>;

/// `image::ImageBuffer::write_to` with the JPEG format: the JPEG file of a
/// picture. A picture of 1 to 65535 pixels each way can always be encoded into
/// memory.
#[verifier::external_body]
fn write_jpeg(source: &Canvas) -> (res: Result<Vec<u8>, image::ImageError>)
    requires
        source@.wf(),
        1 <= source.width <= 65535,
        1 <= source.height <= 65535,
    ensures
        res is Ok,
        res->Ok_0@ == jpeg_of(source@.width, source@.height, source@.pixels),
{
    let pixels = source.pixels.clone();
    let image = image::RgbImage::from_raw(source.width, source.height, pixels).unwrap_or_default();
    let mut encoded = std::io::Cursor::new(Vec::new());
    image.write_to(&mut encoded, image::ImageFormat::Jpeg)?;
    Ok(encoded.into_inner())
}

/// The JPEG file that the `jpeg_encoder` crate makes of a picture with quality
/// 75 and 4:2:0 subsampling.
pub uninterp spec fn boot_jpeg_of(width: nat, height: nat, pixels: Seq<u8>) -> Seq<u8>;

/// `jpeg_encoder::Encoder::encode` with quality 75 and 4:2:0 subsampling: the
/// JPEG file of a picture. A picture of 1 to 65535 pixels each way can always
/// be encoded into memory.
#[verifier::external_body]
fn write_boot_jpeg(pixels: &[u8], width: u16, height: u16) -> (res: Result<
    Vec<u8>,
    jpeg_encoder::EncodingError,
>)
    requires
        1 <= width,
        1 <= height,
        pixels@.len() == width * height * 3,
    ensures
        res is Ok,
        res->Ok_0@ == boot_jpeg_of(width as nat, height as nat, pixels@),
{
    let mut encoded = Vec::new();
    let mut encoder = jpeg_encoder::Encoder::new(&mut encoded, 75);
    encoder.set_sampling_factor(jpeg_encoder::SamplingFactor::F_2_2);
    encoder.encode(pixels, width, height, jpeg_encoder::ColorType::Rgb)?;
    Ok(encoded)
}

/// The JPEG file of a picture, for the display.
pub fn encode_canvas(source: &Canvas) -> (res: Result<Vec<u8>, MediaError>)
    requires
        source@.wf(),
        1 <= source.width <= 65535,
        1 <= source.height <= 65535,
    ensures
        res matches Ok(b) && b@ == jpeg_of(source@.width, source@.height, source@.pixels),
{
    match write_jpeg(source) {
        Ok(b) => Ok(b),
        Err(e) => Err(MediaError::Encode(image_error_text(&e))),
    }
}

/// The JPEG file of a picture, for a boot animation.
pub fn encode_boot_canvas(source: &Canvas) -> (res: Result<Vec<u8>, MediaError>)
    requires
        source@.wf(),
        1 <= source.width <= 65535,
        1 <= source.height <= 65535,
    ensures
        res matches Ok(b) && b@ == boot_jpeg_of(source@.width, source@.height, source@.pixels),
{
    match write_boot_jpeg(source.pixels.as_slice(), source.width as u16, source.height as u16) {
        Ok(b) => Ok(b),
        Err(e) => Err(MediaError::Encode(encoding_error_text(&e))),
    }
}

/// Whether `jpeg` is a JPEG file of `source` scaled to the display.
pub open spec fn is_display_jpeg(source: CanvasView, jpeg: Seq<u8>) -> bool {
    exists|c: CanvasView|
        #[trigger] is_scaled(source, c, 480, 480) && jpeg == jpeg_of(480, 480, c.pixels)
}

/// Whether `jpeg` is a JPEG file of `source` scaled to the display, in the
/// format of boot animations.
pub open spec fn is_boot_jpeg(source: CanvasView, jpeg: Seq<u8>) -> bool {
    exists|c: CanvasView|
        #[trigger] is_scaled(source, c, 480, 480) && jpeg == boot_jpeg_of(480, 480, c.pixels)
}

/// Scales a picture to the display and encodes it.
pub fn encode_rgb_jpeg(source: &Canvas) -> (res: Result<Vec<u8>, MediaError>)
    requires
        source@.wf(),
        can_scale(source@, 480, 480),
    ensures
        res matches Ok(b) && is_display_jpeg(source@, b@),
{
    let scaled = resize_lanczos(source, 480, 480);
    encode_canvas(&scaled)
}

/// Scales a picture to the display and encodes it for a boot animation.
pub fn encode_boot_jpeg(source: &Canvas) -> (res: Result<Vec<u8>, MediaError>)
    requires
        source@.wf(),
        can_scale(source@, 480, 480),
    ensures
        res matches Ok(b) && is_boot_jpeg(source@, b@),
{
    let scaled = resize_lanczos(source, 480, 480);
    encode_boot_canvas(&scaled)
}

// ── Animations ───────────────────────────────────────────────────────────────

/// A frame of an animation: four bytes per pixel, and how many milliseconds it
/// is shown, as a fraction.
#[derive(Clone, Debug)]
pub struct RawFrame {
    pub width: u32,
    pub height: u32,
    pub rgba: Vec<u8>,
    pub numer: u32,
    pub denom: u32,
}

/// What a `RawFrame` holds.
pub struct RawFrameView {
    pub width: nat,
    pub height: nat,
    pub rgba: Seq<u8>,
    pub numer: nat,
    pub denom: nat,
}

impl View for RawFrame {
    type V = RawFrameView;

    open spec fn view(&self) -> RawFrameView {
        RawFrameView {
            width: self.width as nat,
            height: self.height as nat,
            rgba: self.rgba@,
            numer: self.numer as nat,
            denom: self.denom as nat,
        }
    }
}

impl RawFrameView {
    /// There are as many bytes as the size asks for, and the size is one that
    /// an animation can have.
    pub open spec fn wf(self) -> bool {
        self.width <= 65535 && self.height <= 65535 && self.rgba.len() == self.width * self.height * 4
    }
}

/// What a list of frames holds.
pub open spec fn frame_views(v: Seq<RawFrame>) -> Seq<RawFrameView> {
    Seq::new(v.len(), |i: int| v[i]@)
}

/// Whether every frame is well formed.
pub open spec fn frames_wf(frames: Seq<RawFrameView>) -> bool {
    forall|i: int| 0 <= i < frames.len() ==> (#[trigger] frames[i]).wf()
}

/// The frames of the GIF file `data`, if it can be decoded.
pub uninterp spec fn gif_frames_of(data: Seq<u8>) -> Option<Seq<RawFrameView>>;

/// `image::codecs::gif::GifDecoder` with `Frames::collect_frames`: the frames
/// of a GIF file, each composed to the size of the whole picture, which has at
/// most 65535 pixels each way.
#[verifier::external_body]
fn gif_frames(data: &[u8]) -> (res: Result<Vec<RawFrame>, image::ImageError>)
    ensures
        match res {
            Ok(f) => gif_frames_of(data@) == Some(frame_views(f@)) && frames_wf(frame_views(f@)),
            Err(_) => gif_frames_of(data@) is None,
        },
{
    let decoder = image::codecs::gif::GifDecoder::new(std::io::Cursor::new(data))?;
    let frames = image::AnimationDecoder::into_frames(decoder).collect_frames()?;
    let convert = |frame: image::Frame| {
        let (numer, denom) = frame.delay().numer_denom_ms();
        let buffer = frame.into_buffer();
        let (width, height) = buffer.dimensions();
        RawFrame { width, height, rgba: buffer.into_raw(), numer, denom }
    };
    Ok(frames.into_iter().map(convert).collect())
}

/// The colors of a frame, without transparency.
pub open spec fn opaque_view(f: RawFrameView) -> CanvasView {
    CanvasView {
        width: f.width,
        height: f.height,
        pixels: Seq::new(f.width * f.height * 3, |i: int| f.rgba[i / 3 * 4 + i % 3]),
    }
}

/// Drops the transparency of a frame.
fn opaque_of(f: &RawFrame) -> (res: Canvas)
    requires
        f@.wf(),
    ensures
        res@ == opaque_view(f@),
        res@.wf(),
{
    let n = f.rgba.len() / 4;
    let ghost all = opaque_view(f@).pixels;
    proof {
        assert(f@.width * f@.height * 4 == 4 * (f@.width * f@.height));
        assert(f@.width * f@.height * 3 == 3 * (f@.width * f@.height));
    }
    let mut pixels: Vec<u8> = Vec::new();
    let mut i: usize = 0;
    while i < n
        invariant
            i <= n,
            f.rgba@.len() == 4 * n,
            all == opaque_view(f@).pixels,
            all.len() == 3 * n,
            pixels@ == all.take(3 * i),
        decreases n - i,
    {
        assert(f.rgba.len() <= usize::MAX);
        pixels.push(f.rgba[4 * i]);
        pixels.push(f.rgba[4 * i + 1]);
        pixels.push(f.rgba[4 * i + 2]);
        proof {
            assert((3 * i) / 3 * 4 + (3 * i) % 3 == 4 * i);
            assert((3 * i + 1) / 3 * 4 + (3 * i + 1) % 3 == 4 * i + 1);
            assert((3 * i + 2) / 3 * 4 + (3 * i + 2) % 3 == 4 * i + 2);
        }
        assert(pixels@ =~= all.take(3 * (i + 1)));
        i = i + 1;
    }
    assert(all.take(3 * n) =~= all);
    Canvas { width: f.width, height: f.height, pixels }
}

proof fn lemma_frame_can_scale(f: RawFrameView)
    requires
        f.wf(),
    ensures
        can_scale(opaque_view(f), 480, 480),
{
    assert(isize::MAX >= 0x7fff_ffff);
    assert(f.width * 480 * 16 <= 65535 * 7680) by (nonlinear_arith)
        requires
            f.width <= 65535,
    ;
}

/// How long a frame of a live animation is shown.
#[derive(Clone, Copy, Debug, PartialEq, Eq, Structural)]
pub enum FrameDelay {
    /// The usual time: 100 milliseconds.
    Usual,
    /// This many milliseconds.
    Fraction { numer: u32, denom: u32 },
}

/// A frame of a live animation.
#[derive(Clone, Debug)]
pub struct LiveFrame {
    pub jpeg: Vec<u8>,
    pub delay: FrameDelay,
}

/// How long a frame is shown.
pub open spec fn delay_of(f: RawFrameView) -> FrameDelay {
    if f.denom == 0 {
        FrameDelay::Usual
    } else {
        FrameDelay::Fraction { numer: f.numer as u32, denom: f.denom as u32 }
    }
}

/// Whether `live` is the frame `f`, ready for the display.
pub open spec fn is_live_frame(f: RawFrameView, live: LiveFrame) -> bool {
    live.delay == delay_of(f) && is_display_jpeg(opaque_view(f), live.jpeg@)
}

/// Prepares the frames of a live animation.
pub fn live_frames(frames: &[RawFrame]) -> (res: Result<Vec<LiveFrame>, MediaError>)
    requires
        frames_wf(frame_views(frames@)),
    ensures
        res matches Ok(live) && live@.len() == frames@.len() && (forall|i: int|
            0 <= i < live@.len() ==> is_live_frame(frames@[i]@, #[trigger] live@[i])),
{
    let ghost all = frame_views(frames@);
    let mut res: Vec<LiveFrame> = Vec::new();
    let mut i: usize = 0;
    while i < frames.len()
        invariant
            i <= frames@.len(),
            all == frame_views(frames@),
            frames_wf(all),
            res@.len() == i,
            forall|k: int| 0 <= k < i ==> is_live_frame(frames@[k]@, #[trigger] res@[k]),
        decreases frames@.len() - i,
    {
        let f = &frames[i];
        assert(all[i as int] == f@);
        proof {
            lemma_frame_can_scale(f@);
        }
        let delay = if f.denom == 0 {
            FrameDelay::Usual
        } else {
            FrameDelay::Fraction { numer: f.numer, denom: f.denom }
        };
        let canvas = opaque_of(f);
        let jpeg = match encode_rgb_jpeg(&canvas) {
            Ok(b) => b,
            Err(e) => {
                return Err(e);
            },
        };
        res.push(LiveFrame { jpeg, delay });
        i = i + 1;
    }
    Ok(res)
}

/// Decodes an animation for live playback.
pub fn decode_gif(data: &[u8]) -> (res: Result<Vec<LiveFrame>, MediaError>)
    ensures
        match res {
            Ok(live) => gif_frames_of(data@) matches Some(f) && live@.len() == f.len() && (forall|
                i: int,
            |
                0 <= i < live@.len() ==> is_live_frame(f[i], #[trigger] live@[i])),
            Err(e) => gif_frames_of(data@) is None && e is Decode,
        },
{
    match gif_frames(data) {
        Ok(frames) => {
            let res = live_frames(frames.as_slice());
            proof {
                let f = frame_views(frames@);
                let live = res->Ok_0@;
                assert forall|i: int| 0 <= i < live.len() implies is_live_frame(
                    f[i],
                    #[trigger] live[i],
                ) by {
                    assert(f[i] == frames@[i]@);
                }
            }
            res
        },
        Err(e) => Err(MediaError::Decode(image_error_text(&e))),
    }
}

// ── Boot animations ──────────────────────────────────────────────────────────

/// The delay of one frame of a boot animation, in milliseconds.
pub open spec fn exact_delay(f: RawFrameView) -> Result<nat, DelayError> {
    if f.denom == 0 || f.numer % f.denom != 0 {
        Err(DelayError::Inexact)
    } else if f.numer / f.denom < 80 {
        Err(DelayError::Short)
    } else {
        Ok(f.numer / f.denom)
    }
}

/// The delay that the first `n` frames have in common. The first frame that
/// breaks a rule decides which error is reported.
pub open spec fn common_delay(frames: Seq<RawFrameView>, n: int) -> Result<Option<nat>, DelayError>
    decreases n,
{
    if n <= 0 {
        Ok(None)
    } else {
        match common_delay(frames, n - 1) {
            Err(e) => Err(e),
            Ok(before) => match exact_delay(frames[n - 1]) {
                Err(e) => Err(e),
                Ok(d) => if before matches Some(b) && b != d {
                    Err(DelayError::Mixed)
                } else {
                    Ok(Some(d))
                },
            },
        }
    }
}

/// The delay of a boot animation.
pub open spec fn boot_delay(frames: Seq<RawFrameView>) -> Result<nat, DelayError> {
    match common_delay(frames, frames.len() as int) {
        Err(e) => Err(e),
        Ok(None) => Err(DelayError::Missing),
        Ok(Some(d)) => Ok(d),
    }
}

/// A boot animation: its encoded frames and how long each is shown.
#[derive(Clone, Debug)]
pub struct BootAnimation {
    pub frames: Vec<Vec<u8>>,
    pub delay_ms: u32,
}

/// Whether `a` is the boot animation made of these frames.
pub open spec fn is_boot_animation(frames: Seq<RawFrameView>, a: BootAnimation) -> bool {
    &&& boot_delay(frames) == Ok::<nat, DelayError>(a.delay_ms as nat)
    &&& a.frames@.len() == frames.len()
    &&& forall|i: int|
        0 <= i < frames.len() ==> is_boot_jpeg(opaque_view(frames[i]), (#[trigger] a.frames@[i])@)
}

proof fn lemma_delay_error(frames: Seq<RawFrameView>, n: int, m: int)
    requires
        0 <= n <= m,
        common_delay(frames, n) is Err,
    ensures
        common_delay(frames, m) == common_delay(frames, n),
    decreases m,
{
    if n < m {
        lemma_delay_error(frames, n, m - 1);
    }
}

/// Prepares the frames of a boot animation.
pub fn boot_frames(frames: &[RawFrame]) -> (res: Result<BootAnimation, MediaError>)
    requires
        frames_wf(frame_views(frames@)),
    ensures
        match res {
            Ok(a) => is_boot_animation(frame_views(frames@), a),
            Err(e) => boot_delay(frame_views(frames@)) matches Err(d) && e.is_delay_error(d),
        },
{
    let ghost all = frame_views(frames@);
    let mut delay: Option<u32> = None;
    let mut out: Vec<Vec<u8>> = Vec::new();
    let mut i: usize = 0;
    while i < frames.len()
        invariant
            i <= frames@.len(),
            all == frame_views(frames@),
            frames_wf(all),
            common_delay(all, i as int) == Ok::<Option<nat>, DelayError>(
                match delay {
                    Some(d) => Some(d as nat),
                    None => None,
                },
            ),
            delay is None == (i == 0),
            out@.len() == i,
            forall|k: int|
                0 <= k < i ==> is_boot_jpeg(opaque_view(all[k]), (#[trigger] out@[k])@),
        decreases frames@.len() - i,
    {
        let f = &frames[i];
        assert(all[i as int] == f@);
        if f.denom == 0 || f.numer % f.denom != 0 {
            proof {
                lemma_delay_error(all, i + 1, all.len() as int);
            }
            return Err(MediaError::InexactDelay);
        }
        let ms = f.numer / f.denom;
        if ms < 80 {
            proof {
                lemma_delay_error(all, i + 1, all.len() as int);
            }
            return Err(MediaError::ShortDelay);
        }
        if let Some(expected) = delay {
            if ms != expected {
                proof {
                    lemma_delay_error(all, i + 1, all.len() as int);
                }
                return Err(MediaError::MixedDelays);
            }
        } else {
            delay = Some(ms);
        }
        proof {
            lemma_frame_can_scale(f@);
        }
        let canvas = opaque_of(f);
        match encode_boot_jpeg(&canvas) {
            Ok(b) => out.push(b),
            Err(e) => {
                return Err(e);
            },
        }
        i = i + 1;
    }
    match delay {
        Some(d) => Ok(BootAnimation { frames: out, delay_ms: d }),
        None => Err(MediaError::NoBootFrames),
    }
}

/// Decodes a boot animation.
pub fn decode_boot_gif(data: &[u8]) -> (res: Result<BootAnimation, MediaError>)
    ensures
        match res {
            Ok(a) => gif_frames_of(data@) matches Some(f) && is_boot_animation(f, a),
            Err(e) => match gif_frames_of(data@) {
                Some(f) => boot_delay(f) matches Err(d) && e.is_delay_error(d),
                None => e is Decode,
            },
        },
{
    match gif_frames(data) {
        Ok(frames) => boot_frames(frames.as_slice()),
        Err(e) => Err(MediaError::Decode(image_error_text(&e))),
    }
}

/// Whether every frame is shown for `d` whole milliseconds, at least 80.
pub open spec fn all_shown_for(frames: Seq<RawFrameView>, d: nat) -> bool {
    d >= 80 && forall|i: int|
        0 <= i < frames.len() ==> exact_delay(#[trigger] frames[i]) == Ok::<nat, DelayError>(d)
}

/// A boot animation is accepted exactly if it has frames and all of them are
/// shown for the same whole number of milliseconds, at least 80.
pub proof fn law_boot_delay_is_uniform(frames: Seq<RawFrameView>)
    ensures
        boot_delay(frames) is Ok <==> frames.len() > 0 && exists|d: nat| all_shown_for(frames, d),
{
    let n = frames.len() as int;
    lemma_common_delay(frames, n);
    if boot_delay(frames) is Ok {
        let d = boot_delay(frames)->Ok_0;
        assert(exact_delay(frames[0]) == Ok::<nat, DelayError>(d));
        assert(all_shown_for(frames, d));
    }
    if frames.len() > 0 && exists|d: nat| all_shown_for(frames, d) {
        let d = choose|d: nat| all_shown_for(frames, d);
        lemma_common_delay_of(frames, n, d);
    }
}

proof fn lemma_common_delay(frames: Seq<RawFrameView>, n: int)
    requires
        0 <= n <= frames.len(),
    ensures
        match common_delay(frames, n) {
            Ok(Some(d)) => n > 0 && forall|i: int|
                0 <= i < n ==> exact_delay(#[trigger] frames[i]) == Ok::<nat, DelayError>(d),
            Ok(None) => n == 0,
            Err(_) => n > 0,
        },
    decreases n,
{
    if n > 0 {
        lemma_common_delay(frames, n - 1);
    }
}

proof fn lemma_common_delay_of(frames: Seq<RawFrameView>, n: int, d: nat)
    requires
        0 <= n <= frames.len(),
        forall|i: int| 0 <= i < n ==> exact_delay(#[trigger] frames[i]) == Ok::<nat, DelayError>(d),
    ensures
        common_delay(frames, n) == Ok::<Option<nat>, DelayError>(
            if n == 0 {
                None
            } else {
                Some(d)
            },
        ),
    decreases n,
{
    if n > 0 {
        lemma_common_delay_of(frames, n - 1, d);
        assert(exact_delay(frames[n - 1]) == Ok::<nat, DelayError>(d));
    }
}

// ── Inspection ───────────────────────────────────────────────────────────────

/// What is shown of an animation.
#[derive(Clone, Copy, Debug)]
pub struct GifInfo {
    pub frames: usize,
    pub uniform_delay_ms: Option<u32>,
    pub min_delay_ms: u32,
    pub max_delay_ms: u32,
    pub file_size: u64,
}

/// The whole milliseconds that a frame is shown.
pub open spec fn whole_ms(f: RawFrameView) -> nat {
    if f.denom == 0 {
        0
    } else {
        f.numer / f.denom
    }
}

/// Whether `info` describes these frames.
pub open spec fn describes(info: GifInfo, frames: Seq<RawFrameView>, file_size: u64) -> bool {
    &&& info.frames == frames.len()
    &&& info.file_size == file_size
    &&& info.uniform_delay_ms == (if forall|i: int|
        0 <= i < frames.len() ==> whole_ms(#[trigger] frames[i]) == whole_ms(frames[0]) {
        Some(whole_ms(frames[0]) as u32)
    } else {
        None
    })
    &&& exists|i: int| 0 <= i < frames.len() && whole_ms(#[trigger] frames[i]) == info.min_delay_ms
    &&& exists|i: int| 0 <= i < frames.len() && whole_ms(#[trigger] frames[i]) == info.max_delay_ms
    &&& forall|i: int|
        0 <= i < frames.len() ==> info.min_delay_ms <= whole_ms(#[trigger] frames[i])
            <= info.max_delay_ms
}

/// Describes the frames of an animation.
pub fn gif_info(frames: &[RawFrame], file_size: u64) -> (res: Result<GifInfo, MediaError>)
    ensures
        match res {
            Ok(info) => frames@.len() > 0 && describes(info, frame_views(frames@), file_size),
            Err(e) => frames@.len() == 0 && e is NoFrames,
        },
{
    if frames.len() == 0 {
        return Err(MediaError::NoFrames);
    }
    let ghost all = frame_views(frames@);
    let first = ms_of(&frames[0]);
    assert(all[0] == frames@[0]@);
    let mut uniform = true;
    let mut min: u32 = first;
    let mut max: u32 = first;
    let mut i: usize = 1;
    while i < frames.len()
        invariant
            1 <= i <= frames@.len(),
            all == frame_views(frames@),
            first == whole_ms(all[0]),
            uniform == (forall|k: int| 0 <= k < i ==> whole_ms(#[trigger] all[k]) == whole_ms(all[0])),
            exists|k: int| 0 <= k < i && whole_ms(#[trigger] all[k]) == min,
            exists|k: int| 0 <= k < i && whole_ms(#[trigger] all[k]) == max,
            forall|k: int| 0 <= k < i ==> min <= whole_ms(#[trigger] all[k]) <= max,
        decreases frames@.len() - i,
    {
        let d = ms_of(&frames[i]);
        assert(all[i as int] == frames@[i as int]@);
        assert(whole_ms(all[i as int]) == d);
        if d != first {
            uniform = false;
        }
        if d < min {
            min = d;
        }
        if d > max {
            max = d;
        }
        i = i + 1;
    }
    Ok(
        GifInfo {
            frames: frames.len(),
            uniform_delay_ms: if uniform {
                Some(first)
            } else {
                None
            },
            min_delay_ms: min,
            max_delay_ms: max,
            file_size,
        },
    )
}

fn ms_of(f: &RawFrame) -> (res: u32)
    ensures
        res == whole_ms(f@),
{
    if f.denom == 0 {
        0
    } else {
        f.numer / f.denom
    }
}

/// Decodes an animation to describe it.
pub fn inspect_gif(data: &[u8], file_size: u64) -> (res: Result<GifInfo, MediaError>)
    ensures
        match res {
            Ok(info) => gif_frames_of(data@) matches Some(f) && f.len() > 0 && describes(
                info,
                f,
                file_size,
            ),
            Err(e) => match gif_frames_of(data@) {
                Some(f) => f.len() == 0 && e is NoFrames,
                None => e is Decode,
            },
        },
{
    match gif_frames(data) {
        Ok(frames) => gif_info(frames.as_slice(), file_size),
        Err(e) => Err(MediaError::Decode(image_error_text(&e))),
    }
}

impl GifInfo {
    /// Can this be a boot animation?
    pub fn fits_boot(&self) -> (res: bool)
        ensures
            res == (self.uniform_delay_ms is Some && self.min_delay_ms >= 80),
    {
        self.uniform_delay_ms.is_some() && self.min_delay_ms >= 80
    }

    /// The size of an animation.
    pub open spec fn size_line(self) -> Seq<char> {
        text::decimal(self.frames as nat) + " frames · "@ + text::decimal(
            (self.file_size / 1024) as nat,
        ) + " KiB"@
    }

    /// The delays of an animation.
    pub open spec fn delay_line(self) -> Seq<char> {
        match self.uniform_delay_ms {
            Some(d) => "Frame delay: "@ + text::decimal(d as nat) + " ms"@,
            None => "Variable delays: "@ + text::decimal(self.min_delay_ms as nat) + "–"@
                + text::decimal(self.max_delay_ms as nat) + " ms"@,
        }
    }

    /// Why this cannot be a boot animation.
    pub open spec fn boot_warnings(self) -> Seq<Seq<char>> {
        let mixed = if self.uniform_delay_ms is None {
            seq!["Boot animation requires one uniform frame delay."@]
        } else {
            seq![]
        };
        let short = if self.min_delay_ms < 80 {
            seq!["Boot animation frame delay must be at least 80 ms."@]
        } else {
            seq![]
        };
        mixed + short
    }

    /// What is shown of an animation: its size and its delays.
    pub fn lines(&self) -> (res: Vec<String>)
        ensures
            text::texts(res@) == seq![self.size_line(), self.delay_line()],
    {
        let mut size = number_text(self.frames as u64);
        size.append(" frames · ");
        size.append(number_text(self.file_size / 1024).as_str());
        size.append(" KiB");
        let delay = match self.uniform_delay_ms {
            Some(d) => {
                let mut line = "Frame delay: ".to_string();
                line.append(number_text(d as u64).as_str());
                line.append(" ms");
                line
            },
            None => {
                let mut line = "Variable delays: ".to_string();
                line.append(number_text(self.min_delay_ms as u64).as_str());
                line.append("–");
                line.append(number_text(self.max_delay_ms as u64).as_str());
                line.append(" ms");
                line
            },
        };
        let mut res: Vec<String> = Vec::new();
        res.push(size);
        res.push(delay);
        assert(text::texts(res@) =~= seq![self.size_line(), self.delay_line()]);
        res
    }

    /// Why this cannot be a boot animation.
    pub fn warnings(&self) -> (res: Vec<String>)
        ensures
            text::texts(res@) == self.boot_warnings(),
    {
        let mut res: Vec<String> = Vec::new();
        if self.uniform_delay_ms.is_none() {
            res.push("Boot animation requires one uniform frame delay.".to_string());
        }
        if self.min_delay_ms < 80 {
            res.push("Boot animation frame delay must be at least 80 ms.".to_string());
        }
        assert(text::texts(res@) =~= self.boot_warnings());
        res
    }
}

/// An animation without warnings is one that can be a boot animation.
pub proof fn law_no_warnings_for_boot(info: GifInfo)
    ensures
        (info.boot_warnings().len() == 0) == (info.uniform_delay_ms is Some && info.min_delay_ms
            >= 80),
{
}

// ── Laws ─────────────────────────────────────────────────────────────────────

/// A delay is taken for a boot animation exactly if it is a whole number of
/// milliseconds, and at least 80 of them.
pub proof fn law_exact_delay(f: RawFrameView, d: nat)
    ensures
        exact_delay(f) == Ok::<nat, DelayError>(d) <==> f.denom > 0 && d * f.denom == f.numer && d
            >= 80,
        exact_delay(f) == Err::<nat, DelayError>(DelayError::Short) ==> f.denom > 0 && f.numer
            < 80 * f.denom,
{
    if f.denom > 0 {
        let q = f.numer / f.denom;
        let r = f.numer % f.denom;
        vstd::arithmetic::div_mod::lemma_fundamental_div_mod(f.numer as int, f.denom as int);
        assert(q * f.denom == f.denom * q) by (nonlinear_arith);
        if d * f.denom == f.numer {
            assert(f.numer == f.denom * d + 0) by (nonlinear_arith)
                requires
                    d * f.denom == f.numer,
            ;
            vstd::arithmetic::div_mod::lemma_fundamental_div_mod_converse(
                f.numer as int,
                f.denom as int,
                d as int,
                0,
            );
        }
        if q < 80 && r == 0 {
            assert(f.denom * q < 80 * f.denom) by (nonlinear_arith)
                requires
                    q < 80,
                    f.denom > 0,
            ;
        }
    }
}

/// A boot animation is refused for the first frame that does not fit: because its
/// delay is no whole number of milliseconds, is too short, or differs from that of
/// the frames before.
pub proof fn law_first_fault_is_told(frames: Seq<RawFrameView>, k: int, d: nat)
    requires
        0 <= k < frames.len(),
        all_shown_for(frames.take(k), d),
    ensures
        exact_delay(frames[k]) matches Err(e) ==> boot_delay(frames) == Err::<nat, DelayError>(e),
        exact_delay(frames[k]) matches Ok(other) ==> (k > 0 && (other != d) ==> boot_delay(frames)
            == Err::<nat, DelayError>(DelayError::Mixed)),
{
    lemma_uniform_start(frames, k, d);
    let after = common_delay(frames, k + 1);
    if after is Err {
        lemma_fault_stays(frames, k + 1, frames.len() as int);
    }
}

proof fn lemma_uniform_start(frames: Seq<RawFrameView>, k: int, d: nat)
    requires
        0 <= k <= frames.len(),
        all_shown_for(frames.take(k), d),
    ensures
        common_delay(frames, k) == Ok::<Option<nat>, DelayError>(
            if k > 0 {
                Some(d)
            } else {
                None
            },
        ),
    decreases k,
{
    if k > 0 {
        assert(frames.take(k)[k - 1] == frames[k - 1]);
        assert forall|i: int| 0 <= i < frames.take(k - 1).len() implies exact_delay(
            #[trigger] frames.take(k - 1)[i],
        ) == Ok::<nat, DelayError>(d) by {
            assert(frames.take(k)[i] == frames[i]);
        }
        lemma_uniform_start(frames, k - 1, d);
    }
}

proof fn lemma_fault_stays(frames: Seq<RawFrameView>, k: int, n: int)
    requires
        0 <= k <= n,
        common_delay(frames, k) is Err,
    ensures
        common_delay(frames, n) == common_delay(frames, k),
    decreases n,
{
    if k < n {
        lemma_fault_stays(frames, k, n - 1);
    }
}

/// A delay in whole milliseconds is the delay without its fraction.
pub proof fn law_whole_milliseconds(f: RawFrameView)
    requires
        f.denom > 0,
    ensures
        whole_ms(f) * f.denom <= f.numer < (whole_ms(f) + 1) * f.denom,
        delay_of(f) is Fraction,
{
    let q = f.numer / f.denom;
    vstd::arithmetic::div_mod::lemma_fundamental_div_mod(f.numer as int, f.denom as int);
    assert(q * f.denom <= f.numer < (q + 1) * f.denom) by (nonlinear_arith)
        requires
            f.numer == f.denom * q + f.numer % f.denom,
            0 <= f.numer % f.denom < f.denom,
    ;
}

/// A frame keeps its colors where its transparency is left out: red, green and blue
/// of each pixel are the first three of its four values.
pub proof fn law_opaque_frame_keeps_colors(f: RawFrameView, x: int, y: int, c: int)
    requires
        f.wf(),
        0 <= x < f.width,
        0 <= y < f.height,
        0 <= c < 3,
    ensures
        opaque_view(f).wf(),
        opaque_view(f).width == f.width,
        opaque_view(f).height == f.height,
        0 <= 4 * (y * f.width + x) + c < f.rgba.len(),
        opaque_view(f).pixels[3 * (y * f.width + x) + c] == f.rgba[4 * (y * f.width + x) + c],
{
    let at = y * f.width + x;
    let size = f.width * f.height;
    assert(0 <= at < size) by (nonlinear_arith)
        requires
            at == y * f.width + x,
            size == f.width * f.height,
            0 <= x < f.width,
            0 <= y < f.height,
    ;
    assert((3 * at + c) / 3 == at && (3 * at + c) % 3 == c);
}

/// The lines about an animation warn of a boot animation exactly where it is
/// refused as one for its delays: of mixed delays, and of short ones.
pub proof fn law_warnings_tell_why(info: GifInfo)
    ensures
        info.boot_warnings().contains("Boot animation requires one uniform frame delay."@) || (
        info.uniform_delay_ms is Some),
        info.boot_warnings().contains("Boot animation frame delay must be at least 80 ms."@) || (
        info.min_delay_ms >= 80),
        info.boot_warnings().len() == (if info.uniform_delay_ms is None {
            1int
        } else {
            0
        }) + (if info.min_delay_ms < 80 {
            1int
        } else {
            0
        }),
{
    let w = info.boot_warnings();
    if info.uniform_delay_ms is None {
        assert(w[0] == "Boot animation requires one uniform frame delay."@);
    }
    if info.min_delay_ms < 80 {
        assert(w[w.len() - 1] == "Boot animation frame delay must be at least 80 ms."@);
    }
}

} // verus!
