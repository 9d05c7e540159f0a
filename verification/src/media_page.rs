//! The media page: what is chosen, and the jobs that are started with it.

use crate::cli;
use crate::cli::{boot_args, brightness_args, live_frames_args, live_gif_args, standby_args};
use crate::media::GifInfo;
use crate::paths;
use crate::paths::{file_name_of, is_of_type};
use crate::text;
use crate::text::text_of;
use vstd::prelude::*;

verus! {

/// What is known of a chosen animation.
#[derive(Clone, Debug)]
pub enum Inspection {
    /// None is chosen.
    Nothing,
    Readable(GifInfo),
    /// It cannot be read; the text says why.
    Unreadable(String),
}

/// What an `Inspection` holds.
pub enum InspectionView {
    Nothing,
    Readable(GifInfo),
    Unreadable(Seq<char>),
}

impl View for Inspection {
    type V = InspectionView;

    open spec fn view(&self) -> InspectionView {
        match *self {
            Inspection::Nothing => InspectionView::Nothing,
            Inspection::Readable(info) => InspectionView::Readable(info),
            Inspection::Unreadable(s) => InspectionView::Unreadable(s@),
        }
    }
}

/// What is chosen on the media page.
#[derive(Clone, Debug)]
pub struct MediaPage {
    pub brightness: u8,
    pub standby: Option<String>,
    pub boot: Option<String>,
    pub boot_info: Inspection,
    pub live_gif: Option<String>,
    pub live_info: Inspection,
    pub live_frames: Vec<String>,
    pub live_fps: u8,
    pub live_loops: u64,
    pub live_forever: bool,
}

/// What a `MediaPage` holds.
#[verifier::ext_equal]
pub struct MediaView {
    pub brightness: u8,
    pub standby: Option<Seq<char>>,
    pub boot: Option<Seq<char>>,
    pub boot_info: InspectionView,
    pub live_gif: Option<Seq<char>>,
    pub live_info: InspectionView,
    pub live_frames: Seq<Seq<char>>,
    pub live_fps: u8,
    pub live_loops: u64,
    pub live_forever: bool,
}

impl View for MediaPage {
    type V = MediaView;

    open spec fn view(&self) -> MediaView {
        MediaView {
            brightness: self.brightness,
            standby: text::opt_text(self.standby),
            boot: text::opt_text(self.boot),
            boot_info: self.boot_info@,
            live_gif: text::opt_text(self.live_gif),
            live_info: self.live_info@,
            live_frames: text::texts(self.live_frames@),
            live_fps: self.live_fps,
            live_loops: self.live_loops,
            live_forever: self.live_forever,
        }
    }
}

/// A job of the media page.
#[derive(Clone, Copy, Debug, PartialEq, Eq, Structural)]
pub enum MediaJob {
    Brightness,
    Standby,
    Boot,
    LiveGif,
    LiveFrames,
}

impl MediaJob {
    /// What a job is called.
    pub open spec fn title(self) -> Seq<char> {
        match self {
            MediaJob::Brightness => "Set brightness"@,
            MediaJob::Standby => "Upload standby image"@,
            MediaJob::Boot => "Upload boot animation"@,
            MediaJob::LiveGif => "Play live GIF"@,
            MediaJob::LiveFrames => "Play frame sequence"@,
        }
    }

    /// What the job is called.
    pub fn label(self) -> (res: &'static str)
        ensures
            res@ == self.title(),
    {
        match self {
            MediaJob::Brightness => "Set brightness",
            MediaJob::Standby => "Upload standby image",
            MediaJob::Boot => "Upload boot animation",
            MediaJob::LiveGif => "Play live GIF",
            MediaJob::LiveFrames => "Play frame sequence",
        }
    }
}

/// Whether an animation can be a boot animation.
pub open spec fn fits_boot(info: InspectionView) -> bool {
    info matches InspectionView::Readable(i) && i.uniform_delay_ms is Some && i.min_delay_ms >= 80
}

impl MediaView {
    /// What a job needs is chosen.
    pub open spec fn is_ready(self, job: MediaJob) -> bool {
        match job {
            MediaJob::Brightness => true,
            MediaJob::Standby => self.standby is Some,
            MediaJob::Boot => self.boot is Some && fits_boot(self.boot_info),
            MediaJob::LiveGif => self.live_gif is Some,
            MediaJob::LiveFrames => self.live_frames.len() > 0,
        }
    }

    /// The options of a job.
    pub open spec fn options(self, job: MediaJob, color: [u8; 3]) -> Seq<Seq<char>> {
        let loops = cli::loops_text(self.live_forever, self.live_loops as nat);
        let brightness = text::decimal(self.brightness as nat);
        match job {
            MediaJob::Brightness => seq!["--standby-brightness"@, brightness],
            MediaJob::Standby => seq![
                "--upload-standby"@,
                self.standby->0,
                "--pump-temp-color"@,
                cli::color_text(color),
            ],
            MediaJob::Boot => seq!["--upload-boot"@, self.boot->0],
            MediaJob::LiveGif => seq![
                "--play-live-gif"@,
                self.live_gif->0,
                "--live-loops"@,
                loops,
                "--live-brightness"@,
                brightness,
            ],
            MediaJob::LiveFrames => seq!["--play-live-frames"@] + self.live_frames + seq![
                "--live-fps"@,
                text::decimal(self.live_fps as nat),
                "--live-loops"@,
                loops,
                "--live-brightness"@,
                brightness,
            ],
        }
    }

    /// After a file was dropped onto the page: an animation is taken for live
    /// playback, another picture for standby.
    pub open spec fn dropped(
        self,
        path: Seq<char>,
        info: InspectionView,
        is_picture: bool,
    ) -> MediaView {
        if paths::has_type(path, "gif"@) {
            MediaView { live_gif: Some(path), live_info: info, ..self }
        } else if is_picture {
            MediaView { standby: Some(path), ..self }
        } else {
            self
        }
    }
}

/// A job that is to be started.
#[derive(Clone, Debug)]
pub struct JobCommand {
    pub label: String,
    pub args: Vec<String>,
}

fn text_option(path: Option<&str>) -> (res: Option<String>)
    ensures
        text::opt_text(res) == text::opt_str(path),
{
    match path {
        Some(p) => Some(p.to_string()),
        None => None,
    }
}

impl MediaPage {
    /// Nothing is chosen.
    pub fn new() -> (res: MediaPage)
        ensures
            res@ == (MediaView {
                brightness: 80,
                standby: None,
                boot: None,
                boot_info: InspectionView::Nothing,
                live_gif: None,
                live_info: InspectionView::Nothing,
                live_frames: seq![],
                live_fps: 24,
                live_loops: 1,
                live_forever: false,
            }),
    {
        let res = MediaPage {
            brightness: 80,
            standby: None,
            boot: None,
            boot_info: Inspection::Nothing,
            live_gif: None,
            live_info: Inspection::Nothing,
            live_frames: Vec::new(),
            live_fps: 24,
            live_loops: 1,
            live_forever: false,
        };
        assert(res@.live_frames =~= seq![]);
        res
    }

    /// A standby picture was chosen, or none.
    pub fn choose_standby(&mut self, path: Option<&str>)
        ensures
            final(self)@ == (MediaView { standby: text::opt_str(path), ..old(self)@ }),
    {
        self.standby = text_option(path);
    }

    /// A boot animation was chosen, or none.
    pub fn choose_boot(&mut self, path: Option<&str>, info: Inspection)
        ensures
            final(self)@ == (MediaView {
                boot: text::opt_str(path),
                boot_info: if path is Some {
                    info@
                } else {
                    InspectionView::Nothing
                },
                ..old(self)@
            }),
    {
        self.boot = text_option(path);
        self.boot_info = match path {
            Some(_) => info,
            None => Inspection::Nothing,
        };
    }

    /// A live animation was chosen, or none.
    pub fn choose_live_gif(&mut self, path: Option<&str>, info: Inspection)
        ensures
            final(self)@ == (MediaView {
                live_gif: text::opt_str(path),
                live_info: if path is Some {
                    info@
                } else {
                    InspectionView::Nothing
                },
                ..old(self)@
            }),
    {
        self.live_gif = text_option(path);
        self.live_info = match path {
            Some(_) => info,
            None => Inspection::Nothing,
        };
    }

    /// Pictures for live playback were chosen.
    pub fn choose_frames(&mut self, paths: Vec<String>)
        ensures
            final(self)@ == (MediaView { live_frames: text::texts(paths@), ..old(self)@ }),
    {
        self.live_frames = paths;
    }

    /// A file was dropped onto the page. `info` matters for an animation and
    /// `is_picture` for any other file.
    pub fn drop_file(&mut self, path: &str, info: Inspection, is_picture: bool)
        ensures
            final(self)@ == old(self)@.dropped(path@, info@, is_picture),
    {
        if is_of_type(path, "gif") {
            self.live_gif = Some(path.to_string());
            self.live_info = info;
        } else if is_picture {
            self.standby = Some(path.to_string());
        }
    }

    /// What a job needs is chosen.
    pub fn ready(&self, job: MediaJob) -> (res: bool)
        ensures
            res == self@.is_ready(job),
    {
        match job {
            MediaJob::Brightness => true,
            MediaJob::Standby => self.standby.is_some(),
            MediaJob::Boot => self.boot.is_some() && match &self.boot_info {
                Inspection::Readable(info) => info.fits_boot(),
                _ => false,
            },
            MediaJob::LiveGif => self.live_gif.is_some(),
            MediaJob::LiveFrames => self.live_frames.len() > 0,
        }
    }

    /// Starts a job, if what it needs is chosen, the display is connected and no
    /// other job runs. `color` is that of the standby temperature.
    pub fn start(&self, job: MediaJob, color: [u8; 3], connected: bool, busy: bool) -> (res: Option<
        JobCommand,
    >)
        ensures
            match res {
                Some(c) => self@.is_ready(job) && connected && !busy && c.label@ == job.title()
                    && text::texts(c.args@) == self@.options(job, color),
                None => !(self@.is_ready(job) && connected && !busy),
            },
    {
        if busy || !connected || !self.ready(job) {
            return None;
        }
        let args = match job {
            MediaJob::Brightness => brightness_args(self.brightness),
            MediaJob::Standby => match &self.standby {
                Some(p) => standby_args(p.as_str(), color),
                None => {
                    return None;
                },
            },
            MediaJob::Boot => match &self.boot {
                Some(p) => boot_args(p.as_str()),
                None => {
                    return None;
                },
            },
            MediaJob::LiveGif => match &self.live_gif {
                Some(p) => live_gif_args(
                    p.as_str(),
                    self.live_forever,
                    self.live_loops,
                    self.brightness,
                ),
                None => {
                    return None;
                },
            },
            MediaJob::LiveFrames => live_frames_args(
                self.live_frames.as_slice(),
                self.live_fps,
                self.live_forever,
                self.live_loops,
                self.brightness,
            ),
        };
        Some(JobCommand { label: job.label().to_string(), args })
    }
}

// ── Lines ────────────────────────────────────────────────────────────────────

/// A line about an animation.
#[derive(Clone, Debug)]
pub struct InfoLine {
    pub text: String,
    pub warning: bool,
}

/// What lines hold.
pub open spec fn line_texts(v: Seq<InfoLine>) -> Seq<(Seq<char>, bool)> {
    Seq::new(v.len(), |i: int| (v[i].text@, v[i].warning))
}

/// Texts, each a warning or none.
pub open spec fn marked(v: Seq<Seq<char>>, warning: bool) -> Seq<(Seq<char>, bool)> {
    Seq::new(v.len(), |i: int| (v[i], warning))
}

/// The lines about an animation; those about a boot animation say why it cannot
/// be one.
pub open spec fn lines_about(info: InspectionView, boot: bool) -> Seq<(Seq<char>, bool)> {
    match info {
        InspectionView::Nothing => seq![],
        InspectionView::Unreadable(why) => seq![(why, true)],
        InspectionView::Readable(i) => marked(seq![i.size_line(), i.delay_line()], false) + if boot {
            marked(i.boot_warnings(), true)
        } else {
            seq![]
        },
    }
}

fn push_lines(out: &mut Vec<InfoLine>, lines: Vec<String>, warning: bool)
    ensures
        line_texts(final(out)@) == line_texts(old(out)@) + marked(text::texts(lines@), warning),
{
    let ghost before = line_texts(out@);
    let ghost all = marked(text::texts(lines@), warning);
    let mut i: usize = 0;
    assert(line_texts(out@) =~= before + all.take(0));
    while i < lines.len()
        invariant
            i <= lines@.len(),
            all == marked(text::texts(lines@), warning),
            line_texts(out@) == before + all.take(i as int),
        decreases lines@.len() - i,
    {
        let ghost prev = line_texts(out@);
        out.push(InfoLine { text: lines[i].clone(), warning });
        assert(line_texts(out@) =~= prev.push(all[i as int]));
        assert(all.take(i + 1) =~= all.take(i as int).push(all[i as int]));
        assert(line_texts(out@) =~= before + all.take(i + 1));
        i = i + 1;
    }
    assert(all.take(i as int) =~= all);
}

/// The lines about an animation.
pub fn show_gif_info(info: &Inspection, boot: bool) -> (res: Vec<InfoLine>)
    ensures
        line_texts(res@) == lines_about(info@, boot),
{
    let mut res: Vec<InfoLine> = Vec::new();
    assert(line_texts(res@) =~= Seq::empty());
    match info {
        Inspection::Nothing => {},
        Inspection::Unreadable(why) => {
            res.push(InfoLine { text: why.clone(), warning: true });
        },
        Inspection::Readable(i) => {
            push_lines(&mut res, i.lines(), false);
            if boot {
                push_lines(&mut res, i.warnings(), true);
            }
        },
    }
    assert(line_texts(res@) =~= lines_about(info@, boot));
    res
}

/// The name that is shown for a chosen file.
pub fn shown_name(path: &str, nameless: &str) -> (res: String)
    ensures
        res@ == (match paths::file_name(path@) {
            Some(n) => n,
            None => nameless@,
        }),
{
    match file_name_of(path) {
        Some(n) => text_of(n.as_slice()),
        None => nameless.to_string(),
    }
}

// ── Laws ─────────────────────────────────────────────────────────────────────

/// A boot animation that the page offers to upload shows no warning.
pub proof fn law_offered_boot_animation_has_no_warning(page: MediaView)
    requires
        page.is_ready(MediaJob::Boot),
    ensures
        lines_about(page.boot_info, true).len() == 2,
        forall|i: int|
            0 <= i < 2 ==> !(#[trigger] lines_about(page.boot_info, true)[i]).1,
{
}

/// What the program is called with says what is set on the page: each option is
/// followed by its value, numbers in decimal and the color as it is read back.
pub proof fn law_options_say_what_is_set(page: MediaView, color: [u8; 3])
    ensures
        ({
            let words = page.options(MediaJob::Brightness, color);
            &&& words.len() == 2
            &&& words[0] == "--standby-brightness"@
            &&& text::number(words[1]) == Some(page.brightness as nat)
        }),
        page.standby matches Some(path) ==> ({
            let words = page.options(MediaJob::Standby, color);
            &&& words.len() == 4
            &&& cli::has_option(words, "--upload-standby"@, path)
            &&& words[2] == "--pump-temp-color"@
            &&& cli::color_in(words[3]) == Some(color)
        }),
        page.boot matches Some(path) ==> ({
            let words = page.options(MediaJob::Boot, color);
            &&& words.len() == 2
            &&& cli::has_option(words, "--upload-boot"@, path)
        }),
        page.live_gif matches Some(path) ==> ({
            let words = page.options(MediaJob::LiveGif, color);
            &&& words.len() == 6
            &&& cli::has_option(words, "--play-live-gif"@, path)
            &&& says_number(words, "--live-loops"@, page.rounds())
            &&& says_number(words, "--live-brightness"@, page.brightness as nat)
        }),
        ({
            let words = page.options(MediaJob::LiveFrames, color);
            let n = page.live_frames.len() as int;
            &&& words.len() == n + 7
            &&& words[0] == "--play-live-frames"@
            &&& forall|i: int| 0 <= i < n ==> #[trigger] words[i + 1] == page.live_frames[i]
            &&& says_number(words, "--live-fps"@, page.live_fps as nat)
            &&& says_number(words, "--live-loops"@, page.rounds())
            &&& says_number(words, "--live-brightness"@, page.brightness as nat)
        }),
{
    text::lemma_decimal_reads_back(page.brightness as nat);
    text::lemma_decimal_reads_back(page.live_fps as nat);
    text::lemma_decimal_reads_back(page.live_loops as nat);
    cli::law_color_reads_back(color);
    assert(text::number("0"@) == Some(0nat)) by {
        reveal_strlit("0");
        text::lemma_decimal_reads_back(0);
        assert("0"@ =~= text::decimal(0));
    }
    let a = page.options(MediaJob::Standby, color);
    assert(a[0] == "--upload-standby"@);
    let b = page.options(MediaJob::Boot, color);
    assert(b[0] == "--upload-boot"@);
    let c = page.options(MediaJob::LiveGif, color);
    assert(c[0] == "--play-live-gif"@ && c[2] == "--live-loops"@ && c[4]
        == "--live-brightness"@);
    let d = page.options(MediaJob::LiveFrames, color);
    let n = page.live_frames.len() as int;
    assert(d[n + 1] == "--live-fps"@ && d[n + 3] == "--live-loops"@ && d[n + 5]
        == "--live-brightness"@);
}

impl MediaView {
    /// How often an animation is to be played, where 0 stands for without end.
    pub open spec fn rounds(self) -> nat {
        if self.live_forever {
            0
        } else {
            self.live_loops as nat
        }
    }
}

/// Whether an option is followed by this number.
pub open spec fn says_number(words: Seq<Seq<char>>, name: Seq<char>, n: nat) -> bool {
    exists|i: int|
        0 <= i < words.len() - 1 && #[trigger] words[i] == name && text::number(words[i + 1])
            == Some(n)
}

/// A file that is dropped onto the page is taken for what it is: an animation is to
/// be played, another picture becomes the standby picture, and anything else is
/// left alone.
pub proof fn law_dropped_file_is_taken(
    page: MediaView,
    path: Seq<char>,
    info: InspectionView,
    is_picture: bool,
)
    ensures
        ({
            let after = page.dropped(path, info, is_picture);
            let gif = paths::has_type(path, "gif"@);
            &&& gif ==> after.live_gif == Some(path) && after.live_info == info && after.standby
                == page.standby && after.is_ready(MediaJob::LiveGif)
            &&& !gif && is_picture ==> after.standby == Some(path) && after.live_gif
                == page.live_gif && after.is_ready(MediaJob::Standby)
            &&& !gif && !is_picture ==> after == page
            &&& after.boot == page.boot && after.boot_info == page.boot_info
            &&& after.brightness == page.brightness && after.live_frames == page.live_frames
        }),
{
}

} // verus!
