//! What the settings and the parts of the program promise together.

use crate::arith;
use crate::arith::{counted, zero};
use crate::backdrop;
use crate::color;
use crate::color::ColorPoint;
use crate::config;
use crate::device;
use crate::diagnostics;
use crate::diagnostics::{Diagnostics, ReportedValue};
use crate::jobs;
use crate::layout;
use crate::layout::{LayoutPreset, LayoutSlotView, LayoutView, StartPosition};
use crate::media;
use crate::order;
use crate::paths;
use crate::profile;
use crate::renderer;
use crate::schedule;
use crate::schedule::Ages;
use crate::service_manager;
use crate::single;
use crate::single::{exp2, quotient_single, whole_single, Single};
use crate::text;
use crate::text::CharSet;
use vstd::prelude::*;

verus! {

// ── Numbers ──────────────────────────────────────────────────────────────────

/// Of two numbers the larger one is at least both, the smaller one at most both,
/// and each is one of the two. What is not a number is passed over.
pub proof fn law_larger_and_smaller(a: Single, b: Single)
    ensures
        a.larger(b) == a || a.larger(b) == b,
        a.smaller(b) == a || a.smaller(b) == b,
        !a.is_nan() && !b.is_nan() ==> a.le(a.larger(b)) && b.le(a.larger(b)),
        !a.is_nan() && !b.is_nan() ==> a.smaller(b).le(a) && a.smaller(b).le(b),
        a.is_nan() ==> a.larger(b) == b && a.smaller(b) == b,
        b.is_nan() ==> a.larger(b) == a || a.is_nan(),
        b.is_nan() ==> a.smaller(b) == a || a.is_nan(),
{
}

/// A number that is held between two others is between them, and stays as it is
/// where it was between them before.
pub proof fn law_held_number_is_between(x: Single, low: Single, high: Single)
    requires
        !x.is_nan(),
        low.le(high),
    ensures
        low.le(x.clamped(low, high)),
        x.clamped(low, high).le(high),
        low.le(x) && x.le(high) ==> x.clamped(low, high) == x,
        x.lt(low) ==> x.clamped(low, high) == low,
        high.lt(x) ==> x.clamped(low, high) == high,
{
}

// ── Refreshing ───────────────────────────────────────────────────────────────

/// Nothing is refreshed within a second, and everything after more than five. Of
/// parts that are equally old the readings come first, then the daemon, then the
/// display, then the autostart setting.
pub proof fn law_parts_are_refreshed_in_turn(ages: Ages, age: u64)
    ensures
        ages.sensors <= 1_000_000_000 ==> !schedule::due_at(ages).sensors,
        ages.daemon <= 2_000_000_000 ==> !schedule::due_at(ages).daemon,
        ages.sensors > 5_000_000_000 ==> schedule::due_at(ages).sensors,
        ages.daemon > 5_000_000_000 ==> schedule::due_at(ages).daemon,
        ages.device > 5_000_000_000 ==> schedule::due_at(ages).device,
        ages.autostart > 5_000_000_000 ==> schedule::due_at(ages).autostart,
        ({
            let all = schedule::due_at(
                (Ages { sensors: age, daemon: age, autostart: age, device: age }),
            );
            &&& all.autostart ==> all.device
            &&& all.device ==> all.daemon
            &&& all.daemon ==> all.sensors
            &&& age <= 1_000_000_000 ==> !all.sensors
            &&& 1_000_000_000 < age <= 2_000_000_000 ==> all.sensors && !all.daemon
            &&& 2_000_000_000 < age <= 4_000_000_000 ==> all.daemon && !all.device
            &&& 4_000_000_000 < age <= 5_000_000_000 ==> all.device && !all.autostart
        }),
{
}

// ── Backgrounds ──────────────────────────────────────────────────────────────

/// A picture is blurred by what is set, if that is more than a hundredth and not
/// more than 50; by 50 if more is set; and not at all otherwise.
pub proof fn law_blur_is_bounded(b: config::BackgroundView)
    ensures
        !quotient_single(1, 100).lt(b.blur_sigma) ==> backdrop::blur_of(b) is None,
        b.blur_sigma.is_nan() ==> backdrop::blur_of(b) is None,
        quotient_single(1, 100).lt(b.blur_sigma) && b.blur_sigma.le(whole_single(50))
            ==> backdrop::blur_of(b) == Some(b.blur_sigma),
        whole_single(50).lt(b.blur_sigma) && quotient_single(1, 100).lt(b.blur_sigma)
            ==> backdrop::blur_of(b) == Some(whole_single(50)),
{
    let x = b.blur_sigma;
    let q = quotient_single(1, 100);
    if q.lt(x) && x.lt(zero(false)) {
        assert(x.key() < 0);
        assert(q.key() < 0);
        lemma_hundredth();
    }
}

proof fn lemma_hundredth()
    ensures
        quotient_single(1, 100).key() >= 0,
{
    single::lemma_hundredth_bits();
}

/// A background that was loaded is kept only as long as nothing that it is made from
/// changes; without a picture there is none.
pub proof fn law_changed_background_is_loaded_again(
    old: config::BackgroundView,
    new: config::BackgroundView,
)
    ensures
        renderer::cache_step(Some(old), new) == renderer::CacheStep::Keep ==> old.image_path
            == new.image_path && old.fit == new.fit && old.overlay_alpha == new.overlay_alpha
            && old.opacity == new.opacity && old.background_color == new.background_color
            && old.zoom.same(new.zoom) && old.offset_x.same(new.offset_x) && old.offset_y.same(
            new.offset_y,
        ) && old.blur_sigma.same(new.blur_sigma),
        new.image_path is Some ==> renderer::cache_step(None, new) == renderer::CacheStep::Load,
        new.image_path is None ==> renderer::cache_step(None, new) == renderer::CacheStep::Drop,
        new.image_path is Some && renderer::cache_step(Some(old), new) != renderer::CacheStep::Keep
            ==> renderer::cache_step(Some(old), new) == renderer::CacheStep::Load,
        new.image_path is None && old.image_path is Some ==> renderer::cache_step(Some(old), new)
            == renderer::CacheStep::Drop,
{
}

// ── Pictures ─────────────────────────────────────────────────────────────────

/// A picture of the size of the display is encoded as it is, for the display and
/// for a boot animation.
pub proof fn law_fitting_picture_is_encoded_as_it_is(source: media::CanvasView, jpeg: Seq<u8>)
    requires
        source.width == 480,
        source.height == 480,
    ensures
        media::is_display_jpeg(source, jpeg) ==> jpeg == media::jpeg_of(480, 480, source.pixels),
        media::is_boot_jpeg(source, jpeg) ==> jpeg == media::boot_jpeg_of(480, 480, source.pixels),
{
    if media::is_display_jpeg(source, jpeg) {
        let c = choose|c: media::CanvasView|
            #[trigger] media::is_scaled(source, c, 480, 480) && jpeg == media::jpeg_of(
                480,
                480,
                c.pixels,
            );
        assert(c == source);
    }
    if media::is_boot_jpeg(source, jpeg) {
        let c = choose|c: media::CanvasView|
            #[trigger] media::is_scaled(source, c, 480, 480) && jpeg == media::boot_jpeg_of(
                480,
                480,
                c.pixels,
            );
        assert(c == source);
    }
}

/// A frame is shown for as long as the animation says; without a usable delay for
/// the usual time.
pub proof fn law_frame_keeps_its_delay(f: media::RawFrameView, live: media::LiveFrame)
    requires
        media::is_live_frame(f, live),
        f.numer <= u32::MAX,
        f.denom <= u32::MAX,
    ensures
        f.denom == 0 ==> live.delay == media::FrameDelay::Usual,
        f.denom > 0 ==> (live.delay matches media::FrameDelay::Fraction { numer, denom } && numer
            == f.numer && denom == f.denom),
{
}

// ── Jobs ─────────────────────────────────────────────────────────────────────

/// A job that is started is shown under its label, is not stopped yet, and puts the
/// daemon back afterwards exactly if it was running.
pub proof fn law_started_job_is_shown(state: jobs::JobsView, label: Seq<char>, running: bool)
    requires
        state.job is None,
    ensures
        ({
            let after = state.started(label, running);
            &&& after.job matches Some(j) && j.label == label && j.pid is None && j.restore_daemon
                == running && !j.cancel_requested
            &&& after.status == label
            &&& after.last_error == state.last_error
            &&& running ==> !after.daemon_running
            &&& !running ==> after.daemon_running == state.daemon_running
        }),
{
}

/// The report of the display is taken over from the job that asked for it, if that
/// succeeded, and from no other.
pub proof fn law_only_status_is_reported(
    state: jobs::JobsView,
    messages: Seq<jobs::JobMessage>,
)
    ensures
        state.report(messages) is Some ==> state.job is Some && state.job->0.label
            == "Read device status"@ && jobs::result_in(messages) is Some && jobs::result_in(
            messages,
        )->0.success && state.report(messages) == Some(jobs::result_in(messages)->0.stdout),
        state.job is Some && state.job->0.label == "Read device status"@ && jobs::result_in(
            messages,
        ) is Some && jobs::result_in(messages)->0.success ==> state.report(messages) is Some,
{
}

// ── Files ────────────────────────────────────────────────────────────────────

/// Everything is kept under the directory for configurations.
pub proof fn law_files_are_in_config_dir(dir: Seq<char>)
    requires
        dir.len() > 0,
        dir.last() != '/',
    ensures
        config::config_path(Some(dir)) == dir + "/th420-display/config.toml"@,
        profile::store_root(Some(dir)) == dir + "/th420-display"@,
        service_manager::unit_dir(Some(dir)) == dir + "/systemd/user"@,
        (profile::StoreView { root: profile::store_root(Some(dir)) }).dir() == dir
            + "/th420-display/profiles"@,
        (profile::StoreView { root: profile::store_root(Some(dir)) }).active_path() == dir
            + "/th420-display/active-profile"@,
        config::config_path(None) == "./th420-display/config.toml"@,
{
    reveal_strlit("th420-display");
    reveal_strlit("config.toml");
    reveal_strlit("/th420-display/config.toml");
    reveal_strlit("/th420-display");
    reveal_strlit("systemd/user");
    reveal_strlit("/systemd/user");
    reveal_strlit("profiles");
    reveal_strlit("/th420-display/profiles");
    reveal_strlit("active-profile");
    reveal_strlit("/th420-display/active-profile");
    reveal_strlit(".");
    reveal_strlit("./th420-display/config.toml");
    let root = paths::join(dir, "th420-display"@);
    assert(root =~= dir + "/th420-display"@);
    assert(root.last() == 'y');
    assert(config::config_path(Some(dir)) =~= dir + "/th420-display/config.toml"@);
    assert(service_manager::unit_dir(Some(dir)) =~= dir + "/systemd/user"@);
    assert(paths::join(root, "profiles"@) =~= dir + "/th420-display/profiles"@);
    assert(paths::join(root, "active-profile"@) =~= dir + "/th420-display/active-profile"@);
    let here = paths::join("."@, "th420-display"@);
    assert(here.last() == 'y');
    assert(config::config_path(None) =~= "./th420-display/config.toml"@);
}

// ── The processor ────────────────────────────────────────────────────────────

proof fn lemma_lead(sep: Seq<char>, name: Seq<char>)
    requires
        forall|i: int|
            0 <= i < sep.len() ==> #[trigger] sep[i] == ' ' || sep[i] == '\t' || sep[i] == ':',
        name.len() > 0 ==> name[0] != ' ' && name[0] != '\t' && name[0] != ':',
    ensures
        text::trim_start(sep + name, CharSet::Lead) == name,
    decreases sep.len(),
{
    let s = sep + name;
    if sep.len() > 0 {
        assert(s[0] == sep[0]);
        assert(s.skip(1) =~= sep.skip(1) + name);
        assert forall|i: int| 0 <= i < sep.skip(1).len() implies #[trigger] sep.skip(1)[i] == ' '
            || sep.skip(1)[i] == '\t' || sep.skip(1)[i] == ':' by {
            assert(sep.skip(1)[i] == sep[i + 1]);
        }
        lemma_lead(sep.skip(1), name);
    } else {
        assert(s =~= name);
    }
}

/// The label of the processor comes from the first line with its model name, after
/// blanks, tabulators and the colon.
pub proof fn law_label_comes_from_model_line(
    lines: Seq<Seq<char>>,
    k: int,
    sep: Seq<char>,
    name: Seq<char>,
)
    requires
        0 <= k < lines.len(),
        lines[k] == "model name"@ + sep + name,
        forall|i: int| 0 <= i < k ==> !text::starts_with(#[trigger] lines[i], "model name"@),
        forall|i: int|
            0 <= i < sep.len() ==> #[trigger] sep[i] == ' ' || sep[i] == '\t' || sep[i] == ':',
        name.len() > 0 ==> name[0] != ' ' && name[0] != '\t' && name[0] != ':',
    ensures
        config::label_of_lines(lines) == config::short_name(text::words(name)),
    decreases k,
{
    let key = "model name"@;
    if k == 0 {
        let line = lines[0];
        assert(line.take(key.len() as int) =~= key);
        assert(line.skip(key.len() as int) =~= sep + name);
        lemma_lead(sep, name);
    } else {
        assert(!text::starts_with(lines[0], key));
        assert(lines.skip(1)[k - 1] == lines[k]);
        assert forall|i: int| 0 <= i < k - 1 implies !text::starts_with(
            #[trigger] lines.skip(1)[i],
            key,
        ) by {
            assert(lines.skip(1)[i] == lines[i + 1]);
        }
        law_label_comes_from_model_line(lines.skip(1), k - 1, sep, name);
    }
}

// ── Color bars ───────────────────────────────────────────────────────────────

/// A color bar begins with the color of the first anchor and, where the values are
/// whole numbers, ends with that of the last.
pub proof fn law_bar_runs_over_the_map(map: Seq<ColorPoint>, x: int, y: int)
    requires
        map.len() >= 2,
        map[0].value.is_finite(),
        map.last().value.is_finite(),
        map[0].value.value() == x * exp2(149),
        map.last().value.value() == y * exp2(149),
        x < y,
        y - x < 0x100_0000,
    ensures
        ({
            let bar = color::gradient(map, map[0].value, map.last().value, 80, 79);
            &&& bar.len() == 80
            &&& bar[0] == map[0].color
            &&& bar[79] == map.last().color
        }),
{
    let low = map[0].value;
    let high = map.last().value;
    let span = high.sum(low.negated());
    let u = exp2(149) as int;
    let n = (y - x) as nat;
    arith::lemma_negated(low);
    arith::law_whole_numbers_are_exact(n, false);
    assert(y * u - x * u == (y - x) * u) by (nonlinear_arith);
    arith::law_sum_keeps_order(high, low.negated(), counted(n), counted(n));
    assert(span.is_finite() && span.value() == n * u);
    lemma_start(map, span);
    lemma_end(map, span, x, y);
}

proof fn lemma_start(map: Seq<ColorPoint>, span: Single)
    requires
        map.len() >= 2,
        map[0].value.is_finite(),
        span.is_finite(),
    ensures
        color::color_at(map[0].value.sum(quotient_single(0, 79).product(span)), map)
            == map[0].color,
{
    let low = map[0].value;
    let t = quotient_single(0, 79);
    arith::law_whole_numbers_are_exact(0, false);
    arith::lemma_whole_is_counted(0);
    assert(single::quotient_bits(0, 79) == 0 && single::quotient_bits(0, 1) == 0);
    assert(t == counted(0));
    assert(0 * exp2(149) == 0 && t.magnitude() * span.magnitude() == 0) by (nonlinear_arith)
        requires
            t.magnitude() == 0 * exp2(149),
    ;
    arith::law_product_keeps_order(t, span, counted(0), counted(0));
    let step = t.product(span);
    arith::law_sum_keeps_order(low, step, low, low);
    arith::law_order_is_by_value(low.sum(step), low);
}

proof fn lemma_end(map: Seq<ColorPoint>, span: Single, x: int, y: int)
    requires
        map.len() >= 2,
        map[0].value.is_finite(),
        map.last().value.is_finite(),
        map[0].value.value() == x * exp2(149),
        map.last().value.value() == y * exp2(149),
        x < y,
        y - x < 0x100_0000,
        span.is_finite(),
        span.value() == (y - x) * exp2(149),
    ensures
        color::color_at(map[0].value.sum(quotient_single(79, 79).product(span)), map)
            == map.last().color,
{
    let u = exp2(149) as int;
    let low = map[0].value;
    let high = map.last().value;
    let t = quotient_single(79, 79);
    single::lemma_exp2_numbers();
    single::lemma_exp2_grows(0, 149);
    single::lemma_one_of_one(79);
    arith::law_whole_numbers_are_exact(1, false);
    arith::lemma_whole_is_counted(1);
    assert(1 * exp2(149) == exp2(149));
    assert((y - x) * u > 0) by (nonlinear_arith)
        requires
            y > x,
            u > 0,
    ;
    assert(t.magnitude() * span.magnitude() == span.value() * u) by (nonlinear_arith)
        requires
            t.magnitude() == u,
            span.magnitude() == span.value(),
    ;
    arith::law_product_keeps_order(t, span, span, span);
    let step = t.product(span);
    assert(x * u + (y - x) * u == y * u) by (nonlinear_arith);
    arith::law_sum_keeps_order(low, step, high, high);
    let at = low.sum(step);
    assert(x * u < y * u) by (nonlinear_arith)
        requires
            x < y,
            u > 0,
    ;
    arith::law_order_is_by_value(at, low);
    arith::law_order_is_by_value(high, at);
}

// ── Texts ────────────────────────────────────────────────────────────────────

proof fn lemma_trim_front(a: Seq<char>, m: Seq<char>, set: CharSet)
    requires
        forall|i: int| 0 <= i < a.len() ==> set.has(#[trigger] a[i]),
        m.len() > 0 ==> !set.has(m[0]),
    ensures
        text::trim_start(a + m, set) == m,
    decreases a.len(),
{
    let s = a + m;
    if a.len() > 0 {
        assert(s[0] == a[0]);
        assert(s.skip(1) =~= a.skip(1) + m);
        assert forall|i: int| 0 <= i < a.skip(1).len() implies set.has(#[trigger] a.skip(1)[i]) by {
            assert(a.skip(1)[i] == a[i + 1]);
        }
        lemma_trim_front(a.skip(1), m, set);
    } else {
        assert(s =~= m);
    }
}

proof fn lemma_trim_back(m: Seq<char>, b: Seq<char>, set: CharSet)
    requires
        forall|i: int| 0 <= i < b.len() ==> set.has(#[trigger] b[i]),
        m.len() > 0 ==> !set.has(m.last()),
    ensures
        text::trim_end(m + b, set) == m,
    decreases b.len(),
{
    let s = m + b;
    if b.len() > 0 {
        assert(s.last() == b[b.len() - 1]);
        assert(s.drop_last() =~= m + b.drop_last());
        assert forall|i: int| 0 <= i < b.drop_last().len() implies set.has(
            #[trigger] b.drop_last()[i],
        ) by {
            assert(b.drop_last()[i] == b[i]);
        }
        lemma_trim_back(m, b.drop_last(), set);
    } else {
        assert(s =~= m);
    }
}

/// Trimming takes away what is to be taken away at both ends, and nothing else.
pub proof fn law_trimming_keeps_the_middle(
    a: Seq<char>,
    m: Seq<char>,
    b: Seq<char>,
    set: CharSet,
)
    requires
        forall|i: int| 0 <= i < a.len() ==> set.has(#[trigger] a[i]),
        forall|i: int| 0 <= i < b.len() ==> set.has(#[trigger] b[i]),
        m.len() > 0,
        !set.has(m[0]),
        !set.has(m.last()),
    ensures
        text::trim(a + m + b, set) == m,
{
    let s = m + b;
    assert(a + m + b =~= a + s);
    assert(s[0] == m[0]);
    lemma_trim_front(a, s, set);
    lemma_trim_back(m, b, set);
}

/// Words that are joined by blanks are read back as the same words.
pub proof fn law_joined_words_read_back(parts: Seq<Seq<char>>, rest: Seq<char>)
    requires
        forall|i: int|
            0 <= i < parts.len() ==> (#[trigger] parts[i]).len() > 0 && forall|k: int|
                0 <= k < parts[i].len() ==> !text::is_white(#[trigger] parts[i][k]),
        parts.len() > 0,
    ensures
        text::words(text::join(parts, seq![' ']) + (seq![' '] + rest)) == parts + text::words(rest),
    decreases parts.len(),
{
    let sep = seq![' '];
    let last = parts.last();
    assert(last == parts[parts.len() - 1]);
    text::law_words_end_at_white_space(last, ' ', rest);
    if parts.len() == 1 {
        assert(text::join(parts, sep) + (sep + rest) =~= last + sep + rest);
        assert(seq![last] + text::words(rest) =~= parts + text::words(rest));
    } else {
        let before = parts.drop_last();
        assert forall|i: int| 0 <= i < before.len() implies (#[trigger] before[i]).len() > 0
            && forall|k: int| 0 <= k < before[i].len() ==> !text::is_white(
            #[trigger] before[i][k],
        ) by {
            assert(before[i] == parts[i]);
        }
        let more = last + sep + rest;
        law_joined_words_read_back(before, more);
        assert(text::join(parts, sep) + (sep + rest) =~= text::join(before, sep) + (sep + more));
        assert(before + (seq![last] + text::words(rest)) =~= parts + text::words(rest));
    }
}

// ── Uploads ──────────────────────────────────────────────────────────────────

/// The progress that is announced with a chunk is the share of the bytes that are
/// sent with it, in whole percent.
pub proof fn law_progress_is_a_share(offset: int, len: int, total: int)
    requires
        0 <= offset,
        0 < len,
        offset + len <= total,
    ensures
        device::progress(offset, len, total) * total <= 100 * (offset + len),
        100 * (offset + len) < (device::progress(offset, len, total) + 1) * total,
{
    let n = (offset + len) * 100;
    let q = n / total;
    vstd::arithmetic::div_mod::lemma_fundamental_div_mod(n, total);
    assert(q * total <= n < (q + 1) * total) by (nonlinear_arith)
        requires
            n == total * q + n % total,
            0 <= n % total < total,
    ;
}

// ── Slots ────────────────────────────────────────────────────────────────────

/// The slots that are there stay, and those that are added belong to readings of the
/// list.
proof fn lemma_filled(
    slots: Seq<LayoutSlotView>,
    ids: Seq<Seq<char>>,
    starts: Seq<StartPosition>,
    n: int,
    m: int,
)
    requires
        0 <= n <= m <= ids.len(),
    ensures
        layout::filled(slots, ids, starts, n).len() <= layout::filled(slots, ids, starts, m).len(),
        forall|k: int|
            0 <= k < layout::filled(slots, ids, starts, n).len() ==> #[trigger] layout::filled(
                slots,
                ids,
                starts,
                m,
            )[k] == layout::filled(slots, ids, starts, n)[k],
    decreases m,
{
    if n < m {
        lemma_filled(slots, ids, starts, n, m - 1);
    }
}

proof fn lemma_added_ids(
    slots: Seq<LayoutSlotView>,
    ids: Seq<Seq<char>>,
    starts: Seq<StartPosition>,
    n: int,
    k: int,
) -> (i: int)
    requires
        0 <= n <= ids.len(),
        slots.len() <= k < layout::filled(slots, ids, starts, n).len(),
    ensures
        0 <= i < n,
        layout::filled(slots, ids, starts, n)[k].sensor_id == ids[i],
    decreases n,
{
    let before = layout::filled(slots, ids, starts, n - 1);
    if k < before.len() {
        lemma_added_ids(slots, ids, starts, n - 1, k)
    } else {
        n - 1
    }
}

/// A reading that gets a slot of its own when the layout becomes a custom one gets it
/// at its own start position; slots that are there stay as they are, and as many
/// readings are shown as before.
pub proof fn law_new_slot_is_at_its_start(
    l: LayoutView,
    ids: Seq<Seq<char>>,
    starts: Seq<StartPosition>,
    i: int,
) -> (k: int)
    requires
        l.preset == LayoutPreset::Custom,
        ids.len() == starts.len(),
        ids.no_duplicates(),
        0 <= i < ids.len(),
    ensures
        ({
            let after = l.customized(ids, starts);
            &&& after.preset == LayoutPreset::Custom
            &&& after.max_visible == l.max_visible
            &&& 0 <= k < after.custom_slots.len()
            &&& after.custom_slots[k].sensor_id == ids[i]
            &&& forall|m: int|
                0 <= m < l.custom_slots.len() ==> #[trigger] after.custom_slots[m]
                    == l.custom_slots[m]
            &&& layout::has_slot(l.custom_slots, ids[i]) ==> k == layout::slot_position(
                l.custom_slots,
                ids[i],
            )
            &&& !layout::has_slot(l.custom_slots, ids[i]) ==> k >= l.custom_slots.len()
                && after.custom_slots[k].value_cx_norm == starts[i].value_cx
                && after.custom_slots[k].value_cy_norm == starts[i].value_cy
                && after.custom_slots[k].label_cx_norm == starts[i].label_cx
                && after.custom_slots[k].label_cy_norm == starts[i].label_cy
                && after.custom_slots[k].value_font_size == starts[i].value_font_size
                && after.custom_slots[k].label_font_size == starts[i].label_font_size
        }),
{
    let slots = l.custom_slots;
    let n = ids.len() as int;
    lemma_filled(slots, ids, starts, 0, n);
    layout::lemma_slot_position(slots, ids[i]);
    if layout::has_slot(slots, ids[i]) {
        layout::slot_position(slots, ids[i])
    } else {
        let before = layout::filled(slots, ids, starts, i);
        lemma_filled(slots, ids, starts, 0, i);
        layout::lemma_slot_position(before, ids[i]);
        if layout::has_slot(before, ids[i]) {
            let p = layout::slot_position(before, ids[i]);
            if p < slots.len() {
                assert(before[p] == slots[p]);
                layout::lemma_has_slot(slots, ids[i], p);
            } else {
                let j = lemma_added_ids(slots, ids, starts, i, p);
                assert(ids[j] == ids[i]);
            }
        }
        let k = before.len() as int;
        assert(layout::filled(slots, ids, starts, i + 1) == before.push(
            layout::start_slot(ids[i], starts[i]),
        ));
        lemma_filled(slots, ids, starts, i + 1, n);
        assert(layout::filled(slots, ids, starts, n)[k] == layout::filled(
            slots,
            ids,
            starts,
            i + 1,
        )[k]);
        k
    }
}

// ── Defaults ─────────────────────────────────────────────────────────────────

/// Resetting a background keeps its picture and nothing else: two backgrounds with
/// the same picture are the same afterwards, and the picture is neither moved nor
/// zoomed nor blurred, and hides the background color.
pub proof fn law_reset_background_keeps_picture(
    a: config::BackgroundView,
    b: config::BackgroundView,
)
    ensures
        config::reset_background(a).image_path == a.image_path,
        a.image_path == b.image_path ==> config::reset_background(a) == config::reset_background(b),
        config::reset_background(config::reset_background(a)) == config::reset_background(a),
        config::reset_background(a).offset_x.value() == 0,
        config::reset_background(a).offset_y.value() == 0,
        config::reset_background(a).zoom.value() == exp2(149),
        config::reset_background(a).opacity == 255,
        backdrop::blur_of(config::reset_background(a)) is None,
{
    let r = config::reset_background(a);
    arith::law_whole_numbers_are_exact(0, false);
    arith::law_whole_numbers_are_exact(1, false);
    arith::lemma_whole_is_counted(0);
    arith::lemma_whole_is_counted(1);
    assert(0 * exp2(149) == 0 && 1 * exp2(149) == exp2(149)) by (nonlinear_arith);
    assert(single::quotient_bits(0, 1) == 0);
    lemma_hundredth();
    assert(r.blur_sigma.key() == 0);
}

/// A sensor that is reset keeps its id, whatever it was set to; one that the program
/// does not know stays as it is.
pub proof fn law_reset_sensor_keeps_id(
    a: config::SensorView,
    b: config::SensorView,
    cpu_label: Seq<char>,
)
    ensures
        config::default_entry(a, cpu_label).id == a.id,
        a.id == b.id && config::has_sensor(config::default_sensors(cpu_label), a.id)
            ==> config::default_entry(a, cpu_label) == config::default_entry(b, cpu_label),
        !config::has_sensor(config::default_sensors(cpu_label), a.id) ==> config::default_entry(
            a,
            cpu_label,
        ) == a,
        config::default_entry(config::default_entry(a, cpu_label), cpu_label)
            == config::default_entry(a, cpu_label),
{
    config::lemma_sensor_position(config::default_sensors(cpu_label), a.id);
}

/// The daemon is stopped before a job exactly if it is put back after it, and a job
/// that is refused changes nothing.
pub proof fn law_daemon_makes_way(
    state: jobs::JobsView,
    label: Seq<char>,
    running: bool,
    messages: Seq<jobs::JobMessage>,
)
    requires
        jobs::result_in(messages) is Some,
    ensures
        state.answer(running) == jobs::Start::Busy ==> state.started(label, running) == state,
        state.job is None ==> state.answer(running) != jobs::Start::Busy,
        state.job is None ==> (state.answer(running) == jobs::Start::StopDaemonFirst
            <==> state.started(label, running).restores(messages)),
        state.job is None ==> (state.answer(running) == jobs::Start::StopDaemonFirst <==> running),
        state.started(label, running).restores(messages) ==> state.started(label, running).polled(
            messages,
        ).daemon_running,
        !state.started(label, running).restores(Seq::empty()),
{
}

// ── Reports ──────────────────────────────────────────────────────────────────

proof fn lemma_lines_split(
    readings: Seq<ReportedValue>,
    order: Seq<usize>,
    n: int,
    i: int,
) -> (rest: Seq<char>)
    requires
        0 <= i < n,
    ensures
        ({
            let r = readings[order[i] as int];
            diagnostics::reading_lines(readings, order, n) == diagnostics::reading_lines(
                readings,
                order,
                i,
            ) + "  "@ + diagnostics::line(r.name@, r.value@) + rest
        }),
    decreases n,
{
    let r = readings[order[i] as int];
    let start = diagnostics::reading_lines(readings, order, i) + "  "@ + diagnostics::line(
        r.name@,
        r.value@,
    );
    if i == n - 1 {
        assert(start + Seq::<char>::empty() =~= start);
        Seq::empty()
    } else {
        let rest = lemma_lines_split(readings, order, n - 1, i);
        let last = readings[order[n - 1] as int];
        let more = "  "@ + diagnostics::line(last.name@, last.value@);
        assert(start + rest + "  "@ + diagnostics::line(last.name@, last.value@) =~= start + (rest
            + more));
        rest + more
    }
}

/// In the report a reading comes before every other whose name is greater: its line
/// stands between `p` and `q`, and that of the other between `q` and `r`.
#[verifier::rlimit(60)]
pub proof fn law_report_is_sorted(
    d: Diagnostics,
    report: Seq<char>,
    a: int,
    b: int,
) -> (res: (Seq<char>, Seq<char>, Seq<char>))
    requires
        diagnostics::is_report(d, report),
        0 <= a < d.readings@.len(),
        0 <= b < d.readings@.len(),
        order::lex_le(
            order::text_key(d.readings@[a].name@),
            order::text_key(d.readings@[b].name@),
        ),
        d.readings@[a].name@ != d.readings@[b].name@,
    ensures
        ({
            let first = d.readings@[a];
            let second = d.readings@[b];
            report == res.0 + (first.name@ + "="@ + first.value@ + "\n"@) + res.1 + (second.name@
                + "="@ + second.value@ + "\n"@) + res.2
        }),
{
    let readings = d.readings@;
    let keys = diagnostics::reading_keys(readings);
    let n = readings.len() as int;
    let arranged = choose|order: Seq<usize>|
        #[trigger] order::is_stable_order(order, keys) && report == d.head()
            + diagnostics::reading_lines(readings, order, n) + d.tail();
    order::law_stable_order_is_permutation(arranged, keys);
    let ka: usize = a as usize;
    let kb: usize = b as usize;
    assert(arranged.contains(ka) && arranged.contains(kb));
    let i = choose|i: int| 0 <= i < arranged.len() && arranged[i] == ka;
    let j = choose|j: int| 0 <= j < arranged.len() && arranged[j] == kb;
    if order::lex_le(keys[b], keys[a]) {
        order::law_lex_antisymmetric(keys[a], keys[b]);
        lemma_text_key(readings[a].name@, readings[b].name@);
    }
    if j <= i {
        if j < i {
            assert(order::before(keys, arranged[j] as int, arranged[i] as int));
        }
    }
    let (middle, tail) = lemma_lines_of_two(readings, arranged, n, i, j);
    let x = diagnostics::line(readings[a].name@, readings[a].value@);
    let y = diagnostics::line(readings[b].name@, readings[b].value@);
    let start = diagnostics::reading_lines(readings, arranged, i);
    lemma_regrouped(d.head(), start, "  "@, x, middle, y, tail, d.tail());
    (d.head() + start + "  "@, middle + "  "@, tail + d.tail())
}

proof fn lemma_lines_of_two(
    readings: Seq<ReportedValue>,
    order: Seq<usize>,
    n: int,
    i: int,
    j: int,
) -> (res: (Seq<char>, Seq<char>))
    requires
        0 <= i < j < n,
    ensures
        ({
            let a = readings[order[i] as int];
            let b = readings[order[j] as int];
            diagnostics::reading_lines(readings, order, n) == diagnostics::reading_lines(
                readings,
                order,
                i,
            ) + "  "@ + diagnostics::line(a.name@, a.value@) + res.0 + "  "@ + diagnostics::line(
                b.name@,
                b.value@,
            ) + res.1
        }),
{
    let tail = lemma_lines_split(readings, order, n, j);
    let middle = lemma_lines_split(readings, order, j, i);
    (middle, tail)
}

proof fn lemma_regrouped(
    head: Seq<char>,
    start: Seq<char>,
    two: Seq<char>,
    x: Seq<char>,
    middle: Seq<char>,
    y: Seq<char>,
    tail: Seq<char>,
    end: Seq<char>,
)
    ensures
        head + (start + two + x + middle + two + y + tail) + end == (head + start + two) + x + (
        middle + two) + y + (tail + end),
{
    assert(head + (start + two + x + middle + two + y + tail) + end =~= (head + start + two) + x + (
    middle + two) + y + (tail + end));
}

proof fn lemma_text_key(a: Seq<char>, b: Seq<char>)
    requires
        order::text_key(a) == order::text_key(b),
    ensures
        a == b,
{
    assert(a.len() == order::text_key(a).len() && b.len() == order::text_key(b).len());
    assert forall|i: int| 0 <= i < a.len() implies a[i] == b[i] by {
        assert(order::text_key(a)[i] == order::text_key(b)[i]);
        assert(order::text_key(a)[i] == a[i] as u32 as i64);
        assert(order::text_key(b)[i] == b[i] as u32 as i64);
        lemma_same_code(a[i], b[i]);
    }
    assert(a =~= b);
}

proof fn lemma_same_code(x: char, y: char)
    requires
        x as u32 == y as u32,
    ensures
        x == y,
{
}

/// The lines about an animation tell how many frames it has, how many whole KiB it
/// takes, and its delay, or the shortest and the longest of its delays.
pub proof fn law_lines_about_animation(info: media::GifInfo) -> (kib: nat)
    ensures
        1024 * kib <= info.file_size < 1024 * (kib + 1),
        info.size_line() == text::decimal(info.frames as nat) + " frames · "@ + text::decimal(kib)
            + " KiB"@,
        info.uniform_delay_ms matches Some(d) ==> text::occurs(
            info.delay_line(),
            text::decimal(d as nat) + " ms"@,
        ),
        info.uniform_delay_ms is None ==> text::ends_with(
            info.delay_line(),
            text::decimal(info.min_delay_ms as nat) + "–"@ + text::decimal(
                info.max_delay_ms as nat,
            ) + " ms"@,
        ),
{
    let s = info.delay_line();
    if let Some(d) = info.uniform_delay_ms {
        let piece = text::decimal(d as nat) + " ms"@;
        let at = "Frame delay: "@.len() as int;
        assert(s.subrange(at, at + piece.len()) =~= piece);
        assert(text::occurs_at(s, piece, at));
    } else {
        let piece = text::decimal(info.min_delay_ms as nat) + "–"@ + text::decimal(
            info.max_delay_ms as nat,
        ) + " ms"@;
        assert(s.skip(s.len() - piece.len()) =~= piece);
    }
    (info.file_size / 1024) as nat
}

} // verus!
