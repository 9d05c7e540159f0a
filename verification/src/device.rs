//! What is sent to the display: control reports, live frames and flash uploads.
//!
//! A request is turned into the list of transfers that carry it out. The
//! transfers are performed in order, and the first that fails ends the request.

use crate::bytes;
use crate::bytes::{push_bytes, push_le32, push_range, push_zeros};
use crate::error::DeviceError;
use crate::hidraw;
use crate::hidraw::{find_interfaces, HidrawEntry};
use crate::text;
use vstd::prelude::*;

verus! {

/// Bytes of a report on the control interface.
pub const CTRL_SIZE: usize = 440;

/// Bytes of a report on the image interface.
pub const IMG_PKT_SIZE: usize = 1024;

/// Image bytes in one report on the image interface.
pub const IMG_DATA_SIZE: usize = 1020;

/// Source bytes in one logical chunk of a flash upload.
pub const FLASH_CHUNK_SIZE: usize = 10_240;

/// Source bytes in the first report of a chunk.
pub const FLASH_FIRST_DATA_SIZE: usize = 424;

/// Source bytes in each later report of a chunk.
pub const FLASH_DATA_SIZE: usize = 436;

/// The shortest frame delay of a boot animation.
pub const MIN_BOOT_FRAME_DELAY_MS: u32 = 80;

/// One step of a request.
#[derive(Clone, Debug)]
pub enum Transfer {
    /// Write a report on the control interface.
    ControlWrite(Vec<u8>),
    /// Wait for a report on the control interface and read it.
    ControlRead,
    /// Write a report on the image interface.
    ImageWrite(Vec<u8>),
    /// Wait for a number of milliseconds.
    Pause(u64),
}

/// What a transfer does.
pub enum Step {
    ControlWrite(Seq<u8>),
    ControlRead,
    ImageWrite(Seq<u8>),
    Pause(int),
}

impl View for Transfer {
    type V = Step;

    open spec fn view(&self) -> Step {
        match *self {
            Transfer::ControlWrite(report) => Step::ControlWrite(report@),
            Transfer::ControlRead => Step::ControlRead,
            Transfer::ImageWrite(report) => Step::ImageWrite(report@),
            Transfer::Pause(ms) => Step::Pause(ms as int),
        }
    }
}

/// What a list of transfers does.
pub open spec fn steps(v: Seq<Transfer>) -> Seq<Step> {
    Seq::new(v.len(), |i: int| v[i]@)
}

pub open spec fn min(a: int, b: int) -> int {
    if a <= b {
        a
    } else {
        b
    }
}

/// The number of pieces of at most `size` bytes.
pub open spec fn pieces(len: int, size: int) -> int {
    (len + size - 1) / size
}

/// A command as a report on the control interface.
pub open spec fn control_report(command: Seq<u8>) -> Seq<u8> {
    bytes::pad(command, 440)
}

/// A command without parameters.
pub open spec fn plain_command(code: u8) -> Seq<u8> {
    seq![code, 0x01u8, 0x00, 0x80]
}

/// Writing a command.
pub open spec fn send(command: Seq<u8>) -> Step {
    Step::ControlWrite(control_report(command))
}

// ── Initialization ───────────────────────────────────────────────────────────

/// The codes of the initialization sequence.
pub open spec fn init_codes() -> Seq<u8> {
    seq![0x85u8, 0x87, 0x85, 0x87, 0x84, 0x81]
}

/// The first `n` commands of the initialization sequence: each is written, its
/// response is read, and a short pause follows.
pub open spec fn init_steps(n: int) -> Seq<Step>
    decreases n,
{
    if n <= 0 {
        seq![]
    } else {
        init_steps(n - 1) + seq![
            send(plain_command(init_codes()[n - 1])),
            Step::ControlRead,
            Step::Pause(50),
        ]
    }
}

// ── Live frames ──────────────────────────────────────────────────────────────

/// Report `i` of a live frame: a four-byte head, then up to 1020 image bytes,
/// then zeros. The head of the first report gives the number of reports and
/// that of each later one its index, both modulo 256.
pub open spec fn frame_report(jpeg: Seq<u8>, i: int) -> Seq<u8> {
    let total = pieces(jpeg.len() as int, 1020);
    let head = seq![
        0x08u8,
        (if i == 0 {
            total
        } else {
            i
        } % 256) as u8,
        0x00,
        if i == 0 {
            0x80u8
        } else {
            0x00
        },
    ];
    bytes::pad(
        head + jpeg.subrange(min(1020 * i, jpeg.len() as int), min(1020 * (i + 1), jpeg.len() as int)),
        1024,
    )
}

/// The reports of a live frame.
pub open spec fn frame_reports(jpeg: Seq<u8>) -> Seq<Seq<u8>> {
    Seq::new(pieces(jpeg.len() as int, 1020) as nat, |i: int| frame_report(jpeg, i))
}

/// The transfers of a live frame.
pub open spec fn frame_steps(jpeg: Seq<u8>) -> Seq<Step> {
    Seq::new(
        pieces(jpeg.len() as int, 1020) as nat,
        |i: int| Step::ImageWrite(frame_report(jpeg, i)),
    )
}

/// What the display receives: the reports without their four-byte heads.
pub open spec fn frame_stream(reports: Seq<Seq<u8>>) -> Seq<u8> {
    bytes::concat(Seq::new(reports.len(), |i: int| reports[i].skip(4)))
}

// ── Flash uploads ────────────────────────────────────────────────────────────

/// The number of reports of a chunk.
pub open spec fn packet_count(len: int) -> int {
    pieces(len + 16, 436)
}

/// The source position where report `i` of a chunk starts.
pub open spec fn flash_start(len: int, i: int) -> int {
    if i <= 0 {
        0
    } else {
        min(424 + 436 * (i - 1), len)
    }
}

/// How much of the upload is done after this chunk, in percent.
pub open spec fn progress(offset: int, len: int, total: int) -> int {
    (offset + len) * 100 / total
}

/// Report `i` of the chunk of a `total`-byte upload that starts at `offset`.
pub open spec fn flash_report(offset: int, total: int, chunk: Seq<u8>, i: int) -> Seq<u8> {
    let len = chunk.len() as int;
    let head = if i == 0 {
        seq![0x0bu8, packet_count(len) as u8, 0x00, 0x80] + bytes::le32(offset) + bytes::le32(len)
            + bytes::le32(progress(offset, len, total))
    } else {
        seq![0x0bu8, i as u8, 0x00, 0x00]
    };
    bytes::pad(head + chunk.subrange(flash_start(len, i), flash_start(len, i + 1)), 440)
}

/// The reports of a chunk.
pub open spec fn flash_reports(offset: int, total: int, chunk: Seq<u8>) -> Seq<Seq<u8>> {
    Seq::new(packet_count(chunk.len() as int) as nat, |i: int| flash_report(offset, total, chunk, i))
}

/// The transfers of a chunk, without its acknowledgement.
pub open spec fn flash_chunk_steps(offset: int, total: int, chunk: Seq<u8>) -> Seq<Step> {
    Seq::new(
        packet_count(chunk.len() as int) as nat,
        |i: int| Step::ControlWrite(flash_report(offset, total, chunk, i)),
    )
}

/// What the device receives of a chunk: the reports without their heads.
pub open spec fn flash_stream(reports: Seq<Seq<u8>>) -> Seq<u8> {
    bytes::concat(
        Seq::new(
            reports.len(),
            |i: int|
                if i == 0 {
                    reports[i].skip(16)
                } else {
                    reports[i].skip(4)
                },
        ),
    )
}

/// Chunk `n` of an upload.
pub open spec fn chunk_of(blob: Seq<u8>, n: int) -> Seq<u8> {
    blob.subrange(min(10240 * n, blob.len() as int), min(10240 * (n + 1), blob.len() as int))
}

/// The first `n` chunks of an upload, each followed by its acknowledgement.
pub open spec fn chunk_steps(blob: Seq<u8>, n: int) -> Seq<Step>
    decreases n,
{
    if n <= 0 {
        seq![]
    } else {
        chunk_steps(blob, n - 1) + flash_chunk_steps(
            10240 * (n - 1),
            blob.len() as int,
            chunk_of(blob, n - 1),
        ) + seq![Step::ControlRead]
    }
}

/// Opens the upload of `total` bytes of media of the given kind.
pub open spec fn upload_head(kind: u8, total: int) -> Seq<Step> {
    seq![
        send(plain_command(0x82)),
        Step::ControlRead,
        send(seq![0x0au8, 0x01, 0x00, 0x80, kind, 0x00, 0x00, 0x00] + bytes::le32(total)),
        Step::ControlRead,
    ]
}

/// Opens an upload and sends all chunks.
pub open spec fn upload_steps(kind: u8, blob: Seq<u8>) -> Seq<Step> {
    upload_head(kind, blob.len() as int) + chunk_steps(blob, pieces(blob.len() as int, 10240))
}

/// Closes an upload.
pub open spec fn upload_tail() -> Seq<Step> {
    seq![send(plain_command(0x82)), Step::ControlRead]
}

/// Stores a standby picture.
pub open spec fn standby_steps(jpeg: Seq<u8>) -> Seq<Step> {
    upload_steps(0x00, jpeg) + upload_tail()
}

/// Stores a boot animation whose frames are shown for `delay` milliseconds.
pub open spec fn boot_steps(container: Seq<u8>, delay: int) -> Seq<Step> {
    upload_steps(0x01, container) + seq![
        Step::Pause(80),
        send(plain_command(0x14) + bytes::le32(delay - 1)),
        Step::Pause(20),
    ] + upload_tail()
}

/// Sets the brightness.
pub open spec fn brightness_steps(brightness: u8) -> Seq<Step> {
    seq![send(plain_command(0x12).push(brightness))]
}

/// Stages a color; the command is written twice.
pub open spec fn color_steps(rgb: [u8; 3]) -> Seq<Step> {
    let write = send(plain_command(0x16) + seq![rgb[0], rgb[1], rgb[2], 0xffu8]);
    seq![write, Step::Pause(300), write]
}

/// Asks for the liquid temperature.
pub open spec fn temperature_steps() -> Seq<Step> {
    seq![send(plain_command(0x80)), Step::ControlRead]
}

/// Why a standby picture is refused, if so.
pub open spec fn standby_error(jpeg: Seq<u8>) -> Option<DeviceError> {
    if jpeg.len() == 0 {
        Some(DeviceError::EmptyStandby)
    } else if jpeg.len() > u32::MAX {
        Some(DeviceError::StandbyTooLarge)
    } else {
        None
    }
}

/// Why a boot animation is refused, if so.
pub open spec fn upload_boot_error(container: Seq<u8>, delay: int) -> Option<DeviceError> {
    if container.len() == 0 {
        Some(DeviceError::EmptyBootContainer)
    } else if delay < 80 {
        Some(DeviceError::BootDelayTooShort)
    } else if container.len() > u32::MAX {
        Some(DeviceError::BootContainerTooLarge)
    } else {
        None
    }
}

/// The temperature that a status response reports, in whole degrees: byte 4
/// less 36, if byte 5 confirms it.
pub open spec fn liquid_temp(resp: Seq<u8>) -> Option<int> {
    if resp[4] >= 0x24 && resp[5] == min(resp[4] + 1, 255) {
        Some(resp[4] - 0x24)
    } else {
        None
    }
}

// ── Laws ─────────────────────────────────────────────────────────────────────

proof fn lemma_concat_push(parts: Seq<Seq<u8>>, p: Seq<u8>)
    ensures
        bytes::concat(parts.push(p)) == bytes::concat(parts) + p,
{
    assert(parts.push(p).drop_last() == parts);
}

/// The first `n` parts of a live frame.
proof fn lemma_frame_prefix(jpeg: Seq<u8>, n: int)
    requires
        0 <= n <= pieces(jpeg.len() as int, 1020),
    ensures
        ({
            let parts = Seq::new(n as nat, |i: int| frame_report(jpeg, i).skip(4));
            let sent = min(1020 * n, jpeg.len() as int);
            bytes::concat(parts) == jpeg.take(sent) + bytes::zeros((1020 * n - sent) as nat)
        }),
    decreases n,
{
    let parts = Seq::new(n as nat, |i: int| frame_report(jpeg, i).skip(4));
    let len = jpeg.len() as int;
    if n == 0 {
        assert(jpeg.take(0) + bytes::zeros(0) == Seq::<u8>::empty());
    } else {
        let before = Seq::new((n - 1) as nat, |i: int| frame_report(jpeg, i).skip(4));
        lemma_frame_prefix(jpeg, n - 1);
        assert(parts == before.push(frame_report(jpeg, n - 1).skip(4)));
        lemma_concat_push(before, frame_report(jpeg, n - 1).skip(4));
        let from = min(1020 * (n - 1), len);
        let to = min(1020 * n, len);
        assert(1020 * (n - 1) < len);
        assert(from == 1020 * (n - 1));
        assert(frame_report(jpeg, n - 1).skip(4) == jpeg.subrange(from, to) + bytes::zeros(
            (1020 - (to - from)) as nat,
        ));
        assert(bytes::concat(parts) == jpeg.take(from) + bytes::zeros(0) + (jpeg.subrange(from, to)
            + bytes::zeros((1020 - (to - from)) as nat)));
        assert(jpeg.take(to) == jpeg.take(from) + jpeg.subrange(from, to));
        assert(bytes::concat(parts) == jpeg.take(to) + bytes::zeros((1020 * n - to) as nat));
    }
}

/// The reports of a live frame carry the whole picture in order: what follows
/// their heads is the picture and then only zeros.
pub proof fn law_frame_reports_carry_picture(jpeg: Seq<u8>)
    ensures
        ({
            let stream = frame_stream(frame_reports(jpeg));
            &&& stream.len() >= jpeg.len()
            &&& stream.take(jpeg.len() as int) == jpeg
            &&& forall|i: int| jpeg.len() <= i < stream.len() ==> stream[i] == 0
        }),
{
    let n = pieces(jpeg.len() as int, 1020);
    lemma_frame_prefix(jpeg, n);
    let parts = Seq::new(n as nat, |i: int| frame_report(jpeg, i).skip(4));
    let reports = frame_reports(jpeg);
    assert(Seq::new(reports.len(), |i: int| reports[i].skip(4)) == parts);
    assert(1020 * n >= jpeg.len());
    assert(jpeg.take(jpeg.len() as int) == jpeg);
    let stream = frame_stream(reports);
    assert(stream == jpeg + bytes::zeros((1020 * n - jpeg.len()) as nat));
    assert(stream.take(jpeg.len() as int) == jpeg);
}

/// A frame of at most 255 reports numbers them without wrapping: the first
/// gives their number and each later one its own index.
pub proof fn law_frame_reports_are_numbered(jpeg: Seq<u8>, i: int)
    requires
        jpeg.len() <= 255 * 1020,
        0 <= i < frame_reports(jpeg).len(),
    ensures
        frame_reports(jpeg)[i].len() == 1024,
        frame_reports(jpeg)[i][1] == (if i == 0 {
            frame_reports(jpeg).len() as int
        } else {
            i
        }),
        frame_reports(jpeg)[i][3] == (if i == 0 {
            0x80int
        } else {
            0
        }),
{
    let r = frame_report(jpeg, i);
    assert(r.len() == 1024);
}

/// Every report that a list of transfers writes has the size of its interface.
pub open spec fn well_sized(s: Seq<Step>) -> bool {
    forall|i: int|
        0 <= i < s.len() ==> match #[trigger] s[i] {
            Step::ControlWrite(r) => r.len() == 440,
            Step::ImageWrite(r) => r.len() == 1024,
            _ => true,
        }
}

proof fn lemma_packet_count(len: int)
    requires
        0 <= len <= 10240,
    ensures
        1 <= packet_count(len) <= 24,
        flash_start(len, packet_count(len)) == len,
        424 + 436 * (packet_count(len) - 1) >= len,
{
    let n = packet_count(len);
    assert(436 * n >= len + 16);
}

/// The first `n` parts of a chunk.
proof fn lemma_flash_prefix(offset: int, total: int, chunk: Seq<u8>, n: int)
    requires
        chunk.len() <= 10240,
        1 <= n <= packet_count(chunk.len() as int),
    ensures
        ({
            let parts = Seq::new(
                n as nat,
                |i: int|
                    if i == 0 {
                        flash_report(offset, total, chunk, i).skip(16)
                    } else {
                        flash_report(offset, total, chunk, i).skip(4)
                    },
            );
            let sent = flash_start(chunk.len() as int, n);
            bytes::concat(parts) == chunk.take(sent) + bytes::zeros(
                (424 + 436 * (n - 1) - sent) as nat,
            )
        }),
    decreases n,
{
    let len = chunk.len() as int;
    let part = |i: int|
        if i == 0 {
            flash_report(offset, total, chunk, i).skip(16)
        } else {
            flash_report(offset, total, chunk, i).skip(4)
        };
    let parts = Seq::new(n as nat, part);
    let before = Seq::new((n - 1) as nat, part);
    let from = flash_start(len, n - 1);
    let to = flash_start(len, n);
    assert(parts == before.push(part(n - 1)));
    lemma_concat_push(before, part(n - 1));
    let head_len: int = if n == 1 {
        16
    } else {
        4
    };
    assert(flash_report(offset, total, chunk, n - 1).skip(head_len) == chunk.subrange(from, to)
        + bytes::zeros((440 - head_len - (to - from)) as nat));
    if n == 1 {
        assert(before == Seq::<Seq<u8>>::empty());
        assert(chunk.take(to) == chunk.subrange(from, to));
        assert(bytes::concat(before) == Seq::<u8>::empty());
        assert(bytes::concat(parts) == chunk.take(to) + bytes::zeros((424 - to) as nat));
    } else {
        lemma_flash_prefix(offset, total, chunk, n - 1);
        let cap = 424 + 436 * (n - 2);
        let gap = (cap - from) as nat;
        assert(bytes::concat(before) == chunk.take(from) + bytes::zeros(gap));
        assert(chunk.take(to) == chunk.take(from) + chunk.subrange(from, to));
        if from < cap {
            assert(to == from);
            assert(chunk.subrange(from, to) == Seq::<u8>::empty());
        }
        assert(bytes::concat(parts) == chunk.take(to) + bytes::zeros((cap + 436 - to) as nat));
    }
}

/// The reports of a chunk carry the whole chunk in order: what follows their
/// heads is the chunk and then only zeros.
pub proof fn law_flash_reports_carry_chunk(offset: int, total: int, chunk: Seq<u8>)
    requires
        chunk.len() <= 10240,
    ensures
        ({
            let stream = flash_stream(flash_reports(offset, total, chunk));
            &&& stream.len() >= chunk.len()
            &&& stream.take(chunk.len() as int) == chunk
            &&& forall|i: int| chunk.len() <= i < stream.len() ==> stream[i] == 0
        }),
{
    let len = chunk.len() as int;
    let n = packet_count(len);
    lemma_packet_count(len);
    lemma_flash_prefix(offset, total, chunk, n);
    let reports = flash_reports(offset, total, chunk);
    let parts = Seq::new(
        n as nat,
        |i: int|
            if i == 0 {
                flash_report(offset, total, chunk, i).skip(16)
            } else {
                flash_report(offset, total, chunk, i).skip(4)
            },
    );
    assert(Seq::new(
        reports.len(),
        |i: int|
            if i == 0 {
                reports[i].skip(16)
            } else {
                reports[i].skip(4)
            },
    ) == parts);
    assert(chunk.take(len) == chunk);
    assert(flash_stream(reports) == chunk + bytes::zeros((424 + 436 * (n - 1) - len) as nat));
    assert(flash_stream(reports).take(len) == chunk);
}

/// The chunks of an upload, put together, are the uploaded blob.
pub proof fn law_chunks_make_blob(blob: Seq<u8>)
    ensures
        bytes::concat(
            Seq::new(pieces(blob.len() as int, 10240) as nat, |n: int| chunk_of(blob, n)),
        ) == blob,
{
    let n = pieces(blob.len() as int, 10240);
    lemma_chunks_prefix(blob, n);
    assert(10240 * n >= blob.len());
    assert(blob.take(blob.len() as int) == blob);
}

proof fn lemma_chunks_prefix(blob: Seq<u8>, n: int)
    requires
        0 <= n,
    ensures
        bytes::concat(Seq::new(n as nat, |k: int| chunk_of(blob, k))) == blob.take(
            min(10240 * n, blob.len() as int),
        ),
    decreases n,
{
    let parts = Seq::new(n as nat, |k: int| chunk_of(blob, k));
    if n == 0 {
        assert(blob.take(0) == Seq::<u8>::empty());
    } else {
        let before = Seq::new((n - 1) as nat, |k: int| chunk_of(blob, k));
        lemma_chunks_prefix(blob, n - 1);
        assert(parts == before.push(chunk_of(blob, n - 1)));
        lemma_concat_push(before, chunk_of(blob, n - 1));
        let from = min(10240 * (n - 1), blob.len() as int);
        let to = min(10240 * n, blob.len() as int);
        assert(blob.take(to) == blob.take(from) + blob.subrange(from, to));
    }
}

proof fn lemma_progress(done: int, more: int, total: int)
    requires
        0 <= done <= more <= total,
        0 < total,
    ensures
        0 <= done * 100 / total <= more * 100 / total <= 100,
        (more * 100 / total == 100) == (more == total),
{
    assert(done * 100 / total <= more * 100 / total) by (nonlinear_arith)
        requires
            0 <= done <= more,
            0 < total,
    ;
    assert(0 <= done * 100 / total) by (nonlinear_arith)
        requires
            0 <= done,
            0 < total,
    ;
    assert(more * 100 / total <= 100) by (nonlinear_arith)
        requires
            0 <= more <= total,
            0 < total,
    ;
    assert((more * 100 / total == 100) == (more == total)) by (nonlinear_arith)
        requires
            0 <= more <= total,
            0 < total,
    ;
}

/// The progress that the reports of chunk `n` of an upload announce.
pub open spec fn chunk_progress(blob: Seq<u8>, n: int) -> int {
    progress(10240 * n, chunk_of(blob, n).len() as int, blob.len() as int)
}

/// The announced progress never decreases from one chunk to a later one, never
/// exceeds 100 percent, and reaches 100 percent with the last chunk only.
pub proof fn law_upload_progress(blob: Seq<u8>, m: int, n: int)
    requires
        0 <= m <= n < pieces(blob.len() as int, 10240),
    ensures
        0 <= chunk_progress(blob, m) <= chunk_progress(blob, n) <= 100,
        (chunk_progress(blob, n) == 100) == (n == pieces(blob.len() as int, 10240) - 1),
{
    let total = blob.len() as int;
    let done = 10240 * m + chunk_of(blob, m).len();
    let more = 10240 * n + chunk_of(blob, n).len();
    assert(10240 * n < total);
    assert(more == min(10240 * (n + 1), total));
    assert(done == min(10240 * (m + 1), total));
    lemma_progress(done, more, total);
    assert((more == total) == (n == pieces(total, 10240) - 1));
}

proof fn lemma_well_sized_concat(a: Seq<Step>, b: Seq<Step>)
    requires
        well_sized(a),
        well_sized(b),
    ensures
        well_sized(a + b),
{
    assert forall|i: int| 0 <= i < (a + b).len() implies match #[trigger] (a + b)[i] {
        Step::ControlWrite(r) => r.len() == 440,
        Step::ImageWrite(r) => r.len() == 1024,
        _ => true,
    } by {
        if i < a.len() {
            assert((a + b)[i] == a[i]);
        } else {
            assert((a + b)[i] == b[i - a.len()]);
        }
    }
}

proof fn lemma_init_well_sized(n: int)
    requires
        0 <= n <= 6,
    ensures
        well_sized(init_steps(n)),
    decreases n,
{
    if n > 0 {
        lemma_init_well_sized(n - 1);
        let tail = seq![
            send(plain_command(init_codes()[n - 1])),
            Step::ControlRead,
            Step::Pause(50),
        ];
        assert(well_sized(tail));
        lemma_well_sized_concat(init_steps(n - 1), tail);
    }
}

proof fn lemma_chunks_well_sized(blob: Seq<u8>, n: int)
    requires
        0 <= n <= pieces(blob.len() as int, 10240),
    ensures
        well_sized(chunk_steps(blob, n)),
    decreases n,
{
    if n > 0 {
        lemma_chunks_well_sized(blob, n - 1);
        let chunk = chunk_of(blob, n - 1);
        let part = flash_chunk_steps(10240 * (n - 1), blob.len() as int, chunk);
        assert forall|i: int| 0 <= i < part.len() implies match #[trigger] part[i] {
            Step::ControlWrite(r) => r.len() == 440,
            Step::ImageWrite(r) => r.len() == 1024,
            _ => true,
        } by {
            let len = chunk.len() as int;
            assert(flash_start(len, i) <= flash_start(len, i + 1) <= len);
            assert(flash_start(len, i + 1) - flash_start(len, i) <= 436);
        }
        assert(well_sized(part));
        assert(well_sized(seq![Step::ControlRead]));
        lemma_well_sized_concat(chunk_steps(blob, n - 1), part);
        lemma_well_sized_concat(chunk_steps(blob, n - 1) + part, seq![Step::ControlRead]);
    }
}

/// Every report is padded to the report size of its interface: 440 bytes for
/// control and 1024 bytes for images.
pub proof fn law_reports_are_well_sized(blob: Seq<u8>, delay: int)
    ensures
        well_sized(init_steps(6)),
        well_sized(frame_steps(blob)),
        well_sized(standby_steps(blob)),
        well_sized(boot_steps(blob, delay)),
{
    lemma_init_well_sized(6);
    let f = frame_steps(blob);
    assert forall|i: int| 0 <= i < f.len() implies match #[trigger] f[i] {
        Step::ControlWrite(r) => r.len() == 440,
        Step::ImageWrite(r) => r.len() == 1024,
        _ => true,
    } by {
        assert(f[i] == Step::ImageWrite(frame_report(blob, i)));
        assert(frame_report(blob, i).len() == 1024);
    }
    let n = pieces(blob.len() as int, 10240);
    lemma_chunks_well_sized(blob, n);
    assert(well_sized(upload_tail()));
    assert(well_sized(upload_head(0x00, blob.len() as int)));
    assert(well_sized(upload_head(0x01, blob.len() as int)));
    lemma_well_sized_concat(upload_head(0x00, blob.len() as int), chunk_steps(blob, n));
    lemma_well_sized_concat(upload_head(0x01, blob.len() as int), chunk_steps(blob, n));
    lemma_well_sized_concat(upload_steps(0x00, blob), upload_tail());
    let commit = seq![
        Step::Pause(80),
        send(plain_command(0x14) + bytes::le32(delay - 1)),
        Step::Pause(20),
    ];
    assert(well_sized(commit));
    lemma_well_sized_concat(upload_steps(0x01, blob), commit);
    lemma_well_sized_concat(upload_steps(0x01, blob) + commit, upload_tail());
}

/// The number of responses that a list of transfers reads.
pub open spec fn reads(s: Seq<Step>) -> int
    decreases s.len(),
{
    if s.len() == 0 {
        0
    } else {
        reads(s.drop_last()) + if s.last() is ControlRead {
            1int
        } else {
            0
        }
    }
}

proof fn lemma_reads_concat(a: Seq<Step>, b: Seq<Step>)
    ensures
        reads(a + b) == reads(a) + reads(b),
    decreases b.len(),
{
    if b.len() == 0 {
        assert(a + b == a);
    } else {
        lemma_reads_concat(a, b.drop_last());
        assert((a + b).drop_last() == a + b.drop_last());
        assert((a + b).last() == b.last());
    }
}

proof fn lemma_no_reads(s: Seq<Step>)
    requires
        forall|i: int| 0 <= i < s.len() ==> !(#[trigger] s[i] is ControlRead),
    ensures
        reads(s) == 0,
    decreases s.len(),
{
    if s.len() > 0 {
        assert(!(s[s.len() - 1] is ControlRead));
        assert forall|i: int| 0 <= i < s.drop_last().len() implies !(#[trigger] s.drop_last()[i] is ControlRead) by {
            assert(s.drop_last()[i] == s[i]);
        }
        lemma_no_reads(s.drop_last());
    }
}

/// While its chunks are sent, an upload reads exactly one response per chunk.
pub proof fn law_one_response_per_chunk(blob: Seq<u8>, n: int)
    requires
        0 <= n,
    ensures
        reads(chunk_steps(blob, n)) == n,
    decreases n,
{
    if n > 0 {
        law_one_response_per_chunk(blob, n - 1);
        let part = flash_chunk_steps(10240 * (n - 1), blob.len() as int, chunk_of(blob, n - 1));
        lemma_no_reads(part);
        lemma_reads_concat(chunk_steps(blob, n - 1), part);
        let tail = seq![Step::ControlRead];
        assert(tail.drop_last() == Seq::<Step>::empty());
        assert(reads(tail.drop_last()) == 0);
        assert(reads(tail) == 1);
        lemma_reads_concat(chunk_steps(blob, n - 1) + part, tail);
    }
}

// ── Requests ─────────────────────────────────────────────────────────────────

fn command_report(command: &[u8]) -> (res: Transfer)
    requires
        command@.len() <= 440,
    ensures
        res@ == send(command@),
{
    let mut report: Vec<u8> = Vec::new();
    push_bytes(&mut report, command);
    push_zeros(&mut report, CTRL_SIZE - command.len());
    assert(report@ == control_report(command@));
    Transfer::ControlWrite(report)
}

fn plain_report(code: u8) -> (res: Transfer)
    ensures
        res@ == send(plain_command(code)),
{
    let command: [u8; 4] = [code, 0x01, 0x00, 0x80];
    assert(command@ == plain_command(code));
    command_report(&command)
}

/// The number of pieces of at most `size` bytes.
fn count_pieces(len: usize, size: usize) -> (res: usize)
    requires
        0 < size <= 10240,
    ensures
        res == pieces(len as int, size as int),
{
    let whole = len / size;
    proof {
        vstd::arithmetic::div_mod::lemma_fundamental_div_mod(len as int, size as int);
        let r = len as int % size as int;
        let q = len as int / size as int;
        if r == 0 {
            assert((len + size - 1) / (size as int) == q) by (nonlinear_arith)
                requires
                    len == size * q,
                    size > 0,
            ;
        } else {
            assert((len + size - 1) / (size as int) == q + 1) by (nonlinear_arith)
                requires
                    len == size * q + r,
                    0 < r < size,
            ;
            assert(q < usize::MAX) by (nonlinear_arith)
                requires
                    len == size * q + r,
                    0 < r < size,
                    len <= usize::MAX,
                    q >= 0,
            ;
        }
    }
    if len % size == 0 {
        whole
    } else {
        whole + 1
    }
}

/// The report of part `i` of a live frame that starts at byte `from`.
fn make_frame_report(jpeg: &[u8], i: usize, total: usize, from: usize) -> (res: Vec<u8>)
    requires
        total == pieces(jpeg@.len() as int, 1020),
        from == 1020 * i,
        from < jpeg@.len(),
    ensures
        res@ == frame_report(jpeg@, i as int),
{
    let to: usize = if jpeg.len() - from > IMG_DATA_SIZE {
        from + IMG_DATA_SIZE
    } else {
        jpeg.len()
    };
    let number: usize = if i == 0 {
        total
    } else {
        i
    };
    let mut report: Vec<u8> = Vec::new();
    report.push(0x08);
    report.push((number % 256) as u8);
    report.push(0x00);
    report.push(
        if i == 0 {
            0x80
        } else {
            0x00
        },
    );
    push_range(&mut report, jpeg, from, to);
    push_zeros(&mut report, IMG_PKT_SIZE - 4 - (to - from));
    assert(report@ == frame_report(jpeg@, i as int));
    report
}

/// Appends one report of a chunk.
fn push_flash_report(
    out: &mut Vec<Transfer>,
    offset: u32,
    total: u32,
    chunk: &[u8],
    i: usize,
    from: usize,
    to: usize,
)
    requires
        0 < total,
        chunk@.len() <= 10240,
        offset + chunk@.len() <= total,
        i < packet_count(chunk@.len() as int),
        from == flash_start(chunk@.len() as int, i as int),
        to == flash_start(chunk@.len() as int, i + 1),
    ensures
        steps(final(out)@) == steps(old(out)@).push(
            Step::ControlWrite(flash_report(offset as int, total as int, chunk@, i as int)),
        ),
{
    proof {
        lemma_packet_count(chunk@.len() as int);
    }
    let len = chunk.len();
    let mut report: Vec<u8> = Vec::new();
    report.push(0x0b);
    if i == 0 {
        let packets = count_pieces(len + 16, FLASH_DATA_SIZE);
        let percent = (offset as u64 + len as u64) * 100 / (total as u64);
        proof {
            lemma_progress(0, offset + len, total as int);
            assert(percent == progress(offset as int, len as int, total as int));
        }
        report.push(packets as u8);
        report.push(0x00);
        report.push(0x80);
        push_le32(&mut report, offset as i64);
        push_le32(&mut report, len as i64);
        push_le32(&mut report, percent as i64);
    } else {
        report.push(i as u8);
        report.push(0x00);
        report.push(0x00);
    }
    let ghost head = report@;
    push_range(&mut report, chunk, from, to);
    let used = report.len();
    push_zeros(&mut report, CTRL_SIZE - used);
    assert(report@ == bytes::pad(head + chunk@.subrange(from as int, to as int), 440));
    assert(report@ == flash_report(offset as int, total as int, chunk@, i as int));
    out.push(Transfer::ControlWrite(report));
    assert(steps(out@) == steps(old(out)@).push(
        Step::ControlWrite(flash_report(offset as int, total as int, chunk@, i as int)),
    ));
}

/// Appends the reports of one chunk of an upload of `total` bytes.
fn write_flash_chunk(out: &mut Vec<Transfer>, offset: u32, total: u32, chunk: &[u8])
    requires
        0 < total,
        chunk@.len() <= 10240,
        offset + chunk@.len() <= total,
    ensures
        steps(final(out)@) == steps(old(out)@) + flash_chunk_steps(
            offset as int,
            total as int,
            chunk@,
        ),
{
    let len = chunk.len();
    let packets = count_pieces(len + 16, FLASH_DATA_SIZE);
    proof {
        lemma_packet_count(len as int);
    }
    let mut from: usize = 0;
    let mut i: usize = 0;
    assert(steps(out@) == steps(old(out)@) + flash_chunk_steps(
        offset as int,
        total as int,
        chunk@,
    ).take(0));
    while i < packets
        invariant
            0 < total,
            len == chunk@.len(),
            len <= 10240,
            offset + len <= total,
            packets == packet_count(len as int),
            packets <= 24,
            i <= packets,
            from == flash_start(len as int, i as int),
            steps(out@) == steps(old(out)@) + flash_chunk_steps(
                offset as int,
                total as int,
                chunk@,
            ).take(i as int),
        decreases packets - i,
    {
        let reach: usize = FLASH_FIRST_DATA_SIZE + FLASH_DATA_SIZE * i;
        let to: usize = if reach < len {
            reach
        } else {
            len
        };
        let ghost all = flash_chunk_steps(offset as int, total as int, chunk@);
        push_flash_report(out, offset, total, chunk, i, from, to);
        assert(all.take(i + 1) == all.take(i as int).push(all[i as int]));
        from = to;
        i = i + 1;
    }
    assert(flash_chunk_steps(offset as int, total as int, chunk@).take(packets as int)
        == flash_chunk_steps(offset as int, total as int, chunk@));
}

/// Appends a transfer.
fn push_step(out: &mut Vec<Transfer>, t: Transfer)
    ensures
        steps(final(out)@) == steps(old(out)@).push(t@),
{
    out.push(t);
    assert(steps(out@) == steps(old(out)@).push(t@));
}

/// Opens an upload and sends all chunks.
fn upload(kind: u8, blob: &[u8]) -> (res: Vec<Transfer>)
    requires
        0 < blob@.len() <= u32::MAX,
    ensures
        steps(res@) == upload_steps(kind, blob@),
{
    let len = blob.len();
    let total = len as u32;
    let mut out: Vec<Transfer> = Vec::new();
    push_step(&mut out, plain_report(0x82));
    push_step(&mut out, Transfer::ControlRead);
    let mut open: Vec<u8> = Vec::new();
    let head: [u8; 8] = [0x0a, 0x01, 0x00, 0x80, kind, 0x00, 0x00, 0x00];
    push_bytes(&mut open, &head);
    push_le32(&mut open, total as i64);
    assert(open@ == seq![0x0au8, 0x01, 0x00, 0x80, kind, 0x00, 0x00, 0x00] + bytes::le32(
        total as int,
    ));
    push_step(&mut out, command_report(open.as_slice()));
    push_step(&mut out, Transfer::ControlRead);
    assert(steps(out@) == upload_head(kind, len as int));

    let chunks = count_pieces(len, FLASH_CHUNK_SIZE);
    let mut n: usize = 0;
    while n < chunks
        invariant
            0 < len <= u32::MAX,
            len == blob@.len(),
            total == len,
            chunks == pieces(len as int, 10240),
            n <= chunks,
            steps(out@) == upload_head(kind, len as int) + chunk_steps(blob@, n as int),
        decreases chunks - n,
    {
        assert(10240 * n < len);
        let from: usize = FLASH_CHUNK_SIZE * n;
        let to: usize = if len - from > FLASH_CHUNK_SIZE {
            from + FLASH_CHUNK_SIZE
        } else {
            len
        };
        let mut chunk: Vec<u8> = Vec::new();
        push_range(&mut chunk, blob, from, to);
        assert(chunk@ == chunk_of(blob@, n as int));
        let ghost before = steps(out@);
        write_flash_chunk(&mut out, from as u32, total, chunk.as_slice());
        push_step(&mut out, Transfer::ControlRead);
        assert(steps(out@) == upload_head(kind, len as int) + chunk_steps(blob@, n + 1));
        n = n + 1;
    }
    out
}

/// The display, as the source of requests to its two interfaces.
#[derive(Clone, Copy, Debug)]
pub struct Device {}

/// A step towards opening the display.
#[derive(Clone, Debug)]
pub enum OpenStep {
    /// Open the control interface.
    Control(String),
    /// Open the image interface.
    Image(String),
    /// An interface is missing.
    Fail(DeviceError),
}

/// What an `OpenStep` holds.
pub enum OpenView {
    Control(Seq<char>),
    Image(Seq<char>),
    Fail(DeviceError),
}

impl View for OpenStep {
    type V = OpenView;

    open spec fn view(&self) -> OpenView {
        match *self {
            OpenStep::Control(p) => OpenView::Control(p@),
            OpenStep::Image(p) => OpenView::Image(p@),
            OpenStep::Fail(e) => OpenView::Fail(e),
        }
    }
}

/// What a list of opening steps holds.
pub open spec fn open_views(v: Seq<OpenStep>) -> Seq<OpenView> {
    Seq::new(v.len(), |i: int| v[i]@)
}

/// The steps that open the display: first its control interface, then its image
/// interface.
pub open spec fn open_steps(control: Option<Seq<char>>, image: Option<Seq<char>>) -> Seq<OpenView> {
    match control {
        None => seq![OpenView::Fail(DeviceError::ControlNotFound)],
        Some(c) => seq![
            OpenView::Control(c),
            match image {
                Some(i) => OpenView::Image(i),
                None => OpenView::Fail(DeviceError::ImageNotFound),
            },
        ],
    }
}

impl Device {
    /// Opens the display that is among the entries under `/sys/class/hidraw`.
    pub fn open(entries: &[HidrawEntry]) -> (res: Vec<OpenStep>)
        ensures
            open_views(res@) == open_steps(
                hidraw::last_file(
                    hidraw::entries_view(entries@),
                    |e: hidraw::HidrawView| hidraw::is_control(e),
                ),
                hidraw::last_file(
                    hidraw::entries_view(entries@),
                    |e: hidraw::HidrawView| hidraw::is_image(e),
                ),
            ),
    {
        let found = find_interfaces(entries);
        let mut res: Vec<OpenStep> = Vec::new();
        match found.control_file() {
            Ok(p) => {
                res.push(OpenStep::Control(p));
                match found.image_file() {
                    Ok(i) => res.push(OpenStep::Image(i)),
                    Err(e) => res.push(OpenStep::Fail(e)),
                }
            },
            Err(e) => res.push(OpenStep::Fail(e)),
        }
        assert(open_views(res@) =~= open_steps(
            text::opt_text(found.control),
            text::opt_text(found.image),
        ));
        res
    }

    /// Prepares the display for a live stream or an upload.
    pub fn init() -> (res: Vec<Transfer>)
        ensures
            steps(res@) == init_steps(6),
    {
        let codes: [u8; 6] = [0x85, 0x87, 0x85, 0x87, 0x84, 0x81];
        assert(codes@ == init_codes());
        let mut out: Vec<Transfer> = Vec::new();
        let mut i: usize = 0;
        assert(steps(out@) == init_steps(0));
        while i < 6
            invariant
                codes@ == init_codes(),
                i <= 6,
                steps(out@) == init_steps(i as int),
            decreases 6 - i,
        {
            push_step(&mut out, plain_report(codes[i]));
            push_step(&mut out, Transfer::ControlRead);
            push_step(&mut out, Transfer::Pause(50));
            assert(steps(out@) == init_steps(i + 1));
            i = i + 1;
        }
        out
    }

    /// Asks for the liquid temperature. The last report read is the response
    /// for `parse_liquid_temp`.
    pub fn read_liquid_temp() -> (res: Vec<Transfer>)
        ensures
            steps(res@) == temperature_steps(),
            steps(res@) == seq![send(plain_command(0x80)), Step::ControlRead],
    {
        let mut out: Vec<Transfer> = Vec::new();
        push_step(&mut out, plain_report(0x80));
        push_step(&mut out, Transfer::ControlRead);
        assert(steps(out@) == seq![send(plain_command(0x80)), Step::ControlRead]);
        out
    }

    /// Streams one JPEG picture without touching the brightness.
    pub fn send_frame_data(jpeg: &[u8]) -> (res: Vec<Transfer>)
        ensures
            steps(res@) == frame_steps(jpeg@),
    {
        let total = count_pieces(jpeg.len(), IMG_DATA_SIZE);
        let mut out: Vec<Transfer> = Vec::new();
        let mut i: usize = 0;
        assert(steps(out@) == frame_steps(jpeg@).take(0));
        while i < total
            invariant
                total == pieces(jpeg@.len() as int, 1020),
                i <= total,
                steps(out@) == frame_steps(jpeg@).take(i as int),
            decreases total - i,
        {
            assert(1020 * i < jpeg@.len());
            assert(jpeg.len() <= usize::MAX);
            let report = make_frame_report(jpeg, i, total, IMG_DATA_SIZE * i);
            let ghost all = frame_steps(jpeg@);
            push_step(&mut out, Transfer::ImageWrite(report));
            assert(all.take(i + 1) == all.take(i as int).push(all[i as int]));
            i = i + 1;
        }
        assert(frame_steps(jpeg@).take(total as int) == frame_steps(jpeg@));
        out
    }

    /// Sets the persistent brightness, from 0 (dark) to 100.
    pub fn set_brightness(brightness: u8) -> (res: Result<Vec<Transfer>, DeviceError>)
        ensures
            res matches Err(e) ==> brightness > 100 && e == DeviceError::BrightnessOutOfRange,
            res matches Ok(t) ==> brightness <= 100 && steps(t@) == seq![
                send(plain_command(0x12).push(brightness)),
            ] && steps(t@) == brightness_steps(brightness),
    {
        if brightness > 100 {
            return Err(DeviceError::BrightnessOutOfRange);
        }
        let command: [u8; 5] = [0x12, 0x01, 0x00, 0x80, brightness];
        assert(command@ == plain_command(0x12).push(brightness));
        let mut out: Vec<Transfer> = Vec::new();
        push_step(&mut out, command_report(&command));
        assert(steps(out@) == seq![send(plain_command(0x12).push(brightness))]);
        Ok(out)
    }

    /// Stages the color of the standby temperature overlay. The command is
    /// written twice.
    pub fn set_pump_temperature_color(rgb: [u8; 3]) -> (res: Vec<Transfer>)
        ensures
            ({
                let write = send(plain_command(0x16) + seq![rgb[0], rgb[1], rgb[2], 0xffu8]);
                steps(res@) == seq![write, Step::Pause(300), write]
            }),
            steps(res@) == color_steps(rgb),
    {
        let command: [u8; 8] = [0x16, 0x01, 0x00, 0x80, rgb[0], rgb[1], rgb[2], 0xff];
        assert(command@ == plain_command(0x16) + seq![rgb[0], rgb[1], rgb[2], 0xffu8]);
        let mut out: Vec<Transfer> = Vec::new();
        push_step(&mut out, command_report(&command));
        push_step(&mut out, Transfer::Pause(300));
        push_step(&mut out, command_report(&command));
        assert(steps(out@) == seq![send(command@), Step::Pause(300), send(command@)]);
        out
    }

    /// Stores a JPEG as the standby picture.
    pub fn upload_standby(jpeg: &[u8]) -> (res: Result<Vec<Transfer>, DeviceError>)
        ensures
            res matches Err(e) ==> standby_error(jpeg@) == Some(e),
            res matches Ok(t) ==> standby_error(jpeg@) is None && steps(t@) == standby_steps(jpeg@),
    {
        if jpeg.len() == 0 {
            return Err(DeviceError::EmptyStandby);
        }
        if jpeg.len() as u64 > u32::MAX as u64 {
            return Err(DeviceError::StandbyTooLarge);
        }
        let mut out = upload(0x00, jpeg);
        push_step(&mut out, plain_report(0x82));
        push_step(&mut out, Transfer::ControlRead);
        assert(steps(out@) == standby_steps(jpeg@));
        Ok(out)
    }

    /// Stores a boot-animation container.
    pub fn upload_boot(container: &[u8], frame_delay_ms: u32) -> (res: Result<
        Vec<Transfer>,
        DeviceError,
    >)
        ensures
            res matches Err(e) ==> upload_boot_error(container@, frame_delay_ms as int) == Some(e),
            res matches Ok(t) ==> upload_boot_error(container@, frame_delay_ms as int) is None
                && steps(t@) == boot_steps(container@, frame_delay_ms as int),
    {
        if container.len() == 0 {
            return Err(DeviceError::EmptyBootContainer);
        }
        if frame_delay_ms < MIN_BOOT_FRAME_DELAY_MS {
            return Err(DeviceError::BootDelayTooShort);
        }
        if container.len() as u64 > u32::MAX as u64 {
            return Err(DeviceError::BootContainerTooLarge);
        }
        let mut out = upload(0x01, container);
        push_step(&mut out, Transfer::Pause(80));
        let mut commit: Vec<u8> = Vec::new();
        let head: [u8; 4] = [0x14, 0x01, 0x00, 0x80];
        push_bytes(&mut commit, &head);
        push_le32(&mut commit, frame_delay_ms as i64 - 1);
        assert(commit@ == plain_command(0x14) + bytes::le32(frame_delay_ms - 1));
        push_step(&mut out, command_report(commit.as_slice()));
        push_step(&mut out, Transfer::Pause(20));
        push_step(&mut out, plain_report(0x82));
        push_step(&mut out, Transfer::ControlRead);
        assert(steps(out@) == boot_steps(container@, frame_delay_ms as int));
        Ok(out)
    }
}

/// The liquid temperature of a status response, in whole degrees.
pub fn parse_liquid_temp(resp: &[u8; 440]) -> (res: Result<u8, DeviceError>)
    ensures
        res matches Err(e) ==> liquid_temp(resp@) is None && e == DeviceError::InvalidTemperature,
        res matches Ok(t) ==> liquid_temp(resp@) == Some(t as int),
{
    let encoded = resp[4];
    let next: u8 = if encoded == 255 {
        255
    } else {
        encoded + 1
    };
    if encoded < 0x24 || resp[5] != next {
        return Err(DeviceError::InvalidTemperature);
    }
    Ok(encoded - 0x24)
}

/// How waiting for a response ended.
#[derive(Clone, Copy, Debug, PartialEq, Eq, Structural)]
pub enum Wait {
    /// A response can be read.
    Ready,
    /// No response came in time; the request fails with `NoResponse`.
    TimedOut,
    /// The system reported an error.
    Failed,
}

/// Reads the return value of a wait on one interface: the number of ready
/// interfaces, or a negative number for an error.
pub fn poll_read(ret: i32) -> (res: Wait)
    ensures
        res == (if ret == 0 {
            Wait::TimedOut
        } else if ret < 0 {
            Wait::Failed
        } else {
            Wait::Ready
        }),
{
    if ret == 0 {
        Wait::TimedOut
    } else if ret < 0 {
        Wait::Failed
    } else {
        Wait::Ready
    }
}

} // verus!
