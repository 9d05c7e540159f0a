//! The display's side of the transfers: what it makes of the reports that it
//! receives.
//!
//! The reports are read as the protocol defines them, without a look at how they
//! were made. The laws say that what the display ends up with is what was to be
//! sent.

use crate::bytes;
use crate::bytes::u32_at;
use crate::device;
use crate::device::Step;
use crate::error::DeviceError;
use vstd::prelude::*;

verus! {

/// The state of the display during an upload.
#[verifier::ext_equal]
pub struct Receiver {
    /// The kind of media that the upload was opened for.
    pub kind: Option<u8>,
    /// The bytes that were announced, as far as they have arrived.
    pub memory: Seq<u8>,
    /// Where the next byte of the chunk is stored.
    pub at: int,
    /// How many bytes of the chunk are still to come.
    pub left: int,
    /// How many reports the chunk has.
    pub parts: int,
    /// Which report of the chunk comes next.
    pub next: int,
    /// The progress that was announced last, in percent.
    pub percent: int,
    /// How many chunks have been received.
    pub chunks: int,
    /// Whether a response is waiting to be read.
    pub due: bool,
    /// How often the status was asked for.
    pub queries: int,
    /// The frame delay that was committed, in milliseconds.
    pub delay: Option<int>,
    /// How long the sender has paused since the last report, in milliseconds.
    pub paused: int,
    /// Whether everything has arrived as the protocol asks for.
    pub in_order: bool,
}

/// The display before an upload.
pub open spec fn idle() -> Receiver {
    Receiver {
        kind: None,
        memory: seq![],
        at: 0,
        left: 0,
        parts: 0,
        next: 0,
        percent: 0,
        chunks: 0,
        due: false,
        queries: 0,
        delay: None,
        paused: 0,
        in_order: true,
    }
}

/// `memory` with `data` written at `at`.
pub open spec fn stored(memory: Seq<u8>, at: int, data: Seq<u8>) -> Seq<u8> {
    memory.take(at) + data + memory.skip(at + data.len())
}

impl Receiver {
    /// After the data of one report of a chunk.
    pub open spec fn taking(self, data: Seq<u8>) -> Receiver {
        let n = device::min(self.left, data.len() as int);
        let last = self.next + 1 == self.parts;
        Receiver {
            memory: stored(self.memory, self.at, data.take(n)),
            at: self.at + n,
            left: self.left - n,
            next: self.next + 1,
            due: last,
            chunks: if last {
                self.chunks + 1
            } else {
                self.chunks
            },
            in_order: self.in_order && self.next < self.parts && (last ==> self.left == n) && (
            forall|i: int| n <= i < data.len() ==> data[i] == 0),
            ..self
        }
    }

    /// After the first report of a chunk: bytes 4 to 7 hold its offset, bytes 8 to
    /// 11 its length, and bytes 12 to 15 the progress of the upload.
    pub open spec fn beginning(self, r: Seq<u8>) -> Receiver {
        let at = u32_at(r, 4);
        let len = u32_at(r, 8);
        let percent = u32_at(r, 12);
        let total = self.memory.len() as int;
        let done = 100 * (at + len);
        Receiver {
            at,
            left: len,
            parts: r[1] as int,
            next: 0,
            percent,
            in_order: self.in_order && !self.due && self.kind is Some && 0 < len <= 10240 && at + len
                <= total && percent * total <= done < (percent + 1) * total,
            ..self
        }.taking(r.skip(16))
    }

    /// After a report on the control interface.
    pub open spec fn hearing(self, r: Seq<u8>) -> Receiver {
        let first = r[3] == 0x80;
        let w = Receiver { paused: 0, ..self };
        if r.len() != 440 || r[2] != 0 || !(first || r[3] == 0) {
            Receiver { in_order: false, ..w }
        } else if r[0] == 0x0b && first {
            w.beginning(r)
        } else if r[0] == 0x0b {
            Receiver { in_order: w.in_order && r[1] == w.next && w.next > 0, ..w }.taking(r.skip(4))
        } else if self.due || !first || r[1] != 1 {
            Receiver { in_order: false, ..w }
        } else if r[0] == 0x82 {
            Receiver { due: true, queries: w.queries + 1, ..w }
        } else if r[0] == 0x0a {
            Receiver { kind: Some(r[4]), memory: bytes::zeros(u32_at(r, 8) as nat), due: true, ..w }
        } else if r[0] == 0x14 {
            Receiver {
                delay: Some(u32_at(r, 4) + 1),
                in_order: w.in_order && self.paused >= 80,
                ..w
            }
        } else {
            Receiver { in_order: false, ..w }
        }
    }

    /// After a step of the sender.
    pub open spec fn after_step(self, s: Step) -> Receiver {
        match s {
            Step::ControlWrite(r) => self.hearing(r),
            Step::ControlRead => Receiver { due: false, in_order: self.in_order && self.due, ..self },
            Step::ImageWrite(_) => Receiver { in_order: false, ..self },
            Step::Pause(ms) => Receiver { paused: self.paused + ms, ..self },
        }
    }

    /// After all steps of the sender.
    pub open spec fn after(self, s: Seq<Step>) -> Receiver
        decreases s.len(),
    {
        if s.len() == 0 {
            self
        } else {
            self.after(s.drop_last()).after_step(s.last())
        }
    }
}

proof fn lemma_after_concat(w: Receiver, a: Seq<Step>, b: Seq<Step>)
    ensures
        w.after(a + b) == w.after(a).after(b),
    decreases b.len(),
{
    if b.len() == 0 {
        assert(a + b =~= a);
    } else {
        assert((a + b).drop_last() =~= a + b.drop_last());
        assert((a + b).last() == b.last());
        lemma_after_concat(w, a, b.drop_last());
    }
}

proof fn lemma_after_one(w: Receiver, a: Step)
    ensures
        w.after(seq![a]) == w.after_step(a),
{
    assert(seq![a].drop_last() =~= Seq::<Step>::empty());
    assert(w.after(seq![a].drop_last()) == w);
}

proof fn lemma_after_two(w: Receiver, a: Step, b: Step)
    ensures
        w.after(seq![a, b]) == w.after_step(a).after_step(b),
{
    assert(seq![a, b].drop_last() =~= seq![a]);
    lemma_after_one(w, a);
}

// ── Uploads ──────────────────────────────────────────────────────────────────

/// The first bytes of `blob`, and zeros for those that have not arrived.
spec fn arrived(blob: Seq<u8>, n: int) -> Seq<u8> {
    if n < blob.len() {
        blob.take(n) + bytes::zeros((blob.len() - n) as nat)
    } else {
        blob
    }
}

/// The display after `n` chunks and `i` reports of the next one.
spec fn is_at(w: Receiver, kind: u8, blob: Seq<u8>, n: int, i: int) -> bool {
    let len = device::chunk_of(blob, n).len() as int;
    let sent = device::flash_start(len, i);
    &&& w.in_order
    &&& w.kind == Some(kind)
    &&& w.memory == arrived(blob, 10240 * n + sent)
    &&& w.delay is None
    &&& w.queries == 1
    &&& w.paused == 0
    &&& i == 0 ==> !w.due && w.chunks == n
    &&& i > 0 ==> {
        &&& w.at == 10240 * n + sent
        &&& w.left == len - sent
        &&& w.parts == device::packet_count(len)
        &&& w.next == i
        &&& w.due == (i == w.parts)
        &&& w.chunks == if w.due {
            n + 1
        } else {
            n
        }
        &&& w.percent * blob.len() <= 100 * (10240 * n + len)
        &&& 100 * (10240 * n + len) < (w.percent + 1) * blob.len()
    }
}

proof fn lemma_count(len: int)
    requires
        0 < len <= 10240,
    ensures
        1 <= device::packet_count(len) <= 24,
        device::flash_start(len, device::packet_count(len)) == len,
        forall|i: int|
            0 <= i < device::packet_count(len) ==> 0 <= #[trigger] device::flash_start(len, i)
                <= device::flash_start(len, i + 1) <= len,
{
    let n = device::packet_count(len);
    assert(436 * n >= len + 16);
}

proof fn lemma_stored(blob: Seq<u8>, from: int, to: int)
    requires
        0 <= from <= to <= blob.len(),
    ensures
        stored(arrived(blob, from), from, blob.subrange(from, to)) == arrived(blob, to),
{
    assert(stored(arrived(blob, from), from, blob.subrange(from, to)) =~= arrived(blob, to));
}

proof fn lemma_field(r: Seq<u8>, at: int, x: int)
    requires
        0 <= at,
        at + 4 <= r.len(),
        r.subrange(at, at + 4) == bytes::le32(x),
        0 <= x < 0x1_0000_0000,
    ensures
        u32_at(r, at) == x,
{
    bytes::lemma_le32_reads_back(r, at, x);
}

proof fn lemma_floor(done: int, total: int)
    requires
        0 <= done <= total,
        0 < total,
    ensures
        0 <= done * 100 / total <= 100,
        (done * 100 / total) * total <= 100 * done < (done * 100 / total + 1) * total,
{
    let p = done * 100 / total;
    vstd::arithmetic::div_mod::lemma_fundamental_div_mod(done * 100, total);
    assert(p * total <= 100 * done < (p + 1) * total) by (nonlinear_arith)
        requires
            done * 100 == total * p + (done * 100) % total,
            0 <= (done * 100) % total < total,
    ;
    assert(0 <= p <= 100) by (nonlinear_arith)
        requires
            p * total <= 100 * done < (p + 1) * total,
            0 <= done <= total,
            0 < total,
    ;
}

/// What the head of the first report of a chunk announces.
proof fn lemma_first_head(offset: int, total: int, chunk: Seq<u8>)
    requires
        0 < chunk.len() <= 10240,
        0 <= offset,
        offset + chunk.len() <= total <= u32::MAX,
    ensures
        ({
            let r = device::flash_report(offset, total, chunk, 0);
            let len = chunk.len() as int;
            let percent = device::progress(offset, len, total);
            &&& r.len() == 440
            &&& r[0] == 0x0b
            &&& r[1] == device::packet_count(len)
            &&& r[2] == 0
            &&& r[3] == 0x80
            &&& u32_at(r, 4) == offset
            &&& u32_at(r, 8) == len
            &&& u32_at(r, 12) == percent
            &&& percent * total <= 100 * (offset + len) < (percent + 1) * total
            &&& r.skip(16) == bytes::pad(chunk.take(device::flash_start(len, 1)), 424)
        }),
{
    let r = device::flash_report(offset, total, chunk, 0);
    let len = chunk.len() as int;
    let percent = device::progress(offset, len, total);
    lemma_count(len);
    lemma_floor(offset + len, total);
    assert(r.subrange(4, 8) =~= bytes::le32(offset));
    assert(r.subrange(8, 12) =~= bytes::le32(len));
    assert(r.subrange(12, 16) =~= bytes::le32(percent));
    lemma_field(r, 4, offset);
    lemma_field(r, 8, len);
    lemma_field(r, 12, percent);
    assert(r.skip(16) =~= bytes::pad(chunk.take(device::flash_start(len, 1)), 424));
}

proof fn lemma_report(w: Receiver, kind: u8, blob: Seq<u8>, n: int, i: int)
    requires
        blob.len() <= u32::MAX,
        0 <= n,
        10240 * n < blob.len(),
        0 <= i < device::packet_count(device::chunk_of(blob, n).len() as int),
        is_at(w, kind, blob, n, i),
    ensures
        is_at(
            w.hearing(
                device::flash_report(
                    10240 * n,
                    blob.len() as int,
                    device::chunk_of(blob, n),
                    i,
                ),
            ),
            kind,
            blob,
            n,
            i + 1,
        ),
{
    let total = blob.len() as int;
    let chunk = device::chunk_of(blob, n);
    let len = chunk.len() as int;
    let from = device::flash_start(len, i);
    let to = device::flash_start(len, i + 1);
    let part = chunk.subrange(from, to);
    lemma_count(len);
    assert(0 <= device::flash_start(len, i) <= device::flash_start(len, i + 1) <= len);
    assert(part =~= blob.subrange(10240 * n + from, 10240 * n + to));
    lemma_stored(blob, 10240 * n + from, 10240 * n + to);
    if i == 0 {
        lemma_first_head(10240 * n, total, chunk);
        assert(chunk.take(to) =~= part);
        lemma_taking(
            Receiver {
                at: 10240 * n,
                left: len,
                parts: device::packet_count(len),
                next: 0,
                percent: device::progress(10240 * n, len, total),
                paused: 0,
                ..w
            },
            part,
            424,
        );
        assert(arrived(blob, 10240 * n).len() == total);
    } else {
        lemma_later_head(10240 * n, total, chunk, i);
        lemma_taking(Receiver { paused: 0, ..w }, part, 436);
    }
}

/// The head of a later report of a chunk.
proof fn lemma_later_head(offset: int, total: int, chunk: Seq<u8>, i: int)
    requires
        0 < chunk.len() <= 10240,
        0 < i < device::packet_count(chunk.len() as int),
    ensures
        ({
            let r = device::flash_report(offset, total, chunk, i);
            let len = chunk.len() as int;
            &&& r.len() == 440
            &&& r[0] == 0x0b
            &&& r[1] == i
            &&& r[2] == 0
            &&& r[3] == 0
            &&& r.skip(4) == bytes::pad(
                chunk.subrange(device::flash_start(len, i), device::flash_start(len, i + 1)),
                436,
            )
        }),
{
    let r = device::flash_report(offset, total, chunk, i);
    let len = chunk.len() as int;
    lemma_count(len);
    assert(device::flash_start(len, i) <= device::flash_start(len, i + 1));
    assert(r.skip(4) =~= bytes::pad(
        chunk.subrange(device::flash_start(len, i), device::flash_start(len, i + 1)),
        436,
    ));
}

/// A report with `part` as its data, which fills it or ends the chunk.
proof fn lemma_taking(w: Receiver, part: Seq<u8>, room: nat)
    requires
        w.in_order,
        w.next < w.parts,
        part.len() <= w.left,
        part.len() <= room,
        part.len() == room || part.len() == w.left,
        w.next + 1 == w.parts ==> part.len() == w.left,
    ensures
        w.taking(bytes::pad(part, room)) == (Receiver {
            memory: stored(w.memory, w.at, part),
            at: w.at + part.len(),
            left: w.left - part.len(),
            next: w.next + 1,
            due: w.next + 1 == w.parts,
            chunks: if w.next + 1 == w.parts {
                w.chunks + 1
            } else {
                w.chunks
            },
            ..w
        }),
{
    let data = bytes::pad(part, room);
    assert(data.take(part.len() as int) =~= part);
}

proof fn lemma_chunk(w: Receiver, kind: u8, blob: Seq<u8>, n: int, i: int)
    requires
        blob.len() <= u32::MAX,
        0 <= n,
        10240 * n < blob.len(),
        0 <= i <= device::packet_count(device::chunk_of(blob, n).len() as int),
        is_at(w, kind, blob, n, 0),
    ensures
        is_at(
            w.after(
                device::flash_chunk_steps(
                    10240 * n,
                    blob.len() as int,
                    device::chunk_of(blob, n),
                ).take(i),
            ),
            kind,
            blob,
            n,
            i,
        ),
    decreases i,
{
    let all = device::flash_chunk_steps(10240 * n, blob.len() as int, device::chunk_of(blob, n));
    if i == 0 {
        assert(all.take(0) =~= Seq::<Step>::empty());
    } else {
        lemma_chunk(w, kind, blob, n, i - 1);
        assert(all.take(i).drop_last() =~= all.take(i - 1));
        lemma_report(w.after(all.take(i - 1)), kind, blob, n, i - 1);
    }
}

/// The response to a chunk is read.
proof fn lemma_acknowledged(w: Receiver, kind: u8, blob: Seq<u8>, n: int)
    requires
        0 <= n,
        10240 * n < blob.len(),
        is_at(w, kind, blob, n, device::packet_count(device::chunk_of(blob, n).len() as int)),
    ensures
        is_at(w.after_step(Step::ControlRead), kind, blob, n + 1, 0),
        10240 * (n + 1) >= blob.len() ==> w.percent == 100,
{
    let len = device::chunk_of(blob, n).len() as int;
    let total = blob.len() as int;
    lemma_count(len);
    assert(10240 * n + len == device::min(10240 * (n + 1), total));
    assert(device::flash_start(device::chunk_of(blob, n + 1).len() as int, 0) == 0);
    assert(arrived(blob, 10240 * n + len) == arrived(blob, 10240 * (n + 1)));
    if 10240 * (n + 1) >= total {
        let p = w.percent;
        assert(p == 100) by (nonlinear_arith)
            requires
                p * total <= 100 * total < (p + 1) * total,
                0 < total,
        ;
    }
}

proof fn lemma_chunks(w: Receiver, kind: u8, blob: Seq<u8>, n: int)
    requires
        blob.len() <= u32::MAX,
        0 <= n <= device::pieces(blob.len() as int, 10240),
        is_at(w, kind, blob, 0, 0),
    ensures
        is_at(w.after(device::chunk_steps(blob, n)), kind, blob, n, 0),
        n > 0 && 10240 * n >= blob.len() ==> w.after(device::chunk_steps(blob, n)).percent == 100,
    decreases n,
{
    if n > 0 {
        let m = n - 1;
        lemma_chunks(w, kind, blob, m);
        assert(10240 * m < blob.len());
        let chunk = device::chunk_of(blob, m);
        let before = device::chunk_steps(blob, m);
        let part = device::flash_chunk_steps(10240 * m, blob.len() as int, chunk);
        assert(1 <= part.len()) by {
            lemma_count(chunk.len() as int);
        }
        lemma_chunk(w.after(before), kind, blob, m, part.len() as int);
        assert(part.take(part.len() as int) =~= part);
        lemma_after_concat(w, before, part);
        lemma_after_concat(w, before + part, seq![Step::ControlRead]);
        lemma_after_one(w.after(before + part), Step::ControlRead);
        lemma_acknowledged(w.after(before + part), kind, blob, m);
    }
}

/// A command is heard as it was sent.
proof fn lemma_command(command: Seq<u8>)
    requires
        4 <= command.len() <= 440,
    ensures
        device::control_report(command).len() == 440,
        forall|i: int| 0 <= i < command.len() ==> device::control_report(command)[i] == command[i],
        device::send(command) == Step::ControlWrite(device::control_report(command)),
{
}

proof fn lemma_opened(kind: u8, blob: Seq<u8>)
    requires
        blob.len() <= u32::MAX,
    ensures
        is_at(idle().after(device::upload_head(kind, blob.len() as int)), kind, blob, 0, 0),
{
    let w = idle();
    let total = blob.len() as int;
    let query = device::plain_command(0x82);
    let open = seq![0x0au8, 0x01, 0x00, 0x80, kind, 0x00, 0x00, 0x00] + bytes::le32(total);
    lemma_command(query);
    lemma_command(open);
    let head = device::upload_head(kind, total);
    let a = seq![device::send(query), Step::ControlRead];
    let b = seq![device::send(open), Step::ControlRead];
    assert(head =~= a + b);
    lemma_after_concat(w, a, b);
    lemma_after_two(w, a[0], a[1]);
    lemma_after_two(w.after(a), b[0], b[1]);
    let r = device::control_report(open);
    assert(r.subrange(8, 12) =~= bytes::le32(total));
    lemma_field(r, 8, total);
    assert(arrived(blob, 0) =~= bytes::zeros(blob.len()));
    assert(device::flash_start(device::chunk_of(blob, 0).len() as int, 0) == 0);
}

/// An upload that has arrived.
proof fn lemma_uploaded(kind: u8, blob: Seq<u8>)
    requires
        0 < blob.len() <= u32::MAX,
    ensures
        ({
            let w = idle().after(device::upload_steps(kind, blob));
            &&& w.in_order
            &&& !w.due
            &&& w.kind == Some(kind)
            &&& w.memory == blob
            &&& w.percent == 100
            &&& 10240 * (w.chunks - 1) < blob.len() <= 10240 * w.chunks
            &&& w.queries == 1
            &&& w.paused == 0
            &&& w.delay is None
        }),
{
    let n = device::pieces(blob.len() as int, 10240);
    let head = device::upload_head(kind, blob.len() as int);
    lemma_opened(kind, blob);
    lemma_chunks(idle().after(head), kind, blob, n);
    lemma_after_concat(idle(), head, device::chunk_steps(blob, n));
    assert(10240 * n >= blob.len());
    assert(device::flash_start(device::chunk_of(blob, n).len() as int, 0) == 0);
}

proof fn lemma_closed(w: Receiver)
    requires
        w.in_order,
        !w.due,
    ensures
        w.after(device::upload_tail()) == (Receiver { queries: w.queries + 1, paused: 0, ..w }),
{
    let query = device::plain_command(0x82);
    lemma_command(query);
    lemma_after_two(w, device::send(query), Step::ControlRead);
}

/// A standby picture arrives complete: the display is told its length, gets every
/// byte at its offset in chunks of at most 10240 bytes, each announced with its
/// length and progress and answered once, and ends up with the picture.
pub proof fn law_standby_picture_arrives(jpeg: Seq<u8>)
    requires
        0 < jpeg.len() <= u32::MAX,
    ensures
        ({
            let w = idle().after(device::standby_steps(jpeg));
            &&& w.in_order
            &&& !w.due
            &&& w.kind == Some(0u8)
            &&& w.memory == jpeg
            &&& w.percent == 100
            &&& 10240 * (w.chunks - 1) < jpeg.len() <= 10240 * w.chunks
            &&& w.queries == 2
            &&& w.delay is None
        }),
{
    lemma_uploaded(0x00, jpeg);
    let body = device::upload_steps(0x00, jpeg);
    lemma_after_concat(idle(), body, device::upload_tail());
    lemma_closed(idle().after(body));
}

/// A boot animation arrives complete, in the same way, and its frame delay is
/// committed after the display has had 80 milliseconds to store it.
pub proof fn law_boot_animation_arrives(container: Seq<u8>, delay: int)
    requires
        0 < container.len() <= u32::MAX,
        1 <= delay <= u32::MAX,
    ensures
        ({
            let w = idle().after(device::boot_steps(container, delay));
            &&& w.in_order
            &&& !w.due
            &&& w.kind == Some(1u8)
            &&& w.memory == container
            &&& w.percent == 100
            &&& 10240 * (w.chunks - 1) < container.len() <= 10240 * w.chunks
            &&& w.queries == 2
            &&& w.delay == Some(delay)
        }),
{
    lemma_uploaded(0x01, container);
    let body = device::upload_steps(0x01, container);
    let command = device::plain_command(0x14) + bytes::le32(delay - 1);
    let commit = seq![Step::Pause(80), device::send(command), Step::Pause(20)];
    let w = idle().after(body);
    lemma_after_concat(idle(), body, commit);
    lemma_after_concat(idle(), body + commit, device::upload_tail());
    lemma_after_two(w, commit[0], commit[1]);
    assert(commit =~= seq![commit[0], commit[1]] + seq![commit[2]]);
    lemma_after_concat(w, seq![commit[0], commit[1]], seq![commit[2]]);
    lemma_after_one(w.after(seq![commit[0], commit[1]]), commit[2]);
    lemma_command(command);
    let r = device::control_report(command);
    assert(r.subrange(4, 8) =~= bytes::le32(delay - 1));
    lemma_field(r, 4, delay - 1);
    lemma_closed(w.after(commit));
}

// ── Live frames ──────────────────────────────────────────────────────────────

/// A live frame is written in reports of 1024 bytes on the image interface, as few
/// as can hold it. The first is marked and gives their number, the others give
/// their index, both as far as they fit into a byte. Each byte of the picture
/// stands in its place behind the four-byte heads, and all that follows is zero.
pub proof fn law_live_frame_arrives(jpeg: Seq<u8>, i: int)
    requires
        0 <= i < device::frame_steps(jpeg).len(),
    ensures
        ({
            let sent = device::frame_steps(jpeg);
            let count = sent.len() as int;
            &&& 1020 * (count - 1) < jpeg.len() <= 1020 * count
            &&& sent[i] is ImageWrite
            &&& {
                let r = sent[i]->ImageWrite_0;
                &&& r.len() == 1024
                &&& r[0] == 0x08
                &&& r[2] == 0
                &&& i == 0 ==> r[3] == 0x80 && r[1] == count % 256
                &&& i > 0 ==> r[3] == 0 && r[1] == i % 256
                &&& forall|k: int|
                    0 <= k < 1020 ==> #[trigger] r[4 + k] == (if 1020 * i + k < jpeg.len() {
                        jpeg[1020 * i + k]
                    } else {
                        0u8
                    })
            }
        }),
{
    let len = jpeg.len() as int;
    let r = device::frame_report(jpeg, i);
    let from = device::min(1020 * i, len);
    let to = device::min(1020 * (i + 1), len);
    assert(from == 1020 * i);
    assert(r.len() == 1024);
    assert forall|k: int| 0 <= k < 1020 implies #[trigger] r[4 + k] == (if 1020 * i + k < len {
        jpeg[1020 * i + k]
    } else {
        0u8
    }) by {
        if 1020 * i + k < len {
            assert(jpeg.subrange(from, to)[k] == jpeg[from + k]);
        }
    }
}

/// A picture without bytes is not written, and every other one is.
pub proof fn law_every_frame_is_sent(jpeg: Seq<u8>)
    ensures
        (device::frame_steps(jpeg).len() == 0) == (jpeg.len() == 0),
{
}

// ── Settings ─────────────────────────────────────────────────────────────────

/// The settings of the display, and what it was asked.
#[verifier::ext_equal]
pub struct Panel {
    /// The brightness in percent.
    pub brightness: Option<int>,
    /// Red, green, blue and opacity of the temperature overlay, and how often they
    /// were written.
    pub color: Option<Seq<u8>>,
    pub written: int,
    /// The codes of the questions that were asked and answered.
    pub answered: Seq<u8>,
    pub open_question: Option<u8>,
    /// Milliseconds since the last report.
    pub paused: int,
    pub in_order: bool,
}

/// The display when it is attached.
pub open spec fn attached() -> Panel {
    Panel {
        brightness: None,
        color: None,
        written: 0,
        answered: seq![],
        open_question: None,
        paused: 0,
        in_order: true,
    }
}

/// Whether all bytes of a report from `n` on are zero.
pub open spec fn ends_at(r: Seq<u8>, n: int) -> bool {
    forall|i: int| n <= i < r.len() ==> r[i] == 0
}

impl Panel {
    /// After a report on the control interface.
    pub open spec fn hearing(self, r: Seq<u8>) -> Panel {
        let p = Panel { paused: 0, ..self };
        if r.len() != 440 || r[1] != 1 || r[2] != 0 || r[3] != 0x80 || self.open_question is Some {
            Panel { in_order: false, ..p }
        } else if r[0] == 0x12 {
            Panel { brightness: Some(r[4] as int), in_order: p.in_order && ends_at(r, 5), ..p }
        } else if r[0] == 0x16 {
            Panel {
                color: Some(r.subrange(4, 8)),
                written: p.written + 1,
                in_order: p.in_order && ends_at(r, 8) && (self.written > 0 ==> self.paused >= 280
                    && self.color == Some(r.subrange(4, 8))),
                ..p
            }
        } else {
            Panel { open_question: Some(r[0]), in_order: p.in_order && ends_at(r, 4), ..p }
        }
    }

    /// After a step of the sender.
    pub open spec fn after_step(self, s: Step) -> Panel {
        match s {
            Step::ControlWrite(r) => self.hearing(r),
            Step::ControlRead => match self.open_question {
                Some(q) => Panel { answered: self.answered.push(q), open_question: None, ..self },
                None => Panel { in_order: false, ..self },
            },
            Step::ImageWrite(_) => Panel { in_order: false, ..self },
            Step::Pause(ms) => Panel { paused: self.paused + ms, ..self },
        }
    }

    /// After all steps of the sender.
    pub open spec fn after(self, s: Seq<Step>) -> Panel
        decreases s.len(),
    {
        if s.len() == 0 {
            self
        } else {
            self.after(s.drop_last()).after_step(s.last())
        }
    }
}

proof fn lemma_panel_one(p: Panel, a: Step)
    ensures
        p.after(seq![a]) == p.after_step(a),
{
    assert(seq![a].drop_last() =~= Seq::<Step>::empty());
    assert(p.after(seq![a].drop_last()) == p);
}

proof fn lemma_panel_two(p: Panel, a: Step, b: Step)
    ensures
        p.after(seq![a, b]) == p.after_step(a).after_step(b),
{
    assert(seq![a, b].drop_last() =~= seq![a]);
    lemma_panel_one(p, a);
}

proof fn lemma_panel_concat(p: Panel, a: Seq<Step>, b: Seq<Step>)
    ensures
        p.after(a + b) == p.after(a).after(b),
    decreases b.len(),
{
    if b.len() == 0 {
        assert(a + b =~= a);
    } else {
        assert((a + b).drop_last() =~= a + b.drop_last());
        assert((a + b).last() == b.last());
        lemma_panel_concat(p, a, b.drop_last());
    }
}

/// The display gets the brightness that was set, whatever its settings were.
pub proof fn law_brightness_is_set(p: Panel, brightness: u8)
    requires
        p.in_order,
        p.open_question is None,
    ensures
        p.after(device::brightness_steps(brightness)) == (Panel {
            brightness: Some(brightness as int),
            paused: 0,
            ..p
        }),
{
    let command = device::plain_command(0x12).push(brightness);
    lemma_command(command);
    lemma_panel_one(p, device::send(command));
}

/// The display gets the opaque color that was set, written twice with the pause
/// that it needs.
pub proof fn law_color_is_staged(rgb: [u8; 3])
    ensures
        ({
            let p = attached().after(device::color_steps(rgb));
            &&& p.in_order
            &&& p.color == Some(seq![rgb[0], rgb[1], rgb[2], 255u8])
            &&& p.written == 2
            &&& p.brightness is None
            &&& p.answered.len() == 0
        }),
{
    let color = seq![rgb[0], rgb[1], rgb[2], 0xffu8];
    let command = device::plain_command(0x16) + color;
    let write = device::send(command);
    lemma_command(command);
    assert(device::control_report(command).subrange(4, 8) =~= color);
    let all = device::color_steps(rgb);
    assert(all =~= seq![write, Step::Pause(300)] + seq![write]);
    lemma_panel_concat(attached(), seq![write, Step::Pause(300)], seq![write]);
    lemma_panel_two(attached(), write, Step::Pause(300));
    lemma_panel_one(attached().after(seq![write, Step::Pause(300)]), write);
}

/// The temperature is asked for once and the answer is read; no setting changes.
pub proof fn law_temperature_is_asked(p: Panel)
    requires
        p.in_order,
        p.open_question is None,
    ensures
        p.after(device::temperature_steps()) == (Panel {
            answered: p.answered.push(0x80u8),
            paused: 0,
            ..p
        }),
{
    let command = device::plain_command(0x80);
    lemma_command(command);
    lemma_panel_two(p, device::send(command), Step::ControlRead);
}

proof fn lemma_initialized(n: int)
    requires
        0 <= n <= 6,
    ensures
        ({
            let p = attached().after(device::init_steps(n));
            &&& p.in_order
            &&& p.open_question is None
            &&& p.answered == device::init_codes().take(n)
            &&& n > 0 ==> p.paused == 50
            &&& p.brightness is None && p.color is None && p.written == 0
        }),
    decreases n,
{
    if n == 0 {
        assert(device::init_codes().take(0) =~= Seq::<u8>::empty());
    } else {
        lemma_initialized(n - 1);
        let code = device::init_codes()[n - 1];
        let command = device::plain_command(code);
        lemma_command(command);
        let before = attached().after(device::init_steps(n - 1));
        let a = seq![device::send(command), Step::ControlRead];
        let b = seq![Step::Pause(50)];
        assert(device::init_steps(n) =~= device::init_steps(n - 1) + (a + b));
        lemma_panel_concat(attached(), device::init_steps(n - 1), a + b);
        lemma_panel_concat(before, a, b);
        lemma_panel_two(before, a[0], a[1]);
        lemma_panel_one(before.after(a), b[0]);
        assert(device::init_codes().take(n) =~= device::init_codes().take(n - 1).push(code));
    }
}

/// Initialization asks the six questions in order, reads the answer to each before
/// the next, leaves the display a pause and changes no setting.
pub proof fn law_display_is_initialized()
    ensures
        ({
            let p = attached().after(device::init_steps(6));
            &&& p.in_order
            &&& p.open_question is None
            &&& p.answered == seq![0x85u8, 0x87, 0x85, 0x87, 0x84, 0x81]
            &&& p.paused == 50
            &&& p.brightness is None && p.color is None
        }),
{
    lemma_initialized(6);
    assert(device::init_codes().take(6) =~= device::init_codes());
}

/// A response that reports `t` degrees, confirmed, is read as `t` degrees; a
/// response that is not confirmed reports nothing.
pub proof fn law_temperature_reads_back(resp: Seq<u8>, t: int)
    requires
        resp.len() == 440,
    ensures
        0 <= t <= 218 && resp[4] == t + 36 && resp[5] == t + 37 ==> device::liquid_temp(resp)
            == Some(t),
        device::liquid_temp(resp) == Some(t) ==> 0 <= t <= 219 && resp[4] == t + 36,
        resp[5] != resp[4] && resp[5] != resp[4] + 1 ==> device::liquid_temp(resp) is None,
        resp[4] < 36 ==> device::liquid_temp(resp) is None,
        resp[4] < 255 && resp[5] == resp[4] ==> device::liquid_temp(resp) is None,
{
}

/// An upload is refused exactly if there is nothing to send, if its length does not
/// fit the protocol, or if its frames are to be shown for less than 80
/// milliseconds; each refusal says which.
pub proof fn law_uploads_are_refused(blob: Seq<u8>, delay: int)
    ensures
        device::standby_error(blob) is None == (0 < blob.len() < 0x1_0000_0000),
        device::upload_boot_error(blob, delay) is None == (0 < blob.len() < 0x1_0000_0000 && delay
            >= 80),
        blob.len() == 0 ==> device::standby_error(blob) == Some(DeviceError::EmptyStandby),
        blob.len() == 0 ==> device::upload_boot_error(blob, delay) == Some(
            DeviceError::EmptyBootContainer,
        ),
        blob.len() > 0 && delay < 80 ==> device::upload_boot_error(blob, delay) == Some(
            DeviceError::BootDelayTooShort,
        ),
{
}

} // verus!
