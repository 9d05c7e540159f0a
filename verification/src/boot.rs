//! The boot-animation container that the device stores in flash.

use crate::bytes;
use crate::bytes::{push_bytes, push_le32, push_zeros};
use crate::error::DeviceError;
use vstd::prelude::*;

verus! {

/// Bytes after the last frame.
pub const BOOT_TRAILER_SIZE: usize = 16;

/// The last field of each entry of the frame table.
pub const BOOT_FRAME_FLAGS: u32 = 0x4000_0008;

// ── Layout ───────────────────────────────────────────────────────────────────

/// Where the record of frame `i` starts; for `i` equal to the number of
/// frames, where the last record ends.
pub open spec fn record_start(frames: Seq<Seq<u8>>, i: int) -> int
    decreases i,
{
    if i <= 0 {
        32 + 16 * frames.len() as int
    } else {
        record_start(frames, i - 1) + 8 + frames[i - 1].len()
    }
}

/// The end of the final frame.
pub open spec fn data_end(frames: Seq<Seq<u8>>) -> int {
    record_start(frames, frames.len() as int)
}

/// The sum whose negation opens the container.
pub open spec fn checksum_input(frames: Seq<Seq<u8>>) -> int {
    data_end(frames) + 16 * frames.len() + 16 + frames.len()
}

/// "Update_Boot_GIF" and a zero byte.
pub open spec fn magic() -> Seq<u8> {
    seq![
        0x55u8, 0x70, 0x64, 0x61, 0x74, 0x65, 0x5f, 0x42, 0x6f, 0x6f, 0x74, 0x5f, 0x47, 0x49,
        0x46, 0x00,
    ]
}

/// The header.
pub open spec fn header(frames: Seq<Seq<u8>>) -> Seq<u8> {
    bytes::le32(-checksum_input(frames)) + bytes::le32(data_end(frames))
        + bytes::le32(16 * frames.len() as int) + bytes::le16(16) + seq![
        frames.len() as u8,
        0x50u8,
    ] + magic()
}

/// The entry of frame `i` in the frame table.
pub open spec fn entry(frames: Seq<Seq<u8>>, i: int) -> Seq<u8> {
    bytes::le32(-record_start(frames, i + 1)) + bytes::le32(record_start(frames, i))
        + bytes::le32(frames[i].len() as int) + bytes::le32(BOOT_FRAME_FLAGS as int)
}

/// The entries of the first `n` frames.
pub open spec fn table(frames: Seq<Seq<u8>>, n: int) -> Seq<u8>
    decreases n,
{
    if n <= 0 {
        seq![]
    } else {
        table(frames, n - 1) + entry(frames, n - 1)
    }
}

/// The name of frame `i`: three digits, ".jpg" and a zero byte.
pub open spec fn record_name(i: int) -> Seq<u8> {
    seq![
        (48 + i / 100) as u8,
        (48 + i / 10 % 10) as u8,
        (48 + i % 10) as u8,
        0x2eu8,
        0x6a,
        0x70,
        0x67,
        0x00,
    ]
}

/// The records of the first `n` frames: each name followed by its frame.
pub open spec fn records(frames: Seq<Seq<u8>>, n: int) -> Seq<u8>
    decreases n,
{
    if n <= 0 {
        seq![]
    } else {
        records(frames, n - 1) + record_name(n - 1) + frames[n - 1]
    }
}

/// Fifteen zero bytes and `0x10`.
pub open spec fn trailer() -> Seq<u8> {
    bytes::zeros(15).push(0x10)
}

/// The container of `frames`.
pub open spec fn container(frames: Seq<Seq<u8>>) -> Seq<u8> {
    header(frames) + table(frames, frames.len() as int) + records(frames, frames.len() as int)
        + trailer()
}

/// Some frame is too long for its size field, and the frames before it still
/// fit into a container.
pub open spec fn has_oversized_frame(frames: Seq<Seq<u8>>) -> bool {
    exists|i: int|
        0 <= i < frames.len() && #[trigger] frames[i].len() > u32::MAX && record_start(frames, i)
            <= i32::MAX
}

/// Why `frames` have no container, if so.
pub open spec fn boot_error(frames: Seq<Seq<u8>>) -> Option<DeviceError> {
    if frames.len() == 0 {
        Some(DeviceError::NoBootFrames)
    } else if frames.len() > 255 {
        Some(DeviceError::TooManyBootFrames)
    } else if exists|i: int| 0 <= i < frames.len() && #[trigger] frames[i].len() == 0 {
        Some(DeviceError::EmptyBootFrame)
    } else if has_oversized_frame(frames) {
        Some(DeviceError::BootJpegTooLarge)
    } else if checksum_input(frames) > i32::MAX {
        Some(DeviceError::BootContainerTooLarge)
    } else {
        None
    }
}

// ── Laws ─────────────────────────────────────────────────────────────────────

proof fn lemma_record_start_grows(frames: Seq<Seq<u8>>, i: int, j: int)
    requires
        0 <= i <= j,
    ensures
        record_start(frames, i) + 8 * (j - i) <= record_start(frames, j),
        32 + 16 * frames.len() <= record_start(frames, i),
    decreases j,
{
    if i < j {
        lemma_record_start_grows(frames, i, j - 1);
    } else if i > 0 {
        lemma_record_start_grows(frames, i - 1, j - 1);
    }
}

proof fn lemma_table_len(frames: Seq<Seq<u8>>, n: int)
    requires
        0 <= n,
    ensures
        table(frames, n).len() == 16 * n,
    decreases n,
{
    if n > 0 {
        lemma_table_len(frames, n - 1);
    }
}

proof fn lemma_records_len(frames: Seq<Seq<u8>>, n: int)
    requires
        0 <= n,
    ensures
        records(frames, n).len() == record_start(frames, n) - 32 - 16 * frames.len(),
    decreases n,
{
    if n > 0 {
        lemma_records_len(frames, n - 1);
    }
}

proof fn lemma_table_entry(frames: Seq<Seq<u8>>, n: int, i: int)
    requires
        0 <= i < n,
    ensures
        table(frames, n).len() == 16 * n,
        table(frames, n).subrange(16 * i, 16 * i + 16) == entry(frames, i),
    decreases n,
{
    lemma_table_len(frames, n);
    lemma_table_len(frames, n - 1);
    if i < n - 1 {
        lemma_table_entry(frames, n - 1, i);
        assert(table(frames, n).subrange(16 * i, 16 * i + 16) == table(frames, n - 1).subrange(
            16 * i,
            16 * i + 16,
        ));
    } else {
        assert(table(frames, n).subrange(16 * i, 16 * i + 16) == entry(frames, i));
    }
}

proof fn lemma_record_at(frames: Seq<Seq<u8>>, n: int, i: int)
    requires
        0 <= i < n <= frames.len(),
    ensures
        ({
            let at = record_start(frames, i) - 32 - 16 * frames.len();
            &&& 0 <= at
            &&& at + 8 + frames[i].len() <= records(frames, n).len()
            &&& records(frames, n).subrange(at, at + 8) == record_name(i)
            &&& records(frames, n).subrange(at + 8, at + 8 + frames[i].len()) == frames[i]
        }),
    decreases n,
{
    let at = record_start(frames, i) - 32 - 16 * frames.len();
    lemma_records_len(frames, n);
    lemma_records_len(frames, n - 1);
    let r = records(frames, n);
    let p = records(frames, n - 1);
    if i < n - 1 {
        lemma_record_at(frames, n - 1, i);
        assert(r.subrange(at, at + 8) == p.subrange(at, at + 8));
        assert(r.subrange(at + 8, at + 8 + frames[i].len()) == p.subrange(
            at + 8,
            at + 8 + frames[i].len(),
        ));
    } else {
        assert(p.len() == at);
        assert(r.subrange(at, at + 8) == record_name(i));
        assert(r.subrange(at + 8, at + 8 + frames[i].len()) == frames[i]);
    }
}

/// The four fields of the table entry of frame `i`.
proof fn lemma_container_entry(frames: Seq<Seq<u8>>, i: int)
    requires
        0 <= i < frames.len(),
    ensures
        ({
            let c = container(frames);
            let base = 32 + 16 * i;
            &&& base + 16 <= c.len()
            &&& c.subrange(base, base + 4) == bytes::le32(-record_start(frames, i + 1))
            &&& c.subrange(base + 4, base + 8) == bytes::le32(record_start(frames, i))
            &&& c.subrange(base + 8, base + 12) == bytes::le32(frames[i].len() as int)
            &&& c.subrange(base + 12, base + 16) == bytes::le32(BOOT_FRAME_FLAGS as int)
        }),
{
    let n = frames.len() as int;
    let c = container(frames);
    let t = table(frames, n);
    let e = entry(frames, i);
    let base = 32 + 16 * i;
    assert(header(frames).len() == 32);
    lemma_table_entry(frames, n, i);
    assert(c.subrange(base, base + 16) == t.subrange(16 * i, 16 * i + 16));
    assert(c.subrange(base, base + 4) == e.subrange(0, 4));
    assert(c.subrange(base + 4, base + 8) == e.subrange(4, 8));
    assert(c.subrange(base + 8, base + 12) == e.subrange(8, 12));
    assert(c.subrange(base + 12, base + 16) == e.subrange(12, 16));
    assert(e.subrange(0, 4) == bytes::le32(-record_start(frames, i + 1)));
    assert(e.subrange(4, 8) == bytes::le32(record_start(frames, i)));
    assert(e.subrange(8, 12) == bytes::le32(frames[i].len() as int));
    assert(e.subrange(12, 16) == bytes::le32(BOOT_FRAME_FLAGS as int));
}

/// The record of frame `i`.
proof fn lemma_container_record(frames: Seq<Seq<u8>>, i: int)
    requires
        0 <= i < frames.len(),
    ensures
        ({
            let c = container(frames);
            let at = record_start(frames, i);
            &&& 0 <= at
            &&& at + 8 + frames[i].len() <= c.len()
            &&& c.subrange(at, at + 8) == record_name(i)
            &&& c.subrange(at + 8, at + 8 + frames[i].len()) == frames[i]
        }),
{
    let n = frames.len() as int;
    let c = container(frames);
    let r = records(frames, n);
    assert(header(frames).len() == 32);
    lemma_table_len(frames, n);
    lemma_records_len(frames, n);
    lemma_record_at(frames, n, i);
    let at = record_start(frames, i);
    let off = at - 32 - 16 * n;
    assert(c.subrange(at, at + 8) == r.subrange(off, off + 8));
    assert(c.subrange(at + 8, at + 8 + frames[i].len()) == r.subrange(
        off + 8,
        off + 8 + frames[i].len(),
    ));
}

/// The container ends sixteen bytes after the end of the final frame, and its
/// header says where that is, how long the table is and how many frames there
/// are; the opening field is the negation of their sum.
#[verifier::rlimit(60)]
pub proof fn law_header_describes_container(frames: Seq<Seq<u8>>)
    requires
        boot_error(frames) is None,
    ensures
        container(frames).len() == data_end(frames) + 16,
        bytes::u32_at(container(frames), 4) == data_end(frames),
        bytes::u32_at(container(frames), 8) == 16 * frames.len(),
        container(frames)[14] == frames.len(),
        container(frames)[15] == 0x50,
        bytes::u32_at(container(frames), 0) + checksum_input(frames) == 0x1_0000_0000,
        container(frames).subrange(16, 32) == magic(),
{
    let n = frames.len() as int;
    lemma_table_len(frames, n);
    lemma_records_len(frames, n);
    lemma_record_start_grows(frames, 0, n);
    let c = container(frames);
    let h = header(frames);
    assert(h.len() == 32);
    assert(c.subrange(0, 4) == bytes::le32(-checksum_input(frames)));
    assert(c.subrange(4, 8) == bytes::le32(data_end(frames)));
    assert(c.subrange(8, 12) == bytes::le32(16 * n));
    assert(c.subrange(16, 32) == magic());
    bytes::lemma_le32_reads_back(c, 0, -checksum_input(frames));
    bytes::lemma_le32_reads_back(c, 4, data_end(frames));
    bytes::lemma_le32_reads_back(c, 8, 16 * n);
}

/// Every frame can be found through the frame table: its entry gives the
/// offset of its record and its size, and at that offset stand its name and
/// then the frame itself.
#[verifier::rlimit(60)]
pub proof fn law_table_locates_frame(frames: Seq<Seq<u8>>, i: int)
    requires
        boot_error(frames) is None,
        0 <= i < frames.len(),
    ensures
        ({
            let c = container(frames);
            let at = bytes::u32_at(c, 32 + 16 * i + 4);
            let size = bytes::u32_at(c, 32 + 16 * i + 8);
            &&& at == record_start(frames, i)
            &&& size == frames[i].len()
            &&& bytes::u32_at(c, 32 + 16 * i) + at + size + 8 == 0x1_0000_0000
            &&& bytes::u32_at(c, 32 + 16 * i + 12) == 0x4000_0008
            &&& at + 8 + size <= c.len()
            &&& c.subrange(at, at + 8) == record_name(i)
            &&& c.subrange(at + 8, at + 8 + size) == frames[i]
        }),
{
    let n = frames.len() as int;
    let c = container(frames);
    let base = 32 + 16 * i;
    lemma_container_entry(frames, i);
    lemma_container_record(frames, i);
    lemma_record_start_grows(frames, 0, i);
    lemma_record_start_grows(frames, i, n);
    lemma_record_start_grows(frames, i + 1, n);
    bytes::lemma_le32_reads_back(c, base, -record_start(frames, i + 1));
    bytes::lemma_le32_reads_back(c, base + 4, record_start(frames, i));
    bytes::lemma_le32_reads_back(c, base + 8, frames[i].len() as int);
    bytes::lemma_le32_reads_back(c, base + 12, BOOT_FRAME_FLAGS as int);
}

/// A container determines its frames: no two lists of frames share one.
pub proof fn law_container_determines_frames(a: Seq<Seq<u8>>, b: Seq<Seq<u8>>)
    requires
        boot_error(a) is None,
        boot_error(b) is None,
        container(a) == container(b),
    ensures
        a == b,
{
    law_header_describes_container(a);
    law_header_describes_container(b);
    assert(a.len() == b.len());
    assert forall|i: int| 0 <= i < a.len() implies a[i] == b[i] by {
        law_table_locates_frame(a, i);
        law_table_locates_frame(b, i);
    }
    assert(a =~= b);
}

// ── Construction ─────────────────────────────────────────────────────────────

/// Appends the name of frame `index`.
fn push_record_name(out: &mut Vec<u8>, index: usize)
    requires
        index < 1000,
    ensures
        final(out)@ == old(out)@ + record_name(index as int),
{
    out.push((48 + index / 100) as u8);
    out.push((48 + index / 10 % 10) as u8);
    out.push((48 + index % 10) as u8);
    out.push(0x2e);
    out.push(0x6a);
    out.push(0x70);
    out.push(0x67);
    out.push(0x00);
    assert(out@ == old(out)@ + record_name(index as int));
}

fn push_header(out: &mut Vec<u8>, frames: &[Vec<u8>], end: u32)
    requires
        1 <= frames@.len() <= 255,
        end == data_end(bytes::blobs(frames@)),
        checksum_input(bytes::blobs(frames@)) <= i32::MAX,
    ensures
        final(out)@ == old(out)@ + header(bytes::blobs(frames@)),
{
    let n = frames.len();
    let sum = end as i64 + 17 * (n as i64) + 16;
    push_le32(out, -sum);
    push_le32(out, end as i64);
    push_le32(out, 16 * (n as i64));
    out.push(16);
    out.push(0);
    out.push(n as u8);
    out.push(0x50);
    let magic_bytes: [u8; 16] = [
        0x55, 0x70, 0x64, 0x61, 0x74, 0x65, 0x5f, 0x42, 0x6f, 0x6f, 0x74, 0x5f, 0x47, 0x49, 0x46,
        0x00,
    ];
    push_bytes(out, &magic_bytes);
    assert(magic_bytes@ == magic());
    assert(out@ == old(out)@ + header(bytes::blobs(frames@)));
}

/// The end of the last record, or why the records cannot be laid out.
fn measure_records(frames: &[Vec<u8>]) -> (res: Result<u32, DeviceError>)
    requires
        1 <= frames@.len() <= 255,
    ensures
        res matches Err(e) ==> e == DeviceError::BootJpegTooLarge
            && has_oversized_frame(bytes::blobs(frames@)) || e == DeviceError::BootContainerTooLarge
            && !has_oversized_frame(bytes::blobs(frames@)) && data_end(bytes::blobs(frames@)) > i32::MAX,
        res matches Ok(end) ==> end == data_end(bytes::blobs(frames@)) && end <= i32::MAX
            && !has_oversized_frame(bytes::blobs(frames@)),
{
    let ghost fs = bytes::blobs(frames@);
    let mut offset: u32 = 32 + 16 * (frames.len() as u32);
    let mut i: usize = 0;
    while i < frames.len()
        invariant
            fs == bytes::blobs(frames@),
            i <= frames@.len(),
            offset == record_start(fs, i as int),
            offset <= i32::MAX,
            forall|k: int| 0 <= k < i ==> #[trigger] fs[k].len() <= u32::MAX,
        decreases frames@.len() - i,
    {
        let size = frames[i].len();
        assert(fs[i as int].len() == size);
        if size as u64 > u32::MAX as u64 {
            assert(has_oversized_frame(fs));
            return Err(DeviceError::BootJpegTooLarge);
        }
        let end = offset as u64 + 8 + size as u64;
        assert(end == record_start(fs, i + 1));
        if end > i32::MAX as u64 {
            proof {
                lemma_record_start_grows(fs, i + 1, frames@.len() as int);
                if has_oversized_frame(fs) {
                    let k = choose|k: int|
                        0 <= k < fs.len() && #[trigger] fs[k].len() > u32::MAX && record_start(
                            fs,
                            k,
                        ) <= i32::MAX;
                    assert(k > i);
                    lemma_record_start_grows(fs, i + 1, k);
                }
            }
            return Err(DeviceError::BootContainerTooLarge);
        }
        offset = end as u32;
        i = i + 1;
    }
    Ok(offset)
}

fn has_empty_frame(frames: &[Vec<u8>]) -> (res: bool)
    ensures
        res == exists|i: int|
            0 <= i < bytes::blobs(frames@).len() && #[trigger] bytes::blobs(frames@)[i].len() == 0,
{
    let mut i: usize = 0;
    while i < frames.len()
        invariant
            i <= frames@.len(),
            forall|k: int| 0 <= k < i ==> #[trigger] bytes::blobs(frames@)[k].len() != 0,
        decreases frames@.len() - i,
    {
        if frames[i].len() == 0 {
            assert(bytes::blobs(frames@)[i as int].len() == 0);
            return true;
        }
        i = i + 1;
    }
    false
}

/// Builds the boot-animation container of encoded JPEG frames.
pub fn build_boot_container(frames: &[Vec<u8>]) -> (res: Result<Vec<u8>, DeviceError>)
    ensures
        res matches Err(e) ==> boot_error(bytes::blobs(frames@)) == Some(e),
        res matches Ok(c) ==> boot_error(bytes::blobs(frames@)) is None && c@ == container(
            bytes::blobs(frames@),
        ),
{
    let ghost fs = bytes::blobs(frames@);
    if frames.len() == 0 {
        return Err(DeviceError::NoBootFrames);
    }
    if frames.len() > 255 {
        return Err(DeviceError::TooManyBootFrames);
    }
    if has_empty_frame(frames) {
        return Err(DeviceError::EmptyBootFrame);
    }
    let end = match measure_records(frames) {
        Ok(end) => end,
        Err(e) => {
            return Err(e);
        },
    };
    let n = frames.len();
    if end as u64 + 17 * (n as u64) + 16 > i32::MAX as u64 {
        return Err(DeviceError::BootContainerTooLarge);
    }
    let mut out: Vec<u8> = Vec::new();
    push_header(&mut out, frames, end);
    assert(out@ == header(fs));

    let mut offset: u32 = 32 + 16 * (n as u32);
    let mut i: usize = 0;
    while i < n
        invariant
            n == frames@.len(),
            fs == bytes::blobs(frames@),
            i <= n,
            n <= 255,
            offset == record_start(fs, i as int),
            data_end(fs) <= i32::MAX,
            out@ == header(fs) + table(fs, i as int),
        decreases n - i,
    {
        let size = frames[i].len();
        assert(fs[i as int].len() == size);
        proof {
            lemma_record_start_grows(fs, i + 1, n as int);
        }
        let next = offset + 8 + size as u32;
        push_le32(&mut out, -(next as i64));
        push_le32(&mut out, offset as i64);
        push_le32(&mut out, size as i64);
        push_le32(&mut out, BOOT_FRAME_FLAGS as i64);
        assert(table(fs, i + 1) == table(fs, i as int) + entry(fs, i as int));
        assert(out@ == header(fs) + table(fs, i + 1));
        offset = next;
        i = i + 1;
    }

    let mut j: usize = 0;
    while j < n
        invariant
            n == frames@.len(),
            fs == bytes::blobs(frames@),
            j <= n,
            n <= 255,
            out@ == header(fs) + table(fs, n as int) + records(fs, j as int),
        decreases n - j,
    {
        push_record_name(&mut out, j);
        push_bytes(&mut out, frames[j].as_slice());
        assert(fs[j as int] == frames@[j as int]@);
        assert(out@ == header(fs) + table(fs, n as int) + records(fs, j + 1));
        j = j + 1;
    }

    push_zeros(&mut out, BOOT_TRAILER_SIZE - 1);
    out.push(0x10);
    assert(out@ == container(fs));
    Ok(out)
}

/// The numbers in the header, its check number among them, add up to zero in 32
/// bits.
#[verifier::rlimit(80)]
pub proof fn law_header_adds_up(frames: Seq<Seq<u8>>)
    requires
        boot_error(frames) is None,
    ensures
        ({
            let c = container(frames);
            let small = c[12] + 256 * c[13];
            &&& small == 16
            &&& bytes::u32_at(c, 0) + bytes::u32_at(c, 4) + bytes::u32_at(c, 8) + small + c[14]
                == 0x1_0000_0000
            &&& c.len() == bytes::u32_at(c, 4) + 16
            &&& bytes::u32_at(c, 8) == 16 * c[14]
        }),
{
    let n = frames.len() as int;
    law_header_describes_container(frames);
    let c = container(frames);
    let h = header(frames);
    assert(h.len() == 32);
    assert(c[12] == h[12] && c[13] == h[13]);
    assert(h.subrange(12, 14) =~= bytes::le16(16));
    assert(h.subrange(12, 14)[0] == h[12] && h.subrange(12, 14)[1] == h[13]);
}

/// The container begins with a mark in plain text, and each record with its number
/// in three digits and the extension of a picture.
pub proof fn law_marks_are_text(i: int, k: int)
    requires
        0 <= i < 255,
        0 <= k < 15,
    ensures
        magic().len() == 16,
        magic()[k] == "Update_Boot_GIF"@[k] as u32,
        magic()[15] == 0,
        ({
            let name = record_name(i);
            &&& name.len() == 8
            &&& 48 <= name[0] <= 57 && 48 <= name[1] <= 57 && 48 <= name[2] <= 57
            &&& 100 * (name[0] - 48) + 10 * (name[1] - 48) + (name[2] - 48) == i
            &&& name[3] == ".jpg"@[0] as u32
            &&& name[4] == ".jpg"@[1] as u32
            &&& name[5] == ".jpg"@[2] as u32
            &&& name[6] == ".jpg"@[3] as u32
            &&& name[7] == 0
        }),
{
    reveal_strlit("Update_Boot_GIF");
    reveal_strlit(".jpg");
    let t = "Update_Boot_GIF"@;
    let m = magic();
    assert(m[0] == t[0] as u32 && m[1] == t[1] as u32 && m[2] == t[2] as u32 && m[3] == t[3] as u32
        && m[4] == t[4] as u32 && m[5] == t[5] as u32 && m[6] == t[6] as u32 && m[7] == t[7] as u32);
    assert(m[8] == t[8] as u32 && m[9] == t[9] as u32 && m[10] == t[10] as u32 && m[11]
        == t[11] as u32 && m[12] == t[12] as u32 && m[13] == t[13] as u32 && m[14] == t[14] as u32);
}

} // verus!
