//! Where the readings stand on the display.

use crate::arith::{counted, zero};
use crate::single;
use crate::single::Single;
use crate::text;
use crate::text::same_text;
use vstd::prelude::*;

verus! {

/// How the readings are arranged.
#[derive(Clone, Copy, Debug, PartialEq, Eq, Structural)]
pub enum LayoutPreset {
    Classic,
    Grid2x3,
    BigTop,
    Custom,
}

impl Default for LayoutPreset {
    fn default() -> (res: Self)
        ensures
            res == LayoutPreset::Classic,
    {
        LayoutPreset::Classic
    }
}

/// A position chosen by the user, normalized to the size of the display.
#[derive(Clone, Debug)]
pub struct LayoutSlot {
    pub sensor_id: String,
    pub value_cx_norm: Single,
    pub value_cy_norm: Single,
    pub label_cx_norm: Single,
    pub label_cy_norm: Single,
    pub value_font_size: Single,
    pub label_font_size: Single,
}

/// What a `LayoutSlot` holds.
pub struct LayoutSlotView {
    pub sensor_id: Seq<char>,
    pub value_cx_norm: Single,
    pub value_cy_norm: Single,
    pub label_cx_norm: Single,
    pub label_cy_norm: Single,
    pub value_font_size: Single,
    pub label_font_size: Single,
}

impl View for LayoutSlot {
    type V = LayoutSlotView;

    open spec fn view(&self) -> LayoutSlotView {
        LayoutSlotView {
            sensor_id: self.sensor_id@,
            value_cx_norm: self.value_cx_norm,
            value_cy_norm: self.value_cy_norm,
            label_cx_norm: self.label_cx_norm,
            label_cy_norm: self.label_cy_norm,
            value_font_size: self.value_font_size,
            label_font_size: self.label_font_size,
        }
    }
}

/// What a list of `LayoutSlot`s holds.
pub open spec fn slot_views(v: Seq<LayoutSlot>) -> Seq<LayoutSlotView> {
    Seq::new(v.len(), |i: int| v[i]@)
}

/// The arrangement of the readings.
#[derive(Clone, Debug)]
pub struct LayoutConfig {
    pub preset: LayoutPreset,
    pub max_visible: usize,
    pub custom_slots: Vec<LayoutSlot>,
}

/// What a `LayoutConfig` holds.
#[verifier::ext_equal]
pub struct LayoutView {
    pub preset: LayoutPreset,
    pub max_visible: int,
    pub custom_slots: Seq<LayoutSlotView>,
}

impl View for LayoutConfig {
    type V = LayoutView;

    open spec fn view(&self) -> LayoutView {
        LayoutView {
            preset: self.preset,
            max_visible: self.max_visible as int,
            custom_slots: slot_views(self.custom_slots@),
        }
    }
}

/// The arrangement that a new configuration has.
pub open spec fn default_layout() -> LayoutView {
    LayoutView { preset: LayoutPreset::Classic, max_visible: 6, custom_slots: seq![] }
}

impl Default for LayoutConfig {
    fn default() -> (res: Self)
        ensures
            res@ == default_layout(),
    {
        let res = LayoutConfig {
            preset: LayoutPreset::Classic,
            max_visible: 6,
            custom_slots: Vec::new(),
        };
        assert(res@ =~= default_layout());
        res
    }
}

/// A reading's place in pixels.
#[derive(Clone, Debug)]
pub struct ResolvedSlot {
    pub sensor_id: String,
    pub value_cx: i32,
    pub value_y: i32,
    pub value_fs: Single,
    pub label_cx: i32,
    pub label_y: i32,
    pub label_fs: Single,
}

/// What a `ResolvedSlot` holds.
pub struct PlacedView {
    pub sensor_id: Seq<char>,
    pub value_cx: int,
    pub value_y: int,
    pub value_fs: Single,
    pub label_cx: int,
    pub label_y: int,
    pub label_fs: Single,
}

impl View for ResolvedSlot {
    type V = PlacedView;

    open spec fn view(&self) -> PlacedView {
        PlacedView {
            sensor_id: self.sensor_id@,
            value_cx: self.value_cx as int,
            value_y: self.value_y as int,
            value_fs: self.value_fs,
            label_cx: self.label_cx as int,
            label_y: self.label_y as int,
            label_fs: self.label_fs,
        }
    }
}

/// What a list of `ResolvedSlot`s holds.
pub open spec fn placed_views(v: Seq<ResolvedSlot>) -> Seq<PlacedView> {
    Seq::new(v.len(), |i: int| v[i]@)
}

/// The texts of a list of string slices.
pub open spec fn id_texts(v: Seq<&str>) -> Seq<Seq<char>> {
    Seq::new(v.len(), |i: int| v[i]@)
}

// ── Presets ──────────────────────────────────────────────────────────────────

/// Positions and whole font sizes of a preset.
#[derive(Clone, Copy, Debug)]
pub struct Place {
    pub value_cx: i32,
    pub value_y: i32,
    pub value_fs: u32,
    pub label_cx: i32,
    pub label_y: i32,
    pub label_fs: u32,
}

pub open spec fn spec_place(vc: i32, vy: i32, vf: u32, lc: i32, ly: i32, lf: u32) -> Place {
    Place { value_cx: vc, value_y: vy, value_fs: vf, label_cx: lc, label_y: ly, label_fs: lf }
}

/// A reading at a preset place.
pub open spec fn put(id: Seq<char>, p: Place) -> PlacedView {
    PlacedView {
        sensor_id: id,
        value_cx: p.value_cx as int,
        value_y: p.value_y as int,
        value_fs: single::whole_single(p.value_fs as nat),
        label_cx: p.label_cx as int,
        label_y: p.label_y as int,
        label_fs: single::whole_single(p.label_fs as nat),
    }
}

/// The six places of the classic arrangement: top center, middle center, two
/// in the middle and two at the bottom.
pub open spec fn classic_place(i: int) -> Place {
    if i == 0 {
        spec_place(240, 83, 118, 240, 35, 46)
    } else if i == 1 {
        spec_place(240, 210, 44, 240, 196, 22)
    } else if i == 2 {
        spec_place(145, 272, 58, 145, 334, 27)
    } else if i == 3 {
        spec_place(335, 272, 58, 335, 334, 27)
    } else if i == 4 {
        spec_place(145, 368, 58, 145, 430, 27)
    } else {
        spec_place(335, 368, 58, 335, 430, 27)
    }
}

/// The center of a column.
pub open spec fn column_x(cols: int, col: int) -> int {
    if cols == 1 {
        240
    } else if cols == 2 {
        if col == 0 {
            145
        } else {
            335
        }
    } else if cols == 3 {
        110 + 130 * col
    } else {
        90 + col * 300 / (cols - 1)
    }
}

/// The top of a row.
pub open spec fn row_y(rows: int, row: int) -> int {
    if rows == 1 {
        210
    } else if rows == 2 {
        150 + 190 * row
    } else if rows == 3 {
        110 + 130 * row
    } else if rows == 4 {
        if row == 0 {
            90
        } else if row == 1 {
            190
        } else if row == 2 {
            300
        } else {
            400
        }
    } else {
        80 + row * 320 / (rows - 1)
    }
}

/// The top of a row of a grid that fills the display or, with two rows, its lower
/// half.
pub open spec fn grid_y(rows: int, row: int, lower: bool) -> int {
    if lower {
        290 + 90 * row
    } else {
        row_y(rows, row)
    }
}

/// A place in a grid that is filled row by row.
pub open spec fn grid_place(cols: int, rows: int, i: int, lower: bool) -> Place {
    let x = column_x(cols, i % cols) as i32;
    let y = grid_y(rows, i / cols, lower);
    spec_place(x, y as i32, 46, x, (y + 36) as i32, 22)
}

/// The readings in a grid. What does not fit is left out.
pub open spec fn grid(ids: Seq<Seq<char>>, cols: int, rows: int, lower: bool) -> Seq<PlacedView> {
    Seq::new(
        if ids.len() <= cols * rows {
            ids.len()
        } else {
            (cols * rows) as nat
        },
        |i: int| put(ids[i], grid_place(cols, rows, i, lower)),
    )
}

/// The classic arrangement.
pub open spec fn classic(ids: Seq<Seq<char>>) -> Seq<PlacedView> {
    Seq::new(
        if ids.len() <= 6 {
            ids.len()
        } else {
            6
        },
        |i: int| put(ids[i], classic_place(i)),
    )
}

/// One large reading at the top and a grid of two rows and columns in the lower
/// half.
pub open spec fn big_top(ids: Seq<Seq<char>>) -> Seq<PlacedView> {
    if ids.len() == 0 {
        seq![]
    } else {
        seq![put(ids[0], spec_place(240, 100, 80, 240, 50, 36))] + grid(ids.skip(1), 2, 2, true)
    }
}

/// The first position of a slot for `id`, or the number of slots.
pub open spec fn slot_position(slots: Seq<LayoutSlotView>, id: Seq<char>) -> int
    decreases slots.len(),
{
    if slots.len() == 0 || slots[0].sensor_id == id {
        0
    } else {
        1 + slot_position(slots.skip(1), id)
    }
}

/// Whether there is a slot for `id`.
pub open spec fn has_slot(slots: Seq<LayoutSlotView>, id: Seq<char>) -> bool {
    slot_position(slots, id) < slots.len()
}

/// A user-chosen place in pixels.
pub open spec fn to_pixels(s: LayoutSlotView) -> PlacedView {
    PlacedView {
        sensor_id: s.sensor_id,
        value_cx: s.value_cx_norm.pixel(),
        value_y: s.value_cy_norm.pixel(),
        value_fs: s.value_font_size,
        label_cx: s.label_cx_norm.pixel(),
        label_y: s.label_cy_norm.pixel(),
        label_fs: s.label_font_size,
    }
}

/// The user-chosen places of the readings that have one.
pub open spec fn custom(ids: Seq<Seq<char>>, slots: Seq<LayoutSlotView>) -> Seq<PlacedView>
    decreases ids.len(),
{
    if ids.len() == 0 {
        seq![]
    } else {
        let before = custom(ids.drop_last(), slots);
        if has_slot(slots, ids.last()) {
            before.push(to_pixels(slots[slot_position(slots, ids.last())]))
        } else {
            before
        }
    }
}

impl LayoutView {
    /// The ids that are shown: at most `max_visible`.
    pub open spec fn shown(self, ids: Seq<Seq<char>>) -> Seq<Seq<char>> {
        if ids.len() <= self.max_visible {
            ids
        } else {
            ids.take(self.max_visible)
        }
    }

    /// The places of the readings `ids`.
    pub open spec fn places(self, ids: Seq<Seq<char>>) -> Seq<PlacedView> {
        let shown = self.shown(ids);
        match self.preset {
            LayoutPreset::Classic => classic(shown),
            LayoutPreset::Grid2x3 => grid(shown, 2, 3, false),
            LayoutPreset::BigTop => big_top(shown),
            LayoutPreset::Custom => custom(shown, self.custom_slots),
        }
    }
}

// ── Resolving ────────────────────────────────────────────────────────────────

fn place(vc: i32, vy: i32, vf: u32, lc: i32, ly: i32, lf: u32) -> (res: Place)
    ensures
        res == spec_place(vc, vy, vf, lc, ly, lf),
{
    Place { value_cx: vc, value_y: vy, value_fs: vf, label_cx: lc, label_y: ly, label_fs: lf }
}

fn put_at(id: &str, p: Place) -> (res: ResolvedSlot)
    requires
        p.value_fs < 16777216,
        p.label_fs < 16777216,
    ensures
        res@ == put(id@, p),
{
    ResolvedSlot {
        sensor_id: id.to_string(),
        value_cx: p.value_cx,
        value_y: p.value_y,
        value_fs: Single::whole(p.value_fs),
        label_cx: p.label_cx,
        label_y: p.label_y,
        label_fs: Single::whole(p.label_fs),
    }
}

fn classic_place_of(i: usize) -> (res: Place)
    ensures
        res == classic_place(i as int),
{
    if i == 0 {
        place(240, 83, 118, 240, 35, 46)
    } else if i == 1 {
        place(240, 210, 44, 240, 196, 22)
    } else if i == 2 {
        place(145, 272, 58, 145, 334, 27)
    } else if i == 3 {
        place(335, 272, 58, 335, 334, 27)
    } else if i == 4 {
        place(145, 368, 58, 145, 430, 27)
    } else {
        place(335, 368, 58, 335, 430, 27)
    }
}

fn classic_slots(ids: &[&str], count: usize) -> (res: Vec<ResolvedSlot>)
    requires
        count <= ids@.len(),
    ensures
        placed_views(res@) == classic(id_texts(ids@).take(count as int)),
{
    let ghost shown = id_texts(ids@).take(count as int);
    let n: usize = if count < 6 {
        count
    } else {
        6
    };
    let mut res: Vec<ResolvedSlot> = Vec::new();
    let mut i: usize = 0;
    while i < n
        invariant
            n <= count <= ids@.len(),
            n <= 6,
            i <= n,
            shown == id_texts(ids@).take(count as int),
            res@.len() == i,
            forall|k: int| 0 <= k < i ==> (#[trigger] res@[k])@ == put(shown[k], classic_place(k)),
        decreases n - i,
    {
        res.push(put_at(ids[i], classic_place_of(i)));
        i = i + 1;
    }
    assert(placed_views(res@) =~= classic(shown));
    res
}

fn column_of(cols: usize, col: usize) -> (res: i32)
    requires
        col < cols,
        cols * 300 <= usize::MAX,
    ensures
        res == column_x(cols as int, col as int),
        0 <= res <= 400,
{
    if cols == 1 {
        240
    } else if cols == 2 {
        if col == 0 {
            145
        } else {
            335
        }
    } else if cols == 3 {
        110 + 130 * col as i32
    } else {
        proof {
            assert(col * 300 / (cols - 1) <= 300) by (nonlinear_arith)
                requires
                    0 <= col < cols,
                    cols > 1,
            ;
            assert(0 <= col * 300 / (cols - 1)) by (nonlinear_arith)
                requires
                    0 <= col,
                    cols > 1,
            ;
        }
        90 + (col * 300 / (cols - 1)) as i32
    }
}

fn row_of(rows: usize, row: usize) -> (res: i32)
    requires
        row < rows,
        rows * 320 <= usize::MAX,
    ensures
        res == row_y(rows as int, row as int),
        0 <= res <= 400,
{
    if rows == 1 {
        210
    } else if rows == 2 {
        150 + 190 * row as i32
    } else if rows == 3 {
        110 + 130 * row as i32
    } else if rows == 4 {
        if row == 0 {
            90
        } else if row == 1 {
            190
        } else if row == 2 {
            300
        } else {
            400
        }
    } else {
        proof {
            assert(row * 320 / (rows - 1) <= 320) by (nonlinear_arith)
                requires
                    0 <= row < rows,
                    rows > 1,
            ;
            assert(0 <= row * 320 / (rows - 1)) by (nonlinear_arith)
                requires
                    0 <= row,
                    rows > 1,
            ;
        }
        80 + (row * 320 / (rows - 1)) as i32
    }
}

/// Appends a grid of the readings `ids[from..to]`.
fn push_grid(
    res: &mut Vec<ResolvedSlot>,
    ids: &[&str],
    from: usize,
    to: usize,
    cols: usize,
    rows: usize,
    lower: bool,
)
    requires
        from <= to <= ids@.len(),
        0 < cols,
        cols * 300 <= usize::MAX,
        rows * 320 <= usize::MAX,
        cols * rows <= usize::MAX,
        lower ==> rows <= 2,
    ensures
        placed_views(final(res)@) == placed_views(old(res)@) + grid(
            id_texts(ids@).subrange(from as int, to as int),
            cols as int,
            rows as int,
            lower,
        ),
{
    let ghost part = id_texts(ids@).subrange(from as int, to as int);
    let ghost whole = grid(part, cols as int, rows as int, lower);
    let room = cols * rows;
    let n: usize = if to - from <= room {
        to - from
    } else {
        room
    };
    assert(whole.len() == n);
    let mut i: usize = 0;
    assert(placed_views(res@) =~= placed_views(old(res)@) + whole.take(0));
    while i < n
        invariant
            from <= to <= ids@.len(),
            0 < cols,
            cols * 300 <= usize::MAX,
            rows * 320 <= usize::MAX,
            lower ==> rows <= 2,
            i <= n <= to - from,
            n <= cols * rows,
            part == id_texts(ids@).subrange(from as int, to as int),
            whole == grid(part, cols as int, rows as int, lower),
            whole.len() == n,
            placed_views(res@) == placed_views(old(res)@) + whole.take(i as int),
        decreases n - i,
    {
        let col = i % cols;
        let row = i / cols;
        assert(row < rows) by (nonlinear_arith)
            requires
                row == i as int / cols as int,
                i < cols * rows,
                cols > 0,
        ;
        assert(col < cols) by (nonlinear_arith)
            requires
                col == i as int % cols as int,
                cols > 0,
        ;
        let x = column_of(cols, col);
        let y: i32 = if lower {
            290 + 90 * row as i32
        } else {
            row_of(rows, row)
        };
        let ghost before = res@;
        res.push(put_at(ids[from + i], place(x, y, 46, x, y + 36, 22)));
        assert(res@.last()@ == whole[i as int]);
        assert(placed_views(res@) =~= placed_views(before).push(whole[i as int]));
        assert(whole.take(i + 1) =~= whole.take(i as int).push(whole[i as int]));
        assert(placed_views(res@) =~= placed_views(old(res)@) + whole.take(i + 1));
        i = i + 1;
    }
    assert(whole.take(n as int) =~= whole);
}

fn big_top_slots(ids: &[&str], count: usize) -> (res: Vec<ResolvedSlot>)
    requires
        count <= ids@.len(),
    ensures
        placed_views(res@) == big_top(id_texts(ids@).take(count as int)),
{
    let ghost shown = id_texts(ids@).take(count as int);
    let mut res: Vec<ResolvedSlot> = Vec::new();
    if count > 0 {
        res.push(put_at(ids[0], place(240, 100, 80, 240, 50, 36)));
        assert(placed_views(res@) =~= seq![
            put(shown[0], spec_place(240, 100, 80, 240, 50, 36)),
        ]);
        push_grid(&mut res, ids, 1, count, 2, 2, true);
        assert(id_texts(ids@).subrange(1, count as int) =~= shown.skip(1));
    }
    assert(placed_views(res@) =~= big_top(shown));
    res
}

pub proof fn lemma_slot_position(slots: Seq<LayoutSlotView>, id: Seq<char>)
    ensures
        0 <= slot_position(slots, id) <= slots.len(),
        slot_position(slots, id) < slots.len() ==> slots[slot_position(slots, id)].sensor_id == id,
        forall|i: int| 0 <= i < slot_position(slots, id) ==> (#[trigger] slots[i]).sensor_id != id,
    decreases slots.len(),
{
    if slots.len() > 0 && slots[0].sensor_id != id {
        lemma_slot_position(slots.skip(1), id);
        assert forall|i: int| 0 <= i < slot_position(slots, id) implies (#[trigger] slots[i]).sensor_id
            != id by {
            if i > 0 {
                assert(slots.skip(1)[i - 1] == slots[i]);
            }
        }
    }
}

/// The first position of a slot for `id`, or the number of slots.
pub fn find_slot(slots: &Vec<LayoutSlot>, id: &str) -> (res: usize)
    ensures
        res == slot_position(slot_views(slots@), id@),
        res <= slots@.len(),
{
    let ghost all = slot_views(slots@);
    let mut i: usize = 0;
    assert(all.skip(0) =~= all);
    while i < slots.len()
        invariant
            i <= slots@.len(),
            all == slot_views(slots@),
            slot_position(all, id@) == i + slot_position(all.skip(i as int), id@),
        decreases slots@.len() - i,
    {
        assert(all.skip(i as int)[0] == slots@[i as int]@);
        if same_text(slots[i].sensor_id.as_str(), id) {
            return i;
        }
        assert(all.skip(i as int).skip(1) =~= all.skip(i + 1));
        i = i + 1;
    }
    i
}

fn custom_slots_resolved(ids: &[&str], count: usize, slots: &Vec<LayoutSlot>) -> (res: Vec<
    ResolvedSlot,
>)
    requires
        count <= ids@.len(),
    ensures
        placed_views(res@) == custom(id_texts(ids@).take(count as int), slot_views(slots@)),
{
    let ghost all = id_texts(ids@);
    let ghost views = slot_views(slots@);
    let mut res: Vec<ResolvedSlot> = Vec::new();
    let mut i: usize = 0;
    assert(placed_views(res@) =~= custom(all.take(0), views));
    while i < count
        invariant
            i <= count <= ids@.len(),
            all == id_texts(ids@),
            views == slot_views(slots@),
            placed_views(res@) == custom(all.take(i as int), views),
        decreases count - i,
    {
        let id = ids[i];
        let at = find_slot(slots, id);
        let ghost before = res@;
        assert(all.take(i + 1).drop_last() =~= all.take(i as int));
        assert(all.take(i + 1).last() == id@);
        if at < slots.len() {
            proof {
                lemma_slot_position(views, id@);
            }
            let s = &slots[at];
            res.push(
                ResolvedSlot {
                    sensor_id: id.to_string(),
                    value_cx: s.value_cx_norm.to_pixel(),
                    value_y: s.value_cy_norm.to_pixel(),
                    value_fs: s.value_font_size,
                    label_cx: s.label_cx_norm.to_pixel(),
                    label_y: s.label_cy_norm.to_pixel(),
                    label_fs: s.label_font_size,
                },
            );
            assert(res@.last()@ == to_pixels(views[at as int]));
            assert(placed_views(res@) =~= placed_views(before).push(to_pixels(views[at as int])));
        }
        i = i + 1;
    }
    res
}

impl LayoutConfig {
    /// The places of the readings `enabled_ids`, in order, at most
    /// `max_visible` of them.
    pub fn preset_slots(&self, enabled_ids: &[&str]) -> (res: Vec<ResolvedSlot>)
        ensures
            placed_views(res@) == self@.places(id_texts(enabled_ids@)),
    {
        let count: usize = if enabled_ids.len() <= self.max_visible {
            enabled_ids.len()
        } else {
            self.max_visible
        };
        let ghost ids = id_texts(enabled_ids@);
        assert(self@.shown(ids) =~= ids.take(count as int));
        match self.preset {
            LayoutPreset::Classic => classic_slots(enabled_ids, count),
            LayoutPreset::Grid2x3 => {
                let mut res: Vec<ResolvedSlot> = Vec::new();
                push_grid(&mut res, enabled_ids, 0, count, 2, 3, false);
                assert(ids.subrange(0, count as int) =~= ids.take(count as int));
                assert(placed_views(res@) =~= grid(ids.take(count as int), 2, 3, false));
                res
            },
            LayoutPreset::BigTop => big_top_slots(enabled_ids, count),
            LayoutPreset::Custom => custom_slots_resolved(enabled_ids, count, &self.custom_slots),
        }
    }
}

// ── Editing ──────────────────────────────────────────────────────────────────

/// Where a reading is put that has no place of its own yet.
#[derive(Clone, Copy, Debug)]
pub struct StartPosition {
    pub value_cx: Single,
    pub value_cy: Single,
    pub label_cx: Single,
    pub label_cy: Single,
    pub value_font_size: Single,
    pub label_font_size: Single,
}

/// A slot for `id` at a start position.
pub open spec fn start_slot(id: Seq<char>, p: StartPosition) -> LayoutSlotView {
    LayoutSlotView {
        sensor_id: id,
        value_cx_norm: p.value_cx,
        value_cy_norm: p.value_cy,
        label_cx_norm: p.label_cx,
        label_cy_norm: p.label_cy,
        value_font_size: p.value_font_size,
        label_font_size: p.label_font_size,
    }
}

/// `slots`, with a slot appended for each of the first `n` ids that has none.
pub open spec fn filled(
    slots: Seq<LayoutSlotView>,
    ids: Seq<Seq<char>>,
    starts: Seq<StartPosition>,
    n: int,
) -> Seq<LayoutSlotView>
    decreases n,
{
    if n <= 0 {
        slots
    } else {
        let before = filled(slots, ids, starts, n - 1);
        if has_slot(before, ids[n - 1]) {
            before
        } else {
            before.push(start_slot(ids[n - 1], starts[n - 1]))
        }
    }
}

/// A place in pixels as a user-chosen place.
pub open spec fn to_normalized(p: PlacedView) -> LayoutSlotView {
    LayoutSlotView {
        sensor_id: p.sensor_id,
        value_cx_norm: single::quotient_single(p.value_cx as nat, 480),
        value_cy_norm: single::quotient_single(p.value_y as nat, 480),
        label_cx_norm: single::quotient_single(p.label_cx as nat, 480),
        label_cy_norm: single::quotient_single(p.label_y as nat, 480),
        value_font_size: p.value_fs,
        label_font_size: p.label_fs,
    }
}

/// The places of a preset as user-chosen places.
pub open spec fn normalized(places: Seq<PlacedView>) -> Seq<LayoutSlotView> {
    Seq::new(places.len(), |i: int| to_normalized(places[i]))
}

impl LayoutView {
    /// The custom arrangement that takes over from this one: it starts from the
    /// places of the preset, and every id without a place gets a start
    /// position.
    pub open spec fn customized(
        self,
        ids: Seq<Seq<char>>,
        starts: Seq<StartPosition>,
    ) -> LayoutView {
        let slots = if self.preset == LayoutPreset::Custom {
            self.custom_slots
        } else {
            normalized(self.places(ids))
        };
        LayoutView {
            preset: LayoutPreset::Custom,
            max_visible: self.max_visible,
            custom_slots: filled(slots, ids, starts, ids.len() as int),
        }
    }
}

/// Whether a place lies on the display.
pub open spec fn on_display(p: PlacedView) -> bool {
    0 <= p.value_cx < 480 && 0 <= p.value_y < 480 && 0 <= p.label_cx < 480 && 0 <= p.label_y < 480
}

/// Every preset places its readings on the display.
pub proof fn law_presets_are_on_display(layout: LayoutView, ids: Seq<Seq<char>>, i: int)
    requires
        layout.preset != LayoutPreset::Custom,
        0 <= i < layout.places(ids).len(),
    ensures
        on_display(layout.places(ids)[i]),
{
    let shown = layout.shown(ids);
    match layout.preset {
        LayoutPreset::Classic => {},
        LayoutPreset::Grid2x3 => {
            assert(0 <= i % 2 < 2 && 0 <= i / 2 < 3);
        },
        LayoutPreset::BigTop => {
            if i > 0 {
                let k = i - 1;
                assert(0 <= k % 2 < 2 && 0 <= k / 2 < 2);
                assert(big_top(shown)[i] == grid(shown.skip(1), 2, 2, true)[k]);
            }
        },
        LayoutPreset::Custom => {},
    }
}

impl LayoutSlot {
    /// A copy of this slot.
    pub fn copy(&self) -> (res: LayoutSlot)
        ensures
            res@ == self@,
    {
        LayoutSlot {
            sensor_id: self.sensor_id.clone(),
            value_cx_norm: self.value_cx_norm,
            value_cy_norm: self.value_cy_norm,
            label_cx_norm: self.label_cx_norm,
            label_cy_norm: self.label_cy_norm,
            value_font_size: self.value_font_size,
            label_font_size: self.label_font_size,
        }
    }
}

fn normalize(p: &ResolvedSlot) -> (res: LayoutSlot)
    requires
        on_display(p@),
    ensures
        res@ == to_normalized(p@),
{
    LayoutSlot {
        sensor_id: p.sensor_id.clone(),
        value_cx_norm: Single::quotient(p.value_cx as u32, 480),
        value_cy_norm: Single::quotient(p.value_y as u32, 480),
        label_cx_norm: Single::quotient(p.label_cx as u32, 480),
        label_cy_norm: Single::quotient(p.label_y as u32, 480),
        value_font_size: p.value_fs,
        label_font_size: p.label_fs,
    }
}

impl LayoutConfig {
    /// Appends a slot for each id that has none.
    fn fill_slots(&mut self, ids: &[&str], starts: &[StartPosition])
        requires
            ids@.len() == starts@.len(),
        ensures
            final(self)@ == (LayoutView {
                custom_slots: filled(
                    old(self)@.custom_slots,
                    id_texts(ids@),
                    starts@,
                    ids@.len() as int,
                ),
                ..old(self)@
            }),
    {
        let ghost start = self@;
        let ghost all = id_texts(ids@);
        let mut i: usize = 0;
        while i < ids.len()
            invariant
                i <= ids@.len(),
                ids@.len() == starts@.len(),
                all == id_texts(ids@),
                self@.preset == start.preset,
                self@.max_visible == start.max_visible,
                self@.custom_slots == filled(start.custom_slots, all, starts@, i as int),
            decreases ids@.len() - i,
        {
            let id = ids[i];
            let at = find_slot(&self.custom_slots, id);
            assert(all[i as int] == id@);
            if at == self.custom_slots.len() {
                let p = starts[i];
                let ghost before = self.custom_slots@;
                self.custom_slots.push(
                    LayoutSlot {
                        sensor_id: id.to_string(),
                        value_cx_norm: p.value_cx,
                        value_cy_norm: p.value_cy,
                        label_cx_norm: p.label_cx,
                        label_cy_norm: p.label_cy,
                        value_font_size: p.value_font_size,
                        label_font_size: p.label_font_size,
                    },
                );
                assert(self.custom_slots@.last()@ == start_slot(id@, p));
                assert(slot_views(self.custom_slots@) =~= slot_views(before).push(
                    start_slot(id@, p),
                ));
            }
            i = i + 1;
        }
    }

    /// Switches to the custom arrangement. The places of the preset are kept,
    /// and every id without a place gets its start position.
    pub fn ensure_custom_layout(&mut self, ids: &[&str], starts: &[StartPosition])
        requires
            ids@.len() == starts@.len(),
        ensures
            final(self)@ == old(self)@.customized(id_texts(ids@), starts@),
    {
        if self.preset != LayoutPreset::Custom {
            let places = self.preset_slots(ids);
            let ghost views = placed_views(places@);
            let mut slots: Vec<LayoutSlot> = Vec::new();
            let mut i: usize = 0;
            while i < places.len()
                invariant
                    i <= places@.len(),
                    views == placed_views(places@),
                    views == self@.places(id_texts(ids@)),
                    self@.preset != LayoutPreset::Custom,
                    slots@.len() == i,
                    forall|k: int| 0 <= k < i ==> (#[trigger] slots@[k])@ == to_normalized(views[k]),
                decreases places@.len() - i,
            {
                proof {
                    law_presets_are_on_display(self@, id_texts(ids@), i as int);
                    assert(views[i as int] == places@[i as int]@);
                }
                slots.push(normalize(&places[i]));
                i = i + 1;
            }
            assert(slot_views(slots@) =~= normalized(views));
            self.custom_slots = slots;
            self.preset = LayoutPreset::Custom;
        }
        self.fill_slots(ids, starts);
    }

    /// Gives every id without a place the same start position in the middle of
    /// the display.
    pub fn ensure_slots(&mut self, ids: &[&str])
        ensures
            final(self)@ == (LayoutView {
                custom_slots: filled(
                    old(self)@.custom_slots,
                    id_texts(ids@),
                    Seq::new(ids@.len(), |i: int| middle_start()),
                    ids@.len() as int,
                ),
                ..old(self)@
            }),
    {
        let p = StartPosition {
            value_cx: Single::quotient(1, 2),
            value_cy: Single::quotient(45, 100),
            label_cx: Single::quotient(1, 2),
            label_cy: Single::quotient(52, 100),
            value_font_size: Single::whole(58),
            label_font_size: Single::whole(27),
        };
        assert(p == middle_start());
        let mut starts: Vec<StartPosition> = Vec::new();
        let mut i: usize = 0;
        while i < ids.len()
            invariant
                i <= ids@.len(),
                p == middle_start(),
                starts@ == Seq::new(i as nat, |k: int| middle_start()),
            decreases ids@.len() - i,
        {
            starts.push(p);
            i = i + 1;
            assert(starts@ =~= Seq::new(i as nat, |k: int| middle_start()));
        }
        self.fill_slots(ids, starts.as_slice());
    }
}

/// The start position in the middle of the display.
pub open spec fn middle_start() -> StartPosition {
    StartPosition {
        value_cx: single::quotient_single(1, 2),
        value_cy: single::quotient_single(45, 100),
        label_cx: single::quotient_single(1, 2),
        label_cy: single::quotient_single(52, 100),
        value_font_size: single::whole_single(58),
        label_font_size: single::whole_single(27),
    }
}

// ── Moving ───────────────────────────────────────────────────────────────────

/// A normalized position that was moved by a number of pixels; it stays on the
/// display.
pub open spec fn moved_position(x: Single, by: Single) -> Single {
    x.sum(by.ratio(counted(480))).clamped(zero(false), single::whole_single(1))
}

/// A place that was moved by a number of pixels.
pub open spec fn moved_slot(s: LayoutSlotView, dx: Single, dy: Single) -> LayoutSlotView {
    LayoutSlotView {
        value_cx_norm: moved_position(s.value_cx_norm, dx),
        value_cy_norm: moved_position(s.value_cy_norm, dy),
        label_cx_norm: moved_position(s.label_cx_norm, dx),
        label_cy_norm: moved_position(s.label_cy_norm, dy),
        ..s
    }
}

impl LayoutView {
    /// With the place of `id` moved by a number of pixels.
    pub open spec fn moved(self, id: Seq<char>, dx: Single, dy: Single) -> LayoutView {
        if has_slot(self.custom_slots, id) {
            let at = slot_position(self.custom_slots, id);
            LayoutView {
                custom_slots: self.custom_slots.update(
                    at,
                    moved_slot(self.custom_slots[at], dx, dy),
                ),
                ..self
            }
        } else {
            self
        }
    }
}

fn move_position(x: Single, by: Single) -> (res: Single)
    ensures
        res == moved_position(x, by),
{
    x.plus(by.over(Single::count(480))).clamp(Single { bits: 0 }, Single::whole(1))
}

impl LayoutConfig {
    /// Moves the place of `id`, if it has one.
    pub fn move_slot(&mut self, id: &str, dx: Single, dy: Single)
        ensures
            final(self)@ == old(self)@.moved(id@, dx, dy),
    {
        let at = find_slot(&self.custom_slots, id);
        proof {
            lemma_slot_position(self@.custom_slots, id@);
        }
        if at < self.custom_slots.len() {
            let slot = &self.custom_slots[at];
            let moved = LayoutSlot {
                sensor_id: slot.sensor_id.clone(),
                value_cx_norm: move_position(slot.value_cx_norm, dx),
                value_cy_norm: move_position(slot.value_cy_norm, dy),
                label_cx_norm: move_position(slot.label_cx_norm, dx),
                label_cy_norm: move_position(slot.label_cy_norm, dy),
                value_font_size: slot.value_font_size,
                label_font_size: slot.label_font_size,
            };
            let ghost before = self@;
            let ghost view = moved@;
            self.custom_slots.set(at, moved);
            assert(slot_views(self.custom_slots@) =~= before.custom_slots.update(at as int, view));
        }
    }
}

/// A position that is moved by a number stays on the display.
pub proof fn law_moved_position_is_on_display(x: Single, by: Single)
    requires
        !moved_position(x, by).is_nan(),
    ensures
        zero(false).le(moved_position(x, by)),
        moved_position(x, by).le(single::whole_single(1)),
{
    single::law_whole_order(1, 1);
    single::lemma_whole_bits(1);
}

/// The big-top arrangement shows up to five readings: the first in the middle of
/// the upper half, in a larger font than all others, and the others in the lower
/// half.
pub proof fn law_big_top_halves(ids: Seq<Seq<char>>, i: int)
    requires
        0 <= i < big_top(ids).len(),
    ensures
        big_top(ids).len() == (if ids.len() <= 5 {
            ids.len()
        } else {
            5
        }),
        big_top(ids)[i].sensor_id == ids[i],
        i == 0 ==> ({
            let first = big_top(ids)[i];
            &&& first.value_cx == 240
            &&& first.label_cx == 240
            &&& 0 <= first.value_y < 240
            &&& 0 <= first.label_y < 240
            &&& first.value_fs == single::whole_single(80)
        }),
        i > 0 ==> ({
            let other = big_top(ids)[i];
            &&& 240 <= other.value_y < 480
            &&& 240 <= other.label_y < 480
            &&& other.value_fs.lt(big_top(ids)[0].value_fs)
            &&& other.label_fs.lt(big_top(ids)[0].label_fs)
        }),
{
    if i > 0 {
        let k = i - 1;
        assert(0 <= k % 2 < 2 && 0 <= k / 2 < 2);
        assert(big_top(ids)[i] == grid(ids.skip(1), 2, 2, true)[k]);
        assert(ids.skip(1)[k] == ids[i]);
        single::law_whole_order(46, 80);
        single::law_whole_order(22, 36);
    }
}

/// Moving one place leaves the others, their sensors and all font sizes as they
/// are.
pub proof fn law_move_keeps_others(l: LayoutView, id: Seq<char>, dx: Single, dy: Single, i: int)
    requires
        0 <= i < l.custom_slots.len(),
    ensures
        l.moved(id, dx, dy).custom_slots.len() == l.custom_slots.len(),
        l.moved(id, dx, dy).custom_slots[i].sensor_id == l.custom_slots[i].sensor_id,
        l.moved(id, dx, dy).custom_slots[i].value_font_size == l.custom_slots[i].value_font_size,
        l.moved(id, dx, dy).custom_slots[i].label_font_size == l.custom_slots[i].label_font_size,
        l.custom_slots[i].sensor_id != id ==> l.moved(id, dx, dy).custom_slots[i]
            == l.custom_slots[i],
{
    lemma_slot_position(l.custom_slots, id);
}

// ── Picking ──────────────────────────────────────────────────────────────────

/// Whether the slot at distance `d` is close enough to be picked.
pub open spec fn in_reach(d: Single) -> bool {
    d.le(single::whole_single(70))
}

/// The first of the nearest slots that are close enough.
pub open spec fn is_nearest(distances: Seq<Single>, i: int) -> bool {
    &&& 0 <= i < distances.len()
    &&& in_reach(distances[i])
    &&& forall|k: int|
        0 <= k < distances.len() && in_reach(#[trigger] distances[k]) ==> distances[i].le(
            distances[k],
        ) && (distances[k].le(distances[i]) ==> i <= k)
}

/// Picks the nearest slot that is at most 70 pixels away.
pub fn nearest_slot(distances: &[Single]) -> (res: Option<usize>)
    ensures
        match res {
            Some(i) => is_nearest(distances@, i as int),
            None => forall|k: int| 0 <= k < distances@.len() ==> !in_reach(#[trigger] distances@[k]),
        },
{
    let limit = Single::whole(70);
    let mut best: Option<usize> = None;
    let mut i: usize = 0;
    while i < distances.len()
        invariant
            i <= distances@.len(),
            limit == single::whole_single(70),
            match best {
                Some(b) => b < i && is_nearest(distances@.take(i as int), b as int),
                None => forall|k: int| 0 <= k < i ==> !in_reach(#[trigger] distances@[k]),
            },
        decreases distances@.len() - i,
    {
        let d = distances[i];
        let ghost prev = distances@.take(i as int);
        let ghost next = distances@.take(i + 1);
        assert forall|k: int| 0 <= k < i implies next[k] == #[trigger] prev[k] by {}
        if d.at_most(limit) {
            match best {
                Some(b) => {
                    assert(prev[b as int] == distances@[b as int]);
                    if !distances[b].at_most(d) {
                        best = Some(i);
                    }
                },
                None => {
                    best = Some(i);
                },
            }
        }
        proof {
            if let Some(b) = best {
                assert forall|k: int| 0 <= k < next.len() && in_reach(#[trigger] next[k]) implies next[b as int].le(
                next[k]) && (next[k].le(next[b as int]) ==> b <= k) by {
                    if k < i {
                        assert(prev[k] == next[k]);
                    }
                }
            }
        }
        i = i + 1;
    }
    assert(distances@.take(i as int) =~= distances@);
    best
}

// ── Laws ─────────────────────────────────────────────────────────────────────

proof fn lemma_custom_len(ids: Seq<Seq<char>>, slots: Seq<LayoutSlotView>)
    ensures
        custom(ids, slots).len() <= ids.len(),
    decreases ids.len(),
{
    if ids.len() > 0 {
        lemma_custom_len(ids.drop_last(), slots);
    }
}

/// No arrangement shows more readings than it was given, nor more than
/// `max_visible`.
pub proof fn law_places_are_capped(layout: LayoutView, ids: Seq<Seq<char>>)
    requires
        layout.max_visible >= 0,
    ensures
        layout.places(ids).len() <= layout.max_visible,
        layout.places(ids).len() <= ids.len(),
{
    lemma_custom_len(layout.shown(ids), layout.custom_slots);
}

pub proof fn lemma_has_slot(slots: Seq<LayoutSlotView>, id: Seq<char>, at: int)
    requires
        0 <= at < slots.len(),
        slots[at].sensor_id == id,
    ensures
        has_slot(slots, id),
        slot_position(slots, id) <= at,
{
    lemma_slot_position(slots, id);
}

/// Filling keeps the slots that are there, in front.
proof fn lemma_filled_prefix(
    slots: Seq<LayoutSlotView>,
    ids: Seq<Seq<char>>,
    starts: Seq<StartPosition>,
    n: int,
)
    requires
        0 <= n <= ids.len(),
    ensures
        filled(slots, ids, starts, n).len() >= slots.len(),
        filled(slots, ids, starts, n).take(slots.len() as int) == slots,
    decreases n,
{
    if n > 0 {
        lemma_filled_prefix(slots, ids, starts, n - 1);
        let before = filled(slots, ids, starts, n - 1);
        let after = filled(slots, ids, starts, n);
        assert(after.take(slots.len() as int) =~= before.take(slots.len() as int));
    } else {
        assert(slots.take(slots.len() as int) =~= slots);
    }
}

/// A slot that is in a prefix is found at the same position in the whole.
proof fn lemma_position_in_prefix(
    prefix: Seq<LayoutSlotView>,
    slots: Seq<LayoutSlotView>,
    id: Seq<char>,
)
    requires
        prefix.len() <= slots.len(),
        slots.take(prefix.len() as int) == prefix,
        has_slot(prefix, id),
    ensures
        has_slot(slots, id),
        slot_position(slots, id) == slot_position(prefix, id),
{
    lemma_slot_position(prefix, id);
    lemma_slot_position(slots, id);
    let p = slot_position(prefix, id);
    let q = slot_position(slots, id);
    assert(slots[p] == prefix[p]);
    lemma_has_slot(slots, id, p);
    if q < p {
        assert(prefix[q] == slots[q]);
    }
}

/// Filling gives each of the ids a slot.
proof fn lemma_filled_has(
    slots: Seq<LayoutSlotView>,
    ids: Seq<Seq<char>>,
    starts: Seq<StartPosition>,
    n: int,
    i: int,
)
    requires
        0 <= i < n <= ids.len(),
    ensures
        has_slot(filled(slots, ids, starts, n), ids[i]),
    decreases n,
{
    let before = filled(slots, ids, starts, n - 1);
    let after = filled(slots, ids, starts, n);
    if i == n - 1 {
        if !has_slot(before, ids[i]) {
            lemma_has_slot(after, ids[i], before.len() as int);
        }
    } else {
        lemma_filled_has(slots, ids, starts, n - 1, i);
        assert(after.take(before.len() as int) =~= before);
        lemma_position_in_prefix(before, after, ids[i]);
    }
}

/// If each of the first `n` ids has a slot, filling changes nothing.
proof fn lemma_filled_same(
    slots: Seq<LayoutSlotView>,
    ids: Seq<Seq<char>>,
    starts: Seq<StartPosition>,
    n: int,
)
    requires
        0 <= n <= ids.len(),
        forall|i: int| 0 <= i < n ==> has_slot(slots, #[trigger] ids[i]),
    ensures
        filled(slots, ids, starts, n) == slots,
    decreases n,
{
    if n > 0 {
        lemma_filled_same(slots, ids, starts, n - 1);
        assert(has_slot(slots, ids[n - 1]));
    }
}

proof fn lemma_custom_all(ids: Seq<Seq<char>>, slots: Seq<LayoutSlotView>)
    requires
        forall|i: int| 0 <= i < ids.len() ==> has_slot(slots, #[trigger] ids[i]),
    ensures
        custom(ids, slots) == Seq::new(
            ids.len(),
            |i: int| to_pixels(slots[slot_position(slots, ids[i])]),
        ),
    decreases ids.len(),
{
    let whole = Seq::new(ids.len(), |i: int| to_pixels(slots[slot_position(slots, ids[i])]));
    if ids.len() > 0 {
        assert forall|i: int| 0 <= i < ids.drop_last().len() implies has_slot(
            slots,
            #[trigger] ids.drop_last()[i],
        ) by {
            assert(ids.drop_last()[i] == ids[i]);
        }
        lemma_custom_all(ids.drop_last(), slots);
        assert(has_slot(slots, ids[ids.len() - 1]));
        assert(custom(ids, slots) =~= whole);
    } else {
        assert(custom(ids, slots) =~= whole);
    }
}

/// In the custom arrangement that takes over, every shown id has a place.
pub proof fn law_customized_shows_all(
    layout: LayoutView,
    ids: Seq<Seq<char>>,
    starts: Seq<StartPosition>,
)
    requires
        layout.max_visible >= 0,
        ids.len() == starts.len(),
    ensures
        layout.customized(ids, starts).places(ids).len() == layout.shown(ids).len(),
{
    let after = layout.customized(ids, starts);
    let shown = layout.shown(ids);
    assert(after.shown(ids) == shown);
    let slots = if layout.preset == LayoutPreset::Custom {
        layout.custom_slots
    } else {
        normalized(layout.places(ids))
    };
    assert forall|i: int| 0 <= i < shown.len() implies has_slot(
        after.custom_slots,
        #[trigger] shown[i],
    ) by {
        assert(shown[i] == ids[i]);
        lemma_filled_has(slots, ids, starts, ids.len() as int, i);
    }
    lemma_custom_all(shown, after.custom_slots);
}

/// Switching to the custom arrangement a second time changes nothing.
pub proof fn law_customized_twice(
    layout: LayoutView,
    ids: Seq<Seq<char>>,
    starts: Seq<StartPosition>,
)
    requires
        ids.len() == starts.len(),
    ensures
        layout.customized(ids, starts).customized(ids, starts) == layout.customized(ids, starts),
{
    let after = layout.customized(ids, starts);
    let slots = if layout.preset == LayoutPreset::Custom {
        layout.custom_slots
    } else {
        normalized(layout.places(ids))
    };
    assert forall|i: int| 0 <= i < ids.len() implies has_slot(
        after.custom_slots,
        #[trigger] ids[i],
    ) by {
        lemma_filled_has(slots, ids, starts, ids.len() as int, i);
    }
    lemma_filled_same(after.custom_slots, ids, starts, ids.len() as int);
}

pub proof fn lemma_preset_place(layout: LayoutView, ids: Seq<Seq<char>>, i: int)
    requires
        layout.preset != LayoutPreset::Custom,
        0 <= i < layout.places(ids).len(),
    ensures
        i < layout.shown(ids).len(),
        layout.places(ids)[i].sensor_id == layout.shown(ids)[i],
        single::is_preset_pixel(layout.places(ids)[i].value_cx),
        single::is_preset_pixel(layout.places(ids)[i].value_y),
        single::is_preset_pixel(layout.places(ids)[i].label_cx),
        single::is_preset_pixel(layout.places(ids)[i].label_y),
{
    let shown = layout.shown(ids);
    match layout.preset {
        LayoutPreset::Classic => {},
        LayoutPreset::Grid2x3 => {
            assert(0 <= i % 2 < 2 && 0 <= i / 2 < 3);
        },
        LayoutPreset::BigTop => {
            if i > 0 {
                let k = i - 1;
                assert(0 <= k % 2 < 2 && 0 <= k / 2 < 2);
                assert(big_top(shown)[i] == grid(shown.skip(1), 2, 2, true)[k]);
                assert(shown.skip(1)[k] == shown[i]);
            }
        },
        LayoutPreset::Custom => {},
    }
}

/// A preset place survives being normalized.
proof fn lemma_place_survives(p: PlacedView)
    requires
        single::is_preset_pixel(p.value_cx),
        single::is_preset_pixel(p.value_y),
        single::is_preset_pixel(p.label_cx),
        single::is_preset_pixel(p.label_y),
    ensures
        to_pixels(to_normalized(p)) == p,
{
    single::law_preset_pixels_survive(p.value_cx as nat);
    single::law_preset_pixels_survive(p.value_y as nat);
    single::law_preset_pixels_survive(p.label_cx as nat);
    single::law_preset_pixels_survive(p.label_y as nat);
}

/// The slot of a shown id stands where the preset put it.
proof fn lemma_slot_of_preset(layout: LayoutView, ids: Seq<Seq<char>>, i: int)
    requires
        layout.preset != LayoutPreset::Custom,
        layout.max_visible >= 0,
        ids.no_duplicates(),
        0 <= i < layout.places(ids).len(),
    ensures
        has_slot(normalized(layout.places(ids)), ids[i]),
        slot_position(normalized(layout.places(ids)), ids[i]) == i,
{
    let before = layout.places(ids);
    let slots = normalized(before);
    let shown = layout.shown(ids);
    lemma_preset_place(layout, ids, i);
    assert(shown[i] == ids[i]);
    lemma_slot_position(slots, ids[i]);
    lemma_has_slot(slots, ids[i], i);
    let p = slot_position(slots, ids[i]);
    if p < i {
        lemma_preset_place(layout, ids, p);
        assert(shown[p] == ids[p]);
    }
}

/// Switching from a preset to the custom arrangement moves nothing: every
/// reading that the preset shows keeps its place and its font sizes. This needs
/// the ids to be distinct, as the first slot of an id decides.
pub proof fn law_switch_keeps_places(
    layout: LayoutView,
    ids: Seq<Seq<char>>,
    starts: Seq<StartPosition>,
)
    requires
        layout.preset != LayoutPreset::Custom,
        layout.max_visible >= 0,
        ids.len() == starts.len(),
        ids.no_duplicates(),
    ensures
        ({
            let before = layout.places(ids);
            let after = layout.customized(ids, starts).places(ids);
            &&& before.len() <= after.len()
            &&& after.take(before.len() as int) == before
        }),
{
    let before = layout.places(ids);
    let shown = layout.shown(ids);
    let next = layout.customized(ids, starts);
    let after = next.places(ids);
    let slots = normalized(before);
    let all = next.custom_slots;
    assert(next.shown(ids) == shown);
    assert(all == filled(slots, ids, starts, ids.len() as int));
    assert forall|i: int| 0 <= i < shown.len() implies has_slot(all, #[trigger] shown[i]) by {
        assert(shown[i] == ids[i]);
        lemma_filled_has(slots, ids, starts, ids.len() as int, i);
    }
    lemma_custom_all(shown, all);
    law_places_are_capped(layout, ids);
    if before.len() > 0 {
        lemma_preset_place(layout, ids, before.len() - 1);
    }
    assert forall|i: int| 0 <= i < before.len() implies after[i] == before[i] by {
        lemma_switch_place(layout, ids, starts, i);
    }
    assert(after.take(before.len() as int) =~= before);
}

proof fn lemma_switch_place(
    layout: LayoutView,
    ids: Seq<Seq<char>>,
    starts: Seq<StartPosition>,
    i: int,
)
    requires
        layout.preset != LayoutPreset::Custom,
        layout.max_visible >= 0,
        ids.len() == starts.len(),
        ids.no_duplicates(),
        0 <= i < layout.places(ids).len(),
    ensures
        ({
            let all = layout.customized(ids, starts).custom_slots;
            to_pixels(all[slot_position(all, ids[i])]) == layout.places(ids)[i]
        }),
        layout.shown(ids)[i] == ids[i],
{
    let before = layout.places(ids);
    let slots = normalized(before);
    let all = filled(slots, ids, starts, ids.len() as int);
    lemma_preset_place(layout, ids, i);
    lemma_slot_of_preset(layout, ids, i);
    lemma_filled_prefix(slots, ids, starts, ids.len() as int);
    lemma_position_in_prefix(slots, all, ids[i]);
    assert(all.take(slots.len() as int)[i] == all[i]);
    lemma_place_survives(before[i]);
}

} // verus!
