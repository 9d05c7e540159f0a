//! What the keyboard does in the configuration window.

use vstd::prelude::*;

verus! {

/// A page of the configuration window.
#[derive(Clone, Copy, Debug, PartialEq, Eq, Structural)]
pub enum Page {
    Device,
    Display,
    Sensors,
    Media,
    Profiles,
    Diagnostics,
}

impl Page {
    /// The title of a page.
    pub open spec fn title_text(self) -> Seq<char> {
        match self {
            Page::Device => "Device"@,
            Page::Display => "Display"@,
            Page::Sensors => "Sensors"@,
            Page::Media => "Media"@,
            Page::Profiles => "Profiles"@,
            Page::Diagnostics => "Diagnostics"@,
        }
    }

    /// The title of the page.
    pub fn title(self) -> (res: &'static str)
        ensures
            res@ == self.title_text(),
    {
        match self {
            Page::Device => "Device",
            Page::Display => "Display",
            Page::Sensors => "Sensors",
            Page::Media => "Media",
            Page::Profiles => "Profiles",
            Page::Diagnostics => "Diagnostics",
        }
    }

    /// Whether the page shows the preview, in which a reading can be moved.
    pub fn has_preview(self) -> (res: bool)
        ensures
            res == (self == Page::Display || self == Page::Sensors),
    {
        match self {
            Page::Display => true,
            Page::Sensors => true,
            _ => false,
        }
    }

    /// Whether everything can be reset from the page.
    pub fn has_reset(self) -> (res: bool)
        ensures
            res == (self == Page::Device || self == Page::Display || self == Page::Sensors),
    {
        match self {
            Page::Media => false,
            Page::Profiles => false,
            Page::Diagnostics => false,
            _ => true,
        }
    }
}

/// The keys that are held or were pressed.
#[derive(Clone, Copy, Debug)]
pub struct Keys {
    pub ctrl: bool,
    pub shift: bool,
    pub z: bool,
    pub y: bool,
    pub left: bool,
    pub right: bool,
    pub up: bool,
    pub down: bool,
}

impl Keys {
    /// Whether the last change is to be undone.
    pub open spec fn asks_undo(self) -> bool {
        self.ctrl && self.z && !self.shift
    }

    /// Whether the last undone change is to be done again.
    pub open spec fn asks_redo(self) -> bool {
        self.ctrl && ((self.shift && self.z) || self.y)
    }

    /// Whether the last change is to be undone.
    pub fn wants_undo(&self) -> (res: bool)
        ensures
            res == (self.ctrl && self.z && !self.shift),
            res == self.asks_undo(),
    {
        self.ctrl && self.z && !self.shift
    }

    /// Whether the last undone change is to be done again.
    pub fn wants_redo(&self) -> (res: bool)
        ensures
            res == (self.ctrl && ((self.shift && self.z) || self.y)),
            res == self.asks_redo(),
    {
        (self.ctrl && self.shift && self.z) || (self.ctrl && self.y)
    }

    /// How far the arrow keys move a reading: one pixel, or five with shift.
    /// Opposite keys cancel out.
    pub open spec fn move_by(self) -> (int, int) {
        let step: int = if self.shift {
            5
        } else {
            1
        };
        (
            (if self.right {
                step
            } else {
                0
            }) - (if self.left {
                step
            } else {
                0
            }),
            (if self.down {
                step
            } else {
                0
            }) - (if self.up {
                step
            } else {
                0
            }),
        )
    }

    /// How far the arrow keys move a reading.
    pub fn arrow_step(&self) -> (res: (i32, i32))
        ensures
            (res.0 as int, res.1 as int) == self.move_by(),
    {
        let step: i32 = if self.shift {
            5
        } else {
            1
        };
        let mut dx: i32 = 0;
        let mut dy: i32 = 0;
        if self.left {
            dx = dx - step;
        }
        if self.right {
            dx = dx + step;
        }
        if self.up {
            dy = dy - step;
        }
        if self.down {
            dy = dy + step;
        }
        (dx, dy)
    }
}

impl Keys {
    /// The same keys, with opposite arrows exchanged.
    pub open spec fn mirrored(self) -> Keys {
        Keys { left: self.right, right: self.left, up: self.down, down: self.up, ..self }
    }
}

/// The arrows move to where they point, opposite arrows by as much and the other
/// way, and with shift five times as far.
pub proof fn law_arrows_move_where_they_point(k: Keys)
    ensures
        k.right && !k.left ==> k.move_by().0 > 0,
        k.left && !k.right ==> k.move_by().0 < 0,
        k.down && !k.up ==> k.move_by().1 > 0,
        k.up && !k.down ==> k.move_by().1 < 0,
        k.left == k.right ==> k.move_by().0 == 0,
        k.up == k.down ==> k.move_by().1 == 0,
        k.mirrored().move_by() == (-k.move_by().0, -k.move_by().1),
        !k.shift ==> -1 <= k.move_by().0 <= 1 && -1 <= k.move_by().1 <= 1,
        (Keys { shift: true, ..k }).move_by() == (
            5 * (Keys { shift: false, ..k }).move_by().0,
            5 * (Keys { shift: false, ..k }).move_by().1,
        ),
{
}

/// Without the control key nothing is undone or done again. With it, shift turns
/// what the key Z does into its opposite, and the key Y alone does again.
pub proof fn law_undo_and_redo_keys(k: Keys)
    ensures
        !k.ctrl ==> !k.asks_undo() && !k.asks_redo(),
        !k.z && !k.y ==> !k.asks_undo() && !k.asks_redo(),
        k.ctrl && k.z && !k.y ==> k.asks_undo() == !k.asks_redo(),
        k.ctrl && k.z && !k.y ==> (Keys { shift: !k.shift, ..k }).asks_undo() == k.asks_redo(),
        k.ctrl && k.z && !k.y ==> k.asks_redo() == k.shift,
        k.ctrl && k.y && !k.z ==> k.asks_redo() && !k.asks_undo(),
        k.asks_undo() ==> !k.shift,
{
}

} // verus!
