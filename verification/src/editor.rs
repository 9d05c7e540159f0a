//! Editing a configuration, with undo and redo.

use crate::config;
use crate::config::Config;
use crate::layout;
use crate::layout::StartPosition;
use crate::single::Single;
use crate::text;
use vstd::prelude::*;

verus! {

/// The configuration that is being edited, the one that is in effect, and the
/// way back and forth between earlier states.
#[derive(Debug)]
pub struct Editor {
    pub committed: Config,
    pub working: Config,
    pub undo: Vec<Config>,
    pub redo: Vec<Config>,
    pub pending_undo: Option<Config>,
    pub suppress_history_once: bool,
    pub selected_sensor: Option<String>,
}

/// What a list of configurations holds.
pub open spec fn config_views(v: Seq<Config>) -> Seq<config::ConfigView> {
    Seq::new(v.len(), |i: int| v[i]@)
}

/// What an optional configuration holds.
pub open spec fn opt_config(c: Option<Config>) -> Option<config::ConfigView> {
    match c {
        Some(v) => Some(v@),
        None => None,
    }
}

/// What an `Editor` holds.
#[verifier::ext_equal]
pub struct EditorView {
    pub committed: config::ConfigView,
    pub working: config::ConfigView,
    pub undo: Seq<config::ConfigView>,
    pub redo: Seq<config::ConfigView>,
    pub pending_undo: Option<config::ConfigView>,
    pub suppress_history_once: bool,
    pub selected_sensor: Option<Seq<char>>,
}

impl View for Editor {
    type V = EditorView;

    open spec fn view(&self) -> EditorView {
        EditorView {
            committed: self.committed@,
            working: self.working@,
            undo: config_views(self.undo@),
            redo: config_views(self.redo@),
            pending_undo: opt_config(self.pending_undo),
            suppress_history_once: self.suppress_history_once,
            selected_sensor: text::opt_text(self.selected_sensor),
        }
    }
}

/// The history after a state has been added: the oldest of more than 64 states
/// is forgotten.
pub open spec fn capped(undo: Seq<config::ConfigView>) -> Seq<config::ConfigView> {
    if undo.len() > 64 {
        undo.skip(1)
    } else {
        undo
    }
}

impl EditorView {
    /// The history never holds more than 64 states.
    pub open spec fn is_bounded(self) -> bool {
        self.undo.len() + self.redo.len() <= 64
    }

    /// Records a state as the one to go back to. A state that equals the
    /// current one is not recorded, nor the last one a second time.
    pub open spec fn recorded(self, state: config::ConfigView) -> EditorView {
        if config::same_config(state, self.working) {
            self
        } else {
            EditorView {
                undo: if self.undo.len() > 0 && config::same_config(self.undo.last(), state) {
                    self.undo
                } else {
                    capped(self.undo.push(state))
                },
                redo: seq![],
                ..self
            }
        }
    }

    /// Goes back one state.
    pub open spec fn undone(self) -> EditorView {
        if self.undo.len() == 0 {
            self
        } else {
            EditorView {
                working: self.undo.last(),
                undo: self.undo.drop_last(),
                redo: self.redo.push(self.working),
                pending_undo: None,
                suppress_history_once: true,
                ..self
            }
        }
    }

    /// Goes forward one state.
    pub open spec fn redone(self) -> EditorView {
        if self.redo.len() == 0 {
            self
        } else {
            EditorView {
                working: self.redo.last(),
                redo: self.redo.drop_last(),
                undo: self.undo.push(self.working),
                pending_undo: None,
                suppress_history_once: true,
                ..self
            }
        }
    }

    /// Takes note of what the user did since the state was `before`. While the
    /// pointer is down, changes belong to one step that is recorded when the
    /// pointer is released.
    pub open spec fn captured(self, before: config::ConfigView, pointer_down: bool) -> EditorView {
        if self.suppress_history_once {
            EditorView { suppress_history_once: false, pending_undo: None, ..self }
        } else if !config::same_config(before, self.working) {
            if pointer_down {
                EditorView {
                    pending_undo: match self.pending_undo {
                        Some(p) => Some(p),
                        None => Some(before),
                    },
                    ..self
                }
            } else {
                let base = match self.pending_undo {
                    Some(p) => p,
                    None => before,
                };
                (EditorView { pending_undo: None, ..self }).recorded(base)
            }
        } else if !pointer_down {
            match self.pending_undo {
                Some(p) => (EditorView { pending_undo: None, ..self }).recorded(p),
                None => self,
            }
        } else {
            self
        }
    }

    /// Puts the working configuration into effect.
    pub open spec fn applied(self) -> EditorView {
        EditorView { committed: self.working, undo: seq![], redo: seq![], ..self }
    }

    /// After the selected reading was moved by a number of pixels.
    pub open spec fn moved(self, starts: Seq<StartPosition>, dx: Single, dy: Single) -> EditorView {
        match self.selected_sensor {
            Some(id) => EditorView {
                working: config::ConfigView {
                    layout: self.working.layout.customized(self.working.shown_ids(), starts).moved(
                        id,
                        dx,
                        dy,
                    ),
                    ..self.working
                },
                ..self
            },
            None => self,
        }
    }

    /// Returns to the configuration that is in effect.
    pub open spec fn reverted(self) -> EditorView {
        EditorView {
            working: self.committed,
            undo: seq![],
            redo: seq![],
            pending_undo: None,
            suppress_history_once: true,
            ..self
        }
    }
}

impl Editor {
    /// Starts editing a configuration that is in effect.
    pub fn new(config: Config) -> (res: Editor)
        ensures
            res@ == (EditorView {
                committed: config@,
                working: config@,
                undo: seq![],
                redo: seq![],
                pending_undo: None,
                suppress_history_once: false,
                selected_sensor: None,
            }),
            res@.is_bounded(),
    {
        let res = Editor {
            committed: config.copy(),
            working: config,
            undo: Vec::new(),
            redo: Vec::new(),
            pending_undo: None,
            suppress_history_once: false,
            selected_sensor: None,
        };
        assert(res@ =~= EditorView {
            committed: config@,
            working: config@,
            undo: seq![],
            redo: seq![],
            pending_undo: None,
            suppress_history_once: false,
            selected_sensor: None,
        });
        res
    }

    /// Are there changes that are not in effect?
    pub fn is_dirty(&self) -> (res: bool)
        ensures
            res == !config::same_config(self@.working, self@.committed),
    {
        !self.working.equals(&self.committed)
    }

    /// Puts the working configuration into effect.
    pub fn apply(&mut self)
        ensures
            final(self)@ == old(self)@.applied(),
    {
        let ghost before = self@;
        self.committed = self.working.copy();
        self.undo = Vec::new();
        self.redo = Vec::new();
        assert(self@ =~= before.applied());
    }

    /// Returns to the configuration that is in effect.
    pub fn revert(&mut self)
        ensures
            final(self)@ == old(self)@.reverted(),
    {
        let ghost before = self@;
        self.working = self.committed.copy();
        self.undo = Vec::new();
        self.redo = Vec::new();
        self.pending_undo = None;
        self.suppress_history_once = true;
        assert(self@ =~= before.reverted());
    }

    /// Records a state as the one to go back to.
    pub fn push_undo(&mut self, config: Config)
        ensures
            final(self)@ == old(self)@.recorded(config@),
    {
        let ghost before = self@;
        let ghost state = config@;
        if config.equals(&self.working) {
            return;
        }
        let count = self.undo.len();
        let repeated = if count > 0 {
            self.undo[count - 1].equals(&config)
        } else {
            false
        };
        if !repeated {
            let ghost old_undo = self.undo@;
            self.undo.push(config);
            assert(config_views(self.undo@) =~= before.undo.push(state));
            if self.undo.len() > 64 {
                let ghost full = self.undo@;
                self.undo.remove(0);
                assert(config_views(self.undo@) =~= config_views(full).skip(1));
            }
            assert(config_views(self.undo@) =~= capped(before.undo.push(state)));
        }
        self.redo = Vec::new();
        assert(self@ =~= before.recorded(state));
    }

    /// Goes back one state.
    pub fn undo(&mut self)
        ensures
            final(self)@ == old(self)@.undone(),
    {
        let ghost before = self@;
        if let Some(previous) = self.undo.pop() {
            assert(config_views(self.undo@) =~= before.undo.drop_last());
            let current = self.working.copy();
            self.redo.push(current);
            assert(config_views(self.redo@) =~= before.redo.push(before.working));
            self.working = previous;
            self.pending_undo = None;
            self.suppress_history_once = true;
        }
        assert(self@ =~= before.undone());
    }

    /// Goes forward one state.
    pub fn redo(&mut self)
        ensures
            final(self)@ == old(self)@.redone(),
    {
        let ghost before = self@;
        if let Some(next) = self.redo.pop() {
            assert(config_views(self.redo@) =~= before.redo.drop_last());
            let current = self.working.copy();
            self.undo.push(current);
            assert(config_views(self.undo@) =~= before.undo.push(before.working));
            self.working = next;
            self.pending_undo = None;
            self.suppress_history_once = true;
        }
        assert(self@ =~= before.redone());
    }

    /// Takes note of what the user did since the state was `before`.
    pub fn capture_history(&mut self, before: Config, pointer_down: bool)
        ensures
            final(self)@ == old(self)@.captured(before@, pointer_down),
    {
        let ghost start = self@;
        if self.suppress_history_once {
            self.suppress_history_once = false;
            self.pending_undo = None;
            assert(self@ =~= start.captured(before@, pointer_down));
            return;
        }
        if !before.equals(&self.working) {
            if pointer_down {
                if self.pending_undo.is_none() {
                    self.pending_undo = Some(before);
                }
                assert(self@ =~= start.captured(before@, pointer_down));
            } else {
                let base = match self.pending_undo.take() {
                    Some(p) => p,
                    None => before,
                };
                assert(self@ =~= EditorView { pending_undo: None, ..start });
                self.push_undo(base);
            }
        } else if !pointer_down {
            if let Some(base) = self.pending_undo.take() {
                assert(self@ =~= EditorView { pending_undo: None, ..start });
                self.push_undo(base);
            } else {
                assert(self@ =~= start);
            }
        }
    }

    /// Returns to the configuration of a new installation. The current state is
    /// handed to the history, which records it only if it differs from itself.
    pub fn reset_all(&mut self, cpu_label: &str)
        ensures
            final(self)@ == (EditorView {
                working: config::default_config(cpu_label@),
                selected_sensor: None,
                ..old(self)@.recorded(old(self)@.working)
            }),
    {
        let ghost before = self@;
        let current = self.working.copy();
        self.push_undo(current);
        self.working = Config::with_cpu_label(cpu_label);
        self.selected_sensor = None;
        assert(self@ =~= EditorView {
            working: config::default_config(cpu_label@),
            selected_sensor: None,
            ..before.recorded(before.working)
        });
    }

    /// Replaces the working configuration and drops the selection.
    pub fn replace(&mut self, config: Config)
        ensures
            final(self)@ == (EditorView {
                working: config@,
                selected_sensor: None,
                ..old(self)@
            }),
    {
        self.working = config;
        self.selected_sensor = None;
    }

    /// Selects the sensor of a slot, or none.
    pub fn select(&mut self, id: Option<&str>)
        ensures
            final(self)@ == (EditorView { selected_sensor: text::opt_str(id), ..old(self)@ }),
    {
        self.selected_sensor = match id {
            Some(s) => Some(s.to_string()),
            None => None,
        };
    }

    /// Switches the working configuration to a custom layout.
    pub fn ensure_custom_layout(&mut self, starts: &[StartPosition])
        requires
            starts@.len() == old(self)@.working.shown_ids().len(),
        ensures
            final(self)@ == (EditorView {
                working: config::ConfigView {
                    layout: old(self)@.working.layout.customized(
                        old(self)@.working.shown_ids(),
                        starts@,
                    ),
                    ..old(self)@.working
                },
                ..old(self)@
            }),
    {
        let ids = self.working.enabled_sensor_ids();
        let mut refs: Vec<&str> = Vec::new();
        let mut i: usize = 0;
        while i < ids.len()
            invariant
                i <= ids@.len(),
                refs@.len() == i,
                forall|k: int| 0 <= k < i ==> (#[trigger] refs@[k])@ == ids@[k]@,
            decreases ids@.len() - i,
        {
            refs.push(ids[i].as_str());
            i = i + 1;
        }
        assert(layout::id_texts(refs@) =~= text::texts(ids@));
        assert(text::texts(ids@).len() == ids@.len());
        self.working.layout.ensure_custom_layout(refs.as_slice(), starts);
    }

    /// Moves the selected reading by a number of pixels, on a custom layout.
    pub fn move_selected(&mut self, starts: &[StartPosition], dx: Single, dy: Single)
        requires
            starts@.len() == old(self)@.working.shown_ids().len(),
        ensures
            final(self)@ == old(self)@.moved(starts@, dx, dy),
    {
        if self.selected_sensor.is_none() {
            return;
        }
        self.ensure_custom_layout(starts);
        if let Some(id) = &self.selected_sensor {
            self.working.layout.move_slot(id.as_str(), dx, dy);
        }
    }
}

// ── Laws ─────────────────────────────────────────────────────────────────────

/// Nothing that the user does makes the history hold more than 64 states.
pub proof fn law_history_is_bounded(
    e: EditorView,
    state: config::ConfigView,
    pointer_down: bool,
)
    requires
        e.is_bounded(),
    ensures
        e.recorded(state).is_bounded(),
        e.undone().is_bounded(),
        e.redone().is_bounded(),
        e.captured(state, pointer_down).is_bounded(),
        e.applied().is_bounded(),
        e.reverted().is_bounded(),
{
}

/// Going back and then forward restores the state and the history.
pub proof fn law_undo_then_redo(e: EditorView)
    requires
        e.undo.len() > 0,
    ensures
        ({
            let r = e.undone().redone();
            &&& r.working == e.working
            &&& r.undo == e.undo
            &&& r.redo == e.redo
            &&& r.committed == e.committed
        }),
{
    let r = e.undone().redone();
    assert(r.undo =~= e.undo);
    assert(r.redo =~= e.redo);
}

/// Going forward and then back restores the state and the history.
pub proof fn law_redo_then_undo(e: EditorView)
    requires
        e.redo.len() > 0,
    ensures
        ({
            let r = e.redone().undone();
            &&& r.working == e.working
            &&& r.undo == e.undo
            &&& r.redo == e.redo
            &&& r.committed == e.committed
        }),
{
    let r = e.redone().undone();
    assert(r.undo =~= e.undo);
    assert(r.redo =~= e.redo);
}

/// A change is undone by going back: the recorded state comes back, or one that
/// equals it.
pub proof fn law_recorded_state_comes_back(e: EditorView, state: config::ConfigView)
    requires
        !config::same_config(state, e.working),
    ensures
        ({
            let back = e.recorded(state).undone().working;
            back == state || config::same_config(back, state)
        }),
{
    let u = e.undo.push(state);
    assert(capped(u).last() == state);
}

/// Applying and reverting leave nothing to apply, as long as every number in
/// the configuration is one.
pub proof fn law_nothing_left_to_apply(e: EditorView)
    requires
        config::same_config(e.working, e.working),
        config::same_config(e.committed, e.committed),
    ensures
        config::same_config(e.applied().working, e.applied().committed),
        config::same_config(e.reverted().working, e.reverted().committed),
{
}

/// Moving about in the history changes neither what is in effect nor what is
/// selected.
pub proof fn law_history_keeps_committed(
    e: EditorView,
    state: config::ConfigView,
    pointer_down: bool,
)
    ensures
        e.recorded(state).committed == e.committed,
        e.undone().committed == e.committed,
        e.redone().committed == e.committed,
        e.captured(state, pointer_down).committed == e.committed,
        e.reverted().committed == e.committed,
        e.undone().selected_sensor == e.selected_sensor,
        e.redone().selected_sensor == e.selected_sensor,
{
}

/// A drag is one step: however often the configuration changes while the pointer is
/// down, the change that is recorded when it is released leads back to before the
/// drag.
pub proof fn law_drag_is_one_step(
    e: EditorView,
    before: config::ConfigView,
    between: config::ConfigView,
    dragged: config::ConfigView,
    dropped: config::ConfigView,
)
    requires
        !e.suppress_history_once,
        e.pending_undo is None,
        !config::same_config(before, e.working),
        !config::same_config(before, dropped),
    ensures
        ({
            let held = e.captured(before, true);
            let still = (EditorView { working: dragged, ..held }).captured(between, true);
            let released = (EditorView { working: dropped, ..still }).captured(dropped, false);
            let back = released.undone().working;
            &&& held.undo == e.undo && still.undo == e.undo
            &&& released.pending_undo is None
            &&& released.undo.len() <= e.undo.len() + 1
            &&& back == before || config::same_config(back, before)
        }),
{
    let held = e.captured(before, true);
    let still = (EditorView { working: dragged, ..held }).captured(between, true);
    let full = EditorView { working: dropped, ..still };
    assert(still.pending_undo == Some(before));
    let base = EditorView { pending_undo: None, ..full };
    law_recorded_state_comes_back(base, before);
    assert(full.captured(dropped, false) == base.recorded(before));
}

/// A change forgets what was undone before it, so that nothing of another history
/// can be done again.
pub proof fn law_change_forgets_undone(e: EditorView, state: config::ConfigView)
    requires
        !config::same_config(state, e.working),
    ensures
        e.recorded(state).redo.len() == 0,
        e.recorded(state).redone() == e.recorded(state),
        e.recorded(state).undo.len() > 0,
        e.recorded(state).working == e.working,
{
}

/// Applying and reverting agree on what is kept: the working configuration, or the
/// last one that was applied. Neither can be undone.
pub proof fn law_apply_and_revert(e: EditorView)
    ensures
        e.applied().committed == e.working,
        e.applied().working == e.working,
        e.reverted().working == e.committed,
        e.reverted().committed == e.committed,
        e.applied().reverted().working == e.working,
        e.applied().undone() == e.applied(),
        e.reverted().undone() == e.reverted(),
        e.reverted().redone() == e.reverted(),
{
}

} // verus!
