//! When the configuration window refreshes what it shows, and when the daemon
//! reloads its configuration.

use crate::config;
use crate::config::Config;
use vstd::prelude::*;

verus! {

/// How many nanoseconds ago each part was refreshed.
#[derive(Clone, Copy, Debug)]
pub struct Ages {
    pub sensors: u64,
    pub daemon: u64,
    pub autostart: u64,
    pub device: u64,
}

/// Which parts are to be refreshed.
#[derive(Clone, Copy, Debug, PartialEq, Eq, Structural)]
pub struct Due {
    pub sensors: bool,
    pub daemon: bool,
    pub autostart: bool,
    pub device: bool,
}

/// Which parts are to be refreshed at these ages.
pub open spec fn due_at(ages: Ages) -> Due {
    Due {
        sensors: ages.sensors > 1_000_000_000,
        daemon: ages.daemon > 2_000_000_000,
        autostart: ages.autostart > 5_000_000_000,
        device: ages.device > 4_000_000_000,
    }
}

/// Readings are refreshed after one second, the daemon's state after two, the
/// display after four, and the autostart setting after five.
pub fn due(ages: &Ages) -> (res: Due)
    ensures
        res.sensors == (ages.sensors > 1_000_000_000),
        res.daemon == (ages.daemon > 2_000_000_000),
        res.device == (ages.device > 4_000_000_000),
        res.autostart == (ages.autostart > 5_000_000_000),
        res == due_at(*ages),
{
    Due {
        sensors: ages.sensors > 1_000_000_000,
        daemon: ages.daemon > 2_000_000_000,
        autostart: ages.autostart > 5_000_000_000,
        device: ages.device > 4_000_000_000,
    }
}

/// Whether the preview is drawn anew: if there is none yet, if it shows another
/// configuration, or after one second.
pub fn preview_due(drawn: bool, shown: Option<&Config>, working: &Config, age: u64) -> (res: bool)
    ensures
        res == !(drawn && (shown matches Some(c) && config::same_config(c@, working@)) && age
            <= 1_000_000_000),
{
    if !drawn || age > 1_000_000_000 {
        return true;
    }
    match shown {
        Some(c) => !c.equals(working),
        None => true,
    }
}

/// Whether the preview of the small window is drawn anew: if there is none yet,
/// if the configuration has changed, or after 800 milliseconds.
pub fn small_preview_due(drawn: bool, changed: bool, age: u64) -> (res: bool)
    ensures
        res == (!drawn || changed || age > 800_000_000),
{
    !drawn || changed || age > 800_000_000
}

/// The configuration of the daemon and the time stamp of the file it comes from.
/// A file that cannot be found has no stamp.
#[derive(Debug)]
pub struct Watched {
    pub config: Config,
    pub stamp: Option<i128>,
}

/// What a `Watched` holds.
pub struct WatchedView {
    pub config: config::ConfigView,
    pub stamp: Option<i128>,
}

impl View for Watched {
    type V = WatchedView;

    open spec fn view(&self) -> WatchedView {
        WatchedView { config: self.config@, stamp: self.stamp }
    }
}

impl WatchedView {
    /// After the file was found with the stamp `found` and, if that is another
    /// one, loaded. Where loading fails, configuration and stamp stay.
    pub open spec fn updated(
        self,
        found: Option<i128>,
        loaded: Option<config::ConfigView>,
    ) -> WatchedView {
        match loaded {
            Some(config) => if found != self.stamp {
                WatchedView { config, stamp: found }
            } else {
                self
            },
            None => self,
        }
    }
}

impl Watched {
    /// Whether the file is to be loaded again: its time stamp has changed.
    pub fn reload_due(&self, found: Option<i128>) -> (res: bool)
        ensures
            res == (found != self@.stamp),
    {
        match (found, self.stamp) {
            (Some(a), Some(b)) => a != b,
            (None, None) => false,
            _ => true,
        }
    }

    /// Takes over what was loaded. Tells whether the configuration was replaced.
    pub fn update(&mut self, found: Option<i128>, loaded: Option<Config>) -> (res: bool)
        ensures
            final(self)@ == old(self)@.updated(
                found,
                match loaded {
                    Some(c) => Some(c@),
                    None => None,
                },
            ),
            res == (found != old(self)@.stamp && loaded is Some),
    {
        if !self.reload_due(found) {
            return false;
        }
        match loaded {
            Some(config) => {
                self.config = config;
                self.stamp = found;
                true
            },
            None => false,
        }
    }
}

/// A file that could not be loaded is tried again as long as it has the new time
/// stamp; one that was loaded is not.
pub proof fn law_failed_reload_is_repeated(
    w: WatchedView,
    found: Option<i128>,
    loaded: Option<config::ConfigView>,
)
    requires
        found != w.stamp,
    ensures
        (found != w.updated(found, loaded).stamp) == (loaded is None),
        loaded is None ==> w.updated(found, loaded).config == w.config,
        loaded matches Some(c) ==> w.updated(found, loaded).config == c,
{
}

} // verus!
