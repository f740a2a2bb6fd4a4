//! The widget's settings and the store that decides when they are written.
//!
//! The store keeps the settings in memory and says, for each change, whether
//! the new state is to be written now; writing (as JSON, atomically) is the
//! caller's part. Times are milliseconds on a monotonic clock.

use vstd::prelude::*;

verus! {

/// Settings kept between runs.
#[derive(Clone, Copy, Debug)]
pub struct Settings {
    pub x: Option<i32>,
    pub y: Option<i32>,
    pub collapsed: bool,
    pub interval_ms: u64,
    /// `None`: never decided, autostart is switched on at the first start
    pub autostart: Option<bool>,
    /// fetch the newest release at start
    pub autoupdate: bool,
}

pub open spec fn default_settings() -> Settings {
    Settings {
        x: None,
        y: None,
        collapsed: false,
        interval_ms: 1500,
        autostart: None,
        autoupdate: true,
    }
}

impl Default for Settings {
    fn default() -> (r: Settings)
        ensures
            r == default_settings(),
    {
        Settings {
            x: None,
            y: None,
            collapsed: false,
            interval_ms: 1500,
            autostart: None,
            autoupdate: true,
        }
    }
}

/// Least time between two throttled writes.
pub const THROTTLE_MS: u64 = 500;

/// Time since `last`, zero when the clock reads earlier.
pub open spec fn elapsed_ms(last: u64, now: u64) -> int {
    if now >= last {
        now - last
    } else {
        0
    }
}

/// A throttled change is written when nothing was written yet or the last
/// write is at least 500 ms old.
pub open spec fn write_due(last: Option<u64>, now: u64) -> bool {
    match last {
        None => true,
        Some(t) => elapsed_ms(t, now) >= THROTTLE_MS,
    }
}

/// The settings in memory, the file they go to and when they were last
/// written.
pub struct SettingsStore {
    path: String,
    settings: Settings,
    last_write: Option<u64>,
}

impl SettingsStore {
    pub closed spec fn settings_view(&self) -> Settings {
        self.settings
    }

    pub closed spec fn last_write_view(&self) -> Option<u64> {
        self.last_write
    }

    pub closed spec fn path_view(&self) -> Seq<char> {
        self.path@
    }

    /// A store for the settings file at `path`, holding what was read from
    /// it or, when nothing readable was there, the defaults.
    pub fn new(path: String, loaded: Option<Settings>) -> (r: SettingsStore)
        ensures
            r.path_view() == path@,
            r.settings_view() == (match loaded {
                Some(s) => s,
                None => default_settings(),
            }),
            r.last_write_view() is None,
    {
        let settings = match loaded {
            Some(s) => s,
            None => Settings::default(),
        };
        SettingsStore { path, settings, last_write: None }
    }

    /// Where the settings are written.
    pub fn path(&self) -> (r: &String)
        ensures
            r@ == self.path_view(),
    {
        &self.path
    }

    /// The current settings.
    pub fn get(&self) -> (r: Settings)
        ensures
            r == self.settings_view(),
    {
        self.settings
    }

    /// Changes the settings; the new state is to be written at once.
    pub fn update<F: FnOnce(Settings) -> Settings>(&mut self, f: F, now_ms: u64) -> (to_write: Settings)
        requires
            call_requires(f, (old(self).settings_view(),)),
        ensures
            call_ensures(f, (old(self).settings_view(),), final(self).settings_view()),
            to_write == final(self).settings_view(),
            final(self).last_write_view() == Some(now_ms),
            final(self).path_view() == old(self).path_view(),
    {
        let next = f(self.settings);
        self.settings = next;
        self.last_write = Some(now_ms);
        next
    }

    /// Changes the settings, but writes at most every 500 ms (for move
    /// events while dragging); the last state is written at the latest by
    /// `flush` when quitting.
    pub fn update_throttled<F: FnOnce(Settings) -> Settings>(&mut self, f: F, now_ms: u64) -> (to_write: Option<Settings>)
        requires
            call_requires(f, (old(self).settings_view(),)),
        ensures
            call_ensures(f, (old(self).settings_view(),), final(self).settings_view()),
            final(self).path_view() == old(self).path_view(),
            write_due(old(self).last_write_view(), now_ms) ==> to_write == Some(final(self).settings_view())
                && final(self).last_write_view() == Some(now_ms),
            !write_due(old(self).last_write_view(), now_ms) ==> to_write is None
                && final(self).last_write_view() == old(self).last_write_view(),
    {
        let next = f(self.settings);
        self.settings = next;
        let due = match self.last_write {
            None => true,
            Some(t) => {
                let elapsed = if now_ms >= t {
                    now_ms - t
                } else {
                    0
                };
                elapsed >= THROTTLE_MS
            },
        };
        if due {
            self.last_write = Some(now_ms);
            Some(next)
        } else {
            None
        }
    }

    /// The current state, to be written regardless of the throttle (when
    /// quitting).
    pub fn flush(&self) -> (to_write: Settings)
        ensures
            to_write == self.settings_view(),
    {
        self.settings
    }
}

/// Throttled writes are at least 500 ms apart: after a write at `t`, a
/// throttled change at `now` is written only when `now` is 500 ms later.
pub proof fn law_throttle_spacing(t: u64, now: u64)
    ensures
        write_due(Some(t), now) ==> now >= t + THROTTLE_MS,
        now >= t + THROTTLE_MS ==> write_due(Some(t), now),
{
}

} // verus!
