//! The context and tray menus: their entries and what a chosen entry asks
//! the application to do.

use vstd::prelude::*;
use crate::text::{chars_eq, chars_of};

verus! {

/// What a chosen menu entry asks for.
#[derive(Clone, Copy, PartialEq, Eq, Structural, Debug)]
pub enum MenuAction {
    /// Sample every so many milliseconds.
    Interval(u64),
    ToggleAutostart,
    ToggleVisible,
    Quit,
}

/// The sampling intervals the menu offers, in milliseconds.
pub open spec fn offered_interval(ms: u64) -> bool {
    ms == 1000 || ms == 2000 || ms == 5000
}

/// The action behind a menu entry id; ids the menus do not hold ask for
/// nothing.
pub open spec fn action_of(id: Seq<char>) -> Option<MenuAction> {
    if id == "interval-1000"@ {
        Some(MenuAction::Interval(1000))
    } else if id == "interval-2000"@ {
        Some(MenuAction::Interval(2000))
    } else if id == "interval-5000"@ {
        Some(MenuAction::Interval(5000))
    } else if id == "autostart"@ {
        Some(MenuAction::ToggleAutostart)
    } else if id == "tray-toggle"@ {
        Some(MenuAction::ToggleVisible)
    } else if id == "quit"@ || id == "tray-quit"@ {
        Some(MenuAction::Quit)
    } else {
        None
    }
}

/// The action behind the menu entry `id`.
pub fn menu_action(id: &str) -> (r: Option<MenuAction>)
    ensures
        r == action_of(id@),
{
    let k = chars_of(id);
    if chars_eq(&k, &chars_of("interval-1000")) {
        Some(MenuAction::Interval(1000))
    } else if chars_eq(&k, &chars_of("interval-2000")) {
        Some(MenuAction::Interval(2000))
    } else if chars_eq(&k, &chars_of("interval-5000")) {
        Some(MenuAction::Interval(5000))
    } else if chars_eq(&k, &chars_of("autostart")) {
        Some(MenuAction::ToggleAutostart)
    } else if chars_eq(&k, &chars_of("tray-toggle")) {
        Some(MenuAction::ToggleVisible)
    } else if chars_eq(&k, &chars_of("quit")) || chars_eq(&k, &chars_of("tray-quit")) {
        Some(MenuAction::Quit)
    } else {
        None
    }
}

/// The interval entries of the context menu: (milliseconds, label, checked),
/// the entry of the current interval checked.
pub fn interval_entries(current_ms: u64) -> (r: Vec<(u64, &'static str, bool)>)
    ensures
        r@.len() == 3,
        r@[0].0 == 1000 && r@[1].0 == 2000 && r@[2].0 == 5000,
        r@[0].1@ == "intervall 1 s"@,
        r@[1].1@ == "intervall 2 s"@,
        r@[2].1@ == "intervall 5 s"@,
        forall|i: int| 0 <= i < 3 ==> (#[trigger] r@[i]).2 == (r@[i].0 == current_ms),
{
    let mut r: Vec<(u64, &'static str, bool)> = Vec::new();
    r.push((1000, "intervall 1 s", current_ms == 1000));
    r.push((2000, "intervall 2 s", current_ms == 2000));
    r.push((5000, "intervall 5 s", current_ms == 5000));
    r
}

/// Every interval a menu entry asks for is one the menu offers.
pub proof fn law_menu_intervals_offered(id: Seq<char>)
    ensures
        action_of(id) matches Some(MenuAction::Interval(ms)) ==> offered_interval(ms),
{
}

} // verus!
