use indigo::menu::{interval_entries, menu_action, MenuAction};

#[test]
fn menu_ids() {
    assert_eq!(menu_action("interval-1000"), Some(MenuAction::Interval(1000)));
    assert_eq!(menu_action("interval-2000"), Some(MenuAction::Interval(2000)));
    assert_eq!(menu_action("interval-5000"), Some(MenuAction::Interval(5000)));
    assert_eq!(menu_action("autostart"), Some(MenuAction::ToggleAutostart));
    assert_eq!(menu_action("tray-toggle"), Some(MenuAction::ToggleVisible));
    assert_eq!(menu_action("quit"), Some(MenuAction::Quit));
    assert_eq!(menu_action("tray-quit"), Some(MenuAction::Quit));
    assert_eq!(menu_action("interval-3000"), None);
    assert_eq!(menu_action(""), None);
}

#[test]
fn interval_entries_check_the_current_one() {
    let e = interval_entries(2000);
    assert_eq!(e, vec![(1000, "intervall 1 s", false), (2000, "intervall 2 s", true), (5000, "intervall 5 s", false)]);
    assert!(interval_entries(1500).iter().all(|(_, _, c)| !c));
}
