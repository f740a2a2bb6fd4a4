use indigo::settings::{Settings, SettingsStore};

#[test]
fn defaults() {
    let s = Settings::default();
    assert_eq!(s.x, None);
    assert_eq!(s.y, None);
    assert!(!s.collapsed);
    assert_eq!(s.interval_ms, 1500);
    assert_eq!(s.autostart, None);
    assert!(s.autoupdate);
}

#[test]
fn store_starts_from_loaded_or_defaults() {
    let st = SettingsStore::new("/tmp/s.json".to_string(), None);
    assert_eq!(st.get().interval_ms, 1500);
    assert_eq!(st.path(), "/tmp/s.json");
    let mut loaded = Settings::default();
    loaded.collapsed = true;
    let st = SettingsStore::new("/tmp/s.json".to_string(), Some(loaded));
    assert!(st.get().collapsed);
}

#[test]
fn update_writes_at_once() {
    let mut st = SettingsStore::new("/tmp/s.json".to_string(), None);
    let w = st.update(|mut s| { s.interval_ms = 2000; s }, 10);
    assert_eq!(w.interval_ms, 2000);
    assert_eq!(st.get().interval_ms, 2000);
    assert_eq!(st.flush().interval_ms, 2000);
}

#[test]
fn throttled_writes_are_spaced() {
    let mut st = SettingsStore::new("/tmp/s.json".to_string(), None);
    let w = st.update_throttled(|mut s| { s.x = Some(1); s }, 1000);
    assert_eq!(w.map(|s| s.x), Some(Some(1)));
    // 499 ms later: kept in memory, not written
    let w = st.update_throttled(|mut s| { s.x = Some(2); s }, 1499);
    assert!(w.is_none());
    assert_eq!(st.get().x, Some(2));
    // 500 ms after the last write: written
    let w = st.update_throttled(|mut s| { s.x = Some(3); s }, 1500);
    assert_eq!(w.map(|s| s.x), Some(Some(3)));
    // flush writes the last state regardless
    let _ = st.update_throttled(|mut s| { s.y = Some(7); s }, 1600);
    assert_eq!(st.flush().y, Some(7));
}

#[test]
fn clock_going_back_counts_as_no_time() {
    let mut st = SettingsStore::new("/tmp/s.json".to_string(), None);
    let _ = st.update(|s| s, 5000);
    assert!(st.update_throttled(|s| s, 100).is_none());
}
