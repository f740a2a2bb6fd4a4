use indigo::paths::lock_file;
use indigo::paths::{data_dir, desktop_file, join_exec, settings_file, xdg_base_exec};

#[test]
fn join_like_pathbuf_push() {
    assert_eq!(join_exec("/a", "b"), "/a/b");
    assert_eq!(join_exec("/a/", "b"), "/a/b");
    assert_eq!(join_exec("", "b"), "b");
    assert_eq!(join_exec("/a", "/b"), "/b");
}

#[test]
fn xdg_variable_only_when_absolute() {
    assert_eq!(xdg_base_exec(Some("/x/cfg"), Some("/home/u"), ".config"), "/x/cfg");
    assert_eq!(xdg_base_exec(Some("rel"), Some("/home/u"), ".config"), "/home/u/.config");
    assert_eq!(xdg_base_exec(None, Some("/home/u"), ".config"), "/home/u/.config");
    assert_eq!(xdg_base_exec(None, None, ".config"), ".config");
}

#[test]
fn file_locations() {
    assert_eq!(settings_file(None, Some("/home/u")), "/home/u/.config/indigo/settings.json");
    assert_eq!(settings_file(Some("/cfg"), Some("/home/u")), "/cfg/indigo/settings.json");
    assert_eq!(desktop_file(None, Some("/home/u")), "/home/u/.config/autostart/indigo.desktop");
    assert_eq!(data_dir(None, Some("/home/u")), "/home/u/.local/share/indigo");
    assert_eq!(data_dir(Some("/data"), None), "/data/indigo");
}

#[test]
fn lock_file_location() {
    assert_eq!(lock_file(Some("/run/user/1000"), "/tmp"), "/run/user/1000/indigo.lock");
    assert_eq!(lock_file(Some("run"), "/tmp"), "/tmp/indigo.lock");
    assert_eq!(lock_file(None, "/tmp"), "/tmp/indigo.lock");
}
