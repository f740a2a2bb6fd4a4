use indigo::autostart::{desktop_entry, exec_path, startup_autostart, AutostartStep};

#[test]
fn entry_text() {
    assert_eq!(
        desktop_entry("/usr/bin/indigo"),
        "[Desktop Entry]\nType=Application\nName=indigo\nComment=resource monitor widget\nExec=/usr/bin/indigo\nX-GNOME-Autostart-enabled=true\n"
    );
}

#[test]
fn exec_path_reads_back_what_was_written() {
    let e = desktop_entry("/home/u/bin/indigo");
    assert_eq!(exec_path(&e).as_deref(), Some("/home/u/bin/indigo"));
}

#[test]
fn exec_path_first_line_trimmed() {
    assert_eq!(exec_path("[Desktop Entry]\nExec=  /a/b  \nExec=/c\n").as_deref(), Some("/a/b"));
    assert_eq!(exec_path("[Desktop Entry]\nName=x\n"), None);
    assert_eq!(exec_path(""), None);
}

#[test]
fn startup_rules() {
    assert!(matches!(startup_autostart(None, true, Some(true)), AutostartStep::EnableFirstStart));
    assert!(matches!(startup_autostart(None, false, None), AutostartStep::EnableFirstStart));
    assert!(matches!(startup_autostart(Some(true), true, Some(false)), AutostartStep::Repair));
    assert!(matches!(startup_autostart(Some(true), true, None), AutostartStep::Repair));
    assert!(matches!(startup_autostart(Some(true), true, Some(true)), AutostartStep::Keep));
    assert!(matches!(startup_autostart(Some(false), false, None), AutostartStep::Keep));
}
