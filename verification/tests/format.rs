use indigo::format::fmt_rpm;

#[test]
fn rpm_text() {
    assert_eq!(fmt_rpm(1200), "1200 rpm");
    assert_eq!(fmt_rpm(0), "0 rpm");
}
