use indigo::updater::{find_sum, parse_version};

#[test]
fn versionsvergleich() {
    // gültige formate
    assert_eq!(parse_version("1.2.3"), Some((1, 2, 3)));
    assert_eq!(parse_version("v0.2.0"), Some((0, 2, 0)));
    assert_eq!(parse_version("V10.20.30"), Some((10, 20, 30)));
    assert_eq!(parse_version(" v1.0.0 "), Some((1, 0, 0)));

    // fremde formate -> None
    assert_eq!(parse_version("1.2"), None);
    assert_eq!(parse_version("1.2.3.4"), None);
    assert_eq!(parse_version("1.2.3-beta.1"), None);
    assert_eq!(parse_version("1.2.x"), None);
    assert_eq!(parse_version("latest"), None);
    assert_eq!(parse_version(""), None);

    // ordnung: strikt neuer / gleich / älter
    let local = parse_version("0.2.0").unwrap();
    assert!(parse_version("0.2.1").unwrap() > local);
    assert!(parse_version("0.3.0").unwrap() > local);
    assert!(parse_version("1.0.0").unwrap() > local);
    assert!(parse_version("v0.2.0").unwrap() <= local);
    assert!(parse_version("0.1.9").unwrap() <= local);
    assert!(parse_version("0.10.0").unwrap() > parse_version("0.9.9").unwrap());
}

#[test]
fn sha256sums_zeilen() {
    let sums = "0123abcd  indigo-x86_64-linux\n\
                deadbeef  anderes-asset\n";
    assert_eq!(
        find_sum(sums, "indigo-x86_64-linux").as_deref(),
        Some("0123abcd")
    );
    assert_eq!(find_sum(sums, "anderes-asset").as_deref(), Some("deadbeef"));
    assert_eq!(find_sum(sums, "fehlt"), None);

    // binärmodus-stern, pfadpräfix, grossschreibung, leere zeilen
    let messy = "\nABCDEF01 *indigo-x86_64-linux\n\n1234  ./dist/anderes\n";
    assert_eq!(
        find_sum(messy, "indigo-x86_64-linux").as_deref(),
        Some("abcdef01")
    );
    assert_eq!(find_sum("", "indigo-x86_64-linux"), None);
}
