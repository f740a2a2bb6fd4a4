use indigo::updater::{
    parse_version,
    asset_url, check_release, download_urls, hex_string, install_target, sha256_hex,
    verify_checksum, version_at_most, ReleaseAsset, ReleaseDecision, UpdateEvent,
};

fn asset(name: &str, url: &str) -> ReleaseAsset {
    ReleaseAsset { name: Some(name.to_string()), url: Some(url.to_string()) }
}

#[test]
fn sha256_of_known_inputs() {
    assert_eq!(
        sha256_hex(b""),
        "e3b0c44298fc1c149afbf4c8996fb92427ae41e4649b934ca495991b7852b855"
    );
    assert_eq!(
        sha256_hex(b"abc"),
        "ba7816bf8f01cfea414140de5dae2223b00361a396177a9cb410ff61f20015ad"
    );
}

#[test]
fn hex_is_lower_case_high_nibble_first() {
    assert_eq!(hex_string(&[0x00, 0x0f, 0xa0, 0xff]), "000fa0ff");
    assert_eq!(hex_string(&[]), "");
}

#[test]
fn version_order() {
    assert!(version_at_most((0, 2, 0), (0, 2, 0)));
    assert!(version_at_most((0, 1, 9), (0, 2, 0)));
    assert!(!version_at_most((0, 10, 0), (0, 9, 9)));
    assert!(!version_at_most((1, 0, 0), (0, 99, 99)));
}

#[test]
fn release_not_newer_needs_nothing() {
    assert!(matches!(check_release(Some("v0.2.0"), "0.2.0", None), ReleaseDecision::UpToDate));
    assert!(matches!(check_release(Some("v0.1.0"), "0.2.0", Some("v0.1.0")), ReleaseDecision::UpToDate));
}

#[test]
fn newer_release_is_installed() {
    assert!(matches!(check_release(Some("v0.3.0"), "0.2.0", None), ReleaseDecision::Install));
    assert!(matches!(check_release(Some("v0.3.0"), "0.2.0", Some("v0.2.9\n")), ReleaseDecision::Install));
}

#[test]
fn release_installed_before_is_skipped() {
    match check_release(Some("v0.3.0"), "0.2.0", Some(" v0.3.0\n")) {
        ReleaseDecision::Failed(m) => assert_eq!(
            m,
            "release v0.3.0 wurde bereits installiert, version ist aber weiterhin 0.2.0 — vermutlich passt das release nicht zum tag; überspringe"
        ),
        _ => panic!("expected a refusal"),
    }
}

#[test]
fn release_check_errors() {
    match check_release(None, "0.2.0", None) {
        ReleaseDecision::Failed(m) => assert_eq!(m, "release ohne tag_name"),
        _ => panic!("expected a refusal"),
    }
    match check_release(Some("nightly"), "0.2.0", None) {
        ReleaseDecision::Failed(m) => assert_eq!(m, "unverständliches release-tag \"nightly\""),
        _ => panic!("expected a refusal"),
    }
    match check_release(Some("v1.0.0"), "dev", None) {
        ReleaseDecision::Failed(m) => assert_eq!(m, "eigene version unverständlich"),
        _ => panic!("expected a refusal"),
    }
}

#[test]
fn asset_urls_by_exact_name() {
    let assets = vec![
        ReleaseAsset { name: Some("indigo-x86_64-linux".to_string()), url: None },
        asset("indigo-x86_64-linux.sig", "https://e/sig"),
        asset("indigo-x86_64-linux", "https://e/bin"),
        asset("SHA256SUMS", "https://e/sums"),
    ];
    assert_eq!(asset_url(&assets, "indigo-x86_64-linux").as_deref(), Some("https://e/bin"));
    assert_eq!(asset_url(&assets, "fehlt"), None);
    let (bin, sums) = download_urls(Some(&assets)).unwrap();
    assert_eq!(bin, "https://e/bin");
    assert_eq!(sums, "https://e/sums");
}

#[test]
fn download_url_errors() {
    assert_eq!(download_urls(None).unwrap_err(), "release ohne assets");
    let only_sums = vec![asset("SHA256SUMS", "https://e/sums")];
    assert_eq!(
        download_urls(Some(&only_sums)).unwrap_err(),
        "asset indigo-x86_64-linux fehlt im release"
    );
    let only_bin = vec![asset("indigo-x86_64-linux", "https://e/bin")];
    assert_eq!(download_urls(Some(&only_bin)).unwrap_err(), "asset SHA256SUMS fehlt im release");
}

#[test]
fn checksum_is_compared_with_the_sums_file() {
    let sums = "0123abcd  indigo-x86_64-linux\n";
    assert!(verify_checksum(sums, "0123abcd", "v0.3.0").is_ok());
    assert_eq!(
        verify_checksum(sums, "ffff", "v0.3.0").unwrap_err(),
        "prüfsummen-mismatch für v0.3.0: erwartet 0123abcd, berechnet ffff"
    );
    assert_eq!(
        verify_checksum("abcd  anderes\n", "abcd", "v0.3.0").unwrap_err(),
        "keine prüfsumme für indigo-x86_64-linux in SHA256SUMS"
    );
}

#[test]
fn install_in_place_when_writable() {
    let plan = install_target("/opt/indigo/indigo", true, "/home/u/.local/share/indigo");
    assert_eq!(plan.bin_dir, None);
    assert_eq!(plan.staged, "/opt/indigo/indigo.new");
    assert_eq!(plan.target, "/opt/indigo/indigo");
    assert!(matches!(plan.event, UpdateEvent::ReadyRestart(ref p) if p == "/opt/indigo/indigo"));
}

#[test]
fn install_below_data_dir_otherwise() {
    let plan = install_target("/usr/bin/indigo", false, "/home/u/.local/share/indigo");
    assert_eq!(plan.bin_dir.as_deref(), Some("/home/u/.local/share/indigo/bin"));
    assert_eq!(plan.staged, "/home/u/.local/share/indigo/bin/indigo.new");
    assert_eq!(plan.target, "/home/u/.local/share/indigo/bin/indigo");
    assert!(matches!(plan.event, UpdateEvent::InstalledAt(ref p) if p == "/home/u/.local/share/indigo/bin/indigo"));
}

#[test]
fn version_parts_are_digits_only() {
    assert_eq!(parse_version("+1.2.3"), None);
    assert_eq!(parse_version("1.+2.3"), None);
    assert_eq!(parse_version("v1.2.+3"), None);
    assert_eq!(parse_version("1..3"), None);
    assert_eq!(parse_version("-1.2.3"), None);
    assert_eq!(parse_version("\t V7.8.9 \n"), Some((7, 8, 9)));
    assert_eq!(parse_version("18446744073709551615.0.0"), Some((u64::MAX, 0, 0)));
    assert_eq!(parse_version("18446744073709551616.0.0"), None);
}

#[test]
fn signed_release_tag_is_refused() {
    match check_release(Some("+1.2.3"), "0.2.0", None) {
        ReleaseDecision::Failed(m) => assert_eq!(m, "unverständliches release-tag \"+1.2.3\""),
        _ => panic!("expected a refusal"),
    }
}
