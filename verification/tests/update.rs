use zapive::update::{newer_release, offered_version, appimage_asset, check_download, expected_sum, release_version, LatestRelease, STAGE_DIR};

fn release() -> LatestRelease {
    LatestRelease {
        version: "1.2.0".into(),
        assets: vec![
            ("zapive-linux.zip".into(), "https://api/1".into()),
            ("Zapive-x86_64.AppImage".into(), "https://api/2".into()),
            ("SHA256SUMS.txt".into(), "https://api/3".into()),
        ],
    }
}

#[test]
fn assets_are_found_by_name() {
    let r = release();
    assert_eq!(r.asset("SHA256SUMS.txt"), Some("https://api/3".to_string()));
    assert_eq!(r.asset("nope"), None);
    assert_eq!(appimage_asset(&r.assets), Some("https://api/2".to_string()));
    assert_eq!(appimage_asset(&Vec::new()), None);
    assert_eq!(STAGE_DIR, ".zapive-update");
}

#[test]
fn tags_lose_their_v() {
    assert_eq!(release_version("v1.2.0"), "1.2.0");
    assert_eq!(release_version("vv1.2"), "1.2");
    assert_eq!(release_version("1.0"), "1.0");
}

#[test]
fn checksum_files_list_sums_by_name() {
    let sums = "AAAA  other.zip\r\nBA7816BF  *zapive-linux.zip\r\n";
    assert_eq!(expected_sum(sums, "zapive-linux.zip"), Some("ba7816bf".to_string()));
    assert_eq!(expected_sum(sums, "other.zip"), Some("aaaa".to_string()));
    assert_eq!(expected_sum(sums, "missing.zip"), None);
    assert_eq!(expected_sum("", "x"), None);
}

#[test]
fn downloads_are_checked_against_their_sum() {
    let sums = "ba7816bf8f01cfea414140de5dae2223b00361a396177a9cb410ff61f20015ad  z.zip\n";
    assert_eq!(check_download(b"abc", sums, "z.zip"), Ok(()));
    assert_eq!(
        check_download(b"abd", sums, "z.zip"),
        Err("the download does not match its checksum".to_string())
    );
    assert_eq!(check_download(b"abc", sums, "y.zip"), Err("y.zip is not listed in SHA256SUMS.txt".to_string()));
    // The sum of nothing is not the sum of "abc".
    let empty = "e3b0c44298fc1c149afbf4c8996fb92427ae41e4649b934ca495991b7852b855 e.bin";
    assert_eq!(check_download(b"", empty, "e.bin"), Ok(()));
    assert!(check_download(b"abc", empty, "e.bin").is_err());
}

#[test]
fn only_a_higher_release_is_offered() {
    assert_eq!(newer_release("1.2.0", "v1.3.0"), Some("1.3.0".to_string()));
    assert_eq!(newer_release("1.2.0", "vv1.10.0"), Some("1.10.0".to_string()));
    assert_eq!(newer_release("1.2.0", "v1.2.0"), None);
    assert_eq!(newer_release("1.2.0", "v1.1.9"), None);
    assert_eq!(newer_release("1.2.0", "nightly"), None);
    assert_eq!(newer_release("1.2.0-beta.1", "1.2.0"), Some("1.2.0".to_string()));
    assert_eq!(offered_version(Some(true), "2.0.0"), Some("2.0.0".to_string()));
    assert_eq!(offered_version(Some(false), "2.0.0"), None);
    assert_eq!(offered_version(None, "2.0.0"), None);
}
