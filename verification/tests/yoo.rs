use yaccgl_core::error::Error;
use yaccgl_core::yoo::{
    cache_key, crc_status, expected_cache_dir, is_bundle_files_dir, is_manifest_name, locallow_bundle_files,
    crc_hex, fullest_root, needs_removal, progress_weight, parse_manifest, pick_newest, problem_detail, size_status, skip_profile, skip_search_dir, Bundle, BundleStatus, CheckedBundle,
    VerifyReport,
};

fn utf8_field(out: &mut Vec<u8>, s: &str) {
    out.extend_from_slice(&(s.len() as u16).to_le_bytes());
    out.extend_from_slice(s.as_bytes());
}

fn bundle_record(out: &mut Vec<u8>, name: &str, size: i32, refs: u16) {
    out.push(name.len() as u8);
    out.extend_from_slice(name.as_bytes());
    out.extend_from_slice(&[0xab; 16]);
    out.extend_from_slice(&[0x86, 0xa6, 0x10, 0x36]);
    out.extend_from_slice(&size.to_le_bytes());
    out.extend_from_slice(&refs.to_le_bytes());
    for r in 0..refs {
        out.extend_from_slice(&(r as i32).to_le_bytes());
    }
}

fn manifest(version: &str) -> Vec<u8> {
    let mut d = Vec::new();
    d.extend_from_slice(&0x594F4Fu32.to_le_bytes());
    utf8_field(&mut d, version);
    d.extend_from_slice(&[1, 0, 1]);
    d.extend_from_slice(&2i32.to_le_bytes());
    utf8_field(&mut d, "DefaultPackage");
    utf8_field(&mut d, "3544783");
    // an asset list the table search has to skip
    d.extend_from_slice(b"junk assets/foo.uab more junk");
    d.extend_from_slice(&2i32.to_le_bytes());
    bundle_record(&mut d, "world/floor_01.uab", 1234, 2);
    bundle_record(&mut d, "ui/main.uab", 99, 0);
    d
}

#[test]
fn parses_a_compact_manifest() {
    let (name, version, bundles) = parse_manifest(&manifest("1.4.17")).unwrap();
    assert_eq!(name, "DefaultPackage");
    assert_eq!(version, "3544783");
    assert_eq!(bundles.len(), 2);
    assert_eq!(bundles[0].name, "world/floor_01.uab");
    assert_eq!(bundles[0].file_hash, "abababababababababababababababab");
    assert_eq!(bundles[0].file_crc, "86a61036");
    assert_eq!(bundles[0].file_size, 1234);
    assert_eq!(bundles[1].name, "ui/main.uab");
    assert_eq!(bundles[1].file_size, 99);
}

fn yoo_message(r: Result<(String, String, Vec<Bundle>), Error>) -> String {
    match r {
        Err(Error::Yoo(m)) => m,
        _ => panic!("expected a manifest error"),
    }
}

#[test]
fn manifest_errors() {
    assert_eq!(yoo_message(parse_manifest(b"YO")), "manifest too short");
    assert_eq!(yoo_message(parse_manifest(&[1, 0, 0, 0])), "bad manifest magic 0x1, expected 0x594f4f");
    assert_eq!(yoo_message(parse_manifest(&manifest("2.0.0"))), "unsupported manifest version 2.0.0");
    let mut short = manifest("1.4.17");
    short.truncate(12);
    assert_eq!(yoo_message(parse_manifest(&short)), "unexpected end of manifest");
    let mut no_table = manifest("1.4.17");
    no_table.push(0);
    assert_eq!(
        yoo_message(parse_manifest(&no_table)),
        "could not locate compact bundle table in PackageManifest"
    );
}

fn checked(status: BundleStatus) -> CheckedBundle {
    CheckedBundle {
        bundle: Bundle { name: "b".into(), file_hash: "h".into(), file_crc: "c".into(), file_size: 1 },
        status,
        cache_dir: "/c".into(),
    }
}

fn report(statuses: Vec<BundleStatus>, root: Option<&str>, entries: usize) -> VerifyReport {
    VerifyReport {
        package_name: "DefaultPackage".into(),
        package_version: "1".into(),
        checked: statuses.into_iter().map(checked).collect(),
        cache_root: root.map(str::to_owned),
        cache_entries_on_disk: entries,
    }
}

#[test]
fn report_summaries() {
    let r = report(vec![BundleStatus::Good, BundleStatus::Good], Some("/c"), 2);
    assert_eq!(r.summary(), "All 2 asset bundles look good");
    assert_eq!(r.ok_count(), 2);

    let r = report(vec![BundleStatus::Missing, BundleStatus::Missing], None, 0);
    assert_eq!(
        r.summary(),
        "No downloaded game cache found yet (2 bundles). Launch Aniimo once to download world data, then Verify again."
    );

    let r = report(vec![BundleStatus::Missing, BundleStatus::Missing], Some("/c"), 5);
    assert_eq!(
        r.summary(),
        "Found 5 cache file(s) under /c, but none match the manifest. The cache path or hash layout may be wrong."
    );

    let r = report(
        vec![BundleStatus::Good, BundleStatus::Missing, BundleStatus::SizeMismatch { actual: 3 }, BundleStatus::Unreadable],
        Some("/c"),
        3,
    );
    assert_eq!(r.summary(), "3 of 4 bundles need attention (2 corrupt removed) (1 not downloaded yet). Launch the game to re-download.");
    assert_eq!(r.missing_count(), 1);
    assert_eq!(r.bad().len(), 3);
    assert_eq!(r.bad()[0].status, BundleStatus::Missing);
}

#[test]
fn bundle_status_decisions() {
    let b = Bundle { name: "b".into(), file_hash: "h".into(), file_crc: "86a61036".into(), file_size: 5 };
    assert_eq!(size_status(&b, 4), Some(BundleStatus::SizeMismatch { actual: 4 }));
    assert_eq!(size_status(&b, 5), None);
    assert_eq!(crc_status(&b, "86a61036".into()), BundleStatus::Good);
    assert_eq!(crc_status(&b, "00000000".into()), BundleStatus::CrcMismatch { actual: "00000000".into() });
}

#[test]
fn indexes_sharded_cache_layout() {
    let guid = "a1b2c3d4e5f60718293a4b5c6d7e8f90";
    assert_eq!(cache_key(guid).as_deref(), Some(guid));
    assert_eq!(cache_key("A1B2C3D4E5F60718293A4B5C6D7E8F90").as_deref(), Some(guid));
    assert_eq!(cache_key("a1"), None);
    assert_eq!(cache_key("g1b2c3d4e5f60718293a4b5c6d7e8f90"), None);
    assert_eq!(expected_cache_dir(Some("/root/BundleFiles"), guid), format!("/root/BundleFiles/a1/{guid}"));
    assert_eq!(expected_cache_dir(None, guid), format!("a1/{guid}"));
}

#[test]
fn cache_search_rules() {
    assert!(skip_profile("public"));
    assert!(skip_profile("DEFAULT"));
    assert!(!skip_profile("steamuser"));
    assert!(skip_search_dir("plugins"));
    assert!(is_bundle_files_dir("bundlefiles"));
    assert!(is_manifest_name("PackageManifest_DefaultPackage_3544783.bytes"));
    assert!(!is_manifest_name("PackageManifest_DefaultPackage_assetxbt.bytes"));
    assert!(!is_manifest_name("PackageManifest_DefaultPackage_1.hash"));
    assert_eq!(pick_newest(&[(5, "a".into()), (7, "b".into()), (7, "c".into()), (1, "d".into())]), Some(2));
    assert_eq!(pick_newest(&[]), None);
    assert_eq!(
        locallow_bundle_files("/p", "deck"),
        "/p/drive_c/users/deck/AppData/LocalLow/Aniimo/Aniimo/Sandbox/CacheFiles/DefaultPackage/BundleFiles"
    );
}

#[test]
fn problem_details_name_what_is_wrong() {
    assert_eq!(problem_detail(&checked(BundleStatus::Good)), None);
    assert_eq!(problem_detail(&checked(BundleStatus::Missing)).as_deref(), Some("missing"));
    assert_eq!(problem_detail(&checked(BundleStatus::SizeMismatch { actual: 7 })).as_deref(), Some("size 7, expected 1"));
    assert_eq!(
        problem_detail(&checked(BundleStatus::CrcMismatch { actual: "ff".into() })).as_deref(),
        Some("crc ff, expected c")
    );
    assert_eq!(problem_detail(&checked(BundleStatus::Unreadable)).as_deref(), Some("unreadable"));
}

#[test]
fn crc_hex_is_le_bytes() {
    // crc32("hello") = 0x3610a686 → LE bytes hex "86a61036"
    assert_eq!(crc32fast::hash(b"hello"), 0x3610a686);
    assert_eq!(crc_hex(crc32fast::hash(b"hello")), "86a61036");
}

#[test]
fn resolve_prefers_populated_root() {
    // An empty default sandbox tree, then a populated one found under Aniimo_Data.
    assert_eq!(fullest_root(&[0, 1]), Some(1));
    assert_eq!(fullest_root(&[3, 5, 5]), Some(1));
    assert_eq!(fullest_root(&[0]), Some(0));
    assert_eq!(fullest_root(&[]), None);
}

#[test]
fn repair_and_progress_rules() {
    assert!(!needs_removal(&BundleStatus::Good));
    assert!(!needs_removal(&BundleStatus::Missing));
    assert!(needs_removal(&BundleStatus::SizeMismatch { actual: 3 }));
    assert!(needs_removal(&BundleStatus::Unreadable));
    let mut b = checked(BundleStatus::Good).bundle;
    assert_eq!(progress_weight(&b), 1);
    b.file_size = 0;
    assert_eq!(progress_weight(&b), 1);
    b.file_size = 40;
    assert_eq!(progress_weight(&b), 40);
}
