use yaccgl_core::self_update::{
    atom_entries, bundle_cache_path_in, check_download, entry_tag, is_newer, pick_update, split_ver, xml_tag_text,
    AtomEntry,
};

#[test]
fn version_ordering() {
    assert!(is_newer("0.1.7", "0.1.6"));
    assert!(is_newer("0.1.7-beta.2", "0.1.7-beta"));
    assert!(is_newer("0.1.7-beta.2", "0.1.6"));
    assert!(is_newer("0.1.7", "0.1.7-beta.2"));
    assert!(!is_newer("0.1.6", "0.1.7"));
    assert!(!is_newer("0.1.7-beta", "0.1.7"));
    assert!(!is_newer("0.1.7", "0.1.7"));
}

#[test]
fn parses_releases_atom() {
    let xml = r#"<?xml version="1.0" encoding="UTF-8"?>
<feed xmlns="http://www.w3.org/2005/Atom">
  <entry>
    <id>tag:github.com,2008:Repository/1380416239/v0.1.10</id>
    <link rel="alternate" href="https://github.com/DJPoulter/YACCGL/releases/tag/v0.1.10"/>
    <title>YACCGL 0.1.10</title>
  </entry>
  <entry>
    <id>tag:github.com,2008:Repository/1380416239/v0.1.9</id>
    <title>YACCGL 0.1.9</title>
  </entry>
</feed>"#;
    let entries = atom_entries(xml);
    assert_eq!(entries.len(), 2);
    assert_eq!(entries[0].tag, "v0.1.10");
    assert_eq!(entries[0].title.as_deref(), Some("YACCGL 0.1.10"));
    assert_eq!(entries[1].tag, "v0.1.9");
}

#[test]
fn version_parts() {
    let (nums, pre) = split_ver("  vv1.2.x.3-Beta.1 ");
    assert_eq!(nums, vec![1, 2, 3]);
    assert_eq!(pre.as_deref(), Some("beta.1"));
    let (nums, pre) = split_ver("10");
    assert_eq!(nums, vec![10]);
    assert_eq!(pre, None);
}

#[test]
fn missing_parts_count_as_zero() {
    assert!(!is_newer("1.0", "1.0.0"));
    assert!(!is_newer("1.0.0", "1"));
    assert!(is_newer("1.0.1", "1"));
    assert!(is_newer("v2", "1.9.9"));
}

#[test]
fn newer_is_a_strict_order_on_examples() {
    let vs = ["0.1.6", "0.1.7-beta", "0.1.7-beta.2", "0.1.7", "0.2", "1.0.0-rc.1"];
    for a in vs {
        assert!(!is_newer(a, a));
        for b in vs {
            assert!(!(is_newer(a, b) && is_newer(b, a)));
            for c in vs {
                if is_newer(a, b) && is_newer(b, c) {
                    assert!(is_newer(a, c));
                }
            }
        }
    }
}

#[test]
fn tag_from_link_when_id_has_none() {
    let entry = r#"<id>urn:x</id><link href="https://github.com/DJPoulter/YACCGL/releases/tag/v0.2.0/"/>"#;
    assert_eq!(entry_tag(entry).as_deref(), Some("v0.2.0"));
    assert_eq!(entry_tag("<id>urn:x</id>"), None);
    assert_eq!(entry_tag(r#"<link href="https://example.com/a"/>"#), None);
}

#[test]
fn tag_text_is_trimmed() {
    assert_eq!(xml_tag_text("<a><title type=\"text\">  Hi  </title>", "title").as_deref(), Some("Hi"));
    assert_eq!(xml_tag_text("<title>unclosed", "title"), None);
}

#[test]
fn picks_first_newer_release() {
    let entries = vec![
        AtomEntry { tag: "v0.3.0-beta".to_string(), title: None },
        AtomEntry { tag: "v0.2.0".to_string(), title: Some("Release 0.2.0".to_string()) },
    ];
    let u = pick_update(&entries, "0.2.0").unwrap();
    assert_eq!(u.tag, "v0.3.0-beta");
    assert_eq!(u.version, "0.3.0-beta");
    assert_eq!(u.name, "v0.3.0-beta");
    assert!(u.prerelease);
    assert_eq!(u.size, 0);
    assert_eq!(
        u.download_url,
        "https://github.com/DJPoulter/YACCGL/releases/download/v0.3.0-beta/yet-another-creature-collector-game-launcher.flatpak"
    );
    assert!(pick_update(&entries, "0.3.0").is_none());
}

#[test]
fn update_cache_path_and_download_checks() {
    assert_eq!(
        bundle_cache_path_in(Some("/home/u/.cache"), "0.2.0"),
        "/home/u/.cache/yet-another-creature-collector-game-launcher/yaccgl-0.2.0.flatpak"
    );
    assert_eq!(
        bundle_cache_path_in(None, "1"),
        "./yet-another-creature-collector-game-launcher/yaccgl-1.flatpak"
    );
    assert!(check_download(10, 0).is_ok());
    assert!(check_download(10, 10).is_ok());
    assert!(matches!(check_download(0, 0), Err(yaccgl_core::error::Error::Http(m)) if m == "download was empty"));
    assert!(matches!(check_download(5, 10), Err(yaccgl_core::error::Error::Http(m))
        if m == "download size mismatch: got 5 bytes, expected 10"));
}
