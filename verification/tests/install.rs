use yaccgl_core::api::{GamePackage, PackageExt};
use yaccgl_core::download::{
    backoff_secs, ended_early, ended_early_message, start_after_response, md5_matches, mirror_for, part_path, range_header, range_rejected_complete,
    resume_from, transfer_total,
};
use yaccgl_core::extract::{sanitize, tmp_path};
use yaccgl_core::install::{
    archive_name, cache_dir, enough_space, exe_path, is_stale_download, needed_space, required_space, state_path, status, InstallState,
    Status,
};

fn pkg(id: u64, md5: &str) -> GamePackage {
    GamePackage {
        id,
        version_number: "1.0.0.3".into(),
        md5: md5.into(),
        url: String::new(),
        back_url: String::new(),
        exe_start_name: "Aniimo.exe".into(),
        package_file_size: None,
        ext: PackageExt { archive_size: Some(100) },
    }
}

#[test]
fn status_transitions() {
    let v1 = pkg(1, "aa");
    let v2 = pkg(2, "bb");
    assert_eq!(status(None, &v1), Status::NotInstalled);
    let s = InstallState { package: v1.clone(), installed_at: 1 };
    assert!(matches!(status(Some(s.clone()), &v1), Status::UpToDate(_)));
    assert!(matches!(status(Some(s.clone()), &v2), Status::UpdateAvailable { .. }));
    assert!(matches!(status(Some(s), &pkg(1, "cc")), Status::UpdateAvailable { latest, .. } if latest == pkg(1, "cc")));
}

#[test]
fn sizes_and_paths() {
    let p = pkg(1, "ABcd");
    assert_eq!(required_space(&p), 400);
    let mut q = pkg(1, "x");
    q.ext.archive_size = None;
    assert_eq!(required_space(&q), 1_600_000_000);
    assert_eq!(needed_space(&p, 150), 250);
    assert_eq!(needed_space(&p, 500), 0);
    assert!(enough_space(250, Some(250)));
    assert!(!enough_space(250, Some(249)));
    assert!(enough_space(250, None));
    assert_eq!(archive_name(&p), "abcd.7z");
    assert_eq!(exe_path("/g", &p), "/g/Aniimo.exe");
    assert_eq!(state_path("/g"), "/g/.yaccgl/state.json");
    assert_eq!(cache_dir("/g/"), "/g/.yaccgl/cache");
}

#[test]
fn download_decisions() {
    assert_eq!(part_path("/c/a.7z"), "/c/a.7z.part");
    assert_eq!(mirror_for(2, 0), 0);
    assert_eq!(mirror_for(2, 3), 1);
    assert_eq!((1..=5).map(backoff_secs).collect::<Vec<_>>(), vec![2, 4, 8, 16, 16]);
    assert_eq!(backoff_secs(0), 1);
    assert!(md5_matches("5eb63bbbe01eeed093cb22bb8f5acdc3", "5EB63BBBE01EEED093CB22BB8F5ACDC3"));
    assert!(!md5_matches("5eb6", "5eb7"));
    assert_eq!(resume_from(10, Some(100)), Some(10));
    assert_eq!(resume_from(200, Some(100)), Some(0));
    assert_eq!(resume_from(100, Some(100)), None);
    assert_eq!(resume_from(0, Some(0)), Some(0));
    assert_eq!(range_header(42), "bytes=42-");
    assert!(range_rejected_complete(7, None));
    assert!(!range_rejected_complete(7, Some(8)));
    assert_eq!(transfer_total(None, Some(10), 5), Some(15));
    assert_eq!(transfer_total(Some(3), Some(10), 5), Some(3));
    assert_eq!(ended_early_message(5, 9), "download ended early (5 of 9 bytes)");
}

#[test]
fn sanitize_paths() {
    assert_eq!(sanitize("Aniimo_Data\\Plugins\\x.dll"), Some("Aniimo_Data/Plugins/x.dll".to_string()));
    assert_eq!(sanitize("./a/b"), Some("a/b".to_string()));
    assert_eq!(sanitize("../etc/passwd"), None);
    assert_eq!(sanitize("a/../../b"), None);
    assert_eq!(sanitize("/abs"), None);
    assert_eq!(sanitize(""), None);
}

#[test]
fn sanitized_names_have_only_normal_parts() {
    assert_eq!(sanitize("a//b/./c/"), Some("a/b/c".to_string()));
    assert_eq!(sanitize("./."), None);
    assert_eq!(sanitize("\\abs"), None);
    assert_eq!(sanitize("a\\..\\b"), None);
}

#[test]
fn temporary_file_sits_beside_target() {
    assert_eq!(tmp_path("/g/x"), "/g/x.yaccgl-tmp");
}

#[test]
fn stale_downloads_are_removed() {
    let keep = "/c/new.7z";
    assert!(is_stale_download("/c/old.7z.part", keep));
    assert!(!is_stale_download(&part_path(keep), keep));
    assert!(!is_stale_download("/c/./new.7z", keep));
}

#[test]
fn transfer_decisions() {
    assert_eq!(start_after_response(100, 206), 100);
    assert_eq!(start_after_response(100, 200), 0);
    assert!(ended_early(5, Some(9)));
    assert!(!ended_early(9, Some(9)));
    assert!(!ended_early(5, None));
}
