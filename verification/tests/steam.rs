use yaccgl_core::steam::binary_vdf::{self, Obj};
use yaccgl_core::steam::config::{
    compat_tool_in, compat_tools_in, is_account_id, user_stamp, custom_tool_path_in, installdir_in, library_folders_in, login_info,
    order_users, proton_matches, runtime_appid_in, set_compat_tool_in, set_steam_input_in, sort_tools,
    steam_input_disabled_in,
};
use yaccgl_core::steam::shortcuts::{
    entry_appid, has_shortcut, new_entry, quote, quote_dir, remove_shortcut, shortcut_entries, upsert_shortcut,
};
use yaccgl_core::steam::text_vdf;
use yaccgl_core::steam::wine_reg::RegFile;
use yaccgl_core::steam::{
    appid_for, apply_single_window_at, prefix_plan, PrefixPlan, is_artwork_of, path_join, same_path, shortcut_appid, signed_appid_key,
    single_window_size, Flavor, ShortcutSpec, Steam, User, DEFAULT_COMPAT_TOOL, DEFAULT_WINDOW_SIZE,
};

fn spec(home: &str) -> ShortcutSpec {
    ShortcutSpec {
        name: "Aniimo".into(),
        exe: format!("{home}/Games/Aniimo/Aniimo.exe"),
        start_dir: format!("{home}/Games/Aniimo"),
        launch_options: String::new(),
        compat_tool: Some(DEFAULT_COMPAT_TOOL.into()),
        artwork: false,
        single_window: Some(DEFAULT_WINDOW_SIZE),
    }
}

#[test]
fn appid_matches_known_value() {
    // Cross-checked with Python: zlib.crc32(b'"/home/deck/Games/Aniimo/Aniimo.exe"Aniimo') | 0x80000000
    let id = shortcut_appid("\"/home/deck/Games/Aniimo/Aniimo.exe\"", "Aniimo");
    assert_eq!(id, 3_039_192_195);
    assert_eq!(appid_for("/home/deck/Games/Aniimo/Aniimo.exe", "Aniimo"), 3_039_192_195);
}

#[test]
fn signed_key_of_a_shortcut() {
    assert_eq!(signed_appid_key(3_039_192_195), "-1255775101");
    assert_eq!(signed_appid_key(570), "570");
}

#[test]
fn steam_paths() {
    let steam = Steam { root: "/home/deck/.local/share/Steam".into(), flavor: Flavor::Native };
    let user = User { account_id: 12345, persona: None, most_recent: true };
    assert_eq!(steam.config_vdf(), "/home/deck/.local/share/Steam/config/config.vdf");
    assert_eq!(steam.userdata(&user), "/home/deck/.local/share/Steam/userdata/12345");
    assert_eq!(steam.shortcuts_vdf(&user), "/home/deck/.local/share/Steam/userdata/12345/config/shortcuts.vdf");
    assert_eq!(steam.grid_dir(&user), "/home/deck/.local/share/Steam/userdata/12345/config/grid");
    assert_eq!(steam.localconfig_vdf(&user), "/home/deck/.local/share/Steam/userdata/12345/config/localconfig.vdf");
    assert_eq!(steam.prefix_dir(42), "/home/deck/.local/share/Steam/steamapps/compatdata/42/pfx");
}

#[test]
fn path_joining_follows_pathbuf() {
    assert_eq!(path_join("/a", "b"), "/a/b");
    assert_eq!(path_join("/a/", "b"), "/a/b");
    assert_eq!(path_join("", "b"), "b");
    assert_eq!(path_join("/a", "/b"), "/b");
    assert!(same_path("/a//b/", "/a/b"));
    assert!(same_path("./a/./b", "./a/b"));
    assert!(!same_path("a/b", "./a/b"));
    assert!(!same_path("/a/b", "a/b"));
    assert!(!same_path("/a/../b", "/b"));
}

#[test]
fn register_is_idempotent_and_preserves_other_entries() {
    let home = "/home/deck";
    let mut root = Obj::default();
    let mut other = new_entry();
    other.set_int("appid", 0x9000_0001u32 as i32);
    other.set_str("AppName", "Other Game");
    root.obj_mut("shortcuts").0.push((b"0".to_vec(), binary_vdf::Value::Obj(other.clone())));

    let s = spec(home);
    let exe = quote(&s.exe);
    let appid = shortcut_appid(&exe, &s.name);
    let created = upsert_shortcut(&mut root, appid, &exe, &s, "");
    assert!(created);
    let after_first = binary_vdf::serialize(&root);
    let created = upsert_shortcut(&mut root, appid, &exe, &s, "");
    assert!(!created);
    assert_eq!(binary_vdf::serialize(&root), after_first);

    let list = root.get_obj("shortcuts").unwrap();
    assert_eq!(list.0.len(), 2);
    assert_eq!(list.get_obj("0").unwrap(), &other);
    let ours = list.get_obj("1").unwrap();
    assert_eq!(ours.get_str("AppName").as_deref(), Some("Aniimo"));
    assert_eq!(ours.get_str("Exe"), Some(format!("\"{home}/Games/Aniimo/Aniimo.exe\"")));
    assert!(ours.get_str("StartDir").unwrap().ends_with("/Aniimo/\""));
    assert_eq!(ours.get_int("appid"), Some(appid as i32));
    assert!(has_shortcut(&root, appid));
    assert_eq!(entry_appid(&list.0[1].1), Some(appid));
    let rows = shortcut_entries(&root);
    assert_eq!(rows[1], (appid, "Aniimo".to_string(), format!("\"{home}/Games/Aniimo/Aniimo.exe\"")));
    assert_eq!(rows[0].1, "Other Game");
}

#[test]
fn unregister_removes_everything() {
    let home = "/home/deck";
    let s = spec(home);
    let exe = quote(&s.exe);
    let appid = shortcut_appid(&exe, &s.name);
    let mut shortcuts = Obj::default();
    assert!(upsert_shortcut(&mut shortcuts, appid, &exe, &s, ""));
    let mut config = text_vdf::Obj::default();
    assert!(set_compat_tool_in(&mut config, appid, Some(DEFAULT_COMPAT_TOOL)));
    let ours = format!("{appid}p.jpg");

    remove_shortcut(&mut shortcuts, appid);
    assert!(set_compat_tool_in(&mut config, appid, None));
    assert!(!has_shortcut(&shortcuts, appid));
    assert_eq!(compat_tool_in(&config, appid), None);
    assert!(is_artwork_of(&ours, appid));
    assert!(!is_artwork_of("999p.jpg", appid));
}

#[test]
fn unregister_removes_every_entry_of_the_app() {
    let mut root = Obj::default();
    let s = spec("/h");
    upsert_shortcut(&mut root, 7, "\"x\"", &s, "");
    let mut dup = new_entry();
    dup.set_int("appid", 7);
    root.obj_mut("shortcuts").0.push((b"9".to_vec(), binary_vdf::Value::Obj(dup)));
    let mut keep = new_entry();
    keep.set_int("appid", 8);
    root.obj_mut("shortcuts").0.push((b"10".to_vec(), binary_vdf::Value::Obj(keep)));
    remove_shortcut(&mut root, 7);
    assert!(!has_shortcut(&root, 7));
    let list = root.get_obj("shortcuts").unwrap();
    assert_eq!(list.0.len(), 1);
    assert_eq!(list.0[0].0, b"0".to_vec());
    assert!(has_shortcut(&root, 8));
}

#[test]
fn quoting() {
    assert_eq!(quote("/a b/c.exe"), "\"/a b/c.exe\"");
    assert_eq!(quote_dir("/a/b"), "\"/a/b/\"");
    assert_eq!(quote_dir("/a/b/"), "\"/a/b/\"");
}

#[test]
fn set_steam_input_uses_signed_appid_and_preserves_other_apps() {
    let src = "\"UserLocalConfigStore\"\n{\n\t\"apps\"\n\t{\n\t\t\"570\"\n\t\t{\n\t\t\t\"LastPlayed\"\t\t\"1\"\n\t\t}\n\t}\n\t\"streaming_v2\"\n\t{\n\t\t\"EnableStreaming\"\t\t\"0\"\n\t}\n}\n";
    let mut root = text_vdf::parse(src).unwrap();
    set_steam_input_in(&mut root, 3_039_192_195, false);
    assert!(steam_input_disabled_in(&root, 3_039_192_195));
    let out = text_vdf::serialize(&root);
    assert!(out.contains("\"-1255775101\""));
    assert!(out.contains("\"570\""));
    assert!(out.contains("\"LastPlayed\""));
    assert!(out.contains("\"EnableStreaming\""));
    assert!(out.contains("\"UseSteamControllerConfig\"\t\t\"0\""));

    set_steam_input_in(&mut root, 3_039_192_195, true);
    assert!(!steam_input_disabled_in(&root, 3_039_192_195));
}

#[test]
fn compat_tool_is_forced_and_cleared() {
    let src = "\"InstallConfigStore\"\n{\n\t\"Software\"\n\t{\n\t\t\"valve\"\n\t\t{\n\t\t\t\"Steam\"\n\t\t\t{\n\t\t\t\t\"AutoUpdateWindowEnabled\"\t\t\"0\"\n\t\t\t}\n\t\t}\n\t}\n}\n";
    let mut root = text_vdf::parse(src).unwrap();
    assert!(set_compat_tool_in(&mut root, 0x8000_1234, Some("proton_10")));
    assert_eq!(compat_tool_in(&root, 0x8000_1234).as_deref(), Some("proton_10"));
    let cfg = text_vdf::serialize(&root);
    // The existing lowercase "valve" key is reused rather than duplicated.
    assert!(!cfg.contains("\"Valve\""));
    assert!(cfg.contains("AutoUpdateWindowEnabled"));
    assert!(cfg.contains("\"priority\"\t\t\"250\""));
    assert!(set_compat_tool_in(&mut root, 0x8000_1234, None));
    assert_eq!(compat_tool_in(&root, 0x8000_1234), None);
    assert!(!set_compat_tool_in(&mut root, 0x8000_1234, None));
}

#[test]
fn creates_config_when_missing() {
    let mut root = text_vdf::Obj::default();
    assert!(set_compat_tool_in(&mut root, 0x8000_1234, Some("proton_10")));
    assert_eq!(compat_tool_in(&root, 0x8000_1234).as_deref(), Some("proton_10"));
}

#[test]
fn login_users_are_read_and_ordered() {
    let src = "\"users\"\n{\n\t\"76561197960278073\"\n\t{\n\t\t\"AccountName\"\t\t\"deck\"\n\t\t\"PersonaName\"\t\t\"Deck User\"\n\t\t\"MostRecent\"\t\t\"1\"\n\t\t\"Timestamp\"\t\t\"17\"\n\t}\n\t\"bad\"\n\t{\n\t}\n}\n";
    let root = text_vdf::parse(src).unwrap();
    let (persona, recent, stamp) = login_info(&root, 12345);
    assert_eq!(persona.as_deref(), Some("Deck User"));
    assert!(recent);
    assert_eq!(stamp, 17);
    assert_eq!(login_info(&root, 1), (None, false, 0));

    let u = |id: u32, recent: bool| User { account_id: id, persona: None, most_recent: recent };
    let ordered = order_users(vec![(u(1, false), 5), (u(2, false), 9), (u(3, true), 1), (u(4, false), 9)]);
    let ids: Vec<u32> = ordered.iter().map(|u| u.account_id).collect();
    assert_eq!(ids, vec![3, 2, 4, 1]);
}

#[test]
fn library_folders_are_listed_once() {
    let src = "\"libraryfolders\"\n{\n\t\"0\"\n\t{\n\t\t\"path\"\t\t\"/home/deck/.local/share/Steam/\"\n\t}\n\t\"1\"\n\t{\n\t\t\"path\"\t\t\"/run/media/sd\"\n\t}\n\t\"2\"\n\t{\n\t\t\"path\"\t\t\"/run/media//sd\"\n\t}\n}\n";
    let root = text_vdf::parse(src).unwrap();
    let libs = library_folders_in("/home/deck/.local/share/Steam", Some(&root));
    assert_eq!(libs, vec!["/home/deck/.local/share/Steam".to_string(), "/run/media/sd".to_string()]);
    assert_eq!(library_folders_in("/r", None), vec!["/r".to_string()]);
}

#[test]
fn finds_custom_compat_tools() {
    let src = "\"compatibilitytools\"\n{\n  \"compat_tools\"\n  {\n    \"GE-Proton10-15\"\n    {\n      \"install_path\" \".\"\n      \"display_name\" \"GE-Proton10-15\"\n      \"from_oslist\" \"windows\"\n      \"to_oslist\" \"linux\"\n    }\n  }\n}\n";
    let root = text_vdf::parse(src).unwrap();
    let tools = sort_tools(compat_tools_in(&root));
    assert_eq!(tools, vec![("GE-Proton10-15".to_string(), "GE-Proton10-15".to_string())]);
    assert_eq!(custom_tool_path_in(&root, "ge-proton10-15").as_deref(), Some("."));
    assert_eq!(custom_tool_path_in(&root, "proton_10"), None);
}

#[test]
fn tools_sort_by_display_name_descending() {
    let t = |a: &str, b: &str| (a.to_string(), b.to_string());
    let sorted = sort_tools(vec![t("a", "B"), t("b", "C"), t("c", "B"), t("d", "A")]);
    assert_eq!(sorted, vec![t("b", "C"), t("a", "B"), t("c", "B"), t("d", "A")]);
}

#[test]
fn proton_names_match_exactly() {
    assert!(proton_matches("proton_10", "Proton 10.0"));
    assert!(!proton_matches("proton_10", "Proton 100.0"));
    assert!(proton_matches("proton_100", "Proton 100.0"));
    assert!(!proton_matches("proton_9", "Proton 10.0"));
    assert!(proton_matches("proton_experimental", "Proton - Experimental"));
    assert!(proton_matches("proton_hotfix", "Proton Hotfix"));
    assert!(!proton_matches("proton_x", "Proton x"));
}

#[test]
fn manifests_name_their_runtime_and_install_dir() {
    let m = text_vdf::parse("\"manifest\"\n{\n\t\"require_tool_appid\"\t\t\"1628350\"\n}\n").unwrap();
    assert_eq!(runtime_appid_in(&m), Some(1628350));
    let a = text_vdf::parse("\"AppState\"\n{\n\t\"appid\"\t\t\"1628350\"\n\t\"installdir\"\t\t\"SteamLinuxRuntime_sniper\"\n}\n").unwrap();
    assert_eq!(installdir_in(&a).as_deref(), Some("SteamLinuxRuntime_sniper"));
}

#[test]
fn game_launch_matches_steams_command() {
    let steam = Steam { root: "/s".into(), flavor: Flavor::Native };
    let libs = vec!["/s".to_string(), "/sd".to_string()];
    let exe = "/g/Aniimo/Aniimo.exe";
    let l = steam.launch_plan(99, exe, "/g/Aniimo", "/sd/steamapps/common/Proton 10.0", None, "/s/steamapps/compatdata/99", &libs);
    assert_eq!(l.program, "/sd/steamapps/common/Proton 10.0/proton");
    assert_eq!(l.args, vec!["waitforexitandrun".to_string(), exe.to_string()]);

    let rt = "/s/steamapps/common/SteamLinuxRuntime_sniper";
    let entry = format!("{rt}/_v2-entry-point");
    let l = steam.launch_plan(99, exe, "/g/Aniimo", "/sd/steamapps/common/Proton 10.0", Some((&entry, rt)), "/s/steamapps/compatdata/99", &libs);
    assert_eq!(l.program, entry);
    assert_eq!(
        l.args[..3],
        ["--verb=waitforexitandrun".to_string(), "--".into(), "/sd/steamapps/common/Proton 10.0/proton".to_string()]
    );
    let env: std::collections::HashMap<_, _> = l.env.into_iter().collect();
    assert_eq!(env["STEAM_COMPAT_DATA_PATH"], "/s/steamapps/compatdata/99");
    assert_eq!(env["STEAM_COMPAT_CLIENT_INSTALL_PATH"], "/s");
    assert_eq!(env["STEAM_COMPAT_INSTALL_PATH"], "/g/Aniimo");
    assert_eq!(env["STEAM_COMPAT_TOOL_PATHS"], format!("/sd/steamapps/common/Proton 10.0:{rt}"));
    assert_eq!(env["STEAM_COMPAT_LIBRARY_PATHS"], "/s:/sd");
    assert_eq!(env["SteamGameId"], "99");
    assert_eq!(l.dir, "/g/Aniimo");
}

const TEMPLATE_REG: &str = "WINE REGISTRY Version 2\n;; All keys relative to \\\\User\\\\S-1-5-21-0-0-0-1000\n\n#arch=win64\n\n[Control Panel\\\\Desktop] 1700000000\n\"FontSmoothing\"=\"2\"\n";

#[test]
fn single_window_before_first_launch_seeds_from_template() {
    let mut reg = RegFile::parse(TEMPLATE_REG);
    assert_eq!(single_window_size(&reg), None);
    assert!(apply_single_window_at(&mut reg, Some((1280, 800)), 1790000000));
    assert_eq!(single_window_size(&reg), Some((1280, 800)));
    let out = reg.serialize();
    assert!(out.starts_with(TEMPLATE_REG), "template content must be kept as-is");
    assert!(out.contains("[Software\\\\Wine\\\\Explorer] "));
    assert!(out.contains("\"Desktop\"=\"Default\""));
    assert!(out.contains("[Software\\\\Wine\\\\Explorer] 1790000000\n\"Desktop\"=\"Default\"\n"));
    assert!(out.contains("\"Default\"=\"1280x800\""));
}

#[test]
fn single_window_toggles_on_existing_prefix_and_respects_user_desktops() {
    let mut reg = RegFile::parse(TEMPLATE_REG);
    assert!(apply_single_window_at(&mut reg, Some((1920, 1080)), 1));
    assert_eq!(single_window_size(&reg), Some((1920, 1080)));
    assert!(apply_single_window_at(&mut reg, None, 1));
    assert_eq!(single_window_size(&reg), None);

    // A differently named virtual desktop the user set up themselves stays.
    reg.set("Software\\Wine\\Explorer", "Desktop", "Mine");
    assert!(!apply_single_window_at(&mut reg, None, 1));
    assert_eq!(single_window_size(&reg), None);
    assert_eq!(reg.get("Software\\Wine\\Explorer", "Desktop").as_deref(), Some("Mine"));
}

#[test]
fn artwork_files_of_a_shortcut() {
    assert!(is_artwork_of("42p.jpg", 42));
    assert!(is_artwork_of("42.jpg", 42));
    assert!(is_artwork_of("42_hero.jpg", 42));
    assert!(is_artwork_of("42_icon.jpg", 42));
    assert!(is_artwork_of("42_logo.png", 42));
    assert!(!is_artwork_of("999p.jpg", 42));
    assert!(!is_artwork_of("42x.jpg", 42));
}

#[test]
fn detection_keeps_each_root_once() {
    let c = Steam::candidates("/home/deck");
    assert_eq!(c[0].0, "/home/deck/.steam/steam");
    assert_eq!(c[3], ("/home/deck/.var/app/com.valvesoftware.Steam/.local/share/Steam".to_string(), Flavor::Flatpak));
    let found = Steam::detect_in(vec![
        ("/home/deck/.local/share/Steam".to_string(), Flavor::Native),
        ("/home/deck/.local/share/Steam".to_string(), Flavor::Native),
        ("/x".to_string(), Flavor::Flatpak),
    ]);
    assert_eq!(found.len(), 2);
    assert_eq!(found[1], Steam { root: "/x".into(), flavor: Flavor::Flatpak });
}

#[test]
fn prefix_plan_for_single_window() {
    assert_eq!(prefix_plan(true, false, false), PrefixPlan::Edit);
    assert_eq!(prefix_plan(false, false, true), PrefixPlan::Done);
    assert_eq!(prefix_plan(false, true, true), PrefixPlan::SeedFromTemplate);
    assert_eq!(prefix_plan(false, true, false), PrefixPlan::Wait);
}

#[test]
fn account_directories_and_stamps() {
    assert!(!is_account_id(0));
    assert!(is_account_id(12345));
    assert_eq!(user_stamp(7, 9), 7);
    assert_eq!(user_stamp(0, 9), 9);
}
