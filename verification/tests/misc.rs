use yaccgl_core::error::Error;
use yaccgl_core::fpx_login::{fpx_dll, login_exe, needs_write, plugin_dir};
use yaccgl_core::settings::{default_install_dir, Settings, SETTINGS_VERSION};
use yaccgl_core::steam::artwork::{artwork_downloads, icon_download, Assets};
use yaccgl_core::steam::process::{
    close_decision, detached_script, in_game_mode_from, running_from_exit, rungameid_url,
};
use yaccgl_core::steam::Flavor;

#[test]
fn login_host_paths() {
    assert_eq!(plugin_dir("/g"), "/g/Aniimo_Data/Plugins/x86_64");
    assert_eq!(login_exe("/g"), "/g/Aniimo_Data/Plugins/x86_64/fpx_login.exe");
    assert_eq!(fpx_dll("/g"), "/g/Aniimo_Data/Plugins/x86_64/FPX.dll");
    assert!(needs_write(None, b"x"));
    assert!(needs_write(Some(b"y"), b"x"));
    assert!(!needs_write(Some(b"x"), b"x"));
}

#[test]
fn loads_defaults_and_ignores_removed_single_window_fields() {
    assert_eq!(Settings::defaults(default_install_dir(Some("/home/u"))).version, SETTINGS_VERSION);
    // What `{"install_dir":"/g","single_window":true,"window_size":"1280x800"}` decodes to:
    // the removed fields are not read, the rest keeps its defaults, the version is 0.
    let old = Settings { version: 0, ..Settings::defaults("/g".to_string()) };
    assert_eq!(old.install_dir, "/g");
    assert_eq!(old.migrate().version, SETTINGS_VERSION);
}

#[test]
fn settings_defaults() {
    assert_eq!(default_install_dir(Some("/home/u")), "/home/u/Games/Aniimo");
    assert_eq!(default_install_dir(None), "./Games/Aniimo");
    let s = Settings::defaults("/g".into());
    assert_eq!(s.compat_tool, "proton_10");
    assert!(s.artwork);
    assert_eq!(s.steam_user, None);
}

#[test]
fn steam_client_commands() {
    assert_eq!(rungameid_url(3_039_192_195), format!("steam://rungameid/{}", (3_039_192_195u64 << 32) | 0x0200_0000));
    assert_eq!(detached_script(Flavor::Native, ""), "setsid steam  >/dev/null 2>&1 &");
    assert_eq!(
        detached_script(Flavor::Flatpak, "steam://rungameid/1"),
        "setsid flatpak run com.valvesoftware.Steam steam://rungameid/1 >/dev/null 2>&1 &"
    );
    assert!(in_game_mode_from(Some("KDE:GameScope"), false));
    assert!(!in_game_mode_from(Some("KDE"), false));
    assert!(in_game_mode_from(None, true));
    assert!(matches!(running_from_exit(Some(0)), Ok(true)));
    assert!(matches!(running_from_exit(Some(1)), Ok(false)));
    assert!(matches!(running_from_exit(Some(2)), Err(Error::Steam(m))
        if m == "couldn't check whether Steam is running (exit status Some(2)). Please exit Steam from its menu and try again."));
    assert!(matches!(running_from_exit(None), Err(Error::Steam(m)) if m.contains("exit status None)")));
    assert!(matches!(close_decision(true, false), Err(Error::Steam(_))));
    assert!(matches!(close_decision(true, true), Ok(true)));
    assert!(matches!(close_decision(false, false), Ok(false)));
}

#[test]
fn artwork_plan_prefers_double_size() {
    let a = Assets {
        asset_url_format: Some("steam/apps/4126040/${FILENAME}?t=1".into()),
        library_capsule: Some("capsule.jpg".into()),
        library_capsule_2x: Some("capsule_2x.jpg".into()),
        header: Some("header.jpg".into()),
        library_logo: Some("logo.png".into()),
        community_icon: Some("abc".into()),
        ..Assets::default()
    };
    let plan = artwork_downloads(&a, 42);
    assert_eq!(
        plan,
        vec![
            (
                "https://shared.akamai.steamstatic.com/store_item_assets/steam/apps/4126040/capsule_2x.jpg?t=1".to_string(),
                "42p.jpg".to_string()
            ),
            (
                "https://shared.akamai.steamstatic.com/store_item_assets/steam/apps/4126040/header.jpg?t=1".to_string(),
                "42.jpg".to_string()
            ),
            (
                "https://shared.akamai.steamstatic.com/store_item_assets/steam/apps/4126040/logo.png?t=1".to_string(),
                "42_logo.png".to_string()
            ),
        ]
    );
    assert_eq!(
        icon_download(&a, 42),
        Some((
            "https://shared.akamai.steamstatic.com/community_assets/images/apps/4126040/abc.jpg".to_string(),
            "42_icon.jpg".to_string()
        ))
    );
    assert!(artwork_downloads(&Assets::default(), 42).is_empty());
}
