use yaccgl_core::api::{GamePackage, PackageExt};
use yaccgl_core::install::{InstallState, Progress};
use yaccgl_core::launcher::{
    added_message, controls, eta_text, game_running_notice, install_dir_choice, install_done_message, pick_install,
    prefix_needs_change, prefix_notice, primary_button, primary_step, selected_user, shortcut_subtitle, stage_of,
    status_view, target_exe, tool_choices, tool_index, tool_label, user_label, user_row, version_subtitle, Action,
    Latest, Step, Task,
};
use yaccgl_core::steam::{PrefixChange, User};

fn pkg(id: u64, version: &str, md5: &str) -> GamePackage {
    GamePackage {
        id,
        version_number: version.into(),
        md5: md5.into(),
        url: String::new(),
        back_url: String::new(),
        exe_start_name: String::new(),
        package_file_size: None,
        ext: PackageExt { archive_size: None },
    }
}

fn state(p: GamePackage) -> Option<InstallState> {
    Some(InstallState { package: p, installed_at: 1 })
}

#[test]
fn status_line_for_each_situation() {
    let latest = Latest::Known(pkg(2, "1.1", "bb"));
    let v = status_view(&None, &latest, false, None, Some("340 MB"), None);
    assert_eq!(v.title, "Not installed");
    assert_eq!(v.detail, "Version 1.1 · 340 MB download, about 40 GB after the game's first start");
    assert_eq!(v.action, Action::Install);
    let v = status_view(&None, &latest, false, None, None, Some("41 GB"));
    assert_eq!(v.detail, "Version 1.1 · unknown size download, about 41 GB after the game's first start");

    let old = state(pkg(1, "1.0", "aa"));
    let v = status_view(&old, &latest, true, None, None, None);
    assert_eq!((v.title.as_str(), v.detail.as_str(), v.action), ("Update available", "1.0 → 1.1", Action::Update));

    let current = state(pkg(2, "1.1", "bb"));
    let v = status_view(&current, &latest, true, None, None, None);
    assert_eq!((v.title.as_str(), v.detail.as_str(), v.action), ("Ready to play", "Launch it from your Steam library", Action::Nothing));
    let v = status_view(&current, &latest, false, None, None, None);
    assert_eq!((v.title.as_str(), v.detail.as_str(), v.action), ("Installed", "Add it to Steam to play", Action::AddToSteam));

    let v = status_view(&current, &Latest::Checking, false, None, None, None);
    assert_eq!((v.title.as_str(), v.detail.as_str(), v.action), ("Checking for updates…", "", Action::Nothing));

    let failed = Latest::Failed("timed out".into());
    let v = status_view(&current, &failed, false, None, None, None);
    assert_eq!(v.title, "Installed");
    assert_eq!(v.detail, "Version 1.1 · couldn't check for updates: timed out");
    assert_eq!(v.action, Action::AddToSteam);
    let v = status_view(&None, &failed, false, None, None, None);
    assert_eq!((v.title.as_str(), v.detail.as_str(), v.action), ("Can't reach the update server", "timed out", Action::Retry));
}

#[test]
fn running_install_names_what_it_does() {
    let latest = Latest::Known(pkg(2, "1.1", "bb"));
    let install = Some(Task::Install);
    assert_eq!(status_view(&None, &latest, false, install, None, None).title, "Installing…");
    assert_eq!(status_view(&state(pkg(1, "1.0", "aa")), &latest, false, install, None, None).title, "Updating…");
    assert_eq!(status_view(&state(pkg(2, "1.1", "bb")), &latest, true, install, None, None).title, "Repairing…");
    assert_eq!(status_view(&None, &latest, false, Some(Task::Steam), None, None).title, "Not installed");
}

#[test]
fn main_button_labels_and_steps() {
    assert_eq!(primary_button(Action::Retry), ("Retry", false));
    assert_eq!(primary_button(Action::Update), ("Update", true));
    assert_eq!(primary_button(Action::AddToSteam), ("Add to Steam", true));
    assert_eq!(primary_button(Action::Nothing), ("Install", true));
    assert_eq!(primary_step(Action::Update), Step::Install);
    assert_eq!(primary_step(Action::Retry), Step::CheckLatest);
    assert_eq!(primary_step(Action::AddToSteam), Step::AddToSteam);
    assert_eq!(primary_step(Action::Nothing), Step::Idle);
}

#[test]
fn version_row_text() {
    let latest = Latest::Known(pkg(2, "1.1", "bb"));
    assert_eq!(version_subtitle(&state(pkg(1, "1.0", "aa")), &latest), "1.0 installed, 1.1 available");
    assert_eq!(version_subtitle(&state(pkg(2, "1.1", "bb")), &latest), "1.1 installed");
    assert_eq!(version_subtitle(&state(pkg(2, "1.1", "bb")), &Latest::Checking), "1.1 installed");
    assert_eq!(version_subtitle(&None, &latest), "1.1 available");
    assert_eq!(version_subtitle(&None, &Latest::Failed("x".into())), "Not installed");
}

#[test]
fn compat_tool_choices_and_labels() {
    let custom = vec![("GE-Proton9-20".to_string(), "GE-Proton9-20".to_string())];
    let tools = tool_choices(custom.clone(), "proton_9");
    assert_eq!(tools.len(), 4);
    assert_eq!(tools[0], ("proton_10".to_string(), "Proton 10.0".to_string()));
    assert_eq!(tools[3], custom[0]);
    assert_eq!(tool_index(&tools, "proton_9"), 2);
    let tools = tool_choices(custom, "proton_8");
    assert_eq!(tools.len(), 5);
    assert_eq!(tools[4], ("proton_8".to_string(), "proton_8".to_string()));
    assert_eq!(tool_index(&tools, "proton_8"), 4);
    assert_eq!(tool_index(&tools, "nope"), 0);
    assert_eq!(tool_label(&tools, "proton_experimental"), "Proton Experimental");
    assert_eq!(tool_label(&tools, "nope"), "nope");
}

#[test]
fn shortcut_row_text() {
    let tools = tool_choices(Vec::new(), "proton_10");
    assert_eq!(shortcut_subtitle(false, true, true, None, &tools), "Steam was not found");
    assert_eq!(shortcut_subtitle(true, false, false, None, &tools), "Install the game first");
    assert_eq!(shortcut_subtitle(true, false, true, None, &tools), "Not added yet");
    assert_eq!(shortcut_subtitle(true, true, true, Some("proton_10"), &tools), "Added · Proton 10.0");
    assert_eq!(shortcut_subtitle(true, true, true, None, &tools), "Added · Steam's default Proton");
}

#[test]
fn controls_follow_the_task() {
    let idle = controls(None, Action::Install, false, true, true, true, false, false, false, 2);
    assert!(idle.primary_sensitive && idle.primary_visible && !idle.cancel_visible);
    assert!(!idle.repair_sensitive && !idle.steam_button_sensitive && idle.user_row_sensitive);
    let installing = controls(Some(Task::Install), Action::Install, false, true, true, true, false, false, false, 2);
    assert!(!installing.primary_visible && installing.cancel_visible && !installing.refresh_sensitive);
    let ready = controls(None, Action::Nothing, true, true, true, true, true, true, true, 1);
    assert!(!ready.primary_visible && ready.repair_sensitive && ready.steam_button_sensitive);
    assert!(ready.login_visible && !ready.login_sensitive && ready.game_mode_banner && !ready.user_row_sensitive);
    let playing = controls(Some(Task::Game), Action::Nothing, true, true, true, true, true, true, false, 1);
    assert!(playing.login_running && !playing.login_sensitive);
}

#[test]
fn accounts_and_installations() {
    let users = vec![
        User { account_id: 7, persona: Some("Deck".into()), most_recent: true },
        User { account_id: 9, persona: None, most_recent: false },
    ];
    assert_eq!(user_label(&users[0]), "Deck (7)");
    assert_eq!(user_label(&users[1]), "9");
    assert_eq!(selected_user(&users, Some(9)), Some(1));
    assert_eq!(selected_user(&users, Some(3)), None);
    assert_eq!(selected_user(&users, None), Some(0));
    assert_eq!(selected_user(&[], None), None);
    assert_eq!(user_row(&users, Some(9)), 1);
    assert_eq!(user_row(&users, Some(3)), 0);
    assert_eq!(pick_install(&[0, 2, 1]), Some(1));
    assert_eq!(pick_install(&[0, 0]), Some(0));
    assert_eq!(pick_install(&[]), None);
}

#[test]
fn prefix_setting_decisions() {
    assert!(!prefix_needs_change(Some((1280, 800)), Some((1280, 800)), true));
    assert!(prefix_needs_change(Some((1280, 800)), Some((1280, 800)), false));
    assert!(!prefix_needs_change(None, None, false));
    assert!(prefix_needs_change(None, Some((1280, 800)), true));
    let n = prefix_notice(PrefixChange::Applied, true, true).unwrap();
    assert_eq!((n.text.as_str(), n.prefs), ("Saved. It takes effect the next time Aniimo starts.", true));
    let n = prefix_notice(PrefixChange::Applied, false, true).unwrap();
    assert_eq!((n.text.as_str(), n.prefs), ("Turned on single-window mode for logging in from Game Mode", false));
    assert!(prefix_notice(PrefixChange::Applied, false, false).is_none());
    let n = prefix_notice(PrefixChange::Pending, true, true).unwrap();
    assert!(n.prefs && n.text.starts_with("Saved. It will be set up"));
    assert!(prefix_notice(PrefixChange::Pending, false, true).is_none());
    assert!(game_running_notice(false).is_none());
    assert!(game_running_notice(true).unwrap().text.starts_with("Close Aniimo first."));
}

#[test]
fn messages_and_times() {
    assert_eq!(install_done_message("1.1", true, true), "Aniimo 1.1 repaired");
    assert_eq!(install_done_message("1.1", false, true), "Aniimo updated to 1.1");
    assert_eq!(install_done_message("1.1", false, false), "Aniimo 1.1 installed");
    assert_eq!(added_message(true, "Proton 10.0"), "Added to Steam · Proton 10.0");
    assert_eq!(added_message(false, "Proton 10.0"), "Steam shortcut updated · Proton 10.0");
    assert_eq!(eta_text(0), "0s");
    assert_eq!(eta_text(59), "59s");
    assert_eq!(eta_text(61), "1m 01s");
    assert_eq!(eta_text(3599), "59m 59s");
    assert_eq!(eta_text(3600), "1h 00m");
    assert_eq!(eta_text(3725), "1h 02m");
    assert_eq!(stage_of(Progress::Extracting { done: 3, total: 9 }), ("Unpacking", 3, Some(9)));
    assert_eq!(stage_of(Progress::Downloading { done: 3, total: None }), ("Downloading", 3, None));
}

#[test]
fn install_folder_choice() {
    assert_eq!(install_dir_choice("/home/deck/Games", false, false), "/home/deck/Games/Aniimo");
    assert_eq!(install_dir_choice("/home/deck/Games", true, false), "/home/deck/Games");
    assert_eq!(install_dir_choice("/home/deck/Games", false, true), "/home/deck/Games");
    assert_eq!(install_dir_choice("/run/media/sd/ANIIMO/", false, false), "/run/media/sd/ANIIMO/");
    assert_eq!(install_dir_choice("/run/media/sd/", false, false), "/run/media/sd/Aniimo");
    assert_eq!(install_dir_choice("/", false, false), "/Aniimo");
    assert_eq!(install_dir_choice("/a/Aniimo/..", false, false), "/a/Aniimo/../Aniimo");
}

#[test]
fn target_exe_follows_the_installed_build() {
    let mut p = pkg(1, "1.0", "aa");
    assert_eq!(target_exe("/g", &None), "/g/Aniimo.exe");
    assert_eq!(target_exe("/g", &state(p.clone())), "/g/Aniimo.exe");
    p.exe_start_name = "Game.exe".into();
    assert_eq!(target_exe("/g", &state(p)), "/g/Game.exe");
}
