//! Launcher preferences. Where they are stored and how they are encoded is left to the
//! caller.

use vstd::prelude::*;
use crate::steam::{joined, path_join};

verus! {

/// Settings format; older files are migrated to it.
/// 1: single-window mode became opt-in. 2: single-window mode removed.
pub const SETTINGS_VERSION: u32 = 2;

#[derive(Debug, Clone, PartialEq, Eq)]
pub struct Settings {
    pub install_dir: String,
    /// Internal Steam compat tool name forced on the shortcut.
    pub compat_tool: String,
    pub launch_options: String,
    pub artwork: bool,
    /// Steam account the shortcut goes to; `None` = most recently logged in.
    pub steam_user: Option<u32>,
    /// Settings format; missing = 0.
    pub version: u32,
}

/// `~/Games/Aniimo`, or `./Games/Aniimo` without a home directory.
pub fn default_install_dir(home: Option<&str>) -> (r: String)
    ensures
        r@ == joined(
            joined(
                match home {
                    Some(h) => h@,
                    None => "."@,
                },
                "Games"@,
            ),
            crate::api::GAME_NAME@,
        ),
{
    let base = match home {
        Some(h) => h,
        None => ".",
    };
    let g = path_join(base, "Games");
    path_join(g.as_str(), crate::api::GAME_NAME)
}

impl Settings {
    /// The settings a new user starts with, installing into `install_dir`.
    pub fn defaults(install_dir: String) -> (r: Settings)
        ensures
            r.install_dir == install_dir,
            r.compat_tool@ == crate::steam::DEFAULT_COMPAT_TOOL@,
            r.launch_options@ == Seq::<char>::empty(),
            r.artwork,
            r.steam_user is None,
            r.version == SETTINGS_VERSION,
    {
        Settings {
            install_dir,
            compat_tool: crate::steam::DEFAULT_COMPAT_TOOL.to_owned(),
            launch_options: String::new(),
            artwork: true,
            steam_user: None,
            version: SETTINGS_VERSION,
        }
    }

    /// Bring settings read from an older file up to the current format. Fields that were
    /// removed are simply not read, so only the version changes.
    pub fn migrate(self) -> (r: Settings)
        ensures
            r == (Settings { version: SETTINGS_VERSION, ..self }),
    {
        let mut s = self;
        s.version = SETTINGS_VERSION;
        s
    }
}

} // verus!
