//! Talking to the Steam client: what the checks and commands say. Running them is left
//! to the caller.

use vstd::prelude::*;
use crate::error::Error;
use crate::steam::{Flavor, FLATPAK_STEAM_ID};
use crate::text::{chars_of, decimal, find_chars, find_sub, lower_ascii, lower_char, push_str, signed_decimal, u64_to_string};

verus! {

/// Whether this is the Steam Deck's Game Mode (a gamescope session), where Steam is the
/// session itself and must not be closed: the desktop named in `XDG_CURRENT_DESKTOP`
/// contains "gamescope" in any ASCII case, or `SteamGamepadUI` is set.
pub fn in_game_mode_from(current_desktop: Option<&str>, gamepad_ui_set: bool) -> (r: bool)
    ensures
        r == ((match current_desktop {
            Some(d) => find_sub(d@.map_values(|c: char| lower_char(c)), "gamescope"@, 0) is Some,
            None => false,
        }) || gamepad_ui_set),
{
    let in_gamescope = match current_desktop {
        Some(d) => {
            let cs = chars_of(d);
            let mut low: Vec<char> = Vec::new();
            let mut i: usize = 0;
            while i < cs.len()
                invariant
                    i <= cs@.len(),
                    cs@ == d@,
                    low@ == cs@.take(i as int).map_values(|c: char| lower_char(c)),
                decreases cs@.len() - i,
            {
                low.push(lower_ascii(cs[i]));
                i += 1;
                assert(low@ =~= cs@.take(i as int).map_values(|c: char| lower_char(c)));
            }
            assert(cs@.take(cs@.len() as int) =~= cs@);
            let pat = chars_of("gamescope");
            find_chars(low.as_slice(), pat.as_slice(), 0).is_some()
        },
        None => false,
    };
    in_gamescope || gamepad_ui_set
}

/// `{:?}` of an exit code.
pub open spec fn exit_code_text(code: Option<i32>) -> Seq<char> {
    match code {
        Some(c) => "Some("@ + signed_decimal(c as int) + ")"@,
        None => "None"@,
    }
}

/// What the running check's exit status says: 0 running, 1 not running, anything else
/// (or a signal) that it could not tell.
pub fn running_from_exit(code: Option<i32>) -> (r: Result<bool, Error>)
    ensures
        code == Some(0i32) ==> r == Ok::<bool, Error>(true),
        code == Some(1i32) ==> r == Ok::<bool, Error>(false),
        code != Some(0i32) && code != Some(1i32) ==> (r matches Err(Error::Steam(m)) && m@
            == "couldn't check whether Steam is running (exit status "@ + exit_code_text(code)
            + "). Please exit Steam from its menu and try again."@),
{
    match code {
        Some(0) => Ok(true),
        Some(1) => Ok(false),
        other => {
            let mut m = String::new();
            push_str(&mut m, "couldn't check whether Steam is running (exit status ");
            match other {
                Some(c) => {
                    push_str(&mut m, "Some(");
                    push_str(&mut m, crate::text::i32_to_string(c).as_str());
                    push_str(&mut m, ")");
                },
                None => push_str(&mut m, "None"),
            }
            push_str(&mut m, "). Please exit Steam from its menu and try again.");
            Err(Error::Steam(m))
        },
    }
}

/// Steam's game id of a non-Steam shortcut: the 32-bit app id in the high half, with
/// type `0x02000000`.
pub open spec fn shortcut_game_id(appid: u32) -> nat {
    (appid as nat) * 0x1_0000_0000 + 0x0200_0000
}

/// The URL that makes Steam run a non-Steam shortcut.
pub fn rungameid_url(appid: u32) -> (r: String)
    ensures
        r@ == "steam://rungameid/"@ + decimal(shortcut_game_id(appid)),
{
    let game_id: u64 = ((appid as u64) << 32) | 0x0200_0000;
    assert(game_id == (appid as u64) * 0x1_0000_0000 + 0x0200_0000) by (bit_vector)
        requires
            game_id == ((appid as u64) << 32) | 0x0200_0000,
    ;
    let mut s = String::new();
    push_str(&mut s, "steam://rungameid/");
    push_str(&mut s, u64_to_string(game_id).as_str());
    s
}

/// The command that starts Steam of a flavor from a shell.
pub open spec fn steam_launcher(flavor: Flavor) -> Seq<char> {
    match flavor {
        Flavor::Native => "steam"@,
        Flavor::Flatpak => "flatpak run "@ + FLATPAK_STEAM_ID@,
    }
}

/// The shell line that starts Steam with `arg`, detached from this process.
pub fn detached_script(flavor: Flavor, arg: &str) -> (r: String)
    ensures
        r@ == "setsid "@ + steam_launcher(flavor) + " "@ + arg@ + " >/dev/null 2>&1 &"@,
{
    let mut s = String::new();
    push_str(&mut s, "setsid ");
    match flavor {
        Flavor::Native => push_str(&mut s, "steam"),
        Flavor::Flatpak => {
            push_str(&mut s, "flatpak run ");
            push_str(&mut s, FLATPAK_STEAM_ID);
        },
    }
    push_str(&mut s, " ");
    push_str(&mut s, arg);
    push_str(&mut s, " >/dev/null 2>&1 &");
    s
}

/// Whether a change to Steam's files may go ahead and whether Steam must be closed for
/// it first: a running Steam is only closed when a restart was allowed.
pub fn close_decision(running: bool, restart: bool) -> (r: Result<bool, Error>)
    ensures
        running && !restart ==> (r matches Err(Error::Steam(m)) && m@ == "Steam is running. Exit Steam first, then try again."@),
        !(running && !restart) ==> r == Ok::<bool, Error>(running),
{
    if running && !restart {
        return Err(Error::Steam("Steam is running. Exit Steam first, then try again.".to_owned()));
    }
    Ok(running)
}

} // verus!
