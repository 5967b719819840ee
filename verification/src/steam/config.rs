//! Steam's text configuration files: the compat tool forced on an app in `config.vdf`,
//! Steam Input for a shortcut in `localconfig.vdf`, accounts in `loginusers.vdf`,
//! library folders, compat tool manifests and app manifests.

use vstd::prelude::*;
use crate::steam::text_vdf::{
    find_key, law_lookup_after_set, lookup, remove_entry, set_entry,
    Node, Obj, Value,
};
use crate::steam::{path_components, same_path, User, STEAMID64_BASE};
use crate::text::{
    chars_eq_ci, chars_of, decimal, lemma_chars_eq_ci_refl, parse_u32, parse_u32_spec, parse_u64, parse_u64_spec,
    signed_decimal, u64_to_string,
};

verus! {

/// Entries of an object node (nothing for a string).
pub open spec fn obj_entries(n: Node) -> Seq<(Seq<char>, Node)> {
    match n {
        Node::Obj(es) => es,
        Node::Str(_) => Seq::empty(),
    }
}

/// What `obj_mut(key)` works on: the child object `key`, or nothing when there is none.
pub open spec fn child(es: Seq<(Seq<char>, Node)>, key: Seq<char>) -> Seq<(Seq<char>, Node)> {
    match lookup(es, key) {
        Some(n) => obj_entries(n),
        None => Seq::empty(),
    }
}

/// The entries with the child object `key` replaced by `c`.
pub open spec fn with_child(es: Seq<(Seq<char>, Node)>, key: Seq<char>, c: Seq<(Seq<char>, Node)>) -> Seq<
    (Seq<char>, Node),
> {
    set_entry(es, key, Node::Obj(c))
}

/// What `get_obj(key)` gives: the child object `key`, if there is one.
pub open spec fn get_child(es: Seq<(Seq<char>, Node)>, key: Seq<char>) -> Option<Seq<(Seq<char>, Node)>> {
    match lookup(es, key) {
        Some(Node::Obj(c)) => Some(c),
        _ => None,
    }
}

/// What `get_str(key)` gives.
pub open spec fn get_text(es: Seq<(Seq<char>, Node)>, key: Seq<char>) -> Option<Seq<char>> {
    match lookup(es, key) {
        Some(Node::Str(s)) => Some(s),
        _ => None,
    }
}

/// `InstallConfigStore/Software/Valve/Steam/CompatToolMapping`, created where missing.
pub open spec fn mapping_for_edit(root: Seq<(Seq<char>, Node)>) -> Seq<(Seq<char>, Node)> {
    child(child(child(child(child(root, "InstallConfigStore"@), "Software"@), "Valve"@), "Steam"@), "CompatToolMapping"@)
}

/// The root with its compat tool mapping replaced by `m` (levels created where missing).
pub open spec fn with_mapping(root: Seq<(Seq<char>, Node)>, m: Seq<(Seq<char>, Node)>) -> Seq<(Seq<char>, Node)> {
    let c1 = child(root, "InstallConfigStore"@);
    let c2 = child(c1, "Software"@);
    let c3 = child(c2, "Valve"@);
    let c4 = child(c3, "Steam"@);
    with_child(
        root,
        "InstallConfigStore"@,
        with_child(c1, "Software"@, with_child(c2, "Valve"@, with_child(c3, "Steam"@, with_child(c4, "CompatToolMapping"@, m)))),
    )
}

/// The compat tool mapping of a parsed `config.vdf`, if it exists.
pub open spec fn mapping_of(root: Seq<(Seq<char>, Node)>) -> Option<Seq<(Seq<char>, Node)>> {
    match get_child(root, "InstallConfigStore"@) {
        Some(c1) => match get_child(c1, "Software"@) {
            Some(c2) => match get_child(c2, "Valve"@) {
                Some(c3) => match get_child(c3, "Steam"@) {
                    Some(c4) => get_child(c4, "CompatToolMapping"@),
                    None => None,
                },
                None => None,
            },
            None => None,
        },
        None => None,
    }
}

/// The compat tool forced for `appid` in a parsed `config.vdf`.
pub open spec fn compat_tool_of(root: Seq<(Seq<char>, Node)>, appid: u32) -> Option<Seq<char>> {
    match mapping_of(root) {
        Some(m) => match get_child(m, decimal(appid as nat)) {
            Some(e) => get_text(e, "name"@),
            None => None,
        },
        None => None,
    }
}

/// The mapping entry that forces `tool`, as Steam writes it.
pub open spec fn tool_entry(e: Seq<(Seq<char>, Node)>, tool: Seq<char>) -> Seq<(Seq<char>, Node)> {
    let e1 = set_entry(e, "name"@, Node::Str(tool));
    let e2 = set_entry(e1, "config"@, Node::Str(Seq::empty()));
    set_entry(e2, "priority"@, Node::Str("250"@))
}

/// A parsed `config.vdf` after forcing (`Some`) or clearing (`None`) the compat tool of
/// `appid`, and whether there is anything to write: clearing a tool that was not set
/// changes nothing worth writing.
pub open spec fn compat_tool_set(root: Seq<(Seq<char>, Node)>, appid: u32, tool: Option<Seq<char>>) -> (
    Seq<(Seq<char>, Node)>,
    bool,
) {
    let m = mapping_for_edit(root);
    let key = decimal(appid as nat);
    match tool {
        Some(t) => (with_mapping(root, with_child(m, key, tool_entry(child(m, key), t))), true),
        None => match lookup(m, key) {
            Some(_) => (with_mapping(root, remove_entry(m, key)), true),
            None => (with_mapping(root, m), false),
        },
    }
}

/// The compat tool mapping of a parsed `config.vdf`.
pub fn compat_mapping(root: &Obj) -> (r: Option<&Obj>)
    ensures
        (match r {
            Some(o) => Some(o@),
            None => None,
        }) == mapping_of(root@),
{
    let c1 = root.get_obj("InstallConfigStore")?;
    let c2 = c1.get_obj("Software")?;
    let c3 = c2.get_obj("Valve")?;
    let c4 = c3.get_obj("Steam")?;
    c4.get_obj("CompatToolMapping")
}

/// The compat tool forced for `appid` in a parsed `config.vdf`.
pub fn compat_tool_in(root: &Obj, appid: u32) -> (r: Option<String>)
    ensures
        (match r {
            Some(s) => Some(s@),
            None => None,
        }) == compat_tool_of(root@, appid),
{
    let m = compat_mapping(root)?;
    let key = u64_to_string(appid as u64);
    let e = m.get_obj(key.as_str())?;
    match e.get_str("name") {
        Some(s) => Some(s.to_owned()),
        None => None,
    }
}

/// Force (`Some`) or clear (`None`) the compat tool for `appid` in a parsed `config.vdf`.
/// Returns whether the file needs writing.
pub fn set_compat_tool_in(root: &mut Obj, appid: u32, tool: Option<&str>) -> (write: bool)
    ensures
        (final(root)@, write) == compat_tool_set(
            old(root)@,
            appid,
            match tool {
                Some(t) => Some(t@),
                None => None,
            },
        ),
{
    let c1 = root.obj_mut("InstallConfigStore");
    let c2 = c1.obj_mut("Software");
    let c3 = c2.obj_mut("Valve");
    let c4 = c3.obj_mut("Steam");
    let mapping = c4.obj_mut("CompatToolMapping");
    let key = u64_to_string(appid as u64);
    match tool {
        Some(t) => {
            let entry = mapping.obj_mut(key.as_str());
            entry.set_str("name", t);
            entry.set_str("config", "");
            entry.set_str("priority", "250");
            proof {
                reveal_strlit("");
                assert(""@ =~= Seq::<char>::empty());
            }
            true
        },
        None => {
            match mapping.remove(key.as_str()) {
                Some(_) => true,
                None => false,
            }
        },
    }
}

/// Forcing a compat tool makes it the one read back for that app; clearing it leaves
/// none, provided the mapping held the app at most once.
pub proof fn law_compat_tool_round_trip(root: Seq<(Seq<char>, Node)>, appid: u32, tool: Option<Seq<char>>)
    requires
        tool is None ==> forall|i: int, j: int|
            0 <= i < j < mapping_for_edit(root).len() && chars_eq_ci(#[trigger] mapping_for_edit(root)[i].0, decimal(appid as nat))
                ==> !chars_eq_ci(#[trigger] mapping_for_edit(root)[j].0, decimal(appid as nat)),
    ensures
        compat_tool_of(compat_tool_set(root, appid, tool).0, appid) == tool,
{
    let key = decimal(appid as nat);
    let m = mapping_for_edit(root);
    let m2 = match tool {
        Some(t) => with_child(m, key, tool_entry(child(m, key), t)),
        None => match lookup(m, key) {
            Some(_) => remove_entry(m, key),
            None => m,
        },
    };
    lemma_with_mapping(root, m2);
    lemma_chars_eq_ci_refl(key);
    match tool {
        Some(t) => {
            let e = child(m, key);
            law_lookup_after_set(m, key, Node::Obj(tool_entry(e, t)), key);
            lemma_tool_entry(e, t);
        },
        None => {
            lemma_remove_only(m, key);
        },
    }
}

proof fn lemma_tool_entry(e: Seq<(Seq<char>, Node)>, t: Seq<char>)
    ensures
        get_text(tool_entry(e, t), "name"@) == Some(t),
{
    reveal_strlit("name");
    reveal_strlit("config");
    reveal_strlit("priority");
    let e1 = set_entry(e, "name"@, Node::Str(t));
    let e2 = set_entry(e1, "config"@, Node::Str(Seq::empty()));
    lemma_chars_eq_ci_refl("name"@);
    law_lookup_after_set(e, "name"@, Node::Str(t), "name"@);
    law_lookup_after_set(e1, "config"@, Node::Str(Seq::empty()), "name"@);
    law_lookup_after_set(e2, "priority"@, Node::Str("250"@), "name"@);
}

/// Removing the only entry with a key leaves none.
proof fn lemma_remove_only(m: Seq<(Seq<char>, Node)>, key: Seq<char>)
    requires
        forall|i: int, j: int|
            0 <= i < j < m.len() && chars_eq_ci(#[trigger] m[i].0, key) ==> !chars_eq_ci(#[trigger] m[j].0, key),
    ensures
        lookup(remove_entry(m, key), key) is None,
{
    match find_key(m, key) {
        Some(i) => {
            let m2 = m.remove(i);
            assert(crate::steam::text_vdf::is_first_key(m, key, i));
            assert forall|j: int| 0 <= j < m2.len() implies !chars_eq_ci(#[trigger] m2[j].0, key) by {
                if j < i {
                    assert(m2[j] == m[j]);
                } else {
                    assert(m2[j] == m[j + 1]);
                }
            }
            if find_key(m2, key) is Some {
                let k = find_key(m2, key)->0;
                assert(crate::steam::text_vdf::is_first_key(m2, key, k));
            }
        },
        None => {},
    }
}

/// Reading the mapping back from a root whose mapping was replaced gives the new one.
proof fn lemma_with_mapping(root: Seq<(Seq<char>, Node)>, m: Seq<(Seq<char>, Node)>)
    ensures
        mapping_of(with_mapping(root, m)) == Some(m),
{
    let c1 = child(root, "InstallConfigStore"@);
    let c2 = child(c1, "Software"@);
    let c3 = child(c2, "Valve"@);
    let c4 = child(c3, "Steam"@);
    let n4 = with_child(c4, "CompatToolMapping"@, m);
    let n3 = with_child(c3, "Steam"@, n4);
    let n2 = with_child(c2, "Valve"@, n3);
    let n1 = with_child(c1, "Software"@, n2);
    lemma_chars_eq_ci_refl("InstallConfigStore"@);
    lemma_chars_eq_ci_refl("Software"@);
    lemma_chars_eq_ci_refl("Valve"@);
    lemma_chars_eq_ci_refl("Steam"@);
    lemma_chars_eq_ci_refl("CompatToolMapping"@);
    law_lookup_after_set(root, "InstallConfigStore"@, Node::Obj(n1), "InstallConfigStore"@);
    law_lookup_after_set(c1, "Software"@, Node::Obj(n2), "Software"@);
    law_lookup_after_set(c2, "Valve"@, Node::Obj(n3), "Valve"@);
    law_lookup_after_set(c3, "Steam"@, Node::Obj(n4), "Steam"@);
    law_lookup_after_set(c4, "CompatToolMapping"@, Node::Obj(m), "CompatToolMapping"@);
}

/// Forcing a compat tool writes Steam's entry for the app where Steam reads it, at
/// `InstallConfigStore/Software/Valve/Steam/CompatToolMapping/<app id in decimal>`: the
/// tool as its name, an empty config and priority 250, whatever the file held before.
pub proof fn law_forced_tool_entry(root: Seq<(Seq<char>, Node)>, appid: u32, tool: Seq<char>)
    ensures
        ({
            let r = compat_tool_set(root, appid, Some(tool)).0;
            &&& lookup(r, "InstallConfigStore"@) matches Some(Node::Obj(a))
            &&& lookup(a, "Software"@) matches Some(Node::Obj(b))
            &&& lookup(b, "Valve"@) matches Some(Node::Obj(c))
            &&& lookup(c, "Steam"@) matches Some(Node::Obj(d))
            &&& lookup(d, "CompatToolMapping"@) matches Some(Node::Obj(m))
            &&& lookup(m, decimal(appid as nat)) matches Some(Node::Obj(e))
            &&& lookup(e, "name"@) == Some(Node::Str(tool))
            &&& lookup(e, "config"@) == Some(Node::Str(Seq::<char>::empty()))
            &&& lookup(e, "priority"@) == Some(Node::Str("250"@))
        }),
{
    let key = decimal(appid as nat);
    let c1 = child(root, "InstallConfigStore"@);
    let c2 = child(c1, "Software"@);
    let c3 = child(c2, "Valve"@);
    let c4 = child(c3, "Steam"@);
    let m0 = child(c4, "CompatToolMapping"@);
    let e0 = child(m0, key);
    let e1 = set_entry(e0, "name"@, Node::Str(tool));
    let e2 = set_entry(e1, "config"@, Node::Str(Seq::empty()));
    let e3 = set_entry(e2, "priority"@, Node::Str("250"@));
    let m = with_child(m0, key, e3);
    let n4 = with_child(c4, "CompatToolMapping"@, m);
    let n3 = with_child(c3, "Steam"@, n4);
    let n2 = with_child(c2, "Valve"@, n3);
    let n1 = with_child(c1, "Software"@, n2);
    let r = with_child(root, "InstallConfigStore"@, n1);
    assert(mapping_for_edit(root) == m0);
    assert(tool_entry(e0, tool) == e3);
    assert(compat_tool_set(root, appid, Some(tool)).0 == r);
    lemma_chars_eq_ci_refl("InstallConfigStore"@);
    lemma_chars_eq_ci_refl("Software"@);
    lemma_chars_eq_ci_refl("Valve"@);
    lemma_chars_eq_ci_refl("Steam"@);
    lemma_chars_eq_ci_refl("CompatToolMapping"@);
    lemma_chars_eq_ci_refl(key);
    lemma_chars_eq_ci_refl("name"@);
    lemma_chars_eq_ci_refl("config"@);
    lemma_chars_eq_ci_refl("priority"@);
    law_lookup_after_set(root, "InstallConfigStore"@, Node::Obj(n1), "InstallConfigStore"@);
    law_lookup_after_set(c1, "Software"@, Node::Obj(n2), "Software"@);
    law_lookup_after_set(c2, "Valve"@, Node::Obj(n3), "Valve"@);
    law_lookup_after_set(c3, "Steam"@, Node::Obj(n4), "Steam"@);
    law_lookup_after_set(c4, "CompatToolMapping"@, Node::Obj(m), "CompatToolMapping"@);
    law_lookup_after_set(m0, key, Node::Obj(e3), key);
    reveal_strlit("name");
    reveal_strlit("config");
    reveal_strlit("priority");
    assert(!chars_eq_ci("name"@, "config"@));
    assert(!chars_eq_ci("name"@, "priority"@));
    assert(!chars_eq_ci("config"@, "priority"@));
    law_lookup_after_set(e2, "priority"@, Node::Str("250"@), "priority"@);
    law_lookup_after_set(e2, "priority"@, Node::Str("250"@), "config"@);
    law_lookup_after_set(e2, "priority"@, Node::Str("250"@), "name"@);
    law_lookup_after_set(e1, "config"@, Node::Str(Seq::empty()), "config"@);
    law_lookup_after_set(e1, "config"@, Node::Str(Seq::empty()), "name"@);
    law_lookup_after_set(e0, "name"@, Node::Str(tool), "name"@);
}

/// The Steam Input settings of a shortcut in a parsed `localconfig.vdf`, under
/// `UserLocalConfigStore/apps/<signed app id>`, after turning Steam Input on or off:
/// the values Steam writes when the controller override is flipped in Properties.
pub open spec fn steam_input_edit(root: Seq<(Seq<char>, Node)>, appid: u32, enabled: bool) -> Seq<(Seq<char>, Node)> {
    let key = signed_decimal((appid as i32) as int);
    let c1 = child(root, "UserLocalConfigStore"@);
    let c2 = child(c1, "apps"@);
    let e = child(c2, key);
    let e1 = set_entry(e, "UseSteamControllerConfig"@, Node::Str(if enabled { "1"@ } else { "0"@ }));
    let e2 = set_entry(e1, "SteamControllerRumble"@, Node::Str("-1"@));
    let e3 = set_entry(e2, "SteamControllerRumbleIntensity"@, Node::Str("320"@));
    with_child(root, "UserLocalConfigStore"@, with_child(c1, "apps"@, with_child(c2, key, e3)))
}

/// The per-app settings of a parsed `localconfig.vdf`, if there are any.
pub open spec fn local_apps_of(root: Seq<(Seq<char>, Node)>) -> Option<Seq<(Seq<char>, Node)>> {
    match get_child(root, "UserLocalConfigStore"@) {
        Some(c1) => get_child(c1, "apps"@),
        None => None,
    }
}

/// Whether Steam Input is forced off for `appid` (`UseSteamControllerConfig` is `0`).
pub open spec fn steam_input_disabled_of(root: Seq<(Seq<char>, Node)>, appid: u32) -> bool {
    match local_apps_of(root) {
        Some(apps) => match get_child(apps, signed_decimal((appid as i32) as int)) {
            Some(e) => get_text(e, "UseSteamControllerConfig"@) == Some("0"@),
            None => false,
        },
        None => false,
    }
}

/// Enable or disable Steam Input for a shortcut in a parsed `localconfig.vdf`.
pub fn set_steam_input_in(root: &mut Obj, appid: u32, enabled: bool)
    ensures
        final(root)@ == steam_input_edit(old(root)@, appid, enabled),
{
    let key = crate::steam::signed_appid_key(appid);
    let c1 = root.obj_mut("UserLocalConfigStore");
    let c2 = c1.obj_mut("apps");
    let entry = c2.obj_mut(key.as_str());
    entry.set_str("UseSteamControllerConfig", if enabled { "1" } else { "0" });
    entry.set_str("SteamControllerRumble", "-1");
    entry.set_str("SteamControllerRumbleIntensity", "320");
}

/// Whether Steam Input is forced off for `appid` in a parsed `localconfig.vdf`.
pub fn steam_input_disabled_in(root: &Obj, appid: u32) -> (r: bool)
    ensures
        r == steam_input_disabled_of(root@, appid),
{
    let key = crate::steam::signed_appid_key(appid);
    let c1 = match root.get_obj("UserLocalConfigStore") {
        Some(o) => o,
        None => return false,
    };
    let c2 = match c1.get_obj("apps") {
        Some(o) => o,
        None => return false,
    };
    let e = match c2.get_obj(key.as_str()) {
        Some(o) => o,
        None => return false,
    };
    match e.get_str("UseSteamControllerConfig") {
        Some(v) => {
            let cs = chars_of(v);
            proof {
                reveal_strlit("0");
            }
            let r = cs.len() == 1 && cs[0] == '0';
            assert(r == (v@ =~= "0"@));
            r
        },
        None => false,
    }
}

/// After turning Steam Input on or off for a shortcut, it reads back as set, and the
/// settings of every other app are as they were.
pub proof fn law_steam_input_round_trip(root: Seq<(Seq<char>, Node)>, appid: u32, enabled: bool, other: Seq<char>)
    ensures
        steam_input_disabled_of(steam_input_edit(root, appid, enabled), appid) == !enabled,
        !chars_eq_ci(other, signed_decimal((appid as i32) as int)) ==> lookup(
            local_apps_of(steam_input_edit(root, appid, enabled))->0,
            other,
        ) == lookup(child(child(root, "UserLocalConfigStore"@), "apps"@), other),
{
    let key = signed_decimal((appid as i32) as int);
    let c1 = child(root, "UserLocalConfigStore"@);
    let c2 = child(c1, "apps"@);
    let e = child(c2, key);
    let v = if enabled { "1"@ } else { "0"@ };
    let e1 = set_entry(e, "UseSteamControllerConfig"@, Node::Str(v));
    let e2 = set_entry(e1, "SteamControllerRumble"@, Node::Str("-1"@));
    let e3 = set_entry(e2, "SteamControllerRumbleIntensity"@, Node::Str("320"@));
    let n2 = with_child(c2, key, e3);
    let n1 = with_child(c1, "apps"@, n2);
    reveal_strlit("UseSteamControllerConfig");
    reveal_strlit("SteamControllerRumble");
    reveal_strlit("SteamControllerRumbleIntensity");
    reveal_strlit("0");
    reveal_strlit("1");
    lemma_chars_eq_ci_refl("UserLocalConfigStore"@);
    lemma_chars_eq_ci_refl("apps"@);
    lemma_chars_eq_ci_refl(key);
    lemma_chars_eq_ci_refl("UseSteamControllerConfig"@);
    law_lookup_after_set(root, "UserLocalConfigStore"@, Node::Obj(n1), "UserLocalConfigStore"@);
    law_lookup_after_set(c1, "apps"@, Node::Obj(n2), "apps"@);
    law_lookup_after_set(c2, key, Node::Obj(e3), key);
    law_lookup_after_set(c2, key, Node::Obj(e3), other);
    law_lookup_after_set(e, "UseSteamControllerConfig"@, Node::Str(v), "UseSteamControllerConfig"@);
    law_lookup_after_set(e1, "SteamControllerRumble"@, Node::Str("-1"@), "UseSteamControllerConfig"@);
    law_lookup_after_set(e2, "SteamControllerRumbleIntensity"@, Node::Str("320"@), "UseSteamControllerConfig"@);
    if enabled {
        assert(v[0] != "0"@[0]);
    }
    assert(v != "0"@ <==> enabled);
}

/// The account id a `loginusers.vdf` entry is keyed by: its 64-bit Steam id less the
/// individual-account base, kept to 32 bits.
pub open spec fn login_account(key: Seq<char>) -> Option<u32> {
    match parse_u64_spec(key) {
        Some(n) => if n >= STEAMID64_BASE {
            Some((n - STEAMID64_BASE) as u32)
        } else {
            None
        },
        None => None,
    }
}

/// What a login entry says of its account: persona name, whether it logged in most
/// recently, and its login time (0 when missing or not a number).
pub open spec fn login_fields(o: Seq<(Seq<char>, Node)>) -> (Option<Seq<char>>, bool, u64) {
    (
        get_text(o, "PersonaName"@),
        get_text(o, "MostRecent"@) == Some("1"@),
        match get_text(o, "Timestamp"@) {
            Some(t) => match parse_u64_spec(t) {
                Some(n) => n,
                None => 0,
            },
            None => 0,
        },
    )
}

/// The last login entry for `account` (a later entry for the same account wins).
pub open spec fn login_in(es: Seq<(Seq<char>, Node)>, account: u32) -> Option<(Option<Seq<char>>, bool, u64)>
    decreases es.len(),
{
    if es.len() == 0 {
        None
    } else if login_account(es.last().0) == Some(account) && es.last().1 is Obj {
        Some(login_fields(obj_entries(es.last().1)))
    } else {
        login_in(es.drop_last(), account)
    }
}

/// What a parsed `loginusers.vdf` says of `account`; nothing known reads as no persona,
/// not most recent and time 0.
pub open spec fn login_of(root: Seq<(Seq<char>, Node)>, account: u32) -> (Option<Seq<char>>, bool, u64) {
    let none = (None, false, 0u64);
    match get_child(root, "users"@) {
        Some(es) => match login_in(es, account) {
            Some(x) => x,
            None => none,
        },
        None => none,
    }
}

fn is_one(s: &str) -> (r: bool)
    ensures
        r == (s@ == "1"@),
{
    let cs = chars_of(s);
    proof {
        reveal_strlit("1");
    }
    let r = cs.len() == 1 && cs[0] == '1';
    assert(r == (s@ =~= "1"@));
    r
}

/// What a parsed `loginusers.vdf` says of `account`: persona name, whether it logged in
/// most recently, and its login time.
pub fn login_info(root: &Obj, account: u32) -> (r: (Option<String>, bool, u64))
    ensures
        ((match r.0 {
            Some(s) => Some(s@),
            None => None,
        }), r.1, r.2) == login_of(root@, account),
{
    let users = match root.get_obj("users") {
        Some(u) => u,
        None => return (None, false, 0),
    };
    let ghost es = users@;
    let mut i: usize = users.0.len();
    assert(es.take(i as int) =~= es);
    assert(get_child(root@, "users"@) == Some(es));
    while i > 0
        invariant
            i <= users.0@.len(),
            es == users@,
            get_child(root@, "users"@) == Some(es),
            login_in(es, account) == login_in(es.take(i as int), account),
        decreases i,
    {
        let k = i - 1;
        let ghost t = es.take(i as int);
        assert(t.drop_last() =~= es.take(k as int));
        assert(t.last() == es[k as int]);
        let entry = &users.0[k];
        if let Value::Obj(o) = &entry.1 {
            if let Some(id64) = parse_u64(entry.0.as_str()) {
                if id64 >= STEAMID64_BASE && (#[verifier::truncate] ((id64 - STEAMID64_BASE) as u32)) == account {
                    let persona = match o.get_str("PersonaName") {
                        Some(p) => Some(p.to_owned()),
                        None => None,
                    };
                    let recent = match o.get_str("MostRecent") {
                        Some(m) => is_one(m),
                        None => false,
                    };
                    let stamp = match o.get_str("Timestamp") {
                        Some(ts) => match parse_u64(ts) {
                            Some(n) => n,
                            None => 0,
                        },
                        None => 0,
                    };
                    assert(login_account(t.last().0) == Some(account));
                    assert(login_in(t, account) == Some(login_fields(o@)));
                    assert(get_child(root@, "users"@) == Some(es));
                    assert(login_of(root@, account) == login_fields(o@));
                    assert(login_fields(o@).0 == match persona { Some(p) => Some(p@), None => None });
                    assert(login_fields(o@).1 == recent);
                    assert(login_fields(o@).2 == stamp);
                    return (persona, recent, stamp);
                }
            }
        }
        i = k;
    }
    (None, false, 0)
}

/// `a` is listed before `b`: logged in most recently first, then by later login time.
pub open spec fn goes_before(a: (User, u64), b: (User, u64)) -> bool {
    (a.0.most_recent && !b.0.most_recent) || (a.0.most_recent == b.0.most_recent && a.1 > b.1)
}

/// `e` inserted into an ordered list after everything it does not go before.
pub open spec fn insert_ordered(l: Seq<(User, u64)>, e: (User, u64)) -> Seq<(User, u64)>
    decreases l.len(),
{
    if l.len() == 0 {
        seq![e]
    } else if goes_before(e, l[0]) {
        seq![e] + l
    } else {
        seq![l[0]] + insert_ordered(l.drop_first(), e)
    }
}

/// Users in the order they are offered: a stable sort by [`goes_before`].
pub open spec fn ordered_users(s: Seq<(User, u64)>) -> Seq<(User, u64)>
    decreases s.len(),
{
    if s.len() == 0 {
        seq![]
    } else {
        insert_ordered(ordered_users(s.drop_last()), s.last())
    }
}

/// Index where [`insert_ordered`] puts `e`: the first element `e` goes before.
pub open spec fn insert_pos(l: Seq<(User, u64)>, e: (User, u64), i: int) -> int
    decreases l.len() - i,
{
    if i < 0 || i >= l.len() {
        l.len() as int
    } else if goes_before(e, l[i]) {
        i
    } else {
        insert_pos(l, e, i + 1)
    }
}

proof fn lemma_insert_pos(l: Seq<(User, u64)>, e: (User, u64), i: int)
    requires
        0 <= i <= l.len(),
    ensures
        insert_ordered(l.subrange(i, l.len() as int), e) == l.subrange(i, l.len() as int).insert(
            insert_pos(l, e, i) - i,
            e,
        ),
        i <= insert_pos(l, e, i) <= l.len(),
    decreases l.len() - i,
{
    let t = l.subrange(i, l.len() as int);
    if i < l.len() {
        assert(t[0] == l[i]);
        if goes_before(e, l[i]) {
            assert(seq![e] + t =~= t.insert(0, e));
        } else {
            lemma_insert_pos(l, e, i + 1);
            assert(t.drop_first() =~= l.subrange(i + 1, l.len() as int));
            let p = insert_pos(l, e, i + 1);
            assert(seq![t[0]] + t.drop_first().insert(p - (i + 1), e) =~= t.insert(p - i, e));
        }
    } else {
        assert(t =~= Seq::<(User, u64)>::empty());
        assert(seq![e] =~= t.insert(0, e));
    }
}

fn before(a: &(User, u64), b: &(User, u64)) -> (r: bool)
    ensures
        r == goes_before(*a, *b),
{
    (a.0.most_recent && !b.0.most_recent) || (a.0.most_recent == b.0.most_recent && a.1 > b.1)
}

/// Users ordered for display: most recently logged in first, then by later login time;
/// users that compare equal keep their order.
pub fn order_users(users: Vec<(User, u64)>) -> (r: Vec<User>)
    ensures
        r@ == ordered_users(users@).map_values(|e: (User, u64)| e.0),
{
    let ghost all = users@;
    let n = users.len();
    assert(all.len() == n);
    let mut rest = users;
    let mut out: Vec<(User, u64)> = Vec::new();
    let mut k: usize = 0;
    while rest.len() > 0
        invariant
            k + rest@.len() == all.len(),
            all.len() <= usize::MAX,
            rest@ == all.skip(k as int),
            out@ == ordered_users(all.take(k as int)),
        decreases rest@.len(),
    {
        let e = rest.remove(0);
        assert(e == all[k as int]);
        let ghost prev = out@;
        let mut p: usize = 0;
        while p < out.len() && !before(&e, &out[p])
            invariant
                p <= out@.len(),
                out@ == prev,
                insert_pos(prev, e, 0) == insert_pos(prev, e, p as int),
            decreases out@.len() - p,
        {
            p += 1;
        }
        proof {
            lemma_insert_pos(prev, e, 0);
            assert(prev.subrange(0, prev.len() as int) =~= prev);
            assert(all.take(k + 1).drop_last() =~= all.take(k as int));
        }
        out.insert(p, e);
        k += 1;
        assert(rest@ =~= all.skip(k as int));
    }
    assert(all.take(k as int) =~= all);
    let mut res: Vec<User> = Vec::new();
    let ghost sorted = out@;
    while out.len() > 0
        invariant
            res@.len() + out@.len() == sorted.len(),
            out@ == sorted.skip(res@.len() as int),
            res@ == sorted.take(res@.len() as int).map_values(|e: (User, u64)| e.0),
        decreases out@.len(),
    {
        let (u, _) = out.remove(0);
        let ghost n: int = res@.len() as int;
        res.push(u);
        assert(res@ =~= sorted.take(n + 1).map_values(|e: (User, u64)| e.0));
        assert(out@ =~= sorted.skip(n + 1));
    }
    assert(sorted.take(sorted.len() as int) =~= sorted);
    res
}

/// Some path in `out` is the same path as `p`.
pub open spec fn has_path(out: Seq<Seq<char>>, p: Seq<char>) -> bool {
    exists|i: int| 0 <= i < out.len() && path_components(#[trigger] out[i]) == path_components(p)
}

/// The library folders listed in `es` added to `acc` in order, each path only once.
pub open spec fn folders_from(acc: Seq<Seq<char>>, es: Seq<(Seq<char>, Node)>) -> Seq<Seq<char>>
    decreases es.len(),
{
    if es.len() == 0 {
        acc
    } else {
        let acc2 = match es[0].1 {
            Node::Obj(o) => match get_text(o, "path"@) {
                Some(p) => if has_path(acc, p) {
                    acc
                } else {
                    acc.push(p)
                },
                None => acc,
            },
            Node::Str(_) => acc,
        };
        folders_from(acc2, es.drop_first())
    }
}

/// Steam library folders: the main one, then those a parsed `libraryfolders.vdf` lists
/// that are not the same path as one before.
pub open spec fn library_folders_of(
    root_path: Seq<char>,
    parsed: Option<Seq<(Seq<char>, Node)>>,
) -> Seq<Seq<char>> {
    match parsed {
        Some(r) => match get_child(r, "libraryfolders"@) {
            Some(list) => folders_from(seq![root_path], list),
            None => seq![root_path],
        },
        None => seq![root_path],
    }
}

fn has_path_exec(out: &Vec<String>, p: &str) -> (r: bool)
    ensures
        r == has_path(out@.map_values(|s: String| s@), p@),
{
    let ghost v = out@.map_values(|s: String| s@);
    let mut i: usize = 0;
    while i < out.len()
        invariant
            i <= out@.len(),
            v == out@.map_values(|s: String| s@),
            forall|j: int| 0 <= j < i ==> path_components(#[trigger] v[j]) != path_components(p@),
        decreases out@.len() - i,
    {
        if same_path(out[i].as_str(), p) {
            assert(path_components(v[i as int]) == path_components(p@));
            return true;
        }
        i += 1;
    }
    false
}

/// Steam library folders: `root_path` plus those listed in a parsed `libraryfolders.vdf`.
pub fn library_folders_in(root_path: &str, parsed: Option<&Obj>) -> (r: Vec<String>)
    ensures
        r@.map_values(|s: String| s@) == library_folders_of(
            root_path@,
            match parsed {
                Some(o) => Some(o@),
                None => None,
            },
        ),
{
    let mut out: Vec<String> = Vec::new();
    out.push(root_path.to_owned());
    assert(out@.map_values(|s: String| s@) =~= seq![root_path@]);
    let list = match parsed {
        Some(r) => match r.get_obj("libraryfolders") {
            Some(l) => l,
            None => return out,
        },
        None => return out,
    };
    let ghost es = list@;
    let mut i: usize = 0;
    assert(es.skip(0) =~= es);
    while i < list.0.len()
        invariant
            i <= list.0@.len(),
            es == list@,
            folders_from(seq![root_path@], es) == folders_from(out@.map_values(|s: String| s@), es.skip(i as int)),
        decreases list.0@.len() - i,
    {
        let ghost acc = out@.map_values(|s: String| s@);
        assert(es.skip(i as int)[0] == es[i as int]);
        assert(es.skip(i as int).drop_first() =~= es.skip(i + 1));
        match &list.0[i].1 {
            Value::Obj(o) => match o.get_str("path") {
                Some(p) => {
                    if !has_path_exec(&out, p) {
                        out.push(p.to_owned());
                        assert(out@.map_values(|s: String| s@) =~= acc.push(p@));
                    }
                },
                None => {},
            },
            Value::Str(_) => {},
        }
        i += 1;
    }
    assert(es.skip(es.len() as int) =~= Seq::<(Seq<char>, Node)>::empty());
    out
}

/// How a custom compat tool is shown: its `display_name`, else its internal name.
pub open spec fn tool_display(e: (Seq<char>, Node)) -> Seq<char> {
    match e.1 {
        Node::Obj(o) => match get_text(o, "display_name"@) {
            Some(d) => d,
            None => e.0,
        },
        Node::Str(_) => e.0,
    }
}

/// The custom compat tools a parsed `compatibilitytool.vdf` declares, as
/// `(internal name, display name)`.
pub open spec fn tools_of(root: Seq<(Seq<char>, Node)>) -> Seq<(Seq<char>, Seq<char>)> {
    match get_child(root, "compatibilitytools"@) {
        Some(c) => match get_child(c, "compat_tools"@) {
            Some(list) => list.map_values(|e: (Seq<char>, Node)| (e.0, tool_display(e))),
            None => seq![],
        },
        None => seq![],
    }
}

pub open spec fn pair_view(p: (String, String)) -> (Seq<char>, Seq<char>) {
    (p.0@, p.1@)
}

/// The custom compat tools a parsed `compatibilitytool.vdf` declares, as
/// `(internal name, display name)`.
pub fn compat_tools_in(root: &Obj) -> (r: Vec<(String, String)>)
    ensures
        r@.map_values(|p: (String, String)| pair_view(p)) == tools_of(root@),
{
    let mut out: Vec<(String, String)> = Vec::new();
    let list = match root.get_obj("compatibilitytools") {
        Some(c) => match c.get_obj("compat_tools") {
            Some(l) => l,
            None => {
                assert(out@.map_values(|p: (String, String)| pair_view(p)) =~= tools_of(root@));
                return out;
            },
        },
        None => {
            assert(out@.map_values(|p: (String, String)| pair_view(p)) =~= tools_of(root@));
            return out;
        },
    };
    let ghost es = list@;
    let mut i: usize = 0;
    while i < list.0.len()
        invariant
            i <= list.0@.len(),
            es == list@,
            tools_of(root@) == es.map_values(|e: (Seq<char>, Node)| (e.0, tool_display(e))),
            out@.map_values(|p: (String, String)| pair_view(p)) == es.take(i as int).map_values(
                |e: (Seq<char>, Node)| (e.0, tool_display(e)),
            ),
        decreases list.0@.len() - i,
    {
        let internal = &list.0[i].0;
        let display = match &list.0[i].1 {
            Value::Obj(o) => match o.get_str("display_name") {
                Some(d) => d.to_owned(),
                None => internal.clone(),
            },
            Value::Str(_) => internal.clone(),
        };
        let ghost before = out@;
        assert(es[i as int] == (internal@, list.0@[i as int].1@));
        assert(display@ == tool_display(es[i as int]));
        let item = (internal.clone(), display);
        assert(pair_view(item) == (es[i as int].0, tool_display(es[i as int])));
        out.push(item);
        assert(es.take(i + 1) =~= es.take(i as int).push(es[i as int]));
        assert(out@.map_values(|p: (String, String)| pair_view(p)) =~= before.map_values(
            |p: (String, String)| pair_view(p),
        ).push(pair_view(item)));
        assert(es.take(i + 1).map_values(|e: (Seq<char>, Node)| (e.0, tool_display(e))) =~= es.take(i as int).map_values(
            |e: (Seq<char>, Node)| (e.0, tool_display(e)),
        ).push((es[i as int].0, tool_display(es[i as int]))));
        assert(out@.map_values(|p: (String, String)| pair_view(p)) =~= es.take(i + 1).map_values(
            |e: (Seq<char>, Node)| (e.0, tool_display(e)),
        ));
        i += 1;
    }
    assert(es.take(es.len() as int) =~= es);
    out
}

/// `a` is listed before `b`: later display names first (`str` order).
pub open spec fn tool_before(a: (Seq<char>, Seq<char>), b: (Seq<char>, Seq<char>)) -> bool {
    crate::self_update::lex_lt(b.1, a.1)
}

/// `e` inserted into an ordered list before the first entry it goes before.
pub open spec fn insert_tool(l: Seq<(Seq<char>, Seq<char>)>, e: (Seq<char>, Seq<char>)) -> Seq<(Seq<char>, Seq<char>)>
    decreases l.len(),
{
    if l.len() == 0 {
        seq![e]
    } else if tool_before(e, l[0]) {
        seq![e] + l
    } else {
        seq![l[0]] + insert_tool(l.drop_first(), e)
    }
}

/// Compat tools by display name, later names first; equal names keep their order.
pub open spec fn sorted_tools(s: Seq<(Seq<char>, Seq<char>)>) -> Seq<(Seq<char>, Seq<char>)>
    decreases s.len(),
{
    if s.len() == 0 {
        seq![]
    } else {
        insert_tool(sorted_tools(s.drop_last()), s.last())
    }
}

pub open spec fn tool_pos(l: Seq<(Seq<char>, Seq<char>)>, e: (Seq<char>, Seq<char>), i: int) -> int
    decreases l.len() - i,
{
    if i < 0 || i >= l.len() {
        l.len() as int
    } else if tool_before(e, l[i]) {
        i
    } else {
        tool_pos(l, e, i + 1)
    }
}

proof fn lemma_tool_pos(l: Seq<(Seq<char>, Seq<char>)>, e: (Seq<char>, Seq<char>), i: int)
    requires
        0 <= i <= l.len(),
    ensures
        insert_tool(l.subrange(i, l.len() as int), e) == l.subrange(i, l.len() as int).insert(tool_pos(l, e, i) - i, e),
        i <= tool_pos(l, e, i) <= l.len(),
    decreases l.len() - i,
{
    let t = l.subrange(i, l.len() as int);
    if i < l.len() {
        assert(t[0] == l[i]);
        if tool_before(e, l[i]) {
            assert(seq![e] + t =~= t.insert(0, e));
        } else {
            lemma_tool_pos(l, e, i + 1);
            assert(t.drop_first() =~= l.subrange(i + 1, l.len() as int));
            let p = tool_pos(l, e, i + 1);
            assert(seq![t[0]] + t.drop_first().insert(p - (i + 1), e) =~= t.insert(p - i, e));
        }
    } else {
        assert(t =~= Seq::<(Seq<char>, Seq<char>)>::empty());
        assert(seq![e] =~= t.insert(0, e));
    }
}

fn display_after(a: &(String, String), b: &(String, String)) -> (r: bool)
    ensures
        r == tool_before(pair_view(*a), pair_view(*b)),
{
    let x = chars_of(a.1.as_str());
    let y = chars_of(b.1.as_str());
    crate::self_update::chars_gt(x.as_slice(), y.as_slice())
}

/// Compat tools ordered by display name, later names first; equal names keep their order.
pub fn sort_tools(tools: Vec<(String, String)>) -> (r: Vec<(String, String)>)
    ensures
        r@.map_values(|p: (String, String)| pair_view(p)) == sorted_tools(
            tools@.map_values(|p: (String, String)| pair_view(p)),
        ),
{
    let ghost all = tools@.map_values(|p: (String, String)| pair_view(p));
    let n = tools.len();
    let mut rest = tools;
    let mut out: Vec<(String, String)> = Vec::new();
    let mut k: usize = 0;
    while rest.len() > 0
        invariant
            k + rest@.len() == all.len(),
            all.len() == n,
            rest@.map_values(|p: (String, String)| pair_view(p)) == all.skip(k as int),
            out@.map_values(|p: (String, String)| pair_view(p)) == sorted_tools(all.take(k as int)),
        decreases rest@.len(),
    {
        let ghost rv = rest@;
        let e = rest.remove(0);
        assert(pair_view(e) == all[k as int]) by {
            assert(rv.map_values(|p: (String, String)| pair_view(p))[0] == all.skip(k as int)[0]);
        }
        let ghost prev = out@.map_values(|p: (String, String)| pair_view(p));
        let mut p: usize = 0;
        while p < out.len() && !display_after(&e, &out[p])
            invariant
                p <= out@.len(),
                prev == out@.map_values(|p: (String, String)| pair_view(p)),
                tool_pos(prev, pair_view(e), 0) == tool_pos(prev, pair_view(e), p as int),
            decreases out@.len() - p,
        {
            p += 1;
        }
        proof {
            lemma_tool_pos(prev, pair_view(e), 0);
            assert(prev.subrange(0, prev.len() as int) =~= prev);
            assert(all.take(k + 1).drop_last() =~= all.take(k as int));
        }
        out.insert(p, e);
        assert(out@.map_values(|p: (String, String)| pair_view(p)) =~= prev.insert(p as int, pair_view(e)));
        assert(rest@ =~= rv.skip(1));
        assert(rest@.map_values(|p: (String, String)| pair_view(p)) =~= rv.map_values(|p: (String, String)| pair_view(p)).skip(1));
        k += 1;
        assert(rest@.map_values(|p: (String, String)| pair_view(p)) =~= all.skip(k as int));
    }
    assert(all.take(k as int) =~= all);
    out
}

/// Where a custom compat tool named `tool` is installed, relative to its
/// `compatibilitytools.d` entry: its `install_path`, `.` when it gives none.
pub open spec fn custom_tool_path_of(root: Seq<(Seq<char>, Node)>, tool: Seq<char>) -> Option<Seq<char>> {
    match get_child(root, "compatibilitytools"@) {
        Some(c) => match get_child(c, "compat_tools"@) {
            Some(list) => match get_child(list, tool) {
                Some(t) => match get_text(t, "install_path"@) {
                    Some(p) => Some(p),
                    None => Some("."@),
                },
                None => None,
            },
            None => None,
        },
        None => None,
    }
}

/// Where a custom compat tool named `tool` is installed, relative to its directory, if a
/// parsed `compatibilitytool.vdf` declares it.
pub fn custom_tool_path_in(root: &Obj, tool: &str) -> (r: Option<String>)
    ensures
        (match r {
            Some(p) => Some(p@),
            None => None,
        }) == custom_tool_path_of(root@, tool@),
{
    let c = root.get_obj("compatibilitytools")?;
    let list = c.get_obj("compat_tools")?;
    let t = list.get_obj(tool)?;
    match t.get_str("install_path") {
        Some(p) => Some(p.to_owned()),
        None => Some(".".to_owned()),
    }
}

/// Whether the Steam app directory `name` holds Valve's Proton build for `tool`:
/// `proton_experimental` is "Proton - Experimental", `proton_hotfix` "Proton Hotfix", and
/// `proton_<digits>` is "Proton <digits>" followed by anything but another digit.
pub open spec fn proton_matches_spec(tool: Seq<char>, name: Seq<char>) -> bool {
    if tool == "proton_experimental"@ {
        name == "Proton - Experimental"@
    } else if tool == "proton_hotfix"@ {
        name == "Proton Hotfix"@
    } else if tool.len() >= 7 && tool.take(7) == "proton_"@ && crate::text::all_digits(tool.skip(7)) {
        let v = tool.skip(7);
        &&& name.len() >= 7 + v.len()
        &&& name.take(7) == "Proton "@
        &&& name.subrange(7, 7 + v.len() as int) == v
        &&& !(name.len() > 7 + v.len() && '0' <= name[7 + v.len() as int] <= '9')
    } else {
        false
    }
}

/// Whether the Steam app directory `name` holds Valve's Proton build for `tool`.
pub fn proton_matches(tool: &str, name: &str) -> (r: bool)
    ensures
        r == proton_matches_spec(tool@, name@),
{
    if crate::text::str_eq(tool, "proton_experimental") {
        return crate::text::str_eq(name, "Proton - Experimental");
    }
    if crate::text::str_eq(tool, "proton_hotfix") {
        return crate::text::str_eq(name, "Proton Hotfix");
    }
    let t = chars_of(tool);
    let n = chars_of(name);
    let tp = chars_of("proton_");
    let np = chars_of("Proton ");
    proof {
        reveal_strlit("proton_");
        reveal_strlit("Proton ");
    }
    if !crate::text::starts_with_chars(t.as_slice(), tp.as_slice()) {
        return false;
    }
    let v = vstd::slice::slice_subrange(t.as_slice(), 7, t.len());
    assert(v@ =~= tool@.skip(7));
    if !crate::text::all_digit_chars(v) {
        return false;
    }
    if !crate::text::starts_with_chars(n.as_slice(), np.as_slice()) {
        return false;
    }
    let rest = vstd::slice::slice_subrange(n.as_slice(), 7, n.len());
    if !crate::text::starts_with_chars(rest, v) {
        assert(!(name@.len() >= 7 + v@.len() && name@.subrange(7, 7 + v@.len() as int) == v@)) by {
            if name@.len() >= 7 + v@.len() && name@.subrange(7, 7 + v@.len() as int) == v@ {
                assert(rest@.take(v@.len() as int) =~= name@.subrange(7, 7 + v@.len() as int));
            }
        }
        return false;
    }
    assert(name@.subrange(7, 7 + v@.len() as int) =~= rest@.take(v@.len() as int));
    let after = 7 + v.len();
    !(after < n.len() && '0' <= n[after] && n[after] <= '9')
}

/// The install directory a parsed app manifest (`appmanifest_<id>.acf`) names.
pub fn installdir_in(root: &Obj) -> (r: Option<String>)
    ensures
        (match r {
            Some(d) => Some(d@),
            None => None,
        }) == match get_child(root@, "AppState"@) {
            Some(a) => get_text(a, "installdir"@),
            None => None,
        },
{
    let a = root.get_obj("AppState")?;
    match a.get_str("installdir") {
        Some(d) => Some(d.to_owned()),
        None => None,
    }
}

/// The Steam runtime a parsed `toolmanifest.vdf` asks for, by app id.
pub fn runtime_appid_in(root: &Obj) -> (r: Option<u32>)
    ensures
        r == match get_child(root@, "manifest"@) {
            Some(m) => match get_text(m, "require_tool_appid"@) {
                Some(t) => parse_u32_spec(t),
                None => None,
            },
            None => None,
        },
{
    let m = root.get_obj("manifest")?;
    let t = m.get_str("require_tool_appid")?;
    parse_u32(t)
}

/// Whether a `userdata` directory name stands for an account: its id is not 0.
pub fn is_account_id(id: u32) -> (r: bool)
    ensures
        r == (id != 0),
{
    id != 0
}

/// How recently an account was used: its login timestamp, or else how recently Steam
/// touched its `localconfig.vdf`.
pub fn user_stamp(login_stamp: u64, config_mtime: u64) -> (r: u64)
    ensures
        r == if login_stamp > 0 { login_stamp } else { config_mtime },
{
    if login_stamp > 0 { login_stamp } else { config_mtime }
}

} // verus!
