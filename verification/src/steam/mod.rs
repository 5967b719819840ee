//! Steam integration: where Steam keeps its files, the non-Steam shortcut for the
//! game, the Proton version forced on it and the settings of its Wine prefix.
//!
//! Everything here works on paths as text and on parsed files; reading and writing
//! them, and talking to the Steam client, is left to the caller. Steam rewrites
//! `shortcuts.vdf` and `config.vdf` from memory on exit, so edits made here must be
//! written while Steam is closed.

pub mod artwork;
pub mod binary_vdf;
pub mod config;
pub mod process;
pub mod shortcuts;
pub mod text_vdf;
pub mod wine_reg;

use vstd::prelude::*;
use vstd::utf8::encode_utf8;
use crate::steam::wine_reg::{
    double_backslashes, get_value, header_of, headers_apart, holds_value_once, law_get_after_remove, law_get_after_set,
    law_set_keeps_other_keys, next_header, remove_lines, section_start, set_lines, starts_with_ci, RegFile,
};
use crate::text::{
    all_digits, chars_of, decimal, digits_value, find_chars, find_sub, i32_to_string, is_white_space, lemma_decimal_digits,
    lower_char, occurs_at, parse_u32_chars, parse_u32_spec, push_char, push_str, signed_decimal, trim_chars, trimmed,
    u64_to_string, unsigned_text,
};

verus! {

/// Proton 10 is the only version the game currently runs on (newer ones crash).
pub const DEFAULT_COMPAT_TOOL: &'static str = "proton_10";

/// Wine drive letter that points at the install directory.
pub const GAME_DRIVE: &'static str = "g:";

/// Single-window size used unless the user picks another: the Steam Deck's screen.
pub const DEFAULT_WINDOW_SIZE: (u32, u32) = (1280, 800);

/// Steam ids of individual accounts are this base plus the 32-bit account id.
pub const STEAMID64_BASE: u64 = 76_561_197_960_265_728;

/// Flatpak application id of Steam.
pub const FLATPAK_STEAM_ID: &'static str = "com.valvesoftware.Steam";

/// Outcome of a change to the game's Proton prefix.
#[derive(Debug, Clone, Copy, PartialEq, Eq)]
pub enum PrefixChange {
    Applied,
    /// The prefix doesn't exist yet and can't be prepared; retry after the first launch.
    Pending,
}

#[derive(Debug, Clone, Copy, PartialEq, Eq)]
pub enum Flavor {
    Native,
    Flatpak,
}

/// A Steam installation: its root directory and how it was installed.
#[derive(Debug, Clone, PartialEq, Eq)]
pub struct Steam {
    pub root: String,
    pub flavor: Flavor,
}

#[derive(Debug, Clone, PartialEq, Eq)]
pub struct User {
    /// 32-bit account id, which is also the `userdata/<id>` directory name.
    pub account_id: u32,
    pub persona: Option<String>,
    pub most_recent: bool,
}

#[derive(Debug, Clone)]
pub struct ShortcutSpec {
    pub name: String,
    pub exe: String,
    pub start_dir: String,
    pub launch_options: String,
    /// Internal compat tool name such as `proton_10`, or `None` to leave Steam's default.
    pub compat_tool: Option<String>,
    pub artwork: bool,
    /// Single-window size, or `None` to turn it off.
    pub single_window: Option<(u32, u32)>,
}

/// A command that starts the game the way Steam does.
#[derive(Debug, Clone)]
pub struct GameLaunch {
    pub program: String,
    pub args: Vec<String>,
    pub env: Vec<(String, String)>,
    pub dir: String,
}

/// Result of a change made while Steam was closed.
#[derive(Debug, Clone)]
pub struct Applied<T> {
    pub value: T,
    /// Steam was running, so it was closed for the change and started again.
    pub restarted: bool,
    /// After the restart, whether the change was still in place once Steam had loaded.
    /// `None` if Steam wasn't restarted or didn't come back in time.
    pub survived_restart: Option<bool>,
}

#[derive(Debug, Clone)]
pub struct Registered {
    pub appid: u32,
    pub created: bool,
    pub artwork: Vec<String>,
    /// Set when artwork was requested but could not be fetched.
    pub artwork_error: Option<String>,
    /// Single-window mode couldn't be set up yet; it will be after the first launch.
    pub single_window_pending: bool,
}

/// `base` with `rel` appended the way `PathBuf::push` does on Unix: an absolute `rel`
/// replaces `base`, otherwise a `/` separates them unless `base` is empty or already
/// ends with one.
pub open spec fn joined(base: Seq<char>, rel: Seq<char>) -> Seq<char> {
    if rel.len() > 0 && rel[0] == '/' {
        rel
    } else if base.len() == 0 {
        rel
    } else if base.last() == '/' {
        base + rel
    } else {
        base + seq!['/'] + rel
    }
}

/// `base` joined with `rel` (see [`joined`]).
pub fn path_join(base: &str, rel: &str) -> (r: String)
    ensures
        r@ == joined(base@, rel@),
{
    let mut out = String::new();
    if crate::text::starts_with_char(rel, '/') {
        push_str(&mut out, rel);
        assert(out@ =~= rel@);
        return out;
    }
    push_str(&mut out, base);
    if !base.is_empty() && !crate::text::ends_with_char(base, '/') {
        push_char(&mut out, '/');
    }
    push_str(&mut out, rel);
    assert(out@ =~= joined(base@, rel@));
    out
}

pub open spec fn userdata_path(root: Seq<char>, account_id: u32) -> Seq<char> {
    joined(joined(root, "userdata"@), decimal(account_id as nat))
}

pub open spec fn prefix_path(root: Seq<char>, appid: u32) -> Seq<char> {
    joined(joined(joined(root, "steamapps/compatdata"@), decimal(appid as nat)), "pfx"@)
}

impl Steam {
    pub fn config_vdf(&self) -> (r: String)
        ensures
            r@ == joined(self.root@, "config/config.vdf"@),
    {
        path_join(self.root.as_str(), "config/config.vdf")
    }

    pub fn userdata(&self, user: &User) -> (r: String)
        ensures
            r@ == userdata_path(self.root@, user.account_id),
    {
        let dir = path_join(self.root.as_str(), "userdata");
        let id = u64_to_string(user.account_id as u64);
        path_join(dir.as_str(), id.as_str())
    }

    pub fn shortcuts_vdf(&self, user: &User) -> (r: String)
        ensures
            r@ == joined(userdata_path(self.root@, user.account_id), "config/shortcuts.vdf"@),
    {
        let base = self.userdata(user);
        path_join(base.as_str(), "config/shortcuts.vdf")
    }

    pub fn grid_dir(&self, user: &User) -> (r: String)
        ensures
            r@ == joined(userdata_path(self.root@, user.account_id), "config/grid"@),
    {
        let base = self.userdata(user);
        path_join(base.as_str(), "config/grid")
    }

    pub fn localconfig_vdf(&self, user: &User) -> (r: String)
        ensures
            r@ == joined(userdata_path(self.root@, user.account_id), "config/localconfig.vdf"@),
    {
        let base = self.userdata(user);
        path_join(base.as_str(), "config/localconfig.vdf")
    }

    /// The Proton prefix Steam uses for a non-Steam shortcut. It always lives in the
    /// main Steam library, and only exists once the game has been launched.
    pub fn prefix_dir(&self, appid: u32) -> (r: String)
        ensures
            r@ == prefix_path(self.root@, appid),
    {
        let a = path_join(self.root.as_str(), "steamapps/compatdata");
        let id = u64_to_string(appid as u64);
        let b = path_join(a.as_str(), id.as_str());
        path_join(b.as_str(), "pfx")
    }
}

/// One step of the CRC-32 (IEEE) register, least significant bit first, with the
/// reflected polynomial `0xEDB88320`.
pub open spec fn crc32_step(r: u32) -> u32 {
    if r & 1 == 1 {
        (r >> 1u32) ^ 0xEDB8_8320u32
    } else {
        r >> 1u32
    }
}

/// `n` steps of the register.
pub open spec fn crc32_steps(r: u32, n: nat) -> u32
    decreases n,
{
    if n == 0 {
        r
    } else {
        crc32_steps(crc32_step(r), (n - 1) as nat)
    }
}

/// The register after the bytes, starting from all ones; each byte is folded into its low
/// bits and shifted through.
pub open spec fn crc32_register(bytes: Seq<u8>) -> u32
    decreases bytes.len(),
{
    if bytes.len() == 0 {
        0xFFFF_FFFFu32
    } else {
        crc32_steps(crc32_register(bytes.drop_last()) ^ (bytes.last() as u32), 8)
    }
}

/// The CRC-32 (IEEE) checksum of a byte string: the final register, inverted.
pub open spec fn crc32(bytes: Seq<u8>) -> u32 {
    !crc32_register(bytes)
}

/// `crc32fast::hash`: the CRC-32 (IEEE) of `bytes`, as [`crc32`] defines it.
#[verifier::external_body]
fn crc32_hash(bytes: &[u8]) -> (r: u32)
    ensures
        r == crc32(bytes@),
{
    crc32fast::hash(bytes)
}

/// Steam's id for a non-Steam shortcut from the CRC-32 of its quoted exe and name: the
/// checksum with the high bit set.
pub fn appid_from_crc(crc: u32) -> (r: u32)
    ensures
        r == crc | 0x8000_0000u32,
{
    crc | 0x8000_0000
}

/// Steam's id for a non-Steam shortcut: CRC32 of the quoted exe followed by the name,
/// with the high bit set. It names the Proton prefix and keys the compat mapping.
pub fn shortcut_appid(quoted_exe: &str, name: &str) -> (r: u32)
    ensures
        r == crc32(encode_utf8(quoted_exe@) + encode_utf8(name@)) | 0x8000_0000u32,
{
    let mut bytes: Vec<u8> = Vec::new();
    crate::text::push_bytes(&mut bytes, quoted_exe.as_bytes());
    crate::text::push_bytes(&mut bytes, name.as_bytes());
    appid_from_crc(crc32_hash(bytes.as_slice()))
}

/// App id the shortcut for `exe` will get.
pub fn appid_for(exe: &str, name: &str) -> (r: u32)
    ensures
        r == crc32(encode_utf8(shortcuts::quoted_path(exe@)) + encode_utf8(name@)) | 0x8000_0000u32,
{
    let q = shortcuts::quote(exe);
    shortcut_appid(q.as_str(), name)
}

/// `localconfig.vdf` keys non-Steam shortcuts under the signed 32-bit form of the app id.
pub fn signed_appid_key(appid: u32) -> (r: String)
    ensures
        r@ == signed_decimal((appid as i32) as int),
{
    i32_to_string(appid as i32)
}

/// The components of a Unix path as `Path::components` reads them: `/` for the root,
/// `.` only at the start of a relative path, then the parts between separators, empty
/// parts and other `.` parts left out.
pub open spec fn path_components(s: Seq<char>) -> Seq<Seq<char>> {
    let head: Seq<Seq<char>> = if s.len() > 0 && s[0] == '/' {
        seq![seq!['/']]
    } else if s == seq!['.'] || (s.len() >= 2 && s[0] == '.' && s[1] == '/') {
        seq![seq!['.']]
    } else {
        seq![]
    };
    head + parts_from(s, 0)
}

/// The parts of `s[pos..]` between `/`s, without empty parts and `.`.
pub open spec fn parts_from(s: Seq<char>, pos: int) -> Seq<Seq<char>>
    decreases s.len() - pos,
{
    if pos < 0 || pos > s.len() {
        seq![]
    } else {
        let k = crate::text::find_sub(s, seq!['/'], pos);
        let piece = match k {
            Some(k) => s.subrange(pos, k),
            None => s.subrange(pos, s.len() as int),
        };
        let here: Seq<Seq<char>> = if piece.len() == 0 || piece == seq!['.'] {
            seq![]
        } else {
            seq![piece]
        };
        match k {
            Some(k) => if pos <= k < s.len() {
                here + parts_from(s, k + 1)
            } else {
                here
            },
            None => here,
        }
    }
}

pub(crate) fn path_parts(s: &[char]) -> (r: Vec<Vec<char>>)
    ensures
        r@.map_values(|v: Vec<char>| v@) == path_components(s@),
{
    let mut out: Vec<Vec<char>> = Vec::new();
    if s.len() > 0 && s[0] == '/' {
        let mut root: Vec<char> = Vec::new();
        root.push('/');
        out.push(root);
    } else if (s.len() == 1 && s[0] == '.') || (s.len() >= 2 && s[0] == '.' && s[1] == '/') {
        let mut dot: Vec<char> = Vec::new();
        dot.push('.');
        out.push(dot);
    }
    proof {
        if s@ == seq!['.'] {
            assert(s@.len() == 1 && s@[0] == '.');
        }
        if s@.len() == 1 && s@[0] == '.' {
            assert(s@ =~= seq!['.']);
        }
    }
    assert(out@.map_values(|v: Vec<char>| v@) =~= path_components(s@).take(out@.len() as int));
    let ghost head = out@.map_values(|v: Vec<char>| v@);
    let mut sep: Vec<char> = Vec::new();
    sep.push('/');
    assert(sep@ =~= seq!['/']);
    let mut pos: usize = 0;
    assert(path_components(s@) =~= head + parts_from(s@, 0));
    loop
        invariant
            pos <= s@.len(),
            sep@ == seq!['/'],
            path_components(s@) == out@.map_values(|v: Vec<char>| v@) + parts_from(s@, pos as int),
        decreases s@.len() - pos,
    {
        let k = find_chars_slash(s, sep.as_slice(), pos);
        proof {
            crate::text::lemma_find_sub(s@, seq!['/'], pos as int);
        }
        let end = match k {
            Some(k) => k,
            None => s.len(),
        };
        let piece = vstd::slice::slice_subrange(s, pos, end);
        let skip = piece.len() == 0 || (piece.len() == 1 && piece[0] == '.');
        proof {
            if piece@ == seq!['.'] {
                assert(piece@[0] == '.');
            }
            if piece@.len() == 1 && piece@[0] == '.' {
                assert(piece@ =~= seq!['.']);
            }
        }
        let ghost before = out@.map_values(|v: Vec<char>| v@);
        if !skip {
            out.push(vstd::slice::slice_to_vec(piece));
            assert(out@.map_values(|v: Vec<char>| v@) =~= before.push(piece@));
        }
        match k {
            Some(k) => {
                assert(path_components(s@) =~= out@.map_values(|v: Vec<char>| v@) + parts_from(s@, k + 1));
                pos = k + 1;
            },
            None => {
                assert(path_components(s@) =~= out@.map_values(|v: Vec<char>| v@));
                return out;
            },
        }
    }
}

fn find_chars_slash(s: &[char], sep: &[char], pos: usize) -> (r: Option<usize>)
    ensures
        s@.len() <= usize::MAX,
        match r {
            Some(k) => crate::text::find_sub(s@, sep@, pos as int) == Some(k as int) && k + sep@.len() <= s@.len(),
            None => crate::text::find_sub(s@, sep@, pos as int) is None,
        },
{
    crate::text::find_chars(s, sep, pos)
}

/// Two paths are the same path when their components are (`PathBuf`'s `==`).
pub fn same_path(a: &str, b: &str) -> (r: bool)
    ensures
        r == (path_components(a@) == path_components(b@)),
{
    let ac = crate::text::chars_of(a);
    let bc = crate::text::chars_of(b);
    let pa = path_parts(ac.as_slice());
    let pb = path_parts(bc.as_slice());
    let ghost va = pa@.map_values(|v: Vec<char>| v@);
    let ghost vb = pb@.map_values(|v: Vec<char>| v@);
    if pa.len() != pb.len() {
        assert(va.len() != vb.len());
        return false;
    }
    let mut i: usize = 0;
    while i < pa.len()
        invariant
            i <= pa@.len(),
            pa@.len() == pb@.len(),
            va == pa@.map_values(|v: Vec<char>| v@),
            vb == pb@.map_values(|v: Vec<char>| v@),
            va == path_components(a@),
            vb == path_components(b@),
            forall|j: int| 0 <= j < i ==> va[j] == vb[j],
        decreases pa@.len() - i,
    {
        let x = &pa[i];
        let y = &pb[i];
        assert(va[i as int] == x@);
        assert(vb[i as int] == y@);
        if x.len() != y.len() {
            assert(va[i as int] != vb[i as int]);
            return false;
        }
        let mut m: usize = 0;
        while m < x.len()
            invariant
                m <= x@.len(),
                x@.len() == y@.len(),
                i < va.len(),
                va.len() == vb.len(),
                va[i as int] == x@,
                vb[i as int] == y@,
                va == path_components(a@),
                vb == path_components(b@),
                forall|q: int| 0 <= q < m ==> x@[q] == y@[q],
            decreases x@.len() - m,
        {
            if x[m] != y[m] {
                assert(x@[m as int] != y@[m as int]);
                assert(va[i as int] != vb[i as int]);
                return false;
            }
            m += 1;
        }
        assert(x@ =~= y@);
        i += 1;
    }
    assert(va =~= vb);
    true
}

/// Registry key of Wine's explorer settings.
pub const WINE_EXPLORER_KEY: &'static str = "Software\\Wine\\Explorer";

/// Registry key of Wine's virtual desktop sizes.
pub const WINE_DESKTOPS_KEY: &'static str = "Software\\Wine\\Explorer\\Desktops";

/// Name of the Wine virtual desktop configured for single-window mode. Wine only applies
/// the configured size to the desktop named "Default" (any other name fills the screen).
pub const WINE_DESKTOP_NAME: &'static str = "Default";

/// A `WxH` size: two numbers around the first `x`, white space around them ignored.
pub open spec fn size_of_text(s: Seq<char>) -> Option<(u32, u32)> {
    match find_sub(s, seq!['x'], 0) {
        None => None,
        Some(k) => match (parse_u32_spec(trimmed(s.take(k))), parse_u32_spec(trimmed(s.skip(k + 1)))) {
            (Some(w), Some(h)) => Some((w, h)),
            _ => None,
        },
    }
}

/// The single-window size configured in a prefix's `user.reg`: the explorer uses the
/// "Default" desktop and that desktop has a size.
pub open spec fn single_window_of(ls: Seq<Seq<char>>) -> Option<(u32, u32)> {
    if get_value(ls, WINE_EXPLORER_KEY@, "Desktop"@) != Some(WINE_DESKTOP_NAME@) {
        None
    } else {
        match get_value(ls, WINE_DESKTOPS_KEY@, WINE_DESKTOP_NAME@) {
            Some(v) => size_of_text(v),
            None => None,
        }
    }
}

/// A size as Wine stores it: `WxH`.
pub open spec fn size_text(w: u32, h: u32) -> Seq<char> {
    decimal(w as nat) + seq!['x'] + decimal(h as nat)
}

/// A prefix's `user.reg` after turning single-window mode on (`Some(size)`) or off, new
/// keys stamped with `now`, and whether there is anything to write. Turning it off only
/// removes the "Default" desktop; another virtual desktop the user set up stays.
pub open spec fn single_window_set(ls: Seq<Seq<char>>, size: Option<(u32, u32)>, now: u64) -> (Seq<Seq<char>>, bool) {
    match size {
        Some((w, h)) => (
            set_lines(
                set_lines(ls, WINE_EXPLORER_KEY@, "Desktop"@, WINE_DESKTOP_NAME@, now),
                WINE_DESKTOPS_KEY@,
                WINE_DESKTOP_NAME@,
                size_text(w, h),
                now,
            ),
            true,
        ),
        None => if get_value(ls, WINE_EXPLORER_KEY@, "Desktop"@) == Some(WINE_DESKTOP_NAME@) {
            (remove_lines(ls, WINE_EXPLORER_KEY@, "Desktop"@), true)
        } else {
            (ls, false)
        },
    }
}

proof fn lemma_no_white_digits(d: Seq<char>)
    requires
        d.len() > 0,
        all_digits(d),
    ensures
        trimmed(d) == d,
        unsigned_text(d) == Some(digits_value(d)),
{
    assert(!is_white_space(d[0]));
    assert(!is_white_space(d[d.len() - 1]));
    assert(d.subrange(0, d.len() as int) =~= d);
}

/// A size written as `WxH` reads back as that size.
proof fn lemma_size_text(w: u32, h: u32)
    ensures
        size_of_text(size_text(w, h)) == Some((w, h)),
{
    let dw = decimal(w as nat);
    let dh = decimal(h as nat);
    lemma_decimal_digits(w as nat);
    lemma_decimal_digits(h as nat);
    let s = size_text(w, h);
    let k = dw.len() as int;
    assert(s[k] == 'x');
    assert(s.subrange(k, k + 1) =~= seq!['x']);
    assert forall|m: int| 0 <= m < k implies !occurs_at(s, seq!['x'], m) by {
        assert(s.subrange(m, m + 1)[0] == s[m]);
        assert(s[m] == dw[m]);
    }
    lemma_find_first_at(s, seq!['x'], 0, k);
    assert(s.take(k) =~= dw);
    assert(s.skip(k + 1) =~= dh);
    lemma_no_white_digits(dw);
    lemma_no_white_digits(dh);
}

proof fn lemma_find_first_at(s: Seq<char>, p: Seq<char>, i: int, k: int)
    requires
        0 <= i <= k,
        k + p.len() <= s.len(),
        occurs_at(s, p, k),
        forall|m: int| i <= m < k ==> !occurs_at(s, p, m),
    ensures
        find_sub(s, p, i) == Some(k),
    decreases k - i,
{
    if i < k {
        lemma_find_first_at(s, p, i + 1, k);
    }
}

proof fn lemma_dbl_concat(a: Seq<char>, b: Seq<char>)
    ensures
        double_backslashes(a + b) == double_backslashes(a) + double_backslashes(b),
    decreases a.len(),
{
    if a.len() == 0 {
        assert(a + b =~= b);
    } else {
        assert((a + b).drop_first() =~= a.drop_first() + b);
        lemma_dbl_concat(a.drop_first(), b);
    }
}

/// The headers of Wine's explorer key and of its desktops subkey are apart.
proof fn lemma_wine_keys_apart()
    ensures
        headers_apart(WINE_DESKTOPS_KEY@, WINE_EXPLORER_KEY@),
{
    reveal_strlit("Software\\Wine\\Explorer");
    reveal_strlit("Software\\Wine\\Explorer\\Desktops");
    reveal_strlit("\\Desktops");
    let e = WINE_EXPLORER_KEY@;
    let suffix = "\\Desktops"@;
    assert(WINE_DESKTOPS_KEY@ =~= e + suffix);
    lemma_dbl_concat(e, suffix);
    let he = header_of(e);
    let hd = header_of(WINE_DESKTOPS_KEY@);
    let n = double_backslashes(e).len() as int;
    assert(double_backslashes(suffix)[0] == '\\');
    assert(hd[n + 1] == '\\');
    assert(he[n + 1] == ']');
    assert(!starts_with_ci(hd, he)) by {
        if starts_with_ci(hd, he) {
            assert(hd.subrange(0, he.len() as int)[n + 1] == hd[n + 1]);
            assert(lower_char(hd[n + 1]) == lower_char(he[n + 1]));
        }
    }
    assert(hd.len() > he.len());
}

/// After single-window mode is turned on with a size, the prefix reports that size; after it
/// is turned off, it reports none. Turning it off removes the first `Desktop` value of the
/// explorer key, so that key holding the value on one line at most is assumed for it.
pub proof fn law_single_window_round_trip(ls: Seq<Seq<char>>, size: Option<(u32, u32)>, now: u64)
    requires
        size is None ==> (section_start(ls, WINE_EXPLORER_KEY@) matches Some(st) ==> holds_value_once(
            ls,
            "Desktop"@,
            st + 1,
            next_header(ls, st + 1),
        )),
    ensures
        single_window_of(single_window_set(ls, size, now).0) == size,
{
    match size {
        Some((w, h)) => {
            let ls1 = set_lines(ls, WINE_EXPLORER_KEY@, "Desktop"@, WINE_DESKTOP_NAME@, now);
            let ls2 = set_lines(ls1, WINE_DESKTOPS_KEY@, WINE_DESKTOP_NAME@, size_text(w, h), now);
            law_get_after_set(ls, WINE_EXPLORER_KEY@, "Desktop"@, WINE_DESKTOP_NAME@, now);
            lemma_wine_keys_apart();
            law_set_keeps_other_keys(
                ls1,
                WINE_DESKTOPS_KEY@,
                WINE_DESKTOP_NAME@,
                size_text(w, h),
                now,
                WINE_EXPLORER_KEY@,
                "Desktop"@,
            );
            law_get_after_set(ls1, WINE_DESKTOPS_KEY@, WINE_DESKTOP_NAME@, size_text(w, h), now);
            lemma_size_text(w, h);
        },
        None => {
            if get_value(ls, WINE_EXPLORER_KEY@, "Desktop"@) == Some(WINE_DESKTOP_NAME@) {
                law_get_after_remove(ls, WINE_EXPLORER_KEY@, "Desktop"@);
            }
        },
    }
}

fn size_from_text(v: &str) -> (r: Option<(u32, u32)>)
    ensures
        r == size_of_text(v@),
{
    let cs = chars_of(v);
    let mut x: Vec<char> = Vec::new();
    x.push('x');
    assert(x@ =~= seq!['x']);
    let k = find_chars(cs.as_slice(), x.as_slice(), 0)?;
    let w = vstd::slice::slice_subrange(cs.as_slice(), 0, k);
    let h = vstd::slice::slice_subrange(cs.as_slice(), k + 1, cs.len());
    assert(w@ =~= v@.take(k as int));
    assert(h@ =~= v@.skip(k + 1));
    let wt = trim_chars(w);
    let ht = trim_chars(h);
    let wn = parse_u32_chars(wt.as_slice());
    let hn = parse_u32_chars(ht.as_slice());
    match (wn, hn) {
        (Some(a), Some(b)) => Some((a, b)),
        _ => None,
    }
}

fn is_default_desktop(v: &str) -> (r: bool)
    ensures
        r == (v@ == WINE_DESKTOP_NAME@),
{
    crate::text::str_eq(v, WINE_DESKTOP_NAME)
}

/// The single-window size configured in a prefix's parsed `user.reg`, if any.
pub fn single_window_size(reg: &RegFile) -> (r: Option<(u32, u32)>)
    ensures
        r == single_window_of(reg@),
{
    let desktop = reg.get(WINE_EXPLORER_KEY, "Desktop");
    let on = match &desktop {
        Some(d) => is_default_desktop(d.as_str()),
        None => false,
    };
    if !on {
        return None;
    }
    let size = reg.get(WINE_DESKTOPS_KEY, WINE_DESKTOP_NAME)?;
    size_from_text(size.as_str())
}

/// `WxH`.
pub fn format_size(w: u32, h: u32) -> (r: String)
    ensures
        r@ == size_text(w, h),
{
    let mut s = String::new();
    push_str(&mut s, u64_to_string(w as u64).as_str());
    push_char(&mut s, 'x');
    push_str(&mut s, u64_to_string(h as u64).as_str());
    s
}

/// Turn single-window mode on (`Some(size)`) or off in a prefix's parsed `user.reg`, new
/// keys stamped with `now`. Returns whether the file needs writing.
pub fn apply_single_window_at(reg: &mut RegFile, size: Option<(u32, u32)>, now: u64) -> (write: bool)
    ensures
        (final(reg)@, write) == single_window_set(old(reg)@, size, now),
{
    match size {
        Some((w, h)) => {
            reg.set_with_time(WINE_EXPLORER_KEY, "Desktop", WINE_DESKTOP_NAME, now);
            let text = format_size(w, h);
            reg.set_with_time(WINE_DESKTOPS_KEY, WINE_DESKTOP_NAME, text.as_str(), now);
            true
        },
        None => {
            let desktop = reg.get(WINE_EXPLORER_KEY, "Desktop");
            let ours = match &desktop {
                Some(d) => is_default_desktop(d.as_str()),
                None => false,
            };
            if ours {
                reg.remove(WINE_EXPLORER_KEY, "Desktop");
                true
            } else {
                false
            }
        },
    }
}

/// Turn single-window mode on (`Some(size)`) or off in a prefix's parsed `user.reg`; new
/// keys are stamped with the current time, as Wine does. Returns whether the file needs
/// writing.
pub fn apply_single_window(reg: &mut RegFile, size: Option<(u32, u32)>) -> (write: bool)
    ensures
        exists|now: u64| (final(reg)@, write) == single_window_set(old(reg)@, size, now),
{
    let now = wine_reg::unix_now();
    apply_single_window_at(reg, size, now)
}

/// The artwork files Steam keeps for a shortcut are named by its app id with one of these
/// endings, before the file extension.
pub open spec fn artwork_stems(appid: u32) -> Set<Seq<char>> {
    set![
        decimal(appid as nat),
        decimal(appid as nat) + "p"@,
        decimal(appid as nat) + "_hero"@,
        decimal(appid as nat) + "_logo"@,
        decimal(appid as nat) + "_icon"@,
    ]
}

/// A file name up to its first `.`.
pub open spec fn stem_of(name: Seq<char>) -> Seq<char> {
    match find_sub(name, seq!['.'], 0) {
        Some(k) => name.take(k),
        None => name,
    }
}

/// Whether a file in the grid directory is artwork of the shortcut `appid`.
pub fn is_artwork_of(file_name: &str, appid: u32) -> (r: bool)
    ensures
        r == artwork_stems(appid).contains(stem_of(file_name@)),
{
    let cs = chars_of(file_name);
    let mut dot: Vec<char> = Vec::new();
    dot.push('.');
    assert(dot@ =~= seq!['.']);
    let stem_chars = match find_chars(cs.as_slice(), dot.as_slice(), 0) {
        Some(k) => {
            let v = vstd::slice::slice_subrange(cs.as_slice(), 0, k);
            assert(v@ =~= file_name@.take(k as int));
            v
        },
        None => cs.as_slice(),
    };
    let stem = crate::text::string_from_chars(stem_chars);
    let id = u64_to_string(appid as u64);
    let suffixes = ["", "p", "_hero", "_logo", "_icon"];
    let mut i: usize = 0;
    while i < 5
        invariant
            i <= 5,
            stem@ == stem_of(file_name@),
            id@ == decimal(appid as nat),
            suffixes@ == seq!["", "p", "_hero", "_logo", "_icon"],
            forall|j: int| 0 <= j < i ==> stem@ != id@ + (#[trigger] suffixes@[j])@,
        decreases 5 - i,
    {
        let mut candidate = String::new();
        push_str(&mut candidate, id.as_str());
        push_str(&mut candidate, suffixes[i]);
        if crate::text::str_eq(stem.as_str(), candidate.as_str()) {
            proof {
                reveal_strlit("");
                assert(id@ + ""@ =~= id@);
            }
            return true;
        }
        i += 1;
    }
    proof {
        reveal_strlit("");
        assert(id@ + ""@ =~= id@);
        assert(stem@ != id@ + suffixes@[0]@);
    }
    false
}

/// Where Steam may be installed for a user whose home is `home`, in the order they are
/// looked at.
pub open spec fn candidates_of(home: Seq<char>) -> Seq<(Seq<char>, Flavor)> {
    seq![
        (joined(home, ".steam/steam"@), Flavor::Native),
        (joined(home, ".local/share/Steam"@), Flavor::Native),
        (joined(home, ".steam/debian-installation"@), Flavor::Native),
        (joined(joined(joined(home, ".var/app"@), FLATPAK_STEAM_ID@), ".local/share/Steam"@), Flavor::Flatpak),
    ]
}

/// Installations in order, without a root that is the same path as an earlier one.
pub open spec fn unique_roots(acc: Seq<(Seq<char>, Flavor)>, found: Seq<(Seq<char>, Flavor)>) -> Seq<(Seq<char>, Flavor)>
    decreases found.len(),
{
    if found.len() == 0 {
        acc
    } else {
        let e = found[0];
        let seen = exists|i: int| 0 <= i < acc.len() && path_components(#[trigger] acc[i].0) == path_components(e.0);
        unique_roots(if seen { acc } else { acc.push(e) }, found.drop_first())
    }
}

pub open spec fn steam_view(s: Steam) -> (Seq<char>, Flavor) {
    (s.root@, s.flavor)
}

impl Steam {
    /// Where Steam may be installed for a user whose home is `home`.
    pub fn candidates(home: &str) -> (r: Vec<(String, Flavor)>)
        ensures
            r@.map_values(|c: (String, Flavor)| (c.0@, c.1)) == candidates_of(home@),
    {
        let mut v: Vec<(String, Flavor)> = Vec::new();
        v.push((path_join(home, ".steam/steam"), Flavor::Native));
        v.push((path_join(home, ".local/share/Steam"), Flavor::Native));
        v.push((path_join(home, ".steam/debian-installation"), Flavor::Native));
        let a = path_join(home, ".var/app");
        let b = path_join(a.as_str(), FLATPAK_STEAM_ID);
        v.push((path_join(b.as_str(), ".local/share/Steam"), Flavor::Flatpak));
        assert(v@.map_values(|c: (String, Flavor)| (c.0@, c.1)) =~= candidates_of(home@));
        v
    }

    /// The installations found, from the candidates whose resolved root holds Steam's
    /// files (in candidate order): each root once.
    pub fn detect_in(found: Vec<(String, Flavor)>) -> (r: Vec<Steam>)
        ensures
            r@.map_values(|s: Steam| steam_view(s)) == unique_roots(
                seq![],
                found@.map_values(|c: (String, Flavor)| (c.0@, c.1)),
            ),
    {
        let ghost all = found@.map_values(|c: (String, Flavor)| (c.0@, c.1));
        let mut out: Vec<Steam> = Vec::new();
        let mut i: usize = 0;
        assert(all.skip(0) =~= all);
        assert(out@.map_values(|s: Steam| steam_view(s)) =~= Seq::<(Seq<char>, Flavor)>::empty());
        while i < found.len()
            invariant
                i <= found@.len(),
                all == found@.map_values(|c: (String, Flavor)| (c.0@, c.1)),
                unique_roots(seq![], all) == unique_roots(out@.map_values(|s: Steam| steam_view(s)), all.skip(i as int)),
            decreases found@.len() - i,
        {
            let ghost acc = out@.map_values(|s: Steam| steam_view(s));
            let mut seen = false;
            let mut j: usize = 0;
            while j < out.len()
                invariant
                    j <= out@.len(),
                    i < found@.len(),
                    acc == out@.map_values(|s: Steam| steam_view(s)),
                    seen == exists|m: int| 0 <= m < j && path_components(#[trigger] acc[m].0) == path_components(
                        found@[i as int].0@,
                    ),
                decreases out@.len() - j,
            {
                if same_path(out[j].root.as_str(), found[i].0.as_str()) {
                    seen = true;
                }
                proof {
                    if path_components(acc[j as int].0) == path_components(found@[i as int].0@) {
                        assert(exists|m: int| 0 <= m < j + 1 && path_components(#[trigger] acc[m].0) == path_components(
                            found@[i as int].0@,
                        ));
                    }
                }
                j += 1;
            }
            assert(all.skip(i as int)[0] == all[i as int]);
            assert(all.skip(i as int).drop_first() =~= all.skip(i + 1));
            if !seen {
                let root = found[i].0.clone();
                out.push(Steam { root, flavor: found[i].1 });
                assert(out@.map_values(|s: Steam| steam_view(s)) =~= acc.push(all[i as int]));
            }
            i += 1;
        }
        assert(all.skip(all.len() as int) =~= Seq::<(Seq<char>, Flavor)>::empty());
        out
    }
}

/// Items joined with `:`.
pub open spec fn join_colon(ps: Seq<Seq<char>>) -> Seq<char>
    decreases ps.len(),
{
    if ps.len() == 0 {
        seq![]
    } else if ps.len() == 1 {
        ps[0]
    } else {
        join_colon(ps.drop_last()) + seq![':'] + ps.last()
    }
}

/// The arguments Steam starts the game with: through the runtime's entry point when
/// there is one, then Proton's own `waitforexitandrun` with the exe.
pub open spec fn launch_args(proton: Seq<char>, runtime: bool, exe: Seq<char>) -> Seq<Seq<char>> {
    (if runtime {
        seq!["--verb=waitforexitandrun"@, "--"@, proton]
    } else {
        seq![]
    }) + seq!["waitforexitandrun"@, exe]
}

/// The environment Steam gives the game.
pub open spec fn launch_env(
    root: Seq<char>,
    compat_data: Seq<char>,
    install: Seq<char>,
    tool_paths: Seq<Seq<char>>,
    libraries: Seq<Seq<char>>,
    appid: u32,
) -> Seq<(Seq<char>, Seq<char>)> {
    let id = decimal(appid as nat);
    seq![
        ("STEAM_COMPAT_DATA_PATH"@, compat_data),
        ("STEAM_COMPAT_CLIENT_INSTALL_PATH"@, root),
        ("STEAM_COMPAT_INSTALL_PATH"@, install),
        ("STEAM_COMPAT_TOOL_PATHS"@, join_colon(tool_paths)),
        ("STEAM_COMPAT_LIBRARY_PATHS"@, join_colon(libraries)),
        ("STEAM_COMPAT_APP_ID"@, id),
        ("SteamAppId"@, id),
        ("SteamGameId"@, id),
    ]
}

fn joined_colon(ps: &[String]) -> (r: String)
    ensures
        r@ == join_colon(ps@.map_values(|s: String| s@)),
{
    let ghost v = ps@.map_values(|s: String| s@);
    let mut out = String::new();
    let mut i: usize = 0;
    while i < ps.len()
        invariant
            i <= ps@.len(),
            v == ps@.map_values(|s: String| s@),
            out@ == join_colon(v.take(i as int)),
        decreases ps@.len() - i,
    {
        if i > 0 {
            push_char(&mut out, ':');
        }
        push_str(&mut out, ps[i].as_str());
        proof {
            let t = v.take(i + 1);
            assert(t.drop_last() =~= v.take(i as int));
            if i == 0 {
                assert(out@ =~= t[0]);
            } else {
                assert(out@ =~= join_colon(v.take(i as int)) + seq![':'] + t.last());
            }
        }
        i += 1;
    }
    assert(v.take(ps@.len() as int) =~= v);
    out
}

fn owned(s: &str) -> (r: String)
    ensures
        r@ == s@,
{
    s.to_owned()
}

impl Steam {
    /// How Steam would start `exe` for the shortcut `appid`: the compat tool in
    /// `tool_dir` inside the Steam Linux Runtime container when its entry point is given
    /// (`runtime` = entry point and runtime directory), with the same `STEAM_COMPAT_*`
    /// environment. `compat_data` is the prefix's parent, `install` the exe's directory and
    /// `libraries` the Steam library folders.
    pub fn launch_plan(
        &self,
        appid: u32,
        exe: &str,
        install: &str,
        tool_dir: &str,
        runtime: Option<(&str, &str)>,
        compat_data: &str,
        libraries: &[String],
    ) -> (r: GameLaunch)
        ensures
            ({
                let proton = joined(tool_dir@, "proton"@);
                let tool_paths = match runtime {
                    Some((_, dir)) => seq![tool_dir@, dir@],
                    None => seq![tool_dir@],
                };
                &&& r.program@ == match runtime {
                    Some((entry, _)) => entry@,
                    None => proton,
                }
                &&& r.args@.map_values(|s: String| s@) == launch_args(proton, runtime is Some, exe@)
                &&& r.env@.map_values(|p: (String, String)| (p.0@, p.1@)) == launch_env(
                    self.root@,
                    compat_data@,
                    install@,
                    tool_paths,
                    libraries@.map_values(|s: String| s@),
                    appid,
                )
                &&& r.dir@ == install@
            }),
    {
        let proton = path_join(tool_dir, "proton");
        let mut tool_paths: Vec<String> = Vec::new();
        tool_paths.push(owned(tool_dir));
        let mut args: Vec<String> = Vec::new();
        let program = match runtime {
            Some((entry, dir)) => {
                tool_paths.push(owned(dir));
                args.push(owned("--verb=waitforexitandrun"));
                args.push(owned("--"));
                args.push(proton.clone());
                owned(entry)
            },
            None => proton.clone(),
        };
        args.push(owned("waitforexitandrun"));
        args.push(owned(exe));
        let id = u64_to_string(appid as u64);
        let mut env: Vec<(String, String)> = Vec::new();
        env.push((owned("STEAM_COMPAT_DATA_PATH"), owned(compat_data)));
        env.push((owned("STEAM_COMPAT_CLIENT_INSTALL_PATH"), self.root.clone()));
        env.push((owned("STEAM_COMPAT_INSTALL_PATH"), owned(install)));
        env.push((owned("STEAM_COMPAT_TOOL_PATHS"), joined_colon(tool_paths.as_slice())));
        env.push((owned("STEAM_COMPAT_LIBRARY_PATHS"), joined_colon(libraries)));
        env.push((owned("STEAM_COMPAT_APP_ID"), id.clone()));
        env.push((owned("SteamAppId"), id.clone()));
        env.push((owned("SteamGameId"), id));
        let r = GameLaunch { program, args, env, dir: owned(install) };
        proof {
            let tp = match runtime {
                Some((_, dir)) => seq![tool_dir@, dir@],
                None => seq![tool_dir@],
            };
            assert(tool_paths@.map_values(|s: String| s@) =~= tp);
            assert(r.args@.map_values(|s: String| s@) =~= launch_args(proton@, runtime is Some, exe@));
            assert(r.env@.map_values(|p: (String, String)| (p.0@, p.1@)) =~= launch_env(
                self.root@,
                compat_data@,
                install@,
                tp,
                libraries@.map_values(|s: String| s@),
                appid,
            ));
        }
        r
    }
}

/// `shortcuts.vdf` parsed, its failure reported against `file`.
pub fn parse_shortcuts(file: &str, data: &[u8]) -> (r: Result<binary_vdf::Obj, crate::error::Error>)
    ensures
        match binary_vdf::parse_spec(data@) {
            Some(es) => r matches Ok(o) && o@ == es,
            None => r matches Err(crate::error::Error::Vdf { file: f, message: m }) && f@ == file@
                && m@ == binary_vdf::parse_error(data@),
        },
{
    match binary_vdf::parse(data) {
        Ok(o) => Ok(o),
        Err(message) => Err(crate::error::Error::Vdf { file: file.to_owned(), message }),
    }
}

/// A text KeyValues file parsed, its failure reported against `file`.
pub fn parse_config(file: &str, src: &str) -> (r: Result<text_vdf::Obj, crate::error::Error>)
    ensures
        match text_vdf::parse_spec(src@) {
            Some(es) => r matches Ok(o) && o@ == es,
            None => r matches Err(crate::error::Error::Vdf { file: f, message: m }) && f@ == file@
                && m@ == text_vdf::parse_error(src@),
        },
{
    match text_vdf::parse(src) {
        Ok(o) => Ok(o),
        Err(message) => Err(crate::error::Error::Vdf { file: file.to_owned(), message }),
    }
}

/// What turning single-window mode on or off does to a prefix.
#[derive(Debug, Clone, Copy, PartialEq, Eq, Structural)]
pub enum PrefixPlan {
    /// Edit the prefix's `user.reg`.
    Edit,
    /// Copy the compat tool's template `user.reg` into the prefix first, then edit it.
    SeedFromTemplate,
    /// Nothing to write: the prefix does not exist and the mode is to be off.
    Done,
    /// The prefix cannot be prepared yet; try again after the game's first launch.
    Wait,
}

/// What turning single-window mode on (`turning_on`) or off does, given whether the
/// prefix's `user.reg` exists and whether the compat tool ships a template for it.
pub fn prefix_plan(reg_exists: bool, turning_on: bool, template_exists: bool) -> (r: PrefixPlan)
    ensures
        r == if reg_exists {
            PrefixPlan::Edit
        } else if !turning_on {
            PrefixPlan::Done
        } else if template_exists {
            PrefixPlan::SeedFromTemplate
        } else {
            PrefixPlan::Wait
        },
{
    if reg_exists {
        PrefixPlan::Edit
    } else if !turning_on {
        PrefixPlan::Done
    } else if template_exists {
        PrefixPlan::SeedFromTemplate
    } else {
        PrefixPlan::Wait
    }
}

} // verus!
