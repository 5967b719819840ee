//! Installing, updating and inspecting a game installation.
//!
//! State lives inside the install directory (`.yaccgl/state.json`), so pointing the
//! launcher at an existing folder picks up what is already there. Reading that file,
//! downloading and unpacking are left to the caller.

use vstd::prelude::*;
use crate::api::GamePackage;
use crate::steam::{joined, path_join};
use crate::text::{chars_of, lower_char, push_char, push_str};

verus! {

pub const STATE_DIR: &'static str = ".yaccgl";
pub const STATE_FILE: &'static str = "state.json";
pub const CACHE_DIR: &'static str = "cache";

/// Unpacked client size is about 2.8x the archive; keep extra headroom.
pub const UNPACK_FACTOR: u64 = 3;

/// Archive size assumed when the API does not give one.
pub const DEFAULT_ARCHIVE_SIZE: u64 = 400_000_000;

#[derive(Debug, Clone, PartialEq, Eq)]
pub struct InstallState {
    pub package: GamePackage,
    /// Unix timestamp of the last successful install/update.
    pub installed_at: u64,
}

#[derive(Debug, Clone, PartialEq, Eq)]
pub enum Status {
    NotInstalled,
    UpToDate(InstallState),
    UpdateAvailable { installed: InstallState, latest: GamePackage },
}

#[derive(Debug, Clone, Copy, PartialEq, Eq)]
pub enum Progress {
    Downloading { done: u64, total: Option<u64> },
    Verifying { done: u64, total: u64 },
    Extracting { done: u64, total: u64 },
}

fn copy_string(s: &String) -> (r: String)
    ensures
        r == *s,
{
    s.clone()
}

/// An exact copy of a package.
pub fn copy_package(p: &GamePackage) -> (r: GamePackage)
    ensures
        r == *p,
{
    GamePackage {
        id: p.id,
        version_number: copy_string(&p.version_number),
        md5: copy_string(&p.md5),
        url: copy_string(&p.url),
        back_url: copy_string(&p.back_url),
        exe_start_name: copy_string(&p.exe_start_name),
        package_file_size: p.package_file_size,
        ext: crate::api::PackageExt { archive_size: p.ext.archive_size },
    }
}

/// What the installation whose recorded state is `state` is, compared with the latest
/// build: not installed without a state, up to date when the build id and archive MD5
/// match, else an update is available.
pub fn status(state: Option<InstallState>, latest: &GamePackage) -> (r: Status)
    ensures
        r == match state {
            None => Status::NotInstalled,
            Some(s) => if s.package.id == latest.id && s.package.md5@ == latest.md5@ {
                Status::UpToDate(s)
            } else {
                Status::UpdateAvailable { installed: s, latest: *latest }
            },
        },
{
    match state {
        None => Status::NotInstalled,
        Some(s) => {
            if s.package.id == latest.id && s.package.md5 == latest.md5 {
                Status::UpToDate(s)
            } else {
                Status::UpdateAvailable { installed: s, latest: copy_package(latest) }
            }
        },
    }
}

/// Where the game's executable is in an install directory.
pub fn exe_path(dir: &str, package: &GamePackage) -> (r: String)
    ensures
        r@ == joined(
            dir@,
            if package.exe_start_name@.len() == 0 {
                crate::api::DEFAULT_EXE@
            } else {
                package.exe_start_name@
            },
        ),
{
    path_join(dir, package.exe_name())
}

/// Bytes needed on disk to download and unpack `package`: the archive and its contents,
/// taken as `UNPACK_FACTOR` times the archive.
pub open spec fn required_space_of(package: GamePackage) -> int {
    (match package.ext.archive_size {
        Some(n) => n as int,
        None => DEFAULT_ARCHIVE_SIZE as int,
    }) * (1 + UNPACK_FACTOR)
}

/// Bytes needed on disk to download and unpack `package`.
pub fn required_space(package: &GamePackage) -> (r: u64)
    requires
        required_space_of(*package) <= u64::MAX,
    ensures
        r == required_space_of(*package),
{
    let size = match package.ext.archive_size {
        Some(n) => n,
        None => DEFAULT_ARCHIVE_SIZE,
    };
    size * (1 + UNPACK_FACTOR)
}

/// Bytes still to be found on disk when `already` bytes of the download are there.
pub fn needed_space(package: &GamePackage, already: u64) -> (r: u64)
    requires
        required_space_of(*package) <= u64::MAX,
    ensures
        r == if required_space_of(*package) > already { required_space_of(*package) - already } else { 0 },
{
    let req = required_space(package);
    req.saturating_sub(already)
}

/// Whether an install may go on: the free space, when it is known, covers what is needed.
pub fn enough_space(needed: u64, free: Option<u64>) -> (r: bool)
    ensures
        r == match free {
            Some(f) => f >= needed,
            None => true,
        },
{
    match free {
        Some(f) => f >= needed,
        None => true,
    }
}

/// File name of the downloaded archive in the cache: the lower-cased MD5 and `.7z`.
pub fn archive_name(package: &GamePackage) -> (r: String)
    ensures
        r@ == package.md5@.map_values(|c: char| lower_char(c)) + ".7z"@,
{
    let cs = chars_of(package.md5.as_str());
    let mut out = String::new();
    let mut i: usize = 0;
    while i < cs.len()
        invariant
            i <= cs@.len(),
            cs@ == package.md5@,
            out@ == cs@.take(i as int).map_values(|c: char| lower_char(c)),
        decreases cs@.len() - i,
    {
        push_char(&mut out, crate::text::lower_ascii(cs[i]));
        i += 1;
        assert(out@ =~= cs@.take(i as int).map_values(|c: char| lower_char(c)));
    }
    assert(cs@.take(cs@.len() as int) =~= cs@);
    push_str(&mut out, ".7z");
    out
}

/// `dir/.yaccgl/state.json`.
pub fn state_path(dir: &str) -> (r: String)
    ensures
        r@ == joined(joined(dir@, STATE_DIR@), STATE_FILE@),
{
    let d = path_join(dir, STATE_DIR);
    path_join(d.as_str(), STATE_FILE)
}

/// `dir/.yaccgl/cache`.
pub fn cache_dir(dir: &str) -> (r: String)
    ensures
        r@ == joined(joined(dir@, STATE_DIR@), CACHE_DIR@),
{
    let d = path_join(dir, STATE_DIR);
    path_join(d.as_str(), CACHE_DIR)
}

/// Whether a file in the download cache is left over from another download: it is
/// neither the archive being kept nor that archive's partial download.
pub fn is_stale_download(file: &str, keep: &str) -> (r: bool)
    ensures
        r == (crate::steam::path_components(file@) != crate::steam::path_components(keep@)
            && crate::steam::path_components(file@) != crate::steam::path_components(keep@ + ".part"@)),
{
    let part = crate::download::part_path(keep);
    !crate::steam::same_path(file, keep) && !crate::steam::same_path(file, part.as_str())
}

} // verus!
