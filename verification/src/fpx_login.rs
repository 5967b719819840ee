//! The FunPlus FPX login host: a tiny Windows exe that loads the game's `FPX.dll` and
//! shows the email login dialog without starting the game. It is dropped next to the
//! plugin so the session lands in the Steam shortcut's prefix. Copying it there is left
//! to the caller.

use vstd::prelude::*;
use crate::steam::{joined, path_join};

verus! {

/// Relative to the game install directory.
pub const PLUGIN_DIR: &'static str = "Aniimo_Data/Plugins/x86_64";
pub const LOGIN_EXE_NAME: &'static str = "fpx_login.exe";
pub const CONFIG_NAME: &'static str = "config.json";
pub const FPX_DLL: &'static str = "FPX.dll";

/// `{install}/Aniimo_Data/Plugins/x86_64`.
pub fn plugin_dir(install_dir: &str) -> (r: String)
    ensures
        r@ == joined(install_dir@, PLUGIN_DIR@),
{
    path_join(install_dir, PLUGIN_DIR)
}

/// Path of the login host inside an install.
pub fn login_exe(install_dir: &str) -> (r: String)
    ensures
        r@ == joined(joined(install_dir@, PLUGIN_DIR@), LOGIN_EXE_NAME@),
{
    let d = plugin_dir(install_dir);
    path_join(d.as_str(), LOGIN_EXE_NAME)
}

/// Path of the game's FPX plugin, whose presence makes the login host usable.
pub fn fpx_dll(install_dir: &str) -> (r: String)
    ensures
        r@ == joined(joined(install_dir@, PLUGIN_DIR@), FPX_DLL@),
{
    let d = plugin_dir(install_dir);
    path_join(d.as_str(), FPX_DLL)
}

/// Whether a file must be (re)written: it is missing or holds other bytes.
pub fn needs_write(existing: Option<&[u8]>, bytes: &[u8]) -> (r: bool)
    ensures
        r == (existing is None || existing->0@ != bytes@),
{
    match existing {
        None => true,
        Some(e) => {
            if e.len() != bytes.len() {
                assert(e@.len() != bytes@.len());
                return true;
            }
            let mut i: usize = 0;
            while i < e.len()
                invariant
                    i <= e@.len(),
                    e@.len() == bytes@.len(),
                    existing == Some(e),
                    forall|j: int| 0 <= j < i ==> e@[j] == bytes@[j],
                decreases e@.len() - i,
            {
                if e[i] != bytes[i] {
                    assert(e@[i as int] != bytes@[i as int]);
                    return true;
                }
                i += 1;
            }
            assert(e@ =~= bytes@);
            false
        },
    }
}

} // verus!
