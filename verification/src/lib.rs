//! Core logic of a launcher that installs Aniimo and registers it with Steam:
//! Steam's KeyValues formats, Wine registry files, version checks and the
//! game's asset manifest.

use vstd::prelude::*;

pub mod api;
pub mod checksum;
pub mod download;
pub mod error;
pub mod extract;
pub mod fpx_login;
pub mod install;
pub mod launcher;
pub mod self_update;
pub mod settings;
pub mod steam;
pub mod text;
pub mod yoo;

verus! {

} // verus!
