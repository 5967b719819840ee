# yaccgl_core

The core of a launcher that installs the standalone PC version of Aniimo on Linux and adds
it to Steam as a non-Steam game, with its decisions proved by Verus.

`src/` is the verified library. Every function in it has a contract, and Verus checks
each body against its contract:

- `steam/binary_vdf.rs`, `steam/text_vdf.rs`, `steam/wine_reg.rs`: readers and writers for
  `shortcuts.vdf`, the text KeyValues files and Wine's `user.reg`. Their laws include
  reading back what was written and the effect of each edit on a lookup.
- `steam/shortcuts.rs`, `steam/config.rs`, `steam/mod.rs`, `steam/process.rs`,
  `steam/artwork.rs`: the game's shortcut, the Proton version forced on it, Steam Input,
  Steam accounts and libraries, single-window mode and how the game is launched.
- `yoo.rs`: the game's YooAsset manifest and the checks of its asset cache.
- `api.rs`, `download.rs`, `install.rs`, `extract.rs`, `fpx_login.rs`, `settings.rs`,
  `self_update.rs`: what the version API answers, resuming downloads, install state,
  safe archive paths, the login helper, preferences and launcher updates.
- `launcher.rs`: what the launcher window shows and offers for a given state.
- `checksum.rs`: MD5 and CRC-32 computed a piece at a time, for files read in chunks.
- `text.rs`: character, number and path helpers shared by the others.

A few calls into std and outside crates (`crc32fast`, `md-5`, `hex`) sit behind small
trusted wrappers whose contracts say what those functions do.

`app/` is the command-line program around the library: network, files, the 7z archive,
the Steam client and printing. `tests/` exercises the library on concrete values.
