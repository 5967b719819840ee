//! Library artwork for the shortcut, taken from the game's official Steam store assets:
//! which images to fetch and what to call them. Looking the assets up and downloading
//! them is left to the caller.

use vstd::prelude::*;
use crate::text::{chars_of, decimal, find_chars, find_sub, push_chars, push_str, u64_to_string};

verus! {

/// The game's app id on the Steam store; only used to look up artwork.
pub const STORE_APP_ID: u32 = 4126040;

pub const ASSET_HOST: &'static str = "https://shared.akamai.steamstatic.com/store_item_assets/";
pub const ICON_HOST: &'static str = "https://shared.akamai.steamstatic.com/community_assets/images/apps/";

/// The store's asset names for the game.
#[derive(Debug, Clone, Default)]
pub struct Assets {
    pub asset_url_format: Option<String>,
    pub library_capsule: Option<String>,
    pub library_capsule_2x: Option<String>,
    pub header: Option<String>,
    pub header_2x: Option<String>,
    pub library_hero: Option<String>,
    pub library_hero_2x: Option<String>,
    pub library_logo: Option<String>,
    pub library_logo_2x: Option<String>,
    pub community_icon: Option<String>,
}

/// Files written for a shortcut; `icon` should be set as the shortcut's icon.
#[derive(Debug, Default)]
pub struct Written {
    pub files: Vec<String>,
    pub icon: Option<String>,
}

/// `s` with every occurrence of `pat` from `pos` on replaced by `rep`, left to right.
pub open spec fn replaced_from(s: Seq<char>, pat: Seq<char>, rep: Seq<char>, pos: int) -> Seq<char>
    decreases s.len() - pos,
{
    if pos < 0 || pos > s.len() || pat.len() == 0 {
        s.subrange(if 0 <= pos <= s.len() { pos } else { s.len() as int }, s.len() as int)
    } else {
        match find_sub(s, pat, pos) {
            Some(k) => if pos <= k && k + pat.len() <= s.len() {
                s.subrange(pos, k) + rep + replaced_from(s, pat, rep, k + pat.len())
            } else {
                s.subrange(pos, s.len() as int)
            },
            None => s.subrange(pos, s.len() as int),
        }
    }
}

/// `str::replace`.
pub open spec fn replaced(s: Seq<char>, pat: Seq<char>, rep: Seq<char>) -> Seq<char> {
    replaced_from(s, pat, rep, 0)
}

fn replace_all(s: &[char], pat: &[char], rep: &[char]) -> (r: Vec<char>)
    requires
        pat@.len() > 0,
    ensures
        r@ == replaced(s@, pat@, rep@),
{
    let mut out: Vec<char> = Vec::new();
    let mut pos: usize = 0;
    assert(s@.subrange(0, 0) =~= Seq::<char>::empty());
    loop
        invariant
            pos <= s@.len(),
            pat@.len() > 0,
            replaced(s@, pat@, rep@) == out@ + replaced_from(s@, pat@, rep@, pos as int),
        decreases s@.len() - pos,
    {
        match find_chars(s, pat, pos) {
            Some(k) => {
                proof {
                    crate::text::lemma_find_sub(s@, pat@, pos as int);
                }
                let ghost before = out@;
                let mut j = pos;
                while j < k
                    invariant
                        pos <= j <= k,
                        k <= s@.len(),
                        out@ == before + s@.subrange(pos as int, j as int),
                    decreases k - j,
                {
                    out.push(s[j]);
                    j += 1;
                    assert(out@ =~= before + s@.subrange(pos as int, j as int));
                }
                let ghost mid = out@;
                let mut m: usize = 0;
                while m < rep.len()
                    invariant
                        m <= rep@.len(),
                        out@ == mid + rep@.take(m as int),
                    decreases rep@.len() - m,
                {
                    out.push(rep[m]);
                    m += 1;
                    assert(out@ =~= mid + rep@.take(m as int));
                }
                assert(rep@.take(rep@.len() as int) =~= rep@);
                assert(out@ + replaced_from(s@, pat@, rep@, k + pat@.len()) =~= before + replaced_from(
                    s@,
                    pat@,
                    rep@,
                    pos as int,
                ));
                pos = k + pat.len();
            },
            None => {
                let ghost before = out@;
                let mut j = pos;
                while j < s.len()
                    invariant
                        pos <= j <= s@.len(),
                        out@ == before + s@.subrange(pos as int, j as int),
                    decreases s@.len() - j,
                {
                    out.push(s[j]);
                    j += 1;
                    assert(out@ =~= before + s@.subrange(pos as int, j as int));
                }
                return out;
            },
        }
    }
}

/// The store URL of the asset file `f`, when the store gave a URL format.
pub open spec fn asset_url(format: Option<Seq<char>>, f: Option<Seq<char>>) -> Option<Seq<char>> {
    match (format, f) {
        (Some(fmt), Some(f)) => if fmt.len() > 0 {
            Some(ASSET_HOST@ + replaced(fmt, "${FILENAME}"@, f))
        } else {
            None
        },
        _ => None,
    }
}

pub open spec fn opt_view(o: Option<String>) -> Option<Seq<char>> {
    match o {
        Some(s) => Some(s@),
        None => None,
    }
}

/// The preferred asset: the double-size one when there is one.
pub open spec fn first_of(a: Option<Seq<char>>, b: Option<Seq<char>>) -> Option<Seq<char>> {
    match a {
        Some(x) => Some(x),
        None => b,
    }
}

/// The images to fetch for the shortcut `appid`, as (URL, file name in the grid
/// directory): capsule, header, hero and logo, each where the store has one.
pub open spec fn artwork_plan(a: Assets, appid: u32) -> Seq<(Seq<char>, Seq<char>)> {
    let fmt = opt_view(a.asset_url_format);
    let id = decimal(appid as nat);
    let wanted = seq![
        (first_of(asset_url(fmt, opt_view(a.library_capsule_2x)), asset_url(fmt, opt_view(a.library_capsule))), id + "p.jpg"@),
        (first_of(asset_url(fmt, opt_view(a.header_2x)), asset_url(fmt, opt_view(a.header))), id + ".jpg"@),
        (first_of(asset_url(fmt, opt_view(a.library_hero_2x)), asset_url(fmt, opt_view(a.library_hero))), id + "_hero.jpg"@),
        (first_of(asset_url(fmt, opt_view(a.library_logo_2x)), asset_url(fmt, opt_view(a.library_logo))), id + "_logo.png"@),
    ];
    present(wanted)
}

/// The wanted images that have a URL.
pub open spec fn present(w: Seq<(Option<Seq<char>>, Seq<char>)>) -> Seq<(Seq<char>, Seq<char>)>
    decreases w.len(),
{
    if w.len() == 0 {
        seq![]
    } else {
        let rest = present(w.drop_last());
        match w.last().0 {
            Some(u) => rest.push((u, w.last().1)),
            None => rest,
        }
    }
}

fn url_for(format: &Option<String>, f: &Option<String>) -> (r: Option<String>)
    ensures
        opt_view(r) == asset_url(opt_view(*format), opt_view(*f)),
{
    match (format, f) {
        (Some(fmt), Some(f)) => {
            if fmt.as_str().is_empty() {
                return None;
            }
            let fc = chars_of(fmt.as_str());
            let pat = chars_of("${FILENAME}");
            proof {
                reveal_strlit("${FILENAME}");
            }
            assert(pat@.len() > 0);
            let rep = chars_of(f.as_str());
            let body = replace_all(fc.as_slice(), pat.as_slice(), rep.as_slice());
            let mut u = String::new();
            push_str(&mut u, ASSET_HOST);
            push_chars(&mut u, body.as_slice());
            Some(u)
        },
        _ => None,
    }
}

fn prefer(a: Option<String>, b: Option<String>) -> (r: Option<String>)
    ensures
        opt_view(r) == first_of(opt_view(a), opt_view(b)),
{
    match a {
        Some(x) => Some(x),
        None => b,
    }
}

fn file_name(id: &String, suffix: &str) -> (r: String)
    ensures
        r@ == id@ + suffix@,
{
    let mut s = String::new();
    push_str(&mut s, id.as_str());
    push_str(&mut s, suffix);
    s
}

/// The images to fetch for the shortcut `appid`, as (URL, file name in the grid directory).
pub fn artwork_downloads(assets: &Assets, appid: u32) -> (r: Vec<(String, String)>)
    ensures
        r@.map_values(|p: (String, String)| (p.0@, p.1@)) == artwork_plan(*assets, appid),
{
    let fmt = &assets.asset_url_format;
    let id = u64_to_string(appid as u64);
    let wanted: [(Option<String>, String); 4] = [
        (prefer(url_for(fmt, &assets.library_capsule_2x), url_for(fmt, &assets.library_capsule)), file_name(&id, "p.jpg")),
        (prefer(url_for(fmt, &assets.header_2x), url_for(fmt, &assets.header)), file_name(&id, ".jpg")),
        (prefer(url_for(fmt, &assets.library_hero_2x), url_for(fmt, &assets.library_hero)), file_name(&id, "_hero.jpg")),
        (prefer(url_for(fmt, &assets.library_logo_2x), url_for(fmt, &assets.library_logo)), file_name(&id, "_logo.png")),
    ];
    let ghost w = wanted@.map_values(|p: (Option<String>, String)| (opt_view(p.0), p.1@));
    assert(w.len() == 4);
    let mut out: Vec<(String, String)> = Vec::new();
    let mut i: usize = 0;
    while i < 4
        invariant
            i <= 4,
            wanted@.len() == 4,
            w == wanted@.map_values(|p: (Option<String>, String)| (opt_view(p.0), p.1@)),
            out@.map_values(|p: (String, String)| (p.0@, p.1@)) == present(w.take(i as int)),
        decreases 4 - i,
    {
        assert(w.take(i + 1).drop_last() =~= w.take(i as int));
        let ghost before = out@;
        match &wanted[i].0 {
            Some(u) => {
                out.push((u.clone(), wanted[i].1.clone()));
                assert(out@.map_values(|p: (String, String)| (p.0@, p.1@)) =~= before.map_values(
                    |p: (String, String)| (p.0@, p.1@),
                ).push((u@, wanted@[i as int].1@)));
            },
            None => {},
        }
        i += 1;
    }
    assert(w.take(4) =~= w);
    let ghost fmtv = opt_view(assets.asset_url_format);
    assert(w =~= seq![
        (first_of(asset_url(fmtv, opt_view(assets.library_capsule_2x)), asset_url(fmtv, opt_view(assets.library_capsule))), id@ + "p.jpg"@),
        (first_of(asset_url(fmtv, opt_view(assets.header_2x)), asset_url(fmtv, opt_view(assets.header))), id@ + ".jpg"@),
        (first_of(asset_url(fmtv, opt_view(assets.library_hero_2x)), asset_url(fmtv, opt_view(assets.library_hero))), id@ + "_hero.jpg"@),
        (first_of(asset_url(fmtv, opt_view(assets.library_logo_2x)), asset_url(fmtv, opt_view(assets.library_logo))), id@ + "_logo.png"@),
    ]);
    out
}

/// The shortcut's icon to fetch, as (URL, file name), when the store has one.
pub fn icon_download(assets: &Assets, appid: u32) -> (r: Option<(String, String)>)
    ensures
        match assets.community_icon {
            Some(hash) => r matches Some((url, name)) && url@ == ICON_HOST@ + decimal(STORE_APP_ID as nat)
                + "/"@ + hash@ + ".jpg"@ && name@ == decimal(appid as nat) + "_icon.jpg"@,
            None => r is None,
        },
{
    match &assets.community_icon {
        Some(hash) => {
            let mut url = String::new();
            push_str(&mut url, ICON_HOST);
            push_str(&mut url, u64_to_string(STORE_APP_ID as u64).as_str());
            push_str(&mut url, "/");
            push_str(&mut url, hash.as_str());
            push_str(&mut url, ".jpg");
            let id = u64_to_string(appid as u64);
            Some((url, file_name(&id, "_icon.jpg")))
        },
        None => None,
    }
}

} // verus!
