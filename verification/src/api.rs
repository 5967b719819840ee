//! The official PC launcher's version API: what a game build looks like and what its
//! answer means. Fetching and decoding the JSON is left to the caller.

use vstd::prelude::*;
use crate::error::Error;
use crate::text::{chars_of, parse_u64_chars, parse_u64_spec, push_char, push_str, signed_decimal, trim_chars, trimmed};

verus! {

pub const API_BASE: &'static str = "https://pc-client-api.funplus.com";
pub const GAME_PROJECT: &'static str = "worldx_global";

/// Executable inside the install directory, used when the API doesn't name one.
pub const DEFAULT_EXE: &'static str = "Aniimo.exe";

/// Display name used for the game everywhere (Steam shortcut, UI).
pub const GAME_NAME: &'static str = "Aniimo";

/// One downloadable build of the game client, as described by the API.
#[derive(Debug, Clone, PartialEq, Eq)]
pub struct GamePackage {
    /// Server-side build id. Changes with every release.
    pub id: u64,
    pub version_number: String,
    /// MD5 of the `.7z` archive (lowercase hex).
    pub md5: String,
    pub url: String,
    pub back_url: String,
    pub exe_start_name: String,
    /// Approximate total disk usage once the game has fetched its assets.
    pub package_file_size: Option<u64>,
    pub ext: PackageExt,
}

#[derive(Debug, Clone, Default, PartialEq, Eq)]
pub struct PackageExt {
    /// Size of the `.7z` download in bytes.
    pub archive_size: Option<u64>,
}

/// The API's answer: a code (0 for success), a message and the data.
pub struct Envelope<T> {
    pub code: i64,
    pub msg: String,
    pub data: Option<T>,
}

/// A URL with each `|` written as `%7C`.
pub open spec fn escape_pipes(s: Seq<char>) -> Seq<char>
    decreases s.len(),
{
    if s.len() == 0 {
        seq![]
    } else {
        escape_pipes(s.drop_last()) + if s.last() == '|' {
            seq!['%', '7', 'C']
        } else {
            seq![s.last()]
        }
    }
}

/// The download URLs of a package in order of preference: the main one, then the backup,
/// leaving out empty ones.
pub open spec fn download_urls_of(url: Seq<char>, back_url: Seq<char>) -> Seq<Seq<char>> {
    let a = if url.len() > 0 { seq![escape_pipes(url)] } else { seq![] };
    let b = if back_url.len() > 0 { seq![escape_pipes(back_url)] } else { seq![] };
    a + b
}

proof fn lemma_escape_pipes_concat(a: Seq<char>, b: Seq<char>)
    ensures
        escape_pipes(a + b) == escape_pipes(a) + escape_pipes(b),
    decreases b.len(),
{
    if b.len() == 0 {
        assert(a + b =~= a);
        assert(escape_pipes(b) =~= Seq::<char>::empty());
        assert(escape_pipes(a) + escape_pipes(b) =~= escape_pipes(a));
    } else {
        assert((a + b).drop_last() =~= a + b.drop_last());
        assert((a + b).last() == b.last());
        lemma_escape_pipes_concat(a, b.drop_last());
        assert(escape_pipes(a + b) =~= escape_pipes(a) + escape_pipes(b));
    }
}

proof fn lemma_escape_pipes_plain(a: Seq<char>)
    requires
        forall|i: int| 0 <= i < a.len() ==> a[i] != '|',
    ensures
        escape_pipes(a) == a,
    decreases a.len(),
{
    if a.len() > 0 {
        lemma_escape_pipes_plain(a.drop_last());
        assert(a.drop_last().push(a.last()) =~= a);
        assert(escape_pipes(a) =~= a);
    }
}

/// Escaping a URL for the CDN changes nothing but `|`: each `|` becomes `%7C`, every other
/// character is kept, in order. So it works piece by piece, and a URL without `|` comes
/// back unchanged.
pub proof fn law_escape_only_pipes(a: Seq<char>, b: Seq<char>, c: char)
    ensures
        escape_pipes(a + b) == escape_pipes(a) + escape_pipes(b),
        escape_pipes(seq![c]) == if c == '|' {
            seq!['%', '7', 'C']
        } else {
            seq![c]
        },
        (forall|i: int| 0 <= i < a.len() ==> a[i] != '|') ==> escape_pipes(a) == a,
{
    lemma_escape_pipes_concat(a, b);
    let one = seq![c];
    assert(one.drop_last() =~= Seq::<char>::empty());
    assert(escape_pipes(one.drop_last()) =~= Seq::<char>::empty());
    assert(escape_pipes(one) =~= (if c == '|' { seq!['%', '7', 'C'] } else { seq![c] }));
    if forall|i: int| 0 <= i < a.len() ==> a[i] != '|' {
        lemma_escape_pipes_plain(a);
    }
}

/// The download URLs are the package's main URL and then its backup URL, each left out
/// when empty; a URL without `|` is used exactly as the API gave it.
pub proof fn law_download_urls_in_order(url: Seq<char>, back_url: Seq<char>)
    requires
        forall|i: int| 0 <= i < url.len() ==> url[i] != '|',
        forall|i: int| 0 <= i < back_url.len() ==> back_url[i] != '|',
    ensures
        download_urls_of(url, back_url) == (if url.len() > 0 { seq![url] } else { Seq::<Seq<char>>::empty() }) + (
        if back_url.len() > 0 {
            seq![back_url]
        } else {
            Seq::<Seq<char>>::empty()
        }),
{
    law_escape_only_pipes(url, Seq::empty(), ' ');
    law_escape_only_pipes(back_url, Seq::empty(), ' ');
}

fn escaped(s: &str) -> (r: String)
    ensures
        r@ == escape_pipes(s@),
{
    let cs = chars_of(s);
    let mut out = String::new();
    let mut i: usize = 0;
    while i < cs.len()
        invariant
            i <= cs@.len(),
            cs@ == s@,
            out@ == escape_pipes(cs@.take(i as int)),
        decreases cs@.len() - i,
    {
        let c = cs[i];
        if c == '|' {
            push_char(&mut out, '%');
            push_char(&mut out, '7');
            push_char(&mut out, 'C');
        } else {
            push_char(&mut out, c);
        }
        assert(cs@.take(i + 1).drop_last() =~= cs@.take(i as int));
        i += 1;
    }
    assert(cs@.take(cs@.len() as int) =~= cs@);
    out
}

impl GamePackage {
    /// Download URLs in order of preference, with the literal `|` the CDN uses escaped.
    pub fn download_urls(&self) -> (r: Vec<String>)
        ensures
            r@.map_values(|u: String| u@) == download_urls_of(self.url@, self.back_url@),
    {
        let mut out: Vec<String> = Vec::new();
        if !self.url.as_str().is_empty() {
            out.push(escaped(self.url.as_str()));
        }
        let ghost first = out@;
        if !self.back_url.as_str().is_empty() {
            out.push(escaped(self.back_url.as_str()));
        }
        assert(out@.map_values(|u: String| u@) =~= download_urls_of(self.url@, self.back_url@));
        out
    }

    /// The executable to start: the one the API names, else [`DEFAULT_EXE`].
    pub fn exe_name(&self) -> (r: &str)
        ensures
            r@ == if self.exe_start_name@.len() == 0 {
                DEFAULT_EXE@
            } else {
                self.exe_start_name@
            },
    {
        if self.exe_start_name.as_str().is_empty() {
            DEFAULT_EXE
        } else {
            self.exe_start_name.as_str()
        }
    }
}

/// The message an API error carries: `code <code>: <msg>`.
pub open spec fn api_error_text(code: i64, msg: Seq<char>) -> Seq<char> {
    "code "@ + signed_decimal(code as int) + ": "@ + msg
}

/// The data of a successful answer (code 0 with data), else the API's error.
pub fn parse_envelope<T>(env: Envelope<T>) -> (r: Result<T, Error>)
    ensures
        (env.code == 0 && env.data is Some) ==> r == Ok::<T, Error>(env.data->0),
        !(env.code == 0 && env.data is Some) ==> (r matches Err(Error::Api(m)) && m@ == api_error_text(
            env.code,
            env.msg@,
        )),
{
    if env.code == 0 {
        if let Some(data) = env.data {
            return Ok(data);
        }
    }
    let mut m = String::new();
    push_str(&mut m, "code ");
    push_str(&mut m, crate::text::i64_to_string(env.code).as_str());
    push_str(&mut m, ": ");
    push_str(&mut m, env.msg.as_str());
    Err(Error::Api(m))
}

/// A size the API sent as text: the trimmed text parsed as a number, if it is one.
pub fn lenient_u64_text(s: &str) -> (r: Option<u64>)
    ensures
        r == parse_u64_spec(trimmed(s@)),
{
    let cs = chars_of(s);
    let t = trim_chars(cs.as_slice());
    parse_u64_chars(t.as_slice())
}

} // verus!
