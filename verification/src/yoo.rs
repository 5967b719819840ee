//! YooAsset cache verification for the game's `DefaultPackage`.
//!
//! The game downloads tens of gigabytes of asset bundles into a YooAsset cache
//! (`.../BundleFiles/{hash[0:2]}/{hash}/__data`). Its PackageManifest still advertises
//! YooAsset 1.4 but stores a compact bundle table (u8 names, raw MD5 + CRC32), found
//! after the asset list by its `.uab` bundle names. This module reads that manifest
//! and sums up a check of the cache; hashing the files is left to the caller.

use vstd::prelude::*;
use vstd::slice::slice_subrange;
use crate::error::Error;
use crate::text::{char_from_ascii, chars_of, decimal, hex_lower, hex_num, hex_u32, push_char, push_str, u64_to_string};

verus! {

/// `"YOO\0"` read as a little-endian number.
pub const MAGIC: u32 = 0x594F4F;

/// Name of a bundle's data file inside its cache folder.
pub const DATA_FILE: &'static str = "__data";

#[derive(Debug, Clone)]
pub struct Bundle {
    pub name: String,
    /// 32 lowercase hex chars (MD5). Also the cache folder name (CacheGUID).
    pub file_hash: String,
    /// 8 lowercase hex chars (CRC32 as little-endian bytes, YooAsset style).
    pub file_crc: String,
    pub file_size: u64,
}

/// What a bundle holds: name, hash, CRC and size.
pub open spec fn bundle_view(b: Bundle) -> (Seq<char>, Seq<char>, Seq<char>, u64) {
    (b.name@, b.file_hash@, b.file_crc@, b.file_size)
}

pub open spec fn bundles_view(v: Seq<Bundle>) -> Seq<(Seq<char>, Seq<char>, Seq<char>, u64)> {
    v.map_values(|b: Bundle| bundle_view(b))
}

/// Little-endian 16-bit value at `i`.
pub open spec fn le16(d: Seq<u8>, i: int) -> nat {
    (d[i] + d[i + 1] * 256) as nat
}

/// Little-endian 32-bit value at `i`.
pub open spec fn le32(d: Seq<u8>, i: int) -> nat {
    (d[i] + d[i + 1] * 256 + d[i + 2] * 65536 + d[i + 3] * 16777216) as nat
}

/// Little-endian signed 32-bit value at `i`.
pub open spec fn le_i32(d: Seq<u8>, i: int) -> int {
    if le32(d, i) >= 0x8000_0000 {
        le32(d, i) - 0x1_0000_0000
    } else {
        le32(d, i) as int
    }
}

/// Printable ASCII only.
pub open spec fn printable(s: Seq<u8>) -> bool {
    forall|k: int| 0 <= k < s.len() ==> 32 <= #[trigger] s[k] < 127
}

/// The characters of ASCII bytes.
pub open spec fn ascii_text(s: Seq<u8>) -> Seq<char> {
    Seq::new(s.len(), |k: int| (s[k] as u32) as char)
}

/// One bundle record at `i` and the position after it:
/// `u8 nameLen | name | [16] md5 | [4] crc | i32 size | u16 refCount | i32 refs...`.
pub open spec fn bundle_at(d: Seq<u8>, i: int) -> Option<((Seq<char>, Seq<char>, Seq<char>, u64), int)> {
    if i < 0 || i >= d.len() {
        None
    } else {
        let nlen = d[i] as int;
        let j = i + 1;
        if nlen == 0 || j + nlen + 26 > d.len() {
            None
        } else if !printable(d.subrange(j, j + nlen)) {
            None
        } else {
            let h = j + nlen;
            let size = le_i32(d, h + 20);
            if !(0 <= size < 500_000_000) {
                None
            } else {
                let nref = le16(d, h + 24);
                let k = h + 26;
                if nref > 10_000 || k + 4 * nref > d.len() {
                    None
                } else {
                    Some(
                        (
                            (
                                ascii_text(d.subrange(j, j + nlen)),
                                hex_lower(d.subrange(h, h + 16)),
                                hex_lower(d.subrange(h + 16, h + 20)),
                                size as u64,
                            ),
                            k + 4 * nref,
                        ),
                    )
                }
            }
        }
    }
}

/// `count` bundle records from `i`, and the position after them.
pub open spec fn bundles_from(d: Seq<u8>, i: int, count: nat) -> Option<
    (Seq<(Seq<char>, Seq<char>, Seq<char>, u64)>, int),
>
    decreases count,
{
    if count == 0 {
        Some((seq![], i))
    } else {
        match bundle_at(d, i) {
            None => None,
            Some((b, next)) => match bundles_from(d, next, (count - 1) as nat) {
                Some((rest, e)) => Some((seq![b] + rest, e)),
                None => None,
            },
        }
    }
}

/// The bundle table whose count is at `start`, when it runs exactly to the end of the data.
/// The count is an `i32` taken as `usize`.
pub open spec fn bundles_at(d: Seq<u8>, start: int) -> Option<Seq<(Seq<char>, Seq<char>, Seq<char>, u64)>> {
    let count = ((le_i32(d, start) as i32) as usize) as nat;
    match bundles_from(d, start + 4, count) {
        Some((bs, e)) => if e == d.len() {
            Some(bs)
        } else {
            None
        },
        None => None,
    }
}

/// The bytes of `.uab` start at `p`.
pub open spec fn uab_at(d: Seq<u8>, p: int) -> bool {
    0 <= p && p + 4 <= d.len() && d[p] == 0x2e && d[p + 1] == 0x75 && d[p + 2] == 0x61 && d[p + 3] == 0x62
}

/// The first `.uab` at or after `from`.
pub open spec fn find_uab(d: Seq<u8>, from: int) -> Option<int>
    decreases d.len() - from,
{
    if from < 0 || from + 4 > d.len() {
        None
    } else if uab_at(d, from) {
        Some(from)
    } else {
        find_uab(d, from + 1)
    }
}

/// For a bundle name ending at `end`, try name lengths `nlen` down to 5: the byte before
/// the name must be its length, the name printable, and a whole table must start right
/// before the length byte.
pub open spec fn try_lengths(d: Seq<u8>, end: int, nlen: int) -> Option<Seq<(Seq<char>, Seq<char>, Seq<char>, u64)>>
    decreases nlen,
{
    if nlen < 5 {
        None
    } else {
        let rest = try_lengths(d, end, nlen - 1);
        if end < nlen + 5 {
            rest
        } else {
            let ns = end - nlen;
            if d[ns - 1] as int != nlen {
                rest
            } else if !printable(d.subrange(ns, end)) {
                rest
            } else {
                match bundles_at(d, ns - 5) {
                    Some(b) => Some(b),
                    None => rest,
                }
            }
        }
    }
}

/// The bundle table found from the first `.uab` name at or after `from` on.
pub open spec fn search_table(d: Seq<u8>, from: int) -> Option<Seq<(Seq<char>, Seq<char>, Seq<char>, u64)>>
    decreases d.len() - from,
{
    if from < 0 {
        None
    } else {
        match find_uab(d, from) {
            None => None,
            Some(p) => match try_lengths(d, p + 4, 200) {
                Some(b) => Some(b),
                None => if from < p + 4 <= d.len() {
                    search_table(d, p + 4)
                } else {
                    None
                },
            },
        }
    }
}

fn read_le16(d: &[u8], i: usize) -> (r: u16)
    requires
        i + 2 <= d@.len(),
    ensures
        r as nat == le16(d@, i as int),
{
    (d[i] as u16) + (d[i + 1] as u16) * 256
}

fn read_le32(d: &[u8], i: usize) -> (r: u32)
    requires
        i + 4 <= d@.len(),
    ensures
        r as nat == le32(d@, i as int),
{
    (d[i] as u32) + (d[i + 1] as u32) * 256 + (d[i + 2] as u32) * 65536 + (d[i + 3] as u32) * 16777216
}

fn read_le_i32(d: &[u8], i: usize) -> (r: i32)
    requires
        i + 4 <= d@.len(),
    ensures
        r as int == le_i32(d@, i as int),
{
    let u = read_le32(d, i);
    if u >= 0x8000_0000 {
        (u as i64 - 0x1_0000_0000i64) as i32
    } else {
        u as i32
    }
}

/// `hex::encode`: the bytes as lowercase hex, two digits per byte.
#[verifier::external_body]
pub(crate) fn hex_encode(bytes: &[u8]) -> (r: String)
    ensures
        r@ == hex_lower(bytes@),
{
    hex::encode(bytes)
}

fn all_printable(s: &[u8]) -> (r: bool)
    ensures
        r == printable(s@),
{
    let mut k: usize = 0;
    while k < s.len()
        invariant
            k <= s@.len(),
            forall|m: int| 0 <= m < k ==> 32 <= #[trigger] s@[m] < 127,
        decreases s@.len() - k,
    {
        if !(32 <= s[k] && s[k] < 127) {
            return false;
        }
        k += 1;
    }
    true
}

fn ascii_string(s: &[u8]) -> (r: String)
    requires
        printable(s@),
    ensures
        r@ == ascii_text(s@),
{
    let mut out = String::new();
    let mut k: usize = 0;
    while k < s.len()
        invariant
            k <= s@.len(),
            printable(s@),
            out@ == ascii_text(s@).take(k as int),
        decreases s@.len() - k,
    {
        assert(32 <= s@[k as int] < 127);
        let c = char_from_ascii(s[k]);
        push_char(&mut out, c);
        k += 1;
        assert(out@ =~= ascii_text(s@).take(k as int));
    }
    assert(ascii_text(s@).take(s@.len() as int) =~= ascii_text(s@));
    out
}

/// One bundle record at `i`.
fn parse_bundle(data: &[u8], i: usize) -> (r: Option<(Bundle, usize)>)
    ensures
        match r {
            Some((b, next)) => bundle_at(data@, i as int) == Some((bundle_view(b), next as int)),
            None => bundle_at(data@, i as int) is None,
        },
{
    if i >= data.len() {
        return None;
    }
    let nlen = data[i] as usize;
    let j = i + 1;
    if nlen == 0 || nlen + 26 > data.len() - j {
        return None;
    }
    let name = slice_subrange(data, j, j + nlen);
    if !all_printable(name) {
        return None;
    }
    let h = j + nlen;
    let size = read_le_i32(data, h + 20);
    if !(0 <= size && size < 500_000_000) {
        return None;
    }
    let nref = read_le16(data, h + 24) as usize;
    let k = h + 26;
    if nref > 10_000 || 4 * nref > data.len() - k {
        return None;
    }
    let b = Bundle {
        name: ascii_string(name),
        file_hash: hex_encode(slice_subrange(data, h, h + 16)),
        file_crc: hex_encode(slice_subrange(data, h + 16, h + 20)),
        file_size: size as u64,
    };
    Some((b, k + 4 * nref))
}

/// The bundle table whose count is at `start`, if it parses and runs exactly to the end.
fn parse_bundles_at(data: &[u8], start: usize) -> (r: Option<Vec<Bundle>>)
    requires
        start + 4 <= data@.len(),
    ensures
        match r {
            Some(v) => bundles_at(data@, start as int) == Some(bundles_view(v@)),
            None => bundles_at(data@, start as int) is None,
        },
{
    let dl = data.len();
    let v = read_le_i32(data, start);
    assert(le_i32(data@, start as int) as i32 == v);
    let count = #[verifier::truncate] (v as usize);
    let ghost total = count as nat;
    assert(total == ((le_i32(data@, start as int) as i32) as usize) as nat);
    let mut i = start + 4;
    let mut out: Vec<Bundle> = Vec::new();
    let mut n: usize = 0;
    while n < count
        invariant
            n <= count,
            total == count as nat,
            total == ((le_i32(data@, start as int) as i32) as usize) as nat,
            start + 4 <= data@.len(),
            bundles_from(data@, start + 4, total) == match bundles_from(data@, i as int, (total - n) as nat) {
                Some((rest, e)) => Some((bundles_view(out@) + rest, e)),
                None => None,
            },
        decreases count - n,
    {
        match parse_bundle(data, i) {
            None => {
                assert(bundles_from(data@, i as int, (total - n) as nat) is None);
                return None;
            },
            Some((b, next)) => {
                let ghost before = out@;
                out.push(b);
                assert(bundles_view(out@) =~= bundles_view(before).push(bundle_view(b)));
                proof {
                    let rem = (total - n) as nat;
                    match bundles_from(data@, next as int, (rem - 1) as nat) {
                        Some((rest, e)) => {
                            assert(bundles_view(before) + (seq![bundle_view(b)] + rest) =~= bundles_view(out@) + rest);
                        },
                        None => {},
                    }
                }
                i = next;
                n += 1;
            },
        }
    }
    assert(bundles_view(out@) + Seq::empty() =~= bundles_view(out@));
    if i != data.len() {
        return None;
    }
    Some(out)
}

proof fn lemma_find_uab(d: Seq<u8>, from: int)
    requires
        0 <= from,
    ensures
        match find_uab(d, from) {
            Some(p) => from <= p && uab_at(d, p) && forall|q: int| from <= q < p ==> !uab_at(d, q),
            None => forall|q: int| from <= q ==> !uab_at(d, q),
        },
    decreases d.len() - from,
{
    if from + 4 <= d.len() && !uab_at(d, from) {
        lemma_find_uab(d, from + 1);
    }
}

/// Locate the compact bundle table through the `.uab` names and parse it.
fn find_and_parse_bundles(data: &[u8]) -> (r: Option<Vec<Bundle>>)
    ensures
        match r {
            Some(v) => search_table(data@, 0) == Some(bundles_view(v@)),
            None => search_table(data@, 0) is None,
        },
{
    let mut from: usize = 0;
    while data.len() >= 4 && from <= data.len() - 4
        invariant
            from <= data@.len(),
            search_table(data@, 0) == search_table(data@, from as int),
        decreases data@.len() - from,
    {
        // the next `.uab`
        let mut p = from;
        while p <= data.len() - 4 && !(data[p] == 0x2e && data[p + 1] == 0x75 && data[p + 2] == 0x61 && data[p + 3] == 0x62)
            invariant
                from <= p <= data@.len(),
                data@.len() >= 4,
                find_uab(data@, from as int) == find_uab(data@, p as int),
            decreases data@.len() - p,
        {
            p += 1;
        }
        if p > data.len() - 4 {
            assert(find_uab(data@, p as int) is None);
            return None;
        }
        let end = p + 4;
        let mut nlen: usize = 200;
        // try_lengths(end, 200) is what remains to be decided
        while nlen >= 5
            invariant
                nlen <= 200,
                end <= data@.len(),
                end == p + 4,
                find_uab(data@, from as int) == Some(p as int),
                search_table(data@, 0) == search_table(data@, from as int),
                try_lengths(data@, end as int, 200) == try_lengths(data@, end as int, nlen as int),
            decreases nlen,
        {
            if end >= nlen + 5 {
                let ns = end - nlen;
                if data[ns - 1] as usize == nlen && all_printable(slice_subrange(data, ns, end)) {
                    if let Some(bundles) = parse_bundles_at(data, ns - 5) {
                        return Some(bundles);
                    }
                }
            }
            nlen -= 1;
        }
        from = end;
    }
    proof {
        lemma_find_uab(data@, from as int);
    }
    assert(find_uab(data@, from as int) is None);
    None
}

/// Result of reading a manifest: package name, package version and bundles, or the
/// reason it could not be read.
pub open spec fn manifest_spec(d: Seq<u8>) -> Result<
    (Seq<char>, Seq<char>, Seq<(Seq<char>, Seq<char>, Seq<char>, u64)>),
    Seq<char>,
> {
    if d.len() < 4 {
        Err("manifest too short"@)
    } else if le32(d, 0) != MAGIC {
        Err("bad manifest magic "@ + seq!['0', 'x'] + hex_num(le32(d, 0)) + ", expected 0x594f4f"@)
    } else {
        match utf8_field(d, 4) {
            Err(e) => Err(e),
            Ok((version, i1)) => if !(version.len() >= 4 && version.take(4) == "1.4."@) {
                Err("unsupported manifest version "@ + version)
            } else if i1 + 3 + 4 > d.len() {
                Err("unexpected end of manifest"@)
            } else {
                match utf8_field(d, i1 + 7) {
                    Err(e) => Err(e),
                    Ok((name, i2)) => match utf8_field(d, i2) {
                        Err(e) => Err(e),
                        Ok((version2, i3)) => match search_table(d, 0) {
                            Some(bs) => Ok((name, version2, bs)),
                            None => Err("could not locate compact bundle table in PackageManifest"@),
                        },
                    },
                }
            },
        }
    }
}

/// A `u16`-length-prefixed UTF-8 string at `i` and the position after it.
pub open spec fn utf8_field(d: Seq<u8>, i: int) -> Result<(Seq<char>, int), Seq<char>> {
    if i + 2 > d.len() {
        Err("unexpected end of manifest"@)
    } else {
        let n = le16(d, i) as int;
        if i + 2 + n > d.len() {
            Err("unexpected end of manifest"@)
        } else if !vstd::utf8::valid_utf8(d.subrange(i + 2, i + 2 + n)) {
            Err("invalid UTF-8 in manifest"@)
        } else {
            Ok((vstd::utf8::decode_utf8(d.subrange(i + 2, i + 2 + n)), i + 2 + n))
        }
    }
}

/// `std::str::from_utf8`, taken as an owned string: `None` exactly when the bytes are not
/// UTF-8, else their text.
#[verifier::external_body]
fn str_from_utf8(b: &[u8]) -> (r: Option<String>)
    ensures
        r is Some <==> vstd::utf8::valid_utf8(b@),
        r matches Some(s) ==> s@ == vstd::utf8::decode_utf8(b@),
{
    match std::str::from_utf8(b) {
        Ok(s) => Some(s.to_owned()),
        Err(_) => None,
    }
}

/// Reads the manifest's header fields in order.
struct Reader<'a> {
    data: &'a [u8],
    i: usize,
}

impl<'a> Reader<'a> {
    fn new(data: &'a [u8]) -> (r: Self)
        ensures
            r.data@ == data@,
            r.i == 0,
    {
        Reader { data, i: 0 }
    }

    fn need(&self, n: usize) -> (r: Result<(), String>)
        requires
            self.i <= self.data@.len(),
        ensures
            r is Ok <==> self.i + n <= self.data@.len(),
            r matches Err(e) ==> e@ == "unexpected end of manifest"@,
            self.data@.len() <= usize::MAX,
    {
        if n > self.data.len() - self.i {
            Err("unexpected end of manifest".to_owned())
        } else {
            Ok(())
        }
    }

    fn skip(&mut self, n: usize) -> (r: Result<(), String>)
        requires
            old(self).i <= old(self).data@.len(),
        ensures
            final(self).data == old(self).data,
            final(self).i <= final(self).data@.len(),
            r is Ok <==> old(self).i + n <= old(self).data@.len(),
            r is Ok ==> final(self).i == old(self).i + n,
            r matches Err(e) ==> e@ == "unexpected end of manifest"@,
    {
        self.need(n)?;
        self.i += n;
        Ok(())
    }

    fn u32(&mut self) -> (r: Result<u32, String>)
        requires
            old(self).i <= old(self).data@.len(),
        ensures
            final(self).data == old(self).data,
            final(self).i <= final(self).data@.len(),
            r is Ok <==> old(self).i + 4 <= old(self).data@.len(),
            r matches Ok(v) ==> v as nat == le32(old(self).data@, old(self).i as int) && final(self).i == old(self).i + 4,
            r matches Err(e) ==> e@ == "unexpected end of manifest"@,
    {
        self.need(4)?;
        let v = read_le32(self.data, self.i);
        self.i += 4;
        Ok(v)
    }

    fn i32(&mut self) -> (r: Result<i32, String>)
        requires
            old(self).i <= old(self).data@.len(),
        ensures
            final(self).data == old(self).data,
            final(self).i <= final(self).data@.len(),
            r is Ok <==> old(self).i + 4 <= old(self).data@.len(),
            r matches Ok(v) ==> v as int == le_i32(old(self).data@, old(self).i as int) && final(self).i == old(self).i + 4,
            r matches Err(e) ==> e@ == "unexpected end of manifest"@,
    {
        self.need(4)?;
        let v = read_le_i32(self.data, self.i);
        self.i += 4;
        Ok(v)
    }

    fn u16(&mut self) -> (r: Result<u16, String>)
        requires
            old(self).i <= old(self).data@.len(),
        ensures
            final(self).data == old(self).data,
            final(self).i <= final(self).data@.len(),
            r is Ok <==> old(self).i + 2 <= old(self).data@.len(),
            r matches Ok(v) ==> v as nat == le16(old(self).data@, old(self).i as int) && final(self).i == old(self).i + 2,
            r matches Err(e) ==> e@ == "unexpected end of manifest"@,
    {
        self.need(2)?;
        let v = read_le16(self.data, self.i);
        self.i += 2;
        Ok(v)
    }

    fn utf8(&mut self) -> (r: Result<String, String>)
        requires
            old(self).i <= old(self).data@.len(),
        ensures
            final(self).data == old(self).data,
            final(self).i <= final(self).data@.len(),
            match utf8_field(old(self).data@, old(self).i as int) {
                Ok((s, next)) => r matches Ok(v) && v@ == s && final(self).i == next,
                Err(e) => r matches Err(m) && m@ == e,
            },
    {
        let n = self.u16()? as usize;
        self.need(n)?;
        let bytes = slice_subrange(self.data, self.i, self.i + n);
        match str_from_utf8(bytes) {
            Some(s) => {
                self.i += n;
                Ok(s)
            },
            None => Err("invalid UTF-8 in manifest".to_owned()),
        }
    }
}

fn yoo_error(m: String) -> (e: Error)
    ensures
        e == Error::Yoo(m),
{
    Error::Yoo(m)
}

/// Read the package name, package version and bundle table of a PackageManifest.
pub fn parse_manifest(data: &[u8]) -> (r: Result<(String, String, Vec<Bundle>), Error>)
    ensures
        match manifest_spec(data@) {
            Ok((name, version, bs)) => r matches Ok((n, v, b)) && n@ == name && v@ == version && bundles_view(b@) == bs,
            Err(m) => r matches Err(Error::Yoo(e)) && e@ == m,
        },
{
    let mut r = Reader::new(data);
    let magic = match r.u32() {
        Ok(m) => m,
        Err(_) => return Err(yoo_error("manifest too short".to_owned())),
    };
    if magic != MAGIC {
        let mut msg = String::new();
        push_str(&mut msg, "bad manifest magic ");
        let h = hex_u32(magic);
        push_str(&mut msg, h.as_str());
        push_str(&mut msg, ", expected 0x594f4f");
        return Err(yoo_error(msg));
    }
    let file_version = match r.utf8() {
        Ok(v) => v,
        Err(e) => return Err(yoo_error(e)),
    };
    let fv = chars_of(file_version.as_str());
    proof {
        reveal_strlit("1.4.");
    }
    let ok = fv.len() >= 4 && fv[0] == '1' && fv[1] == '.' && fv[2] == '4' && fv[3] == '.';
    proof {
        if fv@.len() >= 4 {
            if fv@.take(4) =~= "1.4."@ {
                assert(fv@.take(4)[0] == '1' && fv@.take(4)[1] == '.' && fv@.take(4)[2] == '4' && fv@.take(4)[3] == '.');
            }
            if ok {
                assert(fv@.take(4) =~= "1.4."@);
            }
        }
    }
    if !ok {
        let mut msg = String::new();
        push_str(&mut msg, "unsupported manifest version ");
        push_str(&mut msg, file_version.as_str());
        return Err(yoo_error(msg));
    }
    // EnableAddressable, LocationToLower, IncludeAssetGUID
    if let Err(e) = r.skip(3) {
        return Err(yoo_error(e));
    }
    let _output_name_style = match r.i32() {
        Ok(v) => v,
        Err(e) => return Err(yoo_error(e)),
    };
    let package_name = match r.utf8() {
        Ok(v) => v,
        Err(e) => return Err(yoo_error(e)),
    };
    let package_version = match r.utf8() {
        Ok(v) => v,
        Err(e) => return Err(yoo_error(e)),
    };
    match find_and_parse_bundles(data) {
        Some(bundles) => Ok((package_name, package_version, bundles)),
        None => Err(yoo_error("could not locate compact bundle table in PackageManifest".to_owned())),
    }
}

#[derive(Debug, Clone, PartialEq, Eq)]
pub enum BundleStatus {
    /// Present with the expected size and CRC.
    Good,
    Missing,
    SizeMismatch { actual: u64 },
    CrcMismatch { actual: String },
    Unreadable,
}

#[derive(Debug, Clone)]
pub struct CheckedBundle {
    pub bundle: Bundle,
    pub status: BundleStatus,
    /// Directory containing `__data` / `__info`, when it exists.
    pub cache_dir: String,
}

#[derive(Debug, Clone)]
pub struct VerifyReport {
    pub package_name: String,
    pub package_version: String,
    pub checked: Vec<CheckedBundle>,
    /// Where cache entries were read from, if any tree was found.
    pub cache_root: Option<String>,
    /// Number of `__data` folders present under `cache_root` (any GUID).
    pub cache_entries_on_disk: usize,
}

/// The checked bundles whose status is not `Good`, in order.
pub open spec fn bad_of(s: Seq<CheckedBundle>) -> Seq<CheckedBundle>
    decreases s.len(),
{
    if s.len() == 0 {
        seq![]
    } else if s.last().status is Good {
        bad_of(s.drop_last())
    } else {
        bad_of(s.drop_last()).push(s.last())
    }
}

/// How many checked bundles are `Good`.
pub open spec fn count_ok(s: Seq<CheckedBundle>) -> nat
    decreases s.len(),
{
    if s.len() == 0 {
        0
    } else {
        count_ok(s.drop_last()) + if s.last().status is Good { 1nat } else { 0nat }
    }
}

/// How many checked bundles are `Missing`.
pub open spec fn count_missing(s: Seq<CheckedBundle>) -> nat
    decreases s.len(),
{
    if s.len() == 0 {
        0
    } else {
        count_missing(s.drop_last()) + if s.last().status is Missing { 1nat } else { 0nat }
    }
}

proof fn lemma_counts(s: Seq<CheckedBundle>)
    ensures
        bad_of(s).len() + count_ok(s) == s.len(),
        count_missing(bad_of(s)) == count_missing(s),
        count_missing(s) + count_ok(s) <= s.len(),
    decreases s.len(),
{
    if s.len() > 0 {
        lemma_counts(s.drop_last());
        if !(s.last().status is Good) {
            assert(bad_of(s).drop_last() =~= bad_of(s.drop_last()));
        }
    }
}

/// The report's short text for toasts and the command line.
pub open spec fn summary_text(
    total: nat,
    ok: nat,
    missing: nat,
    entries: nat,
    root: Option<Seq<char>>,
) -> Seq<char> {
    let bad = total - ok;
    let corrupt = bad - missing;
    if bad == 0 {
        "All "@ + decimal(total) + " asset bundles look good"@
    } else if root is None || (entries == 0 && missing == total) {
        "No downloaded game cache found yet ("@ + decimal(total)
            + " bundles). Launch Aniimo once to download world data, then Verify again."@
    } else if entries > 0 && ok == 0 && missing == total {
        "Found "@ + decimal(entries) + " cache file(s) under "@ + root->0
            + ", but none match the manifest. The cache path or hash layout may be wrong."@
    } else {
        decimal(bad as nat) + " of "@ + decimal(total) + " bundles need attention"@ + (if corrupt > 0 {
            " ("@ + decimal(corrupt as nat) + " corrupt removed)"@
        } else {
            Seq::empty()
        }) + (if missing > 0 {
            " ("@ + decimal(missing) + " not downloaded yet)"@
        } else {
            Seq::empty()
        }) + ". Launch the game to re-download."@
    }
}

/// What is wrong with a checked bundle, as a report lists it; nothing for a good one.
pub open spec fn problem_text(b: CheckedBundle) -> Option<Seq<char>> {
    match b.status {
        BundleStatus::Good => None,
        BundleStatus::Missing => Some("missing"@),
        BundleStatus::SizeMismatch { actual } => Some(
            "size "@ + decimal(actual as nat) + ", expected "@ + decimal(b.bundle.file_size as nat),
        ),
        BundleStatus::CrcMismatch { actual } => Some("crc "@ + actual@ + ", expected "@ + b.bundle.file_crc@),
        BundleStatus::Unreadable => Some("unreadable"@),
    }
}

/// What is wrong with a checked bundle: its size or CRC against the expected one, or that
/// it is missing or unreadable; `None` for a good one.
pub fn problem_detail(b: &CheckedBundle) -> (r: Option<String>)
    ensures
        match r {
            Some(t) => problem_text(*b) == Some(t@),
            None => problem_text(*b) is None,
        },
{
    match &b.status {
        BundleStatus::Good => None,
        BundleStatus::Missing => Some("missing".to_owned()),
        BundleStatus::SizeMismatch { actual } => {
            let mut t = "size ".to_owned();
            push_str(&mut t, u64_to_string(*actual).as_str());
            push_str(&mut t, ", expected ");
            push_str(&mut t, u64_to_string(b.bundle.file_size).as_str());
            Some(t)
        },
        BundleStatus::CrcMismatch { actual } => {
            let mut t = "crc ".to_owned();
            push_str(&mut t, actual.as_str());
            push_str(&mut t, ", expected ");
            push_str(&mut t, b.bundle.file_crc.as_str());
            Some(t)
        },
        BundleStatus::Unreadable => Some("unreadable".to_owned()),
    }
}

impl VerifyReport {
    /// The bundles that need attention, in order.
    pub fn bad(&self) -> (r: Vec<&CheckedBundle>)
        ensures
            r@.map_values(|c: &CheckedBundle| *c) == bad_of(self.checked@),
    {
        let mut out: Vec<&CheckedBundle> = Vec::new();
        let mut i: usize = 0;
        while i < self.checked.len()
            invariant
                i <= self.checked@.len(),
                out@.map_values(|c: &CheckedBundle| *c) == bad_of(self.checked@.take(i as int)),
            decreases self.checked@.len() - i,
        {
            let c = &self.checked[i];
            assert(self.checked@.take(i + 1).drop_last() =~= self.checked@.take(i as int));
            let ghost before = out@;
            match c.status {
                BundleStatus::Good => {},
                _ => {
                    out.push(c);
                    assert(out@.map_values(|c: &CheckedBundle| *c) =~= before.map_values(|c: &CheckedBundle| *c).push(*c));
                },
            }
            i += 1;
        }
        assert(self.checked@.take(self.checked@.len() as int) =~= self.checked@);
        out
    }

    pub fn ok_count(&self) -> (r: usize)
        ensures
            r == count_ok(self.checked@),
    {
        let mut n: usize = 0;
        let mut i: usize = 0;
        while i < self.checked.len()
            invariant
                i <= self.checked@.len(),
                n == count_ok(self.checked@.take(i as int)),
                n <= i,
            decreases self.checked@.len() - i,
        {
            assert(self.checked@.take(i + 1).drop_last() =~= self.checked@.take(i as int));
            match self.checked[i].status {
                BundleStatus::Good => {
                    n += 1;
                },
                _ => {},
            }
            i += 1;
        }
        assert(self.checked@.take(self.checked@.len() as int) =~= self.checked@);
        n
    }

    pub fn missing_count(&self) -> (r: usize)
        ensures
            r == count_missing(self.checked@),
    {
        let mut n: usize = 0;
        let mut i: usize = 0;
        while i < self.checked.len()
            invariant
                i <= self.checked@.len(),
                n == count_missing(self.checked@.take(i as int)),
                n <= i,
            decreases self.checked@.len() - i,
        {
            assert(self.checked@.take(i + 1).drop_last() =~= self.checked@.take(i as int));
            match self.checked[i].status {
                BundleStatus::Missing => {
                    n += 1;
                },
                _ => {},
            }
            i += 1;
        }
        assert(self.checked@.take(self.checked@.len() as int) =~= self.checked@);
        n
    }

    /// Short user-facing summary for toasts / CLI.
    pub fn summary(&self) -> (r: String)
        ensures
            r@ == summary_text(
                self.checked@.len(),
                count_ok(self.checked@),
                count_missing(self.checked@),
                self.cache_entries_on_disk as nat,
                match self.cache_root {
                    Some(p) => Some(p@),
                    None => None,
                },
            ),
    {
        proof {
            lemma_counts(self.checked@);
        }
        let total = self.checked.len();
        let ok = self.ok_count();
        let missing = self.missing_count();
        let bad = total - ok;
        let mut msg = String::new();
        if bad == 0 {
            push_str(&mut msg, "All ");
            push_str(&mut msg, u64_to_string(total as u64).as_str());
            push_str(&mut msg, " asset bundles look good");
            return msg;
        }
        let corrupt = bad - missing;
        let no_root = match &self.cache_root {
            Some(_) => false,
            None => true,
        };
        if no_root || (self.cache_entries_on_disk == 0 && missing == total) {
            push_str(&mut msg, "No downloaded game cache found yet (");
            push_str(&mut msg, u64_to_string(total as u64).as_str());
            push_str(&mut msg, " bundles). Launch Aniimo once to download world data, then Verify again.");
            return msg;
        }
        if self.cache_entries_on_disk > 0 && ok == 0 && missing == total {
            push_str(&mut msg, "Found ");
            push_str(&mut msg, u64_to_string(self.cache_entries_on_disk as u64).as_str());
            push_str(&mut msg, " cache file(s) under ");
            match &self.cache_root {
                Some(p) => push_str(&mut msg, p.as_str()),
                None => {},
            }
            push_str(&mut msg, ", but none match the manifest. The cache path or hash layout may be wrong.");
            return msg;
        }
        push_str(&mut msg, u64_to_string(bad as u64).as_str());
        push_str(&mut msg, " of ");
        push_str(&mut msg, u64_to_string(total as u64).as_str());
        push_str(&mut msg, " bundles need attention");
        let ghost head = msg@;
        if corrupt > 0 {
            push_str(&mut msg, " (");
            push_str(&mut msg, u64_to_string(corrupt as u64).as_str());
            push_str(&mut msg, " corrupt removed)");
        }
        let ghost mid = msg@;
        if missing > 0 {
            push_str(&mut msg, " (");
            push_str(&mut msg, u64_to_string(missing as u64).as_str());
            push_str(&mut msg, " not downloaded yet)");
        }
        let ghost tail = msg@;
        push_str(&mut msg, ". Launch the game to re-download.");
        proof {
            let c = if corrupt > 0 {
                " ("@ + decimal(corrupt as nat) + " corrupt removed)"@
            } else {
                Seq::empty()
            };
            let m = if missing > 0 {
                " ("@ + decimal(missing as nat) + " not downloaded yet)"@
            } else {
                Seq::empty()
            };
            assert(mid =~= head + c);
            assert(tail =~= head + c + m);
        }
        msg
    }
}

/// What a bundle whose data file has `actual_size` bytes is, as far as its size tells:
/// `SizeMismatch` when it differs from the manifest, else nothing yet (its CRC decides).
pub fn size_status(bundle: &Bundle, actual_size: u64) -> (r: Option<BundleStatus>)
    ensures
        r == if actual_size != bundle.file_size {
            Some(BundleStatus::SizeMismatch { actual: actual_size })
        } else {
            None
        },
{
    if actual_size != bundle.file_size {
        Some(BundleStatus::SizeMismatch { actual: actual_size })
    } else {
        None
    }
}

/// A CRC-32 as YooAsset writes it: lowercase hex of its little-endian bytes.
pub fn crc_hex(crc: u32) -> (r: String)
    ensures
        r@ == hex_lower(crate::steam::binary_vdf::le_bytes(crc)),
{
    let mut b: Vec<u8> = Vec::new();
    b.push((crc & 0xff) as u8);
    b.push(((crc >> 8) & 0xff) as u8);
    b.push(((crc >> 16) & 0xff) as u8);
    b.push(((crc >> 24) & 0xff) as u8);
    assert(b@ =~= crate::steam::binary_vdf::le_bytes(crc));
    hex_encode(b.as_slice())
}

/// What a bundle of the right size whose data hashes to `actual_crc` is.
pub fn crc_status(bundle: &Bundle, actual_crc: String) -> (r: BundleStatus)
    ensures
        r == if actual_crc@ != bundle.file_crc@ {
            BundleStatus::CrcMismatch { actual: actual_crc }
        } else {
            BundleStatus::Good
        },
{
    if actual_crc != bundle.file_crc {
        BundleStatus::CrcMismatch { actual: actual_crc }
    } else {
        BundleStatus::Good
    }
}

/// `c.is_ascii_hexdigit()`.
pub open spec fn is_hex_char(c: char) -> bool {
    ('0' <= c <= '9') || ('a' <= c <= 'f') || ('A' <= c <= 'F')
}

/// The cache key a folder name stands for: the name in ASCII lower case, when that is 32
/// hex digits (a bundle's MD5).
pub open spec fn cache_key_of(name: Seq<char>) -> Option<Seq<char>> {
    if name.len() == 32 && forall|i: int| 0 <= i < name.len() ==> is_hex_char(#[trigger] name[i]) {
        Some(name.map_values(|c: char| crate::text::lower_char(c)))
    } else {
        None
    }
}

/// The cache key of a folder name (see [`cache_key_of`]).
pub fn cache_key(name: &str) -> (r: Option<String>)
    ensures
        match r {
            Some(k) => cache_key_of(name@) == Some(k@),
            None => cache_key_of(name@) is None,
        },
{
    let cs = chars_of(name);
    if cs.len() != 32 {
        return None;
    }
    let mut out = String::new();
    let mut i: usize = 0;
    while i < cs.len()
        invariant
            i <= cs@.len(),
            cs@ == name@,
            cs@.len() == 32,
            forall|j: int| 0 <= j < i ==> is_hex_char(#[trigger] cs@[j]),
            out@ == cs@.take(i as int).map_values(|c: char| crate::text::lower_char(c)),
        decreases cs@.len() - i,
    {
        let c = cs[i];
        if !(('0' <= c && c <= '9') || ('a' <= c && c <= 'f') || ('A' <= c && c <= 'F')) {
            return None;
        }
        push_char(&mut out, crate::text::lower_ascii(c));
        assert(cs@.take(i + 1).map_values(|c: char| crate::text::lower_char(c)) =~= cs@.take(i as int).map_values(
            |c: char| crate::text::lower_char(c),
        ).push(crate::text::lower_char(c)));
        i += 1;
    }
    assert(cs@.take(32) =~= cs@);
    Some(out)
}

/// Built-in manifest directory under StreamingAssets (always present after install).
pub const STREAMING_PACKAGE_DIR: &'static str = "Aniimo_Data/StreamingAssets/cvs/res/uab/win/DefaultPackage";
/// Manifests the game refreshed at runtime.
pub const SANDBOX_MANIFEST_DIR: &'static str = "Aniimo_Data/Sandbox/ManifestFiles";
/// The runtime cache in the install directory.
pub const SANDBOX_BUNDLE_FILES: &'static str = "Aniimo_Data/Sandbox/CacheFiles/DefaultPackage/BundleFiles";

/// `str::get(..2)`: the characters making up the first two bytes, when byte 2 is a
/// character boundary.
pub open spec fn first_two_bytes(h: Seq<char>) -> Option<Seq<char>> {
    if h.len() >= 2 && (h[0] as u32) < 0x80 && (h[1] as u32) < 0x80 {
        Some(h.take(2))
    } else if h.len() >= 1 && 0x80 <= (h[0] as u32) < 0x800 {
        Some(h.take(1))
    } else {
        None
    }
}

/// Where a bundle's cache folder is expected when the index does not know it:
/// `{root}/{hash[0:2]}/{hash}`, relative without a cache root.
pub open spec fn expected_cache_dir_of(root: Option<Seq<char>>, hash: Seq<char>) -> Seq<char> {
    let folder = match first_two_bytes(hash) {
        Some(f) => f,
        None => hash,
    };
    match root {
        Some(r) => crate::steam::joined(crate::steam::joined(r, folder), hash),
        None => crate::steam::joined(folder, hash),
    }
}

/// Where a bundle's cache folder is expected when the index does not know it.
pub fn expected_cache_dir(root: Option<&str>, file_hash: &str) -> (r: String)
    ensures
        r@ == expected_cache_dir_of(
            match root {
                Some(x) => Some(x@),
                None => None,
            },
            file_hash@,
        ),
{
    let h = chars_of(file_hash);
    let folder_chars = if h.len() >= 2 && (h[0] as u32) < 0x80 && (h[1] as u32) < 0x80 {
        slice_subrange(h.as_slice(), 0, 2)
    } else if h.len() >= 1 && 0x80 <= (h[0] as u32) && (h[0] as u32) < 0x800 {
        slice_subrange(h.as_slice(), 0, 1)
    } else {
        h.as_slice()
    };
    proof {
        if h@.len() >= 2 && (h@[0] as u32) < 0x80 && (h@[1] as u32) < 0x80 {
            assert(folder_chars@ =~= h@.take(2));
        } else if h@.len() >= 1 && 0x80 <= (h@[0] as u32) < 0x800 {
            assert(folder_chars@ =~= h@.take(1));
        }
    }
    let folder = crate::text::string_from_chars(folder_chars);
    match root {
        Some(r) => {
            let a = crate::steam::path_join(r, folder.as_str());
            crate::steam::path_join(a.as_str(), file_hash)
        },
        None => crate::steam::path_join(folder.as_str(), file_hash),
    }
}

/// Where Unity keeps the game's bundle cache for a Windows user in a Proton prefix.
pub fn locallow_bundle_files(pfx: &str, user: &str) -> (r: String)
    ensures
        r@ == crate::steam::joined(
            pfx@,
            "drive_c/users/"@ + user@ + "/AppData/LocalLow/Aniimo/Aniimo/Sandbox/CacheFiles/DefaultPackage/BundleFiles"@,
        ),
{
    let mut rel = String::new();
    push_str(&mut rel, "drive_c/users/");
    push_str(&mut rel, user);
    push_str(&mut rel, "/AppData/LocalLow/Aniimo/Aniimo/Sandbox/CacheFiles/DefaultPackage/BundleFiles");
    crate::steam::path_join(pfx, rel.as_str())
}

/// Where Unity keeps the game's refreshed manifests for a Windows user in a Proton prefix.
pub fn locallow_manifest_dir(pfx: &str, user: &str) -> (r: String)
    ensures
        r@ == crate::steam::joined(
            pfx@,
            "drive_c/users/"@ + user@ + "/AppData/LocalLow/Aniimo/Aniimo/Sandbox/ManifestFiles"@,
        ),
{
    let mut rel = String::new();
    push_str(&mut rel, "drive_c/users/");
    push_str(&mut rel, user);
    push_str(&mut rel, "/AppData/LocalLow/Aniimo/Aniimo/Sandbox/ManifestFiles");
    crate::steam::path_join(pfx, rel.as_str())
}

fn eq_ci(a: &str, b: &str) -> (r: bool)
    ensures
        r == crate::text::chars_eq_ci(a@, b@),
{
    let x = chars_of(a);
    let y = chars_of(b);
    crate::text::eq_ci_chars(x.as_slice(), y.as_slice())
}

/// Windows profiles in a prefix that never hold the game's data.
pub fn skip_profile(name: &str) -> (r: bool)
    ensures
        r == (crate::text::chars_eq_ci(name@, "Public"@) || crate::text::chars_eq_ci(name@, "Default"@)),
{
    eq_ci(name, "Public") || eq_ci(name, "Default")
}

/// Directories not searched for a cache tree: known huge or irrelevant ones.
pub fn skip_search_dir(name: &str) -> (r: bool)
    ensures
        r == (crate::text::chars_eq_ci(name@, "il2cpp_data"@) || crate::text::chars_eq_ci(name@, "Plugins"@)
            || crate::text::chars_eq_ci(name@, "Resources"@)),
{
    eq_ci(name, "il2cpp_data") || eq_ci(name, "Plugins") || eq_ci(name, "Resources")
}

/// Whether a directory is a bundle cache tree.
pub fn is_bundle_files_dir(name: &str) -> (r: bool)
    ensures
        r == crate::text::chars_eq_ci(name@, "BundleFiles"@),
{
    eq_ci(name, "BundleFiles")
}

/// Whether a file is one of the package's manifests: `PackageManifest_DefaultPackage_*.bytes`,
/// but not an `assetxbt` one.
pub fn is_manifest_name(name: &str) -> (r: bool)
    ensures
        r == ({
            let p = "PackageManifest_DefaultPackage_"@;
            let e = ".bytes"@;
            &&& name@.len() >= p.len() && name@.take(p.len() as int) == p
            &&& name@.len() >= e.len() && name@.skip(name@.len() - e.len()) == e
            &&& crate::text::find_sub(name@, "assetxbt"@, 0) is None
        }),
{
    let cs = chars_of(name);
    let p = chars_of("PackageManifest_DefaultPackage_");
    let e = chars_of(".bytes");
    let x = chars_of("assetxbt");
    if !crate::text::starts_with_chars(cs.as_slice(), p.as_slice()) {
        return false;
    }
    if e.len() > cs.len() {
        return false;
    }
    let tail = slice_subrange(cs.as_slice(), cs.len() - e.len(), cs.len());
    assert(tail@ =~= name@.skip(name@.len() - e@.len()));
    if !crate::text::str_eq(crate::text::string_from_chars(tail).as_str(), ".bytes") {
        return false;
    }
    crate::text::find_chars(cs.as_slice(), x.as_slice(), 0).is_none()
}

/// Index of the newest manifest among candidates `(modification time, path)`: the last
/// one with the greatest time.
pub open spec fn newest_index(c: Seq<(u64, Seq<char>)>) -> Option<int>
    decreases c.len(),
{
    if c.len() == 0 {
        None
    } else {
        match newest_index(c.drop_last()) {
            Some(b) => if c.last().0 >= c[b].0 {
                Some(c.len() - 1)
            } else {
                Some(b)
            },
            None => Some(c.len() - 1),
        }
    }
}

proof fn lemma_newest_range(c: Seq<(u64, Seq<char>)>)
    ensures
        newest_index(c) matches Some(b) ==> 0 <= b < c.len(),
        c.len() > 0 ==> newest_index(c) is Some,
    decreases c.len(),
{
    if c.len() > 0 {
        lemma_newest_range(c.drop_last());
    }
}

/// Among cache trees with `counts[i]` entries, the first with the most entries.
pub open spec fn fullest_index(counts: Seq<usize>) -> Option<int>
    decreases counts.len(),
{
    if counts.len() == 0 {
        None
    } else {
        match fullest_index(counts.drop_last()) {
            Some(b) => if counts.last() > counts[b] {
                Some(counts.len() - 1)
            } else {
                Some(b)
            },
            None => Some(counts.len() - 1),
        }
    }
}

proof fn lemma_fullest_range(c: Seq<usize>)
    ensures
        fullest_index(c) matches Some(b) ==> 0 <= b < c.len(),
        c.len() > 0 ==> fullest_index(c) is Some,
    decreases c.len(),
{
    if c.len() > 0 {
        lemma_fullest_range(c.drop_last());
    }
}

/// Which cache tree to use, given how many cache entries each holds: the first of those
/// with the most; none when there is no tree.
pub fn fullest_root(counts: &[usize]) -> (r: Option<usize>)
    ensures
        (match r {
            Some(i) => Some(i as int),
            None => None,
        }) == fullest_index(counts@),
{
    let mut best: Option<usize> = None;
    let mut i: usize = 0;
    while i < counts.len()
        invariant
            i <= counts@.len(),
            (match best {
                Some(b) => Some(b as int),
                None => None,
            }) == fullest_index(counts@.take(i as int)),
            best matches Some(b) ==> b < i,
        decreases counts@.len() - i,
    {
        assert(counts@.take(i + 1).drop_last() =~= counts@.take(i as int));
        proof {
            lemma_fullest_range(counts@.take(i as int));
        }
        best = match best {
            Some(b) => if counts[i] > counts[b] { Some(i) } else { Some(b) },
            None => Some(i),
        };
        i += 1;
    }
    assert(counts@.take(counts@.len() as int) =~= counts@);
    best
}

/// The newest manifest among candidates `(modification time, path)`.
pub fn pick_newest(cands: &[(u64, String)]) -> (r: Option<usize>)
    ensures
        (match r {
            Some(i) => Some(i as int),
            None => None,
        }) == newest_index(cands@.map_values(|p: (u64, String)| (p.0, p.1@))),
{
    let ghost c = cands@.map_values(|p: (u64, String)| (p.0, p.1@));
    let mut best: Option<usize> = None;
    let mut i: usize = 0;
    while i < cands.len()
        invariant
            i <= cands@.len(),
            c == cands@.map_values(|p: (u64, String)| (p.0, p.1@)),
            (match best {
                Some(b) => Some(b as int),
                None => None,
            }) == newest_index(c.take(i as int)),
            best matches Some(b) ==> b < i,
        decreases cands@.len() - i,
    {
        assert(c.take(i + 1).drop_last() =~= c.take(i as int));
        proof {
            lemma_newest_range(c.take(i as int));
        }
        best = match best {
            Some(b) => if cands[i].0 >= cands[b].0 { Some(i) } else { Some(b) },
            None => Some(i),
        };
        i += 1;
    }
    assert(c.take(c.len() as int) =~= c);
    best
}

/// How much a bundle counts toward the progress of a check: its size, at least one.
pub fn progress_weight(b: &Bundle) -> (r: u64)
    ensures
        r == if b.file_size > 0 { b.file_size } else { 1 },
{
    if b.file_size > 0 { b.file_size } else { 1 }
}

/// Whether a repair deletes the cache folder of a bundle with this status: it does for a
/// wrong size or CRC and for an unreadable file, not for a good or missing one.
pub fn needs_removal(status: &BundleStatus) -> (r: bool)
    ensures
        r == !(status is Good || status is Missing),
{
    match status {
        BundleStatus::Good | BundleStatus::Missing => false,
        _ => true,
    }
}

} // verus!
