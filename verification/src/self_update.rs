//! Newer releases of the launcher's Flatpak on GitHub: reading the releases Atom feed
//! and comparing versions. Fetching the feed and installing the bundle is left to the
//! caller.

use vstd::prelude::*;
use vstd::slice::{slice_subrange, slice_to_vec};
use crate::text::{
    chars_of, decimal, find_chars, find_sub, lower_ascii, lower_char, occurs_at, parse_u64_chars, parse_u64_spec, push_char,
    push_str, string_from_chars, trim_chars, trimmed,
};

verus! {

pub const FLATPAK_ID: &'static str = "io.github.DJPoulter.YACCGL";
pub const BUNDLE_NAME: &'static str = "yet-another-creature-collector-game-launcher.flatpak";
pub const REPO: &'static str = "DJPoulter/YACCGL";

#[derive(Debug, Clone)]
pub struct AvailableUpdate {
    pub tag: String,
    pub version: String,
    pub name: String,
    pub download_url: String,
    pub size: u64,
    pub prerelease: bool,
}

/// A release in the feed: its tag and title.
#[derive(Debug, Clone)]
pub struct AtomEntry {
    pub tag: String,
    pub title: Option<String>,
}

/// The text without its leading `v`s (`trim_start_matches('v')`).
pub open spec fn strip_v(s: Seq<char>) -> Seq<char>
    decreases s.len(),
{
    if s.len() > 0 && s[0] == 'v' {
        strip_v(s.drop_first())
    } else {
        s
    }
}

/// ASCII lower case of every character.
pub open spec fn lower_all(s: Seq<char>) -> Seq<char> {
    s.map_values(|c: char| lower_char(c))
}

/// The numbers of the dot-separated parts of `s[pos..]` that are numbers, in order.
pub open spec fn values_from(s: Seq<char>, pos: int) -> Seq<u64>
    decreases s.len() - pos,
{
    if pos < 0 || pos > s.len() {
        seq![]
    } else {
        match find_sub(s, seq!['.'], pos) {
            Some(k) => {
                let rest = if pos <= k < s.len() {
                    values_from(s, k + 1)
                } else {
                    seq![]
                };
                match parse_u64_spec(s.subrange(pos, k)) {
                    Some(v) => seq![v] + rest,
                    None => rest,
                }
            },
            None => match parse_u64_spec(s.subrange(pos, s.len() as int)) {
                Some(v) => seq![v],
                None => seq![],
            },
        }
    }
}

/// A version as compared: its numbers and its lower-cased prerelease part, if any.
/// Surrounding white space and leading `v`s are ignored; the prerelease part starts after
/// the first `-`.
pub open spec fn split_ver_spec(s: Seq<char>) -> (Seq<u64>, Option<Seq<char>>) {
    let u = strip_v(trimmed(s));
    match find_sub(u, seq!['-'], 0) {
        Some(k) => (values_from(u.take(k), 0), Some(lower_all(u.skip(k + 1)))),
        None => (values_from(u, 0), None),
    }
}

/// The `i`-th number of a version, 0 past its end.
pub open spec fn num_at(a: Seq<u64>, i: int) -> u64 {
    if 0 <= i < a.len() {
        a[i]
    } else {
        0
    }
}

/// Numeric comparison from position `i` on, missing numbers counting as 0:
/// -1, 0 or 1.
pub open spec fn num_order_from(a: Seq<u64>, b: Seq<u64>, i: nat) -> int
    decreases (if a.len() > b.len() { a.len() } else { b.len() }) - i,
{
    if i >= a.len() && i >= b.len() {
        0
    } else if num_at(a, i as int) < num_at(b, i as int) {
        -1
    } else if num_at(a, i as int) > num_at(b, i as int) {
        1
    } else {
        num_order_from(a, b, i + 1)
    }
}

/// `a` comes before `b` in the order of `str`'s `<` (code point by code point).
pub open spec fn lex_lt(a: Seq<char>, b: Seq<char>) -> bool
    decreases a.len(),
{
    if a.len() == 0 {
        b.len() > 0
    } else if b.len() == 0 {
        false
    } else if a[0] != b[0] {
        a[0] < b[0]
    } else {
        lex_lt(a.drop_first(), b.drop_first())
    }
}

/// Whether `candidate` is a newer version than `current`: greater numbers, or equal
/// numbers and a release against a prerelease, or two prereleases of which the
/// candidate's sorts later.
pub open spec fn is_newer_spec(candidate: Seq<char>, current: Seq<char>) -> bool {
    let (cn, cp) = split_ver_spec(candidate);
    let (un, up) = split_ver_spec(current);
    let c = num_order_from(cn, un, 0);
    if c > 0 {
        true
    } else if c < 0 {
        false
    } else {
        match (cp, up) {
            (None, Some(_)) => true,
            (Some(_), None) => false,
            (None, None) => false,
            (Some(a), Some(b)) => lex_lt(b, a),
        }
    }
}

fn strip_v_at(s: &[char]) -> (r: usize)
    ensures
        r <= s@.len(),
        s@.skip(r as int) == strip_v(s@),
{
    let mut a: usize = 0;
    assert(s@.skip(0) =~= s@);
    while a < s.len() && s[a] == 'v'
        invariant
            a <= s@.len(),
            strip_v(s@) == strip_v(s@.skip(a as int)),
        decreases s@.len() - a,
    {
        assert(s@.skip(a as int).drop_first() =~= s@.skip(a + 1));
        a += 1;
    }
    assert(a == s@.len() ==> s@.skip(a as int) =~= Seq::<char>::empty());
    a
}

fn lower_chars(s: &[char]) -> (r: String)
    ensures
        r@ == lower_all(s@),
{
    let mut out = String::new();
    let mut i: usize = 0;
    while i < s.len()
        invariant
            i <= s@.len(),
            out@ == lower_all(s@.take(i as int)),
        decreases s@.len() - i,
    {
        push_char(&mut out, lower_ascii(s[i]));
        i += 1;
        assert(out@ =~= lower_all(s@.take(i as int)));
    }
    assert(s@.take(s@.len() as int) =~= s@);
    out
}

fn dot() -> (r: Vec<char>)
    ensures
        r@ == seq!['.'],
{
    let mut v: Vec<char> = Vec::new();
    v.push('.');
    assert(v@ =~= seq!['.']);
    v
}

fn dash() -> (r: Vec<char>)
    ensures
        r@ == seq!['-'],
{
    let mut v: Vec<char> = Vec::new();
    v.push('-');
    assert(v@ =~= seq!['-']);
    v
}

/// The numbers of the dot-separated parts of `s` that parse, in order.
fn number_parts(s: &[char]) -> (r: Vec<u64>)
    ensures
        r@ == values_from(s@, 0),
{
    let d = dot();
    let n = s.len();
    let mut out: Vec<u64> = Vec::new();
    let mut pos: usize = 0;
    loop
        invariant
            pos <= s@.len(),
            n == s@.len(),
            d@ == seq!['.'],
            values_from(s@, 0) == out@ + values_from(s@, pos as int),
        decreases s@.len() - pos,
    {
        match find_chars(s, d.as_slice(), pos) {
            Some(k) => {
                proof {
                    crate::text::lemma_find_sub(s@, seq!['.'], pos as int);
                }
                let piece = slice_subrange(s, pos, k);
                let ghost before = out@;
                match parse_u64_chars(piece) {
                    Some(v) => {
                        out.push(v);
                    },
                    None => {},
                }
                proof {
                    crate::text::lemma_find_sub(s@, seq!['.'], pos as int);
                }
                assert(out@ + values_from(s@, k + 1) =~= before + values_from(s@, pos as int));
                pos = k + 1;
            },
            None => {
                let piece = slice_subrange(s, pos, s.len());
                let ghost before = out@;
                match parse_u64_chars(piece) {
                    Some(v) => {
                        out.push(v);
                    },
                    None => {},
                }
                assert(out@ =~= before + values_from(s@, pos as int));
                return out;
            },
        }
    }
}

/// The numbers and the lower-cased prerelease part of a version string.
pub fn split_ver(s: &str) -> (r: (Vec<u64>, Option<String>))
    ensures
        r.0@ == split_ver_spec(s@).0,
        (match r.1 {
            Some(p) => Some(p@),
            None => None,
        }) == split_ver_spec(s@).1,
{
    let cs = chars_of(s);
    let t = trim_chars(cs.as_slice());
    let a = strip_v_at(t.as_slice());
    let u = slice_subrange(t.as_slice(), a, t.len());
    assert(u@ == strip_v(trimmed(s@)));
    let m = dash();
    match find_chars(u, m.as_slice(), 0) {
        Some(k) => {
            let num = slice_subrange(u, 0, k);
            let pre = slice_subrange(u, k + 1, u.len());
            assert(num@ =~= u@.take(k as int));
            assert(pre@ =~= u@.skip(k + 1));
            (number_parts(num), Some(lower_chars(pre)))
        },
        None => (number_parts(u), None),
    }
}

/// Compares two versions' numbers, missing numbers counting as 0: -1, 0 or 1.
fn compare_nums(a: &[u64], b: &[u64]) -> (r: i8)
    ensures
        r as int == num_order_from(a@, b@, 0),
{
    let len = if a.len() > b.len() { a.len() } else { b.len() };
    let mut i: usize = 0;
    while i < len
        invariant
            i <= len,
            len == (if a@.len() > b@.len() { a@.len() } else { b@.len() }),
            num_order_from(a@, b@, 0) == num_order_from(a@, b@, i as nat),
        decreases len - i,
    {
        let x = if i < a.len() { a[i] } else { 0 };
        let y = if i < b.len() { b[i] } else { 0 };
        if x < y {
            return -1;
        }
        if x > y {
            return 1;
        }
        i += 1;
    }
    0
}

/// Whether `b` comes before `a` in `str` order.
pub fn chars_gt(a: &[char], b: &[char]) -> (r: bool)
    ensures
        r == lex_lt(b@, a@),
{
    let mut i: usize = 0;
    assert(a@.skip(0) =~= a@);
    assert(b@.skip(0) =~= b@);
    while i < a.len() && i < b.len() && a[i] == b[i]
        invariant
            i <= a@.len(),
            i <= b@.len(),
            lex_lt(b@, a@) == lex_lt(b@.skip(i as int), a@.skip(i as int)),
        decreases a@.len() - i,
    {
        assert(b@.skip(i as int).drop_first() =~= b@.skip(i + 1));
        assert(a@.skip(i as int).drop_first() =~= a@.skip(i + 1));
        i += 1;
    }
    if i < a.len() && i < b.len() {
        assert(b@.skip(i as int)[0] == b@[i as int]);
        assert(a@.skip(i as int)[0] == a@[i as int]);
        b[i] < a[i]
    } else {
        assert(i == b@.len() ==> b@.skip(i as int).len() == 0);
        assert(i == a@.len() ==> a@.skip(i as int).len() == 0);
        i == b.len() && i < a.len()
    }
}

/// True when `candidate` is a newer version than `current` (e.g. `0.1.7-beta.2` > `0.1.7-beta`).
pub fn is_newer(candidate: &str, current: &str) -> (r: bool)
    ensures
        r == is_newer_spec(candidate@, current@),
{
    let (c_num, c_pre) = split_ver(candidate);
    let (u_num, u_pre) = split_ver(current);
    let c = compare_nums(c_num.as_slice(), u_num.as_slice());
    if c > 0 {
        true
    } else if c < 0 {
        false
    } else {
        match (c_pre, u_pre) {
            (None, Some(_)) => true,
            (Some(_), None) => false,
            (None, None) => false,
            (Some(a), Some(b)) => {
                let ac = chars_of(a.as_str());
                let bc = chars_of(b.as_str());
                chars_gt(ac.as_slice(), bc.as_slice())
            },
        }
    }
}

proof fn lemma_order_step(x: Seq<u64>, y: Seq<u64>, i: nat)
    ensures
        num_order_from(x, y, i) == if num_at(x, i as int) < num_at(y, i as int) {
            -1
        } else if num_at(x, i as int) > num_at(y, i as int) {
            1
        } else {
            num_order_from(x, y, i + 1)
        },
        -1 <= num_order_from(x, y, i) <= 1,
    decreases (if x.len() > y.len() { x.len() } else { y.len() }) - i,
{
    if !(i >= x.len() && i >= y.len()) && num_at(x, i as int) == num_at(y, i as int) {
        lemma_order_step(x, y, i + 1);
    }
}

proof fn lemma_order_flip(x: Seq<u64>, y: Seq<u64>, i: nat)
    ensures
        num_order_from(x, y, i) == -num_order_from(y, x, i),
    decreases (if x.len() > y.len() { x.len() } else { y.len() }) - i,
{
    if !(i >= x.len() && i >= y.len()) {
        lemma_order_flip(x, y, i + 1);
    }
}

proof fn lemma_order_trans(a: Seq<u64>, b: Seq<u64>, c: Seq<u64>, i: nat)
    ensures
        num_order_from(a, b, i) <= 0 && num_order_from(b, c, i) <= 0 ==> num_order_from(a, c, i) <= 0,
        num_order_from(a, b, i) < 0 && num_order_from(b, c, i) <= 0 ==> num_order_from(a, c, i) < 0,
        num_order_from(a, b, i) <= 0 && num_order_from(b, c, i) < 0 ==> num_order_from(a, c, i) < 0,
        num_order_from(a, b, i) == 0 && num_order_from(b, c, i) == 0 ==> num_order_from(a, c, i) == 0,
    decreases (if a.len() > b.len() {
        if a.len() > c.len() { a.len() } else { c.len() }
    } else {
        if b.len() > c.len() { b.len() } else { c.len() }
    }) - i,
{
    lemma_order_step(a, b, i);
    lemma_order_step(b, c, i);
    lemma_order_step(a, c, i);
    if !(i >= a.len() && i >= b.len() && i >= c.len()) {
        lemma_order_trans(a, b, c, i + 1);
    } else {
        assert(num_order_from(a, b, i) == 0);
        assert(num_order_from(b, c, i) == 0);
        assert(num_order_from(a, c, i) == 0);
    }
}

proof fn lemma_lex_irrefl(a: Seq<char>)
    ensures
        !lex_lt(a, a),
    decreases a.len(),
{
    if a.len() > 0 {
        lemma_lex_irrefl(a.drop_first());
    }
}

proof fn lemma_lex_asym(a: Seq<char>, b: Seq<char>)
    ensures
        lex_lt(a, b) ==> !lex_lt(b, a),
    decreases a.len(),
{
    if a.len() > 0 && b.len() > 0 && a[0] == b[0] {
        lemma_lex_asym(a.drop_first(), b.drop_first());
    }
}

proof fn lemma_lex_trans(a: Seq<char>, b: Seq<char>, c: Seq<char>)
    ensures
        lex_lt(a, b) && lex_lt(b, c) ==> lex_lt(a, c),
    decreases a.len(),
{
    if a.len() > 0 && b.len() > 0 && c.len() > 0 && a[0] == b[0] && b[0] == c[0] {
        lemma_lex_trans(a.drop_first(), b.drop_first(), c.drop_first());
    }
}

/// The prerelease part `p` sorts after `q`: a release after any prerelease, two
/// prereleases in `str` order.
pub open spec fn pre_after(p: Option<Seq<char>>, q: Option<Seq<char>>) -> bool {
    match (p, q) {
        (None, Some(_)) => true,
        (Some(x), Some(y)) => lex_lt(y, x),
        _ => false,
    }
}

proof fn lemma_newer_parts(a: Seq<char>, b: Seq<char>)
    ensures
        is_newer_spec(a, b) == (num_order_from(split_ver_spec(a).0, split_ver_spec(b).0, 0) > 0 || (num_order_from(
            split_ver_spec(a).0,
            split_ver_spec(b).0,
            0,
        ) == 0 && pre_after(split_ver_spec(a).1, split_ver_spec(b).1))),
{
}

/// No version is newer than itself.
pub proof fn law_newer_irreflexive(v: Seq<char>)
    ensures
        !is_newer_spec(v, v),
{
    let (n, p) = split_ver_spec(v);
    lemma_order_flip(n, n, 0);
    lemma_newer_parts(v, v);
    if let Some(x) = p {
        lemma_lex_irrefl(x);
    }
}

/// Of two versions at most one is newer than the other.
pub proof fn law_newer_asymmetric(a: Seq<char>, b: Seq<char>)
    ensures
        is_newer_spec(a, b) ==> !is_newer_spec(b, a),
{
    let (an, ap) = split_ver_spec(a);
    let (bn, bp) = split_ver_spec(b);
    lemma_order_flip(an, bn, 0);
    lemma_newer_parts(a, b);
    lemma_newer_parts(b, a);
    if let (Some(x), Some(y)) = (ap, bp) {
        lemma_lex_asym(x, y);
    }
}

/// A version newer than one that is newer than a third is newer than the third.
pub proof fn law_newer_transitive(a: Seq<char>, b: Seq<char>, c: Seq<char>)
    ensures
        is_newer_spec(a, b) && is_newer_spec(b, c) ==> is_newer_spec(a, c),
{
    let (an, ap) = split_ver_spec(a);
    let (bn, bp) = split_ver_spec(b);
    let (cn, cp) = split_ver_spec(c);
    lemma_newer_parts(a, b);
    lemma_newer_parts(b, c);
    lemma_newer_parts(a, c);
    lemma_order_flip(an, bn, 0);
    lemma_order_flip(bn, cn, 0);
    lemma_order_flip(an, cn, 0);
    lemma_order_trans(cn, bn, an, 0);
    if let (Some(x), Some(y), Some(z)) = (ap, bp, cp) {
        lemma_lex_trans(z, y, x);
    }
}

proof fn lemma_order_first_larger(a: Seq<u64>, b: Seq<u64>, k: nat, i: nat)
    requires
        k <= i,
        forall|j: int| k <= j < i ==> (if j < a.len() { a[j] } else { 0u64 }) == (if j < b.len() { b[j] } else { 0u64 }),
        (if i < a.len() { a[i as int] } else { 0u64 }) > (if i < b.len() { b[i as int] } else { 0u64 }),
    ensures
        num_order_from(a, b, k) == 1,
    decreases i - k,
{
    if k < i {
        assert((if (k as int) < a.len() { a[k as int] } else { 0u64 }) == (if (k as int) < b.len() { b[k as int] } else { 0u64 }));
        lemma_order_first_larger(a, b, k + 1, i);
    }
}

/// Release numbers compare as integers, part by part, a missing part counting as 0: when
/// the candidate's numbers equal the current ones before position `i` and its number at
/// `i` is the larger integer, the candidate is newer, and the current one is not newer
/// than it, whatever their prerelease suffixes (so 0.1.10 is newer than 0.1.9).
pub proof fn law_newer_by_larger_part(candidate: Seq<char>, current: Seq<char>, i: nat)
    requires
        forall|j: int|
            0 <= j < i ==> (if j < split_ver_spec(candidate).0.len() { split_ver_spec(candidate).0[j] } else { 0u64 })
                == (if j < split_ver_spec(current).0.len() { split_ver_spec(current).0[j] } else { 0u64 }),
        (if i < split_ver_spec(candidate).0.len() { split_ver_spec(candidate).0[i as int] } else { 0u64 })
            > (if i < split_ver_spec(current).0.len() { split_ver_spec(current).0[i as int] } else { 0u64 }),
    ensures
        is_newer_spec(candidate, current),
        !is_newer_spec(current, candidate),
{
    let cn = split_ver_spec(candidate).0;
    let un = split_ver_spec(current).0;
    lemma_order_first_larger(cn, un, 0, i);
    lemma_order_flip(cn, un, 0);
    lemma_newer_parts(candidate, current);
    lemma_newer_parts(current, candidate);
}

/// Release numbers written the usual way: in decimal, separated by dots.
pub open spec fn dotted(ns: Seq<u64>) -> Seq<char>
    decreases ns.len(),
{
    if ns.len() == 0 {
        seq![]
    } else if ns.len() == 1 {
        decimal(ns[0] as nat)
    } else {
        decimal(ns[0] as nat) + seq!['.'] + dotted(ns.drop_first())
    }
}

proof fn lemma_dotted_chars(ns: Seq<u64>)
    requires
        ns.len() >= 1,
    ensures
        dotted(ns).len() > 0,
        forall|i: int| 0 <= i < dotted(ns).len() ==> ('0' <= #[trigger] dotted(ns)[i] <= '9' || dotted(ns)[i] == '.'),
        '0' <= dotted(ns)[0] <= '9',
        '0' <= dotted(ns).last() <= '9',
    decreases ns.len(),
{
    crate::text::lemma_decimal_digits(ns[0] as nat);
    let d = decimal(ns[0] as nat);
    if ns.len() > 1 {
        let rest = ns.drop_first();
        lemma_dotted_chars(rest);
        let s = dotted(ns);
        assert(s == d + seq!['.'] + dotted(rest));
        assert forall|i: int| 0 <= i < s.len() implies ('0' <= #[trigger] s[i] <= '9' || s[i] == '.') by {
            if i < d.len() {
                assert(s[i] == d[i]);
            } else if i > d.len() {
                assert(s[i] == dotted(rest)[i - d.len() - 1]);
            }
        }
        assert(s[0] == d[0]);
        assert(s.last() == dotted(rest).last());
    }
}

proof fn lemma_no_dot_found(s: Seq<char>, pos: int)
    requires
        0 <= pos,
        forall|m: int| pos <= m < s.len() ==> s[m] != '.',
    ensures
        find_sub(s, seq!['.'], pos) is None,
    decreases s.len() - pos,
{
    if pos + 1 <= s.len() {
        assert(s.subrange(pos, pos + 1)[0] == s[pos]);
        lemma_no_dot_found(s, pos + 1);
    }
}

proof fn lemma_first_dot_at(s: Seq<char>, i: int, k: int)
    requires
        0 <= i <= k < s.len(),
        s[k] == '.',
        forall|m: int| i <= m < k ==> s[m] != '.',
    ensures
        find_sub(s, seq!['.'], i) == Some(k),
    decreases k - i,
{
    assert(s.subrange(i, i + 1)[0] == s[i]);
    if i < k {
        lemma_first_dot_at(s, i + 1, k);
    } else {
        assert(s.subrange(k, k + 1) =~= seq!['.']);
    }
}

proof fn lemma_find_dot_shift(x: Seq<char>, s: Seq<char>, pos: int)
    requires
        0 <= pos <= s.len(),
    ensures
        find_sub(x + s, seq!['.'], x.len() + pos) == match find_sub(s, seq!['.'], pos) {
            Some(k) => Some(x.len() + k),
            None => None,
        },
    decreases s.len() - pos,
{
    let t = x + s;
    let q = x.len() + pos;
    if pos + 1 <= s.len() {
        assert(t.subrange(q, q + 1) =~= s.subrange(pos, pos + 1));
        lemma_find_dot_shift(x, s, pos + 1);
    }
}

proof fn lemma_values_shift(x: Seq<char>, s: Seq<char>, pos: int)
    requires
        0 <= pos <= s.len(),
    ensures
        values_from(x + s, x.len() + pos) == values_from(s, pos),
    decreases s.len() - pos,
{
    let t = x + s;
    let q = x.len() + pos;
    lemma_find_dot_shift(x, s, pos);
    crate::text::lemma_find_sub(s, seq!['.'], pos);
    match find_sub(s, seq!['.'], pos) {
        Some(k) => {
            assert(t.subrange(q, x.len() + k) =~= s.subrange(pos, k));
            if pos <= k < s.len() {
                lemma_values_shift(x, s, k + 1);
            }
        },
        None => {
            assert(t.subrange(q, t.len() as int) =~= s.subrange(pos, s.len() as int));
        },
    }
}

proof fn lemma_parse_decimal(n: u64)
    ensures
        parse_u64_spec(decimal(n as nat)) == Some(n),
{
    crate::text::lemma_decimal_digits(n as nat);
    let d = decimal(n as nat);
    assert(d[0] != '+');
}

proof fn lemma_values_dotted(ns: Seq<u64>)
    requires
        ns.len() >= 1,
    ensures
        values_from(dotted(ns), 0) == ns,
    decreases ns.len(),
{
    let d = decimal(ns[0] as nat);
    crate::text::lemma_decimal_digits(ns[0] as nat);
    lemma_parse_decimal(ns[0]);
    let s = dotted(ns);
    if ns.len() == 1 {
        lemma_no_dot_found(s, 0);
        assert(s.subrange(0, s.len() as int) =~= s);
        assert(seq![ns[0]] =~= ns);
    } else {
        let rest = ns.drop_first();
        lemma_dotted_chars(rest);
        let x = d + seq!['.'];
        assert(s == x + dotted(rest));
        assert forall|m: int| 0 <= m < d.len() implies s[m] != '.' by {
            assert(s[m] == d[m]);
        }
        lemma_first_dot_at(s, 0, d.len() as int);
        assert(s.subrange(0, d.len() as int) =~= d);
        lemma_values_shift(x, dotted(rest), 0);
        lemma_values_dotted(rest);
        assert(seq![ns[0]] + rest =~= ns);
    }
}

/// A version written as its release numbers in decimal, separated by dots, reads back as
/// those numbers, with no prerelease part.
pub proof fn law_dotted_version_parts(ns: Seq<u64>)
    requires
        ns.len() >= 1,
    ensures
        split_ver_spec(dotted(ns)) == (ns, None::<Seq<char>>),
{
    let s = dotted(ns);
    lemma_dotted_chars(ns);
    assert(!crate::text::is_white_space(s[0]));
    assert(!crate::text::is_white_space(s[s.len() - 1]));
    assert(s.subrange(0, s.len() as int) =~= s);
    assert(trimmed(s) == s);
    assert(strip_v(s) == s);
    assert forall|m: int| 0 <= m < s.len() implies s[m] != '-' by {}
    assert forall|m: int| 0 <= m < s.len() implies !occurs_at(s, seq!['-'], m) by {
        assert(s.subrange(m, m + 1)[0] == s[m]);
    }
    lemma_no_dash_found(s, 0);
    lemma_values_dotted(ns);
}

proof fn lemma_no_dash_found(s: Seq<char>, pos: int)
    requires
        0 <= pos,
        forall|m: int| pos <= m < s.len() ==> !occurs_at(s, seq!['-'], m),
    ensures
        find_sub(s, seq!['-'], pos) is None,
    decreases s.len() - pos,
{
    if pos + 1 <= s.len() {
        lemma_no_dash_found(s, pos + 1);
    }
}

/// Of two dotted versions, the one whose numbers are the same up to some position and larger
/// there (as integers; a missing number counts as 0) is the newer: 0.1.10 is newer than 0.1.9.
pub proof fn law_dotted_newer(candidate: Seq<u64>, current: Seq<u64>, i: nat)
    requires
        candidate.len() >= 1,
        current.len() >= 1,
        forall|j: int|
            0 <= j < i ==> (if j < candidate.len() { candidate[j] } else { 0u64 }) == (if j < current.len() {
                current[j]
            } else {
                0u64
            }),
        (if i < candidate.len() { candidate[i as int] } else { 0u64 }) > (if i < current.len() {
            current[i as int]
        } else {
            0u64
        }),
    ensures
        is_newer_spec(dotted(candidate), dotted(current)),
        !is_newer_spec(dotted(current), dotted(candidate)),
{
    law_dotted_version_parts(candidate);
    law_dotted_version_parts(current);
    law_newer_by_larger_part(dotted(candidate), dotted(current), i);
}

/// The trimmed text of the first `<tag ...>...</tag>` element in `block`.
pub open spec fn tag_text(block: Seq<char>, tag: Seq<char>) -> Option<Seq<char>> {
    let open = seq!['<'] + tag;
    let close = seq!['<', '/'] + tag + seq!['>'];
    match find_sub(block, open, 0) {
        None => None,
        Some(st) => {
            let ao = block.skip(st + open.len());
            match find_sub(ao, seq!['>'], 0) {
                None => None,
                Some(g) => {
                    let text = ao.skip(g + 1);
                    match find_sub(text, close, 0) {
                        None => None,
                        Some(e) => Some(trimmed(text.take(e))),
                    }
                },
            }
        },
    }
}

/// Index of the last `c` before `j`.
pub open spec fn last_of(s: Seq<char>, c: char, j: int) -> Option<int>
    decreases j,
{
    if j <= 0 || j > s.len() {
        None
    } else if s[j - 1] == c {
        Some(j - 1)
    } else {
        last_of(s, c, j - 1)
    }
}

/// The text after the last `c` (all of it without one): `rsplit(c).next()`.
pub open spec fn after_last(s: Seq<char>, c: char) -> Seq<char> {
    match last_of(s, c, s.len() as int) {
        Some(k) => s.skip(k + 1),
        None => s,
    }
}

/// The last place at or before `j` where `p` occurs.
pub open spec fn last_sub(s: Seq<char>, p: Seq<char>, j: int) -> Option<int>
    decreases j + 1,
{
    if j < 0 {
        None
    } else if occurs_at(s, p, j) {
        Some(j)
    } else {
        last_sub(s, p, j - 1)
    }
}

/// The text without its trailing `/`s.
pub open spec fn strip_slashes(s: Seq<char>) -> Seq<char>
    decreases s.len(),
{
    if s.len() > 0 && s.last() == '/' {
        strip_slashes(s.drop_last())
    } else {
        s
    }
}

/// The release tag a link names: what follows its last `/tag/`, without trailing `/`s.
pub open spec fn tag_of_href(href: Seq<char>) -> Option<Seq<char>> {
    match last_sub(href, "/tag/"@, href.len() - 5) {
        None => None,
        Some(k) => {
            let t = strip_slashes(href.skip(k + 5));
            if t.len() > 0 {
                Some(t)
            } else {
                None
            }
        },
    }
}

/// The tag named by the first `href="..."` at or after `pos` that names one.
pub open spec fn href_tag(entry: Seq<char>, pos: int) -> Option<Seq<char>>
    decreases entry.len() - pos,
{
    let h = "href=\""@;
    if pos < 0 {
        None
    } else {
        match find_sub(entry, h, pos) {
            None => None,
            Some(k) => {
                let ps = k + h.len();
                let pe = match find_sub(entry, h, ps) {
                    Some(k2) => k2,
                    None => entry.len() as int,
                };
                let part = entry.subrange(ps, pe);
                let href = match find_sub(part, seq!['"'], 0) {
                    Some(q) => part.take(q),
                    None => part,
                };
                match tag_of_href(href) {
                    Some(t) => Some(t),
                    None => if pos < ps <= entry.len() {
                        href_tag(entry, ps)
                    } else {
                        None
                    },
                }
            },
        }
    }
}

/// The release tag of a feed entry: the last path segment of its `<id>` when that starts
/// with `v` or a digit, else the tag its links name.
pub open spec fn entry_tag_spec(entry: Seq<char>) -> Option<Seq<char>> {
    let from_id = match tag_text(entry, "id"@) {
        Some(id) => {
            let t = after_last(id, '/');
            if t.len() > 0 && (t[0] == 'v' || ('0' <= t[0] <= '9')) {
                Some(t)
            } else {
                None
            }
        },
        None => None,
    };
    match from_id {
        Some(t) => Some(t),
        None => href_tag(entry, 0),
    }
}

/// Releases of the feed from `pos` on, as (tag, title); entries without a tag are skipped.
pub open spec fn entries_from(xml: Seq<char>, pos: int) -> Seq<(Seq<char>, Option<Seq<char>>)>
    decreases xml.len() - pos,
{
    if pos < 0 || pos > xml.len() {
        seq![]
    } else {
        match find_sub(xml, "<entry>"@, pos) {
            None => seq![],
            Some(st) => {
                let a = st + 7;
                match find_sub(xml, "</entry>"@, a) {
                    None => seq![],
                    Some(e) => {
                        let entry = xml.subrange(a, e);
                        let tail = if pos < e + 8 <= xml.len() {
                            entries_from(xml, e + 8)
                        } else {
                            seq![]
                        };
                        match entry_tag_spec(entry) {
                            None => tail,
                            Some(t) => seq![(t, tag_text(entry, "title"@))] + tail,
                        }
                    },
                }
            },
        }
    }
}

pub open spec fn entry_view(e: AtomEntry) -> (Seq<char>, Option<Seq<char>>) {
    (
        e.tag@,
        match e.title {
            Some(t) => Some(t@),
            None => None,
        },
    )
}

fn tag_text_chars(block: &[char], tag: &[char]) -> (r: Option<Vec<char>>)
    ensures
        match r {
            Some(t) => tag_text(block@, tag@) == Some(t@),
            None => tag_text(block@, tag@) is None,
        },
{
    let mut open: Vec<char> = Vec::new();
    open.push('<');
    push_all(&mut open, tag);
    assert(open@ =~= seq!['<'] + tag@);
    let mut close: Vec<char> = Vec::new();
    close.push('<');
    close.push('/');
    push_all(&mut close, tag);
    close.push('>');
    assert(close@ =~= seq!['<', '/'] + tag@ + seq!['>']);
    let st = find_chars(block, open.as_slice(), 0)?;
    let ao = slice_subrange(block, st + open.len(), block.len());
    assert(ao@ =~= block@.skip(st + open@.len()));
    let gt = one('>');
    let g = find_chars(ao, gt.as_slice(), 0)?;
    let text = slice_subrange(ao, g + 1, ao.len());
    assert(text@ =~= ao@.skip(g + 1));
    let e = find_chars(text, close.as_slice(), 0)?;
    let inner = slice_subrange(text, 0, e);
    assert(inner@ =~= text@.take(e as int));
    Some(trim_chars(inner))
}

fn one(c: char) -> (r: Vec<char>)
    ensures
        r@ == seq![c],
{
    let mut v: Vec<char> = Vec::new();
    v.push(c);
    assert(v@ =~= seq![c]);
    v
}

fn push_all(out: &mut Vec<char>, src: &[char])
    ensures
        final(out)@ == old(out)@ + src@,
{
    let ghost start = out@;
    let mut i: usize = 0;
    while i < src.len()
        invariant
            i <= src@.len(),
            out@ == start + src@.take(i as int),
        decreases src@.len() - i,
    {
        out.push(src[i]);
        i += 1;
        assert(out@ =~= start + src@.take(i as int));
    }
    assert(src@.take(src@.len() as int) =~= src@);
}

/// The trimmed text of the first `<tag ...>...</tag>` element in `block`.
pub fn xml_tag_text(block: &str, tag: &str) -> (r: Option<String>)
    ensures
        match r {
            Some(t) => tag_text(block@, tag@) == Some(t@),
            None => tag_text(block@, tag@) is None,
        },
{
    let b = chars_of(block);
    let t = chars_of(tag);
    match tag_text_chars(b.as_slice(), t.as_slice()) {
        Some(v) => Some(string_from_chars(v.as_slice())),
        None => None,
    }
}

fn after_last_slash(s: &[char]) -> (r: Vec<char>)
    ensures
        r@ == after_last(s@, '/'),
{
    let mut j = s.len();
    while j > 0 && s[j - 1] != '/'
        invariant
            j <= s@.len(),
            last_of(s@, '/', s@.len() as int) == last_of(s@, '/', j as int),
        decreases j,
    {
        j -= 1;
    }
    if j == 0 {
        slice_to_vec(s)
    } else {
        let r = slice_to_vec(slice_subrange(s, j, s.len()));
        assert(r@ =~= s@.skip(j as int));
        r
    }
}

fn strip_slashes_at(s: &[char]) -> (r: usize)
    ensures
        r <= s@.len(),
        s@.take(r as int) == strip_slashes(s@),
{
    let mut j = s.len();
    assert(s@.take(j as int) =~= s@);
    while j > 0 && s[j - 1] == '/'
        invariant
            j <= s@.len(),
            strip_slashes(s@) == strip_slashes(s@.take(j as int)),
        decreases j,
    {
        assert(s@.take(j as int).drop_last() =~= s@.take(j - 1));
        j -= 1;
    }
    j
}

fn tag_from_href(href: &[char]) -> (r: Option<Vec<char>>)
    ensures
        match r {
            Some(t) => tag_of_href(href@) == Some(t@),
            None => tag_of_href(href@) is None,
        },
{
    let pat = chars_of("/tag/");
    proof {
        reveal_strlit("/tag/");
    }
    assert(pat@.len() == 5);
    let hl = href.len();
    if hl < 5 {
        assert(last_sub(href@, "/tag/"@, href@.len() - 5) is None);
        return None;
    }
    let mut j: usize = hl - 5;
    loop
        invariant
            j + 5 <= href@.len(),
            hl == href@.len(),
            pat@ == "/tag/"@,
            pat@.len() == 5,
            last_sub(href@, "/tag/"@, href@.len() - 5) == last_sub(href@, "/tag/"@, j as int),
        decreases j,
    {
        let mut m: usize = 0;
        let mut ok = true;
        while m < 5
            invariant
                m <= 5,
                j + 5 <= href@.len(),
                hl == href@.len(),
                pat@.len() == 5,
                ok == (forall|q: int| 0 <= q < m ==> href@[j + q] == #[trigger] pat@[q]),
            decreases 5 - m,
        {
            if href[j + m] != pat[m] {
                ok = false;
            }
            m += 1;
        }
        proof {
            if ok {
                assert(href@.subrange(j as int, j + 5) =~= pat@);
            } else {
                if href@.subrange(j as int, j + 5) =~= pat@ {
                    assert forall|q: int| 0 <= q < 5 implies href@[j + q] == #[trigger] pat@[q] by {
                        assert(href@.subrange(j as int, j + 5)[q] == href@[j + q]);
                    }
                }
            }
        }
        if ok {
            let rest = slice_subrange(href, j + 5, href.len());
            let e = strip_slashes_at(rest);
            assert(rest@ =~= href@.skip(j + 5));
            if e == 0 {
                return None;
            }
            let t = slice_to_vec(slice_subrange(rest, 0, e));
            assert(t@ =~= rest@.take(e as int));
            return Some(t);
        }
        if j == 0 {
            assert(!occurs_at(href@, "/tag/"@, 0));
            assert(last_sub(href@, "/tag/"@, 0) == last_sub(href@, "/tag/"@, -1));
            return None;
        }
        j -= 1;
    }
}

/// The release tag of a feed entry (see [`entry_tag_spec`]).
fn entry_tag_chars(entry: &[char]) -> (r: Option<Vec<char>>)
    ensures
        match r {
            Some(t) => entry_tag_spec(entry@) == Some(t@),
            None => entry_tag_spec(entry@) is None,
        },
{
    let id_tag = chars_of("id");
    if let Some(id) = tag_text_chars(entry, id_tag.as_slice()) {
        let t = after_last_slash(id.as_slice());
        if t.len() > 0 && (t[0] == 'v' || ('0' <= t[0] && t[0] <= '9')) {
            return Some(t);
        }
    }
    let h = chars_of("href=\"");
    let quote = one('"');
    let mut pos: usize = 0;
    loop
        invariant
            pos <= entry@.len(),
            h@ == "href=\""@,
            quote@ == seq!['"'],
            entry_tag_spec(entry@) == href_tag(entry@, pos as int),
        decreases entry@.len() - pos,
    {
        let k = match find_chars(entry, h.as_slice(), pos) {
            Some(k) => k,
            None => return None,
        };
        let ps = k + h.len();
        let pe = match find_chars(entry, h.as_slice(), ps) {
            Some(k2) => k2,
            None => entry.len(),
        };
        proof {
            crate::text::lemma_find_sub(entry@, h@, pos as int);
            crate::text::lemma_find_sub(entry@, h@, ps as int);
        }
        let part = slice_subrange(entry, ps, pe);
        let href = match find_chars(part, quote.as_slice(), 0) {
            Some(q) => {
                let v = slice_subrange(part, 0, q);
                assert(v@ =~= part@.take(q as int));
                v
            },
            None => part,
        };
        if let Some(t) = tag_from_href(href) {
            return Some(t);
        }
        if !(pos < ps) {
            return None;
        }
        pos = ps;
    }
}

/// The release tag of a feed entry (see [`entry_tag_spec`]).
pub fn entry_tag(entry: &str) -> (r: Option<String>)
    ensures
        match r {
            Some(t) => entry_tag_spec(entry@) == Some(t@),
            None => entry_tag_spec(entry@) is None,
        },
{
    let e = chars_of(entry);
    match entry_tag_chars(e.as_slice()) {
        Some(t) => Some(string_from_chars(t.as_slice())),
        None => None,
    }
}

/// Pull release tags from a GitHub releases Atom feed (newest first).
pub fn atom_entries(xml: &str) -> (r: Vec<AtomEntry>)
    ensures
        r@.map_values(|e: AtomEntry| entry_view(e)) == entries_from(xml@, 0),
{
    let x = chars_of(xml);
    let open = chars_of("<entry>");
    let close = chars_of("</entry>");
    let title = chars_of("title");
    proof {
        reveal_strlit("<entry>");
        reveal_strlit("</entry>");
    }
    assert(open@.len() == 7);
    assert(close@.len() == 8);
    let mut out: Vec<AtomEntry> = Vec::new();
    let mut pos: usize = 0;
    loop
        invariant
            pos <= x@.len(),
            x@ == xml@,
            open@ == "<entry>"@,
            close@ == "</entry>"@,
            open@.len() == 7,
            close@.len() == 8,
            title@ == "title"@,
            entries_from(xml@, 0) == out@.map_values(|e: AtomEntry| entry_view(e)) + entries_from(xml@, pos as int),
        decreases x@.len() - pos,
    {
        let st = match find_chars(x.as_slice(), open.as_slice(), pos) {
            Some(st) => st,
            None => {
                assert(out@.map_values(|e: AtomEntry| entry_view(e)) + Seq::empty() =~= out@.map_values(
                    |e: AtomEntry| entry_view(e),
                ));
                return out;
            },
        };
        let a = st + 7;
        let e = match find_chars(x.as_slice(), close.as_slice(), a) {
            Some(e) => e,
            None => {
                assert(out@.map_values(|e: AtomEntry| entry_view(e)) + Seq::empty() =~= out@.map_values(
                    |e: AtomEntry| entry_view(e),
                ));
                return out;
            },
        };
        proof {
            crate::text::lemma_find_sub(x@, open@, pos as int);
            crate::text::lemma_find_sub(x@, close@, a as int);
        }
        let entry = slice_subrange(x.as_slice(), a, e);
        let ghost before = out@;
        match entry_tag_chars(entry) {
            Some(tag) => {
                let t = tag_text_chars(entry, title.as_slice());
                let title_s = match t {
                    Some(v) => Some(string_from_chars(v.as_slice())),
                    None => None,
                };
                out.push(AtomEntry { tag: string_from_chars(tag.as_slice()), title: title_s });
                assert(out@.map_values(|e: AtomEntry| entry_view(e)) =~= before.map_values(
                    |e: AtomEntry| entry_view(e),
                ).push(entry_view(out@.last())));
            },
            None => {},
        }
        assert(entries_from(xml@, 0) == out@.map_values(|e: AtomEntry| entry_view(e)) + entries_from(
            xml@,
            e + 8,
        )) by {
            assert(before.map_values(|e: AtomEntry| entry_view(e)) + entries_from(xml@, pos as int) =~= out@.map_values(
                |e: AtomEntry| entry_view(e),
            ) + entries_from(xml@, e + 8));
        }
        pos = e + 8;
    }
}

/// The update a feed offers over `current`: the first entry whose tag, without leading
/// `v`s, is a newer version.
pub open spec fn first_newer(es: Seq<(Seq<char>, Option<Seq<char>>)>, current: Seq<char>) -> Option<int>
    decreases es.len(),
{
    if es.len() == 0 {
        None
    } else if is_newer_spec(strip_v(es[0].0), current) {
        Some(0)
    } else {
        match first_newer(es.drop_first(), current) {
            Some(i) => Some(i + 1),
            None => None,
        }
    }
}

/// Where the Flatpak bundle of release `tag` is downloaded from.
pub open spec fn download_url_of(tag: Seq<char>) -> Seq<char> {
    "https://github.com/DJPoulter/YACCGL/releases/download/"@ + tag + "/"@
        + "yet-another-creature-collector-game-launcher.flatpak"@
}

/// The newest release in `entries` that is newer than `current`, as an update: its
/// version is the tag without leading `v`s, its name the title (or the tag), and it is a
/// prerelease when the version holds a `-`. Its size is not known from the feed (0).
pub fn pick_update(entries: &[AtomEntry], current: &str) -> (r: Option<AvailableUpdate>)
    ensures
        match first_newer(entries@.map_values(|e: AtomEntry| entry_view(e)), current@) {
            None => r is None,
            Some(i) => r matches Some(u) && {
                let (tag, title) = entry_view(entries@[i]);
                &&& u.tag@ == tag
                &&& u.version@ == strip_v(tag)
                &&& u.name@ == match title {
                    Some(t) => t,
                    None => tag,
                }
                &&& u.download_url@ == download_url_of(tag)
                &&& u.size == 0
                &&& u.prerelease == find_sub(strip_v(tag), seq!['-'], 0) is Some
            },
        },
{
    let ghost es = entries@.map_values(|e: AtomEntry| entry_view(e));
    let mut i: usize = 0;
    assert(es.skip(0) =~= es);
    while i < entries.len()
        invariant
            i <= entries@.len(),
            es == entries@.map_values(|e: AtomEntry| entry_view(e)),
            first_newer(es, current@) == match first_newer(es.skip(i as int), current@) {
                Some(k) => Some(k + i),
                None => None,
            },
        decreases entries@.len() - i,
    {
        let tag_chars = chars_of(entries[i].tag.as_str());
        let a = strip_v_at(tag_chars.as_slice());
        let vchars = slice_subrange(tag_chars.as_slice(), a, tag_chars.len());
        assert(vchars@ =~= strip_v(entries@[i as int].tag@));
        let version = string_from_chars(vchars);
        assert(es.skip(i as int)[0] == es[i as int]);
        if is_newer(version.as_str(), current) {
            let tag = entries[i].tag.clone();
            let name = match &entries[i].title {
                Some(t) => t.clone(),
                None => entries[i].tag.clone(),
            };
            let mut url = String::new();
            push_str(&mut url, "https://github.com/DJPoulter/YACCGL/releases/download/");
            push_str(&mut url, tag.as_str());
            push_str(&mut url, "/");
            push_str(&mut url, BUNDLE_NAME);
            let m = one('-');
            let prerelease = find_chars(vchars, m.as_slice(), 0).is_some();
            return Some(AvailableUpdate { tag, version, name, download_url: url, size: 0, prerelease });
        }
        assert(es.skip(i as int).drop_first() =~= es.skip(i + 1));
        i += 1;
    }
    None
}

/// Where a downloaded update bundle is kept: `yaccgl-<version>.flatpak` in the
/// launcher's directory of the user's cache directory (`.` without one).
pub fn bundle_cache_path_in(cache_dir: Option<&str>, version: &str) -> (r: String)
    ensures
        r@ == crate::steam::joined(
            crate::steam::joined(
                match cache_dir {
                    Some(c) => c@,
                    None => "."@,
                },
                "yet-another-creature-collector-game-launcher"@,
            ),
            "yaccgl-"@ + version@ + ".flatpak"@,
        ),
{
    let base = match cache_dir {
        Some(c) => c,
        None => ".",
    };
    let d = crate::steam::path_join(base, "yet-another-creature-collector-game-launcher");
    let mut name = String::new();
    push_str(&mut name, "yaccgl-");
    push_str(&mut name, version);
    push_str(&mut name, ".flatpak");
    crate::steam::path_join(d.as_str(), name.as_str())
}

/// Whether a finished download of `done` bytes is the bundle: an expected size (when
/// known, i.e. not 0) must match, and it must not be empty.
pub fn check_download(done: u64, expected: u64) -> (r: Result<(), crate::error::Error>)
    ensures
        expected > 0 && done != expected ==> (r matches Err(crate::error::Error::Http(m)) && m@
            == "download size mismatch: got "@ + crate::text::decimal(done as nat) + " bytes, expected "@
            + crate::text::decimal(expected as nat)),
        !(expected > 0 && done != expected) && done == 0 ==> (r matches Err(crate::error::Error::Http(m)) && m@
            == "download was empty"@),
        !(expected > 0 && done != expected) && done != 0 ==> r is Ok,
{
    if expected > 0 && done != expected {
        let mut m = String::new();
        push_str(&mut m, "download size mismatch: got ");
        push_str(&mut m, crate::text::u64_to_string(done).as_str());
        push_str(&mut m, " bytes, expected ");
        push_str(&mut m, crate::text::u64_to_string(expected).as_str());
        return Err(crate::error::Error::Http(m));
    }
    if done == 0 {
        return Err(crate::error::Error::Http("download was empty".to_owned()));
    }
    Ok(())
}

} // verus!
