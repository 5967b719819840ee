//! Character and byte helpers shared by the file-format modules.

use vstd::prelude::*;
use vstd::std_specs::iter::IteratorSpec;

verus! {

broadcast use vstd::string::group_string_axioms;

/// ASCII lower-casing of one byte; other bytes are unchanged.
pub open spec fn lower_byte(b: u8) -> u8 {
    if 65 <= b <= 90 { (b + 32) as u8 } else { b }
}

/// ASCII lower-casing of one character; other characters are unchanged.
pub open spec fn lower_char(c: char) -> char {
    if 'A' <= c <= 'Z' { ((c as u32) + 32) as char } else { c }
}

/// Byte strings equal up to ASCII case (`[u8]::eq_ignore_ascii_case`).
pub open spec fn bytes_eq_ci(a: Seq<u8>, b: Seq<u8>) -> bool {
    &&& a.len() == b.len()
    &&& forall|i: int| 0 <= i < a.len() ==> lower_byte(#[trigger] a[i]) == lower_byte(b[i])
}

/// Strings equal up to ASCII case. For valid UTF-8 this is what `str::eq_ignore_ascii_case`
/// decides byte by byte: ASCII bytes never occur inside a multi-byte character.
pub open spec fn chars_eq_ci(a: Seq<char>, b: Seq<char>) -> bool {
    &&& a.len() == b.len()
    &&& forall|i: int| 0 <= i < a.len() ==> lower_char(#[trigger] a[i]) == lower_char(b[i])
}

pub fn eq_ci_bytes(a: &[u8], b: &[u8]) -> (r: bool)
    ensures
        r == bytes_eq_ci(a@, b@),
{
    if a.len() != b.len() {
        return false;
    }
    let mut i: usize = 0;
    while i < a.len()
        invariant
            a@.len() == b@.len(),
            i <= a@.len(),
            forall|j: int| 0 <= j < i ==> lower_byte(#[trigger] a@[j]) == lower_byte(b@[j]),
        decreases a@.len() - i,
    {
        let x = a[i];
        let y = b[i];
        let lx = if 65 <= x && x <= 90 { x + 32 } else { x };
        let ly = if 65 <= y && y <= 90 { y + 32 } else { y };
        if lx != ly {
            return false;
        }
        i += 1;
    }
    true
}

pub fn eq_ci_chars(a: &[char], b: &[char]) -> (r: bool)
    ensures
        r == chars_eq_ci(a@, b@),
{
    if a.len() != b.len() {
        return false;
    }
    let mut i: usize = 0;
    while i < a.len()
        invariant
            a@.len() == b@.len(),
            i <= a@.len(),
            forall|j: int| 0 <= j < i ==> lower_char(#[trigger] a@[j]) == lower_char(b@[j]),
        decreases a@.len() - i,
    {
        if lower_ascii(a[i]) != lower_ascii(b[i]) {
            return false;
        }
        i += 1;
    }
    true
}

pub fn lower_ascii(c: char) -> (r: char)
    ensures
        r == lower_char(c),
{
    if 'A' <= c && c <= 'Z' {
        let u: u32 = (c as u32) + 32;
        assert(u < 0x80);
        char_from_ascii(u as u8)
    } else {
        c
    }
}

/// The character with ASCII code `b`.
pub fn char_from_ascii(b: u8) -> (c: char)
    requires
        b < 0x80,
    ensures
        c as u32 == b as u32,
{
    b as char
}

/// Whether `s` starts with the character `c`.
pub fn starts_with_char(s: &str, c: char) -> (r: bool)
    ensures
        r == (s@.len() > 0 && s@[0] == c),
{
    let mut it = s.chars();
    match it.next() {
        Some(first) => first == c,
        None => false,
    }
}

/// The characters of `s`, in order.
pub fn chars_of(s: &str) -> (r: Vec<char>)
    ensures
        r@ == s@,
{
    let mut out: Vec<char> = Vec::new();
    let mut it = s.chars();
    loop
        invariant
            it.remaining() == s@.skip(out@.len() as int),
            out@ == s@.take(out@.len() as int),
            out@.len() <= s@.len(),
        ensures
            out@ == s@,
        decreases s@.len() - out@.len(),
    {
        match it.next() {
            Some(c) => {
                out.push(c);
            },
            None => {
                assert(s@.skip(out@.len() as int).len() == 0);
                assert(out@ =~= s@);
                break;
            },
        }
    }
    out
}

/// `String::push`: appends one character.
#[verifier::external_body]
pub(crate) fn push_char(s: &mut String, c: char)
    ensures
        final(s)@ == old(s)@.push(c),
{
    s.push(c);
}

/// The text that `String::from_utf8_lossy` makes of a byte string.
pub uninterp spec fn utf8_lossy(bytes: Seq<u8>) -> Seq<char>;

/// `String::from_utf8_lossy`, taken as an owned string. Its result is named by
/// [`utf8_lossy`]; for valid UTF-8 input the documentation promises the same text back,
/// which is what this states. What it makes of invalid sequences is left unsaid.
#[verifier::external_body]
pub(crate) fn from_utf8_lossy(bytes: &[u8]) -> (r: String)
    ensures
        r@ == utf8_lossy(bytes@),
        vstd::utf8::valid_utf8(bytes@) ==> r@ == vstd::utf8::decode_utf8(bytes@),
{
    String::from_utf8_lossy(bytes).into_owned()
}

/// A string holding the given characters.
pub fn string_from_chars(cs: &[char]) -> (r: String)
    ensures
        r@ == cs@,
{
    let mut out = String::new();
    let mut i: usize = 0;
    while i < cs.len()
        invariant
            i <= cs@.len(),
            out@ == cs@.take(i as int),
        decreases cs@.len() - i,
    {
        push_char(&mut out, cs[i]);
        i += 1;
        assert(out@ =~= cs@.take(i as int));
    }
    assert(cs@.take(cs@.len() as int) =~= cs@);
    out
}

/// Appends all of `src` to `out`.
pub fn push_bytes(out: &mut Vec<u8>, src: &[u8])
    ensures
        final(out)@ == old(out)@ + src@,
{
    let ghost start = out@;
    let mut i: usize = 0;
    while i < src.len()
        invariant
            i <= src@.len(),
            out@ == start + src@.take(i as int),
        decreases src@.len() - i,
    {
        out.push(src[i]);
        i += 1;
        assert(out@ =~= start + src@.take(i as int));
    }
    assert(src@.take(src@.len() as int) =~= src@);
}

/// Appends all of `src` to `out`.
pub fn push_chars(out: &mut String, src: &[char])
    ensures
        final(out)@ == old(out)@ + src@,
{
    let ghost start = out@;
    let mut i: usize = 0;
    while i < src.len()
        invariant
            i <= src@.len(),
            out@ == start + src@.take(i as int),
        decreases src@.len() - i,
    {
        push_char(out, src[i]);
        i += 1;
        assert(out@ =~= start + src@.take(i as int));
    }
    assert(src@.take(src@.len() as int) =~= src@);
}

/// Decimal digits of `n`, most significant first, without leading zeros ("0" for zero).
pub open spec fn decimal(n: nat) -> Seq<char>
    decreases n,
{
    if n < 10 {
        seq![digit_char(n)]
    } else {
        decimal(n / 10).push(digit_char(n % 10))
    }
}

pub open spec fn digit_char(d: nat) -> char {
    ((d + 48) as u32) as char
}

/// `decimal(n)` is a non-empty string of ASCII digits that reads back as `n`.
pub proof fn lemma_decimal_digits(n: nat)
    ensures
        decimal(n).len() > 0,
        all_digits(decimal(n)),
        digits_value(decimal(n)) == n,
    decreases n,
{
    let k = n % 10;
    assert((digit_char(k) as u32) == k + 48);
    if n < 10 {
        assert(n % 10 == n);
        assert(decimal(n).drop_last() =~= Seq::<char>::empty());
        assert(decimal(n).last() == digit_char(k));
        assert(digits_value(decimal(n)) == digits_value(decimal(n).drop_last()) * 10 + ((decimal(n).last() as u32) - 48) as nat);
    } else {
        lemma_decimal_digits(n / 10);
        let d = decimal(n);
        assert(d.drop_last() =~= decimal(n / 10));
        assert(d.last() == digit_char(n % 10));
        assert forall|i: int| 0 <= i < d.len() implies '0' <= #[trigger] d[i] <= '9' by {
            if i < d.len() - 1 {
                assert(d[i] == decimal(n / 10)[i]);
            }
        }
        assert(digits_value(d) == digits_value(d.drop_last()) * 10 + ((d.last() as u32) - 48) as nat);
        assert((n / 10) * 10 + n % 10 == n) by (nonlinear_arith);
    }
}

/// Decimal text of a signed number: a minus sign for negatives.
pub open spec fn signed_decimal(n: int) -> Seq<char> {
    if n < 0 {
        seq!['-'] + decimal((-n) as nat)
    } else {
        decimal(n as nat)
    }
}

/// Decimal text of `n` (what `to_string` gives for an unsigned number).
pub fn u64_to_string(n: u64) -> (r: String)
    ensures
        r@ == decimal(n as nat),
{
    let mut digits: Vec<char> = Vec::new();
    let mut m = n;
    // digits are collected least significant first
    loop
        invariant_except_break
            decimal(n as nat) == decimal(m as nat) + digits@.reverse(),
        ensures
            decimal(n as nat) == digits@.reverse(),
        decreases m,
    {
        let d = m % 10;
        let c = if d == 0 { '0' } else if d == 1 { '1' } else if d == 2 { '2' } else if d == 3 {
            '3'
        } else if d == 4 { '4' } else if d == 5 { '5' } else if d == 6 { '6' } else if d == 7 {
            '7'
        } else if d == 8 { '8' } else { '9' };
        assert(c == digit_char(d as nat));
        if m < 10 {
            let ghost old_digits = digits@;
            digits.push(c);
            assert(digits@.reverse() =~= seq![c] + old_digits.reverse());
            assert(decimal(m as nat) =~= seq![c]);
            break;
        }
        let ghost old_digits = digits@;
        digits.push(c);
        assert(digits@.reverse() =~= seq![c] + old_digits.reverse());
        m = m / 10;
        assert(decimal((m * 10 + d) as nat) == decimal(m as nat).push(c));
    }
    let mut out = String::new();
    let mut i = digits.len();
    let ghost all = digits@.reverse();
    while i > 0
        invariant
            i <= digits@.len(),
            all == digits@.reverse(),
            out@ == all.take((digits@.len() - i) as int),
        decreases i,
    {
        i -= 1;
        push_char(&mut out, digits[i]);
        assert(out@ =~= all.take((digits@.len() - i) as int));
    }
    assert(all.take(digits@.len() as int) =~= all);
    out
}

/// A character as written inside quotes: backslash and quote get a backslash in front.
pub open spec fn esc_char(c: char) -> Seq<char> {
    if c == '\\' {
        seq!['\\', '\\']
    } else if c == '"' {
        seq!['\\', '"']
    } else {
        seq![c]
    }
}

pub open spec fn escape(s: Seq<char>) -> Seq<char>
    decreases s.len(),
{
    if s.len() == 0 {
        seq![]
    } else {
        esc_char(s[0]) + escape(s.drop_first())
    }
}

pub open spec fn quoted(s: Seq<char>) -> Seq<char> {
    seq!['"'] + escape(s) + seq!['"']
}

pub proof fn lemma_escape_push(a: Seq<char>, c: char)
    ensures
        escape(a.push(c)) == escape(a) + esc_char(c),
    decreases a.len(),
{
    if a.len() == 0 {
        assert(a.push(c).drop_first() =~= Seq::<char>::empty());
        assert(escape(Seq::<char>::empty()) =~= Seq::<char>::empty());
        assert(escape(a.push(c)) =~= escape(a) + esc_char(c));
    } else {
        assert(a.push(c).drop_first() =~= a.drop_first().push(c));
        lemma_escape_push(a.drop_first(), c);
        assert(escape(a.push(c)) =~= escape(a) + esc_char(c));
    }
}

pub fn write_escaped(out: &mut String, s: &str)
    ensures
        final(out)@ == old(out)@ + escape(s@),
{
    let cs = chars_of(s);
    let ghost start = out@;
    let mut i: usize = 0;
    assert(cs@.take(0) =~= Seq::<char>::empty());
    while i < cs.len()
        invariant
            i <= cs@.len(),
            cs@ == s@,
            out@ == start + escape(cs@.take(i as int)),
        decreases cs@.len() - i,
    {
        let c = cs[i];
        let ghost before = out@;
        if c == '\\' {
            push_char(out, '\\');
            push_char(out, '\\');
        } else if c == '"' {
            push_char(out, '\\');
            push_char(out, '"');
        } else {
            push_char(out, c);
        }
        proof {
            assert(out@ =~= before + esc_char(c));
            assert(cs@.take(i + 1) =~= cs@.take(i as int).push(c));
            lemma_escape_push(cs@.take(i as int), c);
        }
        i += 1;
    }
    assert(cs@.take(cs@.len() as int) =~= cs@);
}

pub fn write_quoted(out: &mut String, s: &str)
    ensures
        final(out)@ == old(out)@ + quoted(s@),
{
    push_char(out, '"');
    write_escaped(out, s);
    push_char(out, '"');
    assert(out@ =~= old(out)@ + quoted(s@));
}


/// Appends all of `s` to `out`.
pub fn push_str(out: &mut String, s: &str)
    ensures
        final(out)@ == old(out)@ + s@,
{
    let cs = chars_of(s);
    push_chars(out, cs.as_slice());
}

/// Decimal text of `n` (what `to_string` gives for a signed number).
pub fn i32_to_string(n: i32) -> (r: String)
    ensures
        r@ == signed_decimal(n as int),
{
    if n < 0 {
        let m: u64 = (0i64 - (n as i64)) as u64;
        let digits = u64_to_string(m);
        let mut out = String::new();
        push_char(&mut out, '-');
        push_str(&mut out, digits.as_str());
        assert(out@ =~= seq!['-'] + decimal(m as nat));
        out
    } else {
        u64_to_string(n as u64)
    }
}

/// Whether `s` ends with the character `c`.
pub fn ends_with_char(s: &str, c: char) -> (r: bool)
    ensures
        r == (s@.len() > 0 && s@.last() == c),
{
    let cs = chars_of(s);
    cs.len() > 0 && cs[cs.len() - 1] == c
}

/// Unicode `White_Space`, what `char::is_whitespace` and `str::trim` go by.
pub open spec fn is_white_space(c: char) -> bool {
    ||| '\t' <= c <= '\r'
    ||| c == ' '
    ||| c == '\u{85}'
    ||| c == '\u{a0}'
    ||| c == '\u{1680}'
    ||| '\u{2000}' <= c <= '\u{200a}'
    ||| c == '\u{2028}'
    ||| c == '\u{2029}'
    ||| c == '\u{202f}'
    ||| c == '\u{205f}'
    ||| c == '\u{3000}'
}

/// `char::is_whitespace`.
pub fn white_space_char(c: char) -> (r: bool)
    ensures
        r == is_white_space(c),
{
    ('\t' <= c && c <= '\r') || c == ' ' || c == '\u{85}' || c == '\u{a0}' || c == '\u{1680}'
        || ('\u{2000}' <= c && c <= '\u{200a}') || c == '\u{2028}' || c == '\u{2029}' || c == '\u{202f}'
        || c == '\u{205f}' || c == '\u{3000}'
}

/// Position of the first character at or after `i` that is not white space.
pub open spec fn trim_start_at(s: Seq<char>, i: int) -> int
    decreases s.len() - i,
{
    if i < 0 || i >= s.len() || !is_white_space(s[i]) {
        i
    } else {
        trim_start_at(s, i + 1)
    }
}

/// Position just after the last character before `j` that is not white space (at least `i`).
pub open spec fn trim_end_at(s: Seq<char>, i: int, j: int) -> int
    decreases j - i,
{
    if j <= i || !is_white_space(s[j - 1]) {
        j
    } else {
        trim_end_at(s, i, j - 1)
    }
}

/// `str::trim`: the text without leading and trailing white space.
pub open spec fn trimmed(s: Seq<char>) -> Seq<char> {
    let a = trim_start_at(s, 0);
    s.subrange(a, trim_end_at(s, a, s.len() as int))
}

proof fn lemma_trim_start(s: Seq<char>, i: int)
    requires
        0 <= i <= s.len(),
    ensures
        i <= trim_start_at(s, i) <= s.len(),
    decreases s.len() - i,
{
    if i < s.len() && is_white_space(s[i]) {
        lemma_trim_start(s, i + 1);
    }
}

proof fn lemma_trim_end(s: Seq<char>, i: int, j: int)
    requires
        0 <= i <= j <= s.len(),
    ensures
        i <= trim_end_at(s, i, j) <= j,
    decreases j - i,
{
    if j > i && is_white_space(s[j - 1]) {
        lemma_trim_end(s, i, j - 1);
    }
}

/// The characters of `s` without leading and trailing white space.
pub fn trim_chars(s: &[char]) -> (r: Vec<char>)
    ensures
        r@ == trimmed(s@),
{
    let mut a: usize = 0;
    while a < s.len() && white_space_char(s[a])
        invariant
            a <= s@.len(),
            trim_start_at(s@, 0) == trim_start_at(s@, a as int),
        decreases s@.len() - a,
    {
        a += 1;
    }
    let mut b: usize = s.len();
    while b > a && white_space_char(s[b - 1])
        invariant
            a <= b <= s@.len(),
            a == trim_start_at(s@, 0),
            trim_end_at(s@, a as int, s@.len() as int) == trim_end_at(s@, a as int, b as int),
        decreases b,
    {
        b -= 1;
    }
    vstd::slice::slice_to_vec(vstd::slice::slice_subrange(s, a, b))
}

/// Whether every character is an ASCII digit.
pub open spec fn all_digits(s: Seq<char>) -> bool {
    forall|i: int| 0 <= i < s.len() ==> '0' <= #[trigger] s[i] <= '9'
}

/// The number written by a string of ASCII digits.
pub open spec fn digits_value(s: Seq<char>) -> nat
    decreases s.len(),
{
    if s.len() == 0 {
        0
    } else {
        digits_value(s.drop_last()) * 10 + ((s.last() as u32) - 48) as nat
    }
}

/// What `str::parse` accepts for an unsigned integer, before its range is checked: an
/// optional `+` and at least one ASCII digit.
pub open spec fn unsigned_text(s: Seq<char>) -> Option<nat> {
    let d = if s.len() > 0 && s[0] == '+' { s.drop_first() } else { s };
    if d.len() > 0 && all_digits(d) {
        Some(digits_value(d))
    } else {
        None
    }
}

/// `s.parse::<u64>().ok()`.
pub open spec fn parse_u64_spec(s: Seq<char>) -> Option<u64> {
    match unsigned_text(s) {
        Some(n) => if n <= u64::MAX { Some(n as u64) } else { None },
        None => None,
    }
}

/// `s.parse::<u32>().ok()`.
pub open spec fn parse_u32_spec(s: Seq<char>) -> Option<u32> {
    match unsigned_text(s) {
        Some(n) => if n <= u32::MAX { Some(n as u32) } else { None },
        None => None,
    }
}

proof fn lemma_digits_grow(s: Seq<char>, i: int)
    requires
        0 <= i <= s.len(),
        all_digits(s),
    ensures
        digits_value(s.take(i)) <= digits_value(s),
    decreases s.len() - i,
{
    if i < s.len() {
        lemma_digits_grow(s, i + 1);
        assert(s.take(i + 1).drop_last() =~= s.take(i));
    } else {
        assert(s.take(i) =~= s);
    }
}

/// `parse::<u64>().ok()` of the text made of `cs`.
pub fn parse_u64_chars(cs: &[char]) -> (r: Option<u64>)
    ensures
        r == parse_u64_spec(cs@),
{
    let start: usize = if cs.len() > 0 && cs[0] == '+' { 1 } else { 0 };
    let ghost d = if cs@.len() > 0 && cs@[0] == '+' { cs@.drop_first() } else { cs@ };
    assert(d =~= cs@.subrange(start as int, cs@.len() as int));
    if start >= cs.len() {
        return None;
    }
    let mut v: u64 = 0;
    let mut i: usize = start;
    while i < cs.len()
        invariant
            start <= i <= cs@.len(),
            cs@ == cs@,
            d == (if cs@.len() > 0 && cs@[0] == '+' { cs@.drop_first() } else { cs@ }),
            d == cs@.subrange(start as int, cs@.len() as int),
            all_digits(d.take(i - start)),
            v as nat == digits_value(d.take(i - start)),
        decreases cs@.len() - i,
    {
        let c = cs[i];
        assert(c == d[i - start]);
        if !('0' <= c && c <= '9') {
            assert(!all_digits(d));
            assert(unsigned_text(cs@) is None);
            return None;
        }
        let dig = (c as u32 - 48) as u64;
        assert(d.take(i + 1 - start).drop_last() =~= d.take(i - start));
        if v > (u64::MAX - dig) / 10 {
            proof {
                assert(digits_value(d.take(i + 1 - start)) > u64::MAX) by (nonlinear_arith)
                    requires
                        digits_value(d.take(i + 1 - start)) == v * 10 + dig,
                        v > (u64::MAX - dig) / 10,
                        dig <= 9,
                ;
                // every longer prefix only grows
                if all_digits(d) {
                    lemma_digits_grow(d, i + 1 - start);
                    assert(d.take(d.len() as int) =~= d);
                    assert(unsigned_text(cs@) == Some(digits_value(d)));
                }
            }
            return None;
        }
        v = v * 10 + dig;
        i += 1;
    }
    assert(d.take(d.len() as int) =~= d);
    Some(v)
}

/// `s.parse::<u64>().ok()`.
pub fn parse_u64(s: &str) -> (r: Option<u64>)
    ensures
        r == parse_u64_spec(s@),
{
    let cs = chars_of(s);
    parse_u64_chars(cs.as_slice())
}

/// `parse::<u32>().ok()` of the text made of `cs`.
pub fn parse_u32_chars(cs: &[char]) -> (r: Option<u32>)
    ensures
        r == parse_u32_spec(cs@),
{
    match parse_u64_chars(cs) {
        Some(v) => if v <= 0xffff_ffffu64 { Some(v as u32) } else { None },
        None => None,
    }
}

/// `s.parse::<u32>().ok()`.
pub fn parse_u32(s: &str) -> (r: Option<u32>)
    ensures
        r == parse_u32_spec(s@),
{
    match parse_u64(s) {
        Some(v) => if v <= 0xffff_ffffu64 { Some(v as u32) } else { None },
        None => None,
    }
}

/// Every string equals itself up to case.
pub proof fn lemma_chars_eq_ci_refl(s: Seq<char>)
    ensures
        chars_eq_ci(s, s),
{
}

/// A lowercase hexadecimal digit.
pub open spec fn hex_digit(d: nat) -> char {
    if d < 10 {
        ((48 + d) as u32) as char
    } else {
        ((87 + d) as u32) as char
    }
}

/// Two lowercase hex digits of a byte.
pub open spec fn hex_byte(b: u8) -> Seq<char> {
    seq![hex_digit((b / 16) as nat), hex_digit((b % 16) as nat)]
}

/// Lowercase hex of a byte string, two digits per byte.
pub open spec fn hex_lower(bs: Seq<u8>) -> Seq<char>
    decreases bs.len(),
{
    if bs.len() == 0 {
        seq![]
    } else {
        hex_lower(bs.drop_last()) + hex_byte(bs.last())
    }
}

/// Hexadecimal digits of `n`, most significant first, without leading zeros.
pub open spec fn hex_num(n: nat) -> Seq<char>
    decreases n,
{
    if n < 16 {
        seq![hex_digit(n)]
    } else {
        hex_num(n / 16).push(hex_digit(n % 16))
    }
}

fn hex_digit_char(d: u32) -> (c: char)
    requires
        d < 16,
    ensures
        c == hex_digit(d as nat),
{
    if d < 10 {
        char_from_ascii((48 + d) as u8)
    } else {
        char_from_ascii((87 + d) as u8)
    }
}

/// `format!("{n:#x}")`: `0x` and the lowercase hex digits of `n`.
pub fn hex_u32(n: u32) -> (r: String)
    ensures
        r@ == seq!['0', 'x'] + hex_num(n as nat),
{
    let mut digits: Vec<char> = Vec::new();
    let mut m = n;
    loop
        invariant_except_break
            hex_num(n as nat) == hex_num(m as nat) + digits@.reverse(),
        ensures
            hex_num(n as nat) == digits@.reverse(),
        decreases m,
    {
        let d = m % 16;
        let c = hex_digit_char(d);
        let ghost old_digits = digits@;
        digits.push(c);
        assert(digits@.reverse() =~= seq![c] + old_digits.reverse());
        if m < 16 {
            assert(hex_num(m as nat) =~= seq![c]);
            break;
        }
        m = m / 16;
        assert(hex_num((m * 16 + d) as nat) == hex_num(m as nat).push(c));
    }
    let mut out = String::new();
    push_char(&mut out, '0');
    push_char(&mut out, 'x');
    let mut i = digits.len();
    let ghost all = digits@.reverse();
    while i > 0
        invariant
            i <= digits@.len(),
            all == digits@.reverse(),
            out@ == seq!['0', 'x'] + all.take((digits@.len() - i) as int),
        decreases i,
    {
        i -= 1;
        push_char(&mut out, digits[i]);
        assert(out@ =~= seq!['0', 'x'] + all.take((digits@.len() - i) as int));
    }
    assert(all.take(digits@.len() as int) =~= all);
    out
}

/// `p` occurs in `s` at `k`.
pub open spec fn occurs_at(s: Seq<char>, p: Seq<char>, k: int) -> bool {
    0 <= k && k + p.len() <= s.len() && s.subrange(k, k + p.len()) == p
}

/// The first place at or after `i` where `p` occurs in `s`.
pub open spec fn find_sub(s: Seq<char>, p: Seq<char>, i: int) -> Option<int>
    decreases s.len() - i,
{
    if i < 0 || i + p.len() > s.len() {
        None
    } else if occurs_at(s, p, i) {
        Some(i)
    } else if i >= s.len() {
        None
    } else {
        find_sub(s, p, i + 1)
    }
}

pub proof fn lemma_find_sub(s: Seq<char>, p: Seq<char>, i: int)
    requires
        0 <= i,
    ensures
        match find_sub(s, p, i) {
            Some(k) => i <= k && occurs_at(s, p, k),
            None => true,
        },
    decreases s.len() - i,
{
    if i + p.len() <= s.len() && !occurs_at(s, p, i) && i < s.len() {
        lemma_find_sub(s, p, i + 1);
    }
}

fn matches_at(s: &[char], p: &[char], k: usize) -> (r: bool)
    requires
        k + p@.len() <= s@.len(),
    ensures
        r == occurs_at(s@, p@, k as int),
{
    let n = s.len();
    let mut j: usize = 0;
    while j < p.len()
        invariant
            j <= p@.len(),
            n == s@.len(),
            k + p@.len() <= s@.len(),
            forall|m: int| 0 <= m < j ==> s@[k + m] == #[trigger] p@[m],
        decreases p@.len() - j,
    {
        if s[k + j] != p[j] {
            assert(s@.subrange(k as int, k + p@.len())[j as int] != p@[j as int]);
            return false;
        }
        j += 1;
    }
    assert(s@.subrange(k as int, k + p@.len()) =~= p@);
    true
}

/// The first place at or after `i` where `p` occurs in `s` (`str::find`).
pub fn find_chars(s: &[char], p: &[char], i: usize) -> (r: Option<usize>)
    ensures
        s@.len() <= usize::MAX,
        match r {
            Some(k) => find_sub(s@, p@, i as int) == Some(k as int) && k + p@.len() <= s@.len(),
            None => find_sub(s@, p@, i as int) is None,
        },
{
    if p.len() > s.len() || i > s.len() - p.len() {
        return None;
    }
    if p.len() == 0 {
        assert(s@.subrange(i as int, i as int) =~= p@);
        return Some(i);
    }
    let mut k = i;
    while k <= s.len() - p.len()
        invariant
            i <= k <= s@.len(),
            1 <= p@.len() <= s@.len(),
            find_sub(s@, p@, i as int) == find_sub(s@, p@, k as int),
        decreases s@.len() - k,
    {
        if matches_at(s, p, k) {
            return Some(k);
        }
        k += 1;
    }
    None
}

/// Decimal text of `n` (what `to_string` gives for a signed number).
pub fn i64_to_string(n: i64) -> (r: String)
    ensures
        r@ == signed_decimal(n as int),
{
    if n < 0 {
        let m: u64 = if n == i64::MIN { 0x8000_0000_0000_0000u64 } else { (0 - n) as u64 };
        let digits = u64_to_string(m);
        let mut out = String::new();
        push_char(&mut out, '-');
        push_str(&mut out, digits.as_str());
        assert(out@ =~= seq!['-'] + decimal(m as nat));
        out
    } else {
        u64_to_string(n as u64)
    }
}

/// Whether two strings are equal.
pub fn str_eq(a: &str, b: &str) -> (r: bool)
    ensures
        r == (a@ == b@),
{
    let x = chars_of(a);
    let y = chars_of(b);
    if x.len() != y.len() {
        assert(a@.len() != b@.len());
        return false;
    }
    let mut i: usize = 0;
    while i < x.len()
        invariant
            i <= x@.len(),
            x@.len() == y@.len(),
            x@ == a@,
            y@ == b@,
            forall|j: int| 0 <= j < i ==> x@[j] == y@[j],
        decreases x@.len() - i,
    {
        if x[i] != y[i] {
            assert(a@[i as int] != b@[i as int]);
            return false;
        }
        i += 1;
    }
    assert(a@ =~= b@);
    true
}

/// Whether `s` starts with `p`.
pub fn starts_with_chars(s: &[char], p: &[char]) -> (r: bool)
    ensures
        r == (s@.len() >= p@.len() && s@.take(p@.len() as int) == p@),
{
    if p.len() > s.len() {
        return false;
    }
    let mut i: usize = 0;
    while i < p.len()
        invariant
            i <= p@.len(),
            p@.len() <= s@.len(),
            forall|j: int| 0 <= j < i ==> s@[j] == p@[j],
        decreases p@.len() - i,
    {
        if s[i] != p[i] {
            assert(s@.take(p@.len() as int)[i as int] != p@[i as int]);
            return false;
        }
        i += 1;
    }
    assert(s@.take(p@.len() as int) =~= p@);
    true
}

/// Whether every character is an ASCII digit.
pub fn all_digit_chars(v: &[char]) -> (r: bool)
    ensures
        r == all_digits(v@),
{
    let mut i: usize = 0;
    while i < v.len()
        invariant
            i <= v@.len(),
            forall|j: int| 0 <= j < i ==> '0' <= #[trigger] v@[j] <= '9',
        decreases v@.len() - i,
    {
        if !('0' <= v[i] && v[i] <= '9') {
            return false;
        }
        i += 1;
    }
    true
}

} // verus!
