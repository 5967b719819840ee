//! Minimal line-based editor for Wine's text registry files (`user.reg`).
//!
//! Sections look like `[Software\\Wine\\Explorer] 1790000000` (backslashes doubled),
//! followed by values such as `"Desktop"="Default"`. Lines that are not touched are
//! kept exactly as they are.

use vstd::prelude::*;
use vstd::slice::slice_subrange;
use crate::text::{
    is_white_space, white_space_char, chars_eq_ci, chars_of, decimal, lower_char, eq_ci_chars, esc_char, escape, push_char, push_chars, quoted,
    starts_with_char, string_from_chars, u64_to_string, write_quoted,
};

verus! {

pub struct RegFile {
    lines: Vec<String>,
}

impl View for RegFile {
    type V = Seq<Seq<char>>;

    closed spec fn view(&self) -> Seq<Seq<char>> {
        Seq::new(self.lines@.len(), |i: int| self.lines@[i]@)
    }
}

/// Lines of a text as `str::lines` splits it: at `\n`, dropping a `\r` right before it;
/// a final line ending adds no empty line.
pub open spec fn lines_of(s: Seq<char>) -> Seq<Seq<char>>
    decreases s.len(),
{
    if s.len() == 0 {
        seq![]
    } else {
        let n = first_newline(s, 0);
        if !(0 <= n < s.len()) {
            seq![s]
        } else {
            let line = s.subrange(0, n);
            let line = if line.len() > 0 && line.last() == '\r' { line.drop_last() } else { line };
            seq![line] + lines_of(s.subrange(n + 1, s.len() as int))
        }
    }
}

/// Position of the first `\n` at or after `i` (the length when there is none).
pub open spec fn first_newline(s: Seq<char>, i: int) -> int
    decreases s.len() - i,
{
    if i < 0 || i >= s.len() {
        s.len() as int
    } else if s[i] == '\n' {
        i
    } else {
        first_newline(s, i + 1)
    }
}

/// The lines joined with `\n`.
pub open spec fn join_lines(ls: Seq<Seq<char>>) -> Seq<char>
    decreases ls.len(),
{
    if ls.len() == 0 {
        seq![]
    } else if ls.len() == 1 {
        ls[0]
    } else {
        join_lines(ls.drop_last()) + seq!['\n'] + ls.last()
    }
}

/// Text of a registry file: its lines joined with `\n`, plus a final `\n`.
pub open spec fn reg_text(ls: Seq<Seq<char>>) -> Seq<char> {
    join_lines(ls) + seq!['\n']
}

/// A line that `trim` leaves empty.
pub open spec fn is_blank(l: Seq<char>) -> bool {
    forall|i: int| 0 <= i < l.len() ==> is_white_space(#[trigger] l[i])
}

/// A key path with its backslashes doubled, as section headers write it.
pub open spec fn double_backslashes(p: Seq<char>) -> Seq<char>
    decreases p.len(),
{
    if p.len() == 0 {
        seq![]
    } else {
        (if p[0] == '\\' { seq!['\\', '\\'] } else { seq![p[0]] }) + double_backslashes(p.drop_first())
    }
}

/// `[path]` with doubled backslashes.
pub open spec fn header_of(path: Seq<char>) -> Seq<char> {
    seq!['['] + double_backslashes(path) + seq![']']
}

/// The line starts with `header`, ignoring ASCII case.
pub open spec fn starts_with_ci(l: Seq<char>, header: Seq<char>) -> bool {
    l.len() >= header.len() && chars_eq_ci(l.subrange(0, header.len() as int), header)
}

pub open spec fn is_first_header(ls: Seq<Seq<char>>, header: Seq<char>, i: int) -> bool {
    &&& 0 <= i < ls.len()
    &&& starts_with_ci(ls[i], header)
    &&& forall|j: int| 0 <= j < i ==> !starts_with_ci(#[trigger] ls[j], header)
}

/// Index of the section header line for `path`.
pub open spec fn section_start(ls: Seq<Seq<char>>, path: Seq<char>) -> Option<int> {
    if exists|i: int| is_first_header(ls, header_of(path), i) {
        Some(choose|i: int| is_first_header(ls, header_of(path), i))
    } else {
        None
    }
}

/// Index of the first line at or after `j` that starts with `[` (the number of lines if none).
pub open spec fn next_header(ls: Seq<Seq<char>>, j: int) -> int
    decreases ls.len() - j,
{
    if j < 0 || j >= ls.len() {
        ls.len() as int
    } else if ls[j].len() > 0 && ls[j][0] == '[' {
        j
    } else {
        next_header(ls, j + 1)
    }
}

/// If `line` is `"name"=...` (name compared ignoring ASCII case), the part after `=`.
pub open spec fn value_rest(line: Seq<char>, name: Seq<char>) -> Option<Seq<char>> {
    let q = quoted(name);
    if line.len() > q.len() && chars_eq_ci(line.subrange(0, q.len() as int), q) && line[q.len() as int] == '=' {
        Some(line.subrange(q.len() as int + 1, line.len() as int))
    } else {
        None
    }
}

/// Text with its backslash escapes resolved; `None` when it ends in a lone backslash.
pub open spec fn unescape_all(t: Seq<char>) -> Option<Seq<char>>
    decreases t.len(),
{
    if t.len() == 0 {
        Some(seq![])
    } else if t[0] == '\\' {
        if t.len() < 2 {
            None
        } else {
            match unescape_all(t.subrange(2, t.len() as int)) {
                Some(r) => Some(seq![t[1]] + r),
                None => None,
            }
        }
    } else {
        match unescape_all(t.subrange(1, t.len() as int)) {
            Some(r) => Some(seq![t[0]] + r),
            None => None,
        }
    }
}

/// The contents of a quoted string value.
pub open spec fn unquote(s: Seq<char>) -> Option<Seq<char>> {
    if s.len() >= 2 && s[0] == '"' && s.last() == '"' {
        unescape_all(s.subrange(1, s.len() - 1))
    } else {
        None
    }
}

/// First line in `[i, end)` holding a value `name`.
pub open spec fn first_value_line(ls: Seq<Seq<char>>, name: Seq<char>, i: int, end: int) -> Option<int>
    decreases end - i,
{
    if i < 0 || i >= end || end > ls.len() {
        None
    } else if value_rest(ls[i], name) is Some {
        Some(i)
    } else {
        first_value_line(ls, name, i + 1, end)
    }
}

/// The first quoted string value `name` in `[i, end)`.
pub open spec fn find_value(ls: Seq<Seq<char>>, name: Seq<char>, i: int, end: int) -> Option<Seq<char>>
    decreases end - i,
{
    if i < 0 || i >= end || end > ls.len() {
        None
    } else {
        match value_rest(ls[i], name) {
            Some(rest) => match unquote(rest) {
                Some(v) => Some(v),
                None => find_value(ls, name, i + 1, end),
            },
            None => find_value(ls, name, i + 1, end),
        }
    }
}

/// String value `name` under the key `path`.
pub open spec fn get_value(ls: Seq<Seq<char>>, path: Seq<char>, name: Seq<char>) -> Option<Seq<char>> {
    match section_start(ls, path) {
        Some(st) => find_value(ls, name, st + 1, next_header(ls, st + 1)),
        None => None,
    }
}

/// Where a new value goes in a section: after its last non-blank line.
pub open spec fn insert_at(ls: Seq<Seq<char>>, lo: int, hi: int) -> int
    decreases hi - lo,
{
    if hi <= lo {
        lo
    } else if !is_blank(ls[hi - 1]) {
        hi
    } else {
        insert_at(ls, lo, hi - 1)
    }
}

/// The line `"name"="value"`.
pub open spec fn value_line(name: Seq<char>, value: Seq<char>) -> Seq<char> {
    quoted(name) + seq!['='] + quoted(value)
}

/// Lines after setting value `name` under `path`, a new key being stamped with `now`.
pub open spec fn set_lines(
    ls: Seq<Seq<char>>,
    path: Seq<char>,
    name: Seq<char>,
    value: Seq<char>,
    now: u64,
) -> Seq<Seq<char>> {
    let line = value_line(name, value);
    match section_start(ls, path) {
        Some(st) => {
            let end = next_header(ls, st + 1);
            match first_value_line(ls, name, st + 1, end) {
                Some(i) => ls.update(i, line),
                None => ls.insert(insert_at(ls, st + 1, end), line),
            }
        },
        None => {
            let base = if ls.len() > 0 && !is_blank(ls.last()) { ls.push(seq![]) } else { ls };
            base.push(header_of(path) + seq![' '] + decimal(now as nat)).push(line)
        },
    }
}

/// Lines after removing value `name` under `path`.
pub open spec fn remove_lines(ls: Seq<Seq<char>>, path: Seq<char>, name: Seq<char>) -> Seq<Seq<char>> {
    match section_start(ls, path) {
        Some(st) => match first_value_line(ls, name, st + 1, next_header(ls, st + 1)) {
            Some(i) => ls.remove(i),
            None => ls,
        },
        None => ls,
    }
}

proof fn lemma_unescape_escape(v: Seq<char>)
    ensures
        unescape_all(escape(v)) == Some(v),
    decreases v.len(),
{
    if v.len() > 0 {
        let t = escape(v);
        let c = v[0];
        let r = v.drop_first();
        assert(t == esc_char(c) + escape(r));
        lemma_unescape_escape(r);
        let w = esc_char(c).len() as int;
        assert(t.subrange(w, t.len() as int) =~= escape(r));
        assert(seq![c] + r =~= v);
    } else {
        assert(escape(v) =~= Seq::<char>::empty());
    }
}

proof fn lemma_unquote_quoted(v: Seq<char>)
    ensures
        unquote(quoted(v)) == Some(v),
{
    let q = quoted(v);
    assert(q.subrange(1, q.len() - 1) =~= escape(v));
    lemma_unescape_escape(v);
}

proof fn lemma_value_line(name: Seq<char>, value: Seq<char>)
    ensures
        value_rest(value_line(name, value), name) == Some(quoted(value)),
        unquote(quoted(value)) == Some(value),
        value_line(name, value).len() > 0 && value_line(name, value)[0] == '"',
{
    let l = value_line(name, value);
    let q = quoted(name);
    assert(l.subrange(0, q.len() as int) =~= q);
    assert(l.subrange(q.len() as int + 1, l.len() as int) =~= quoted(value));
    lemma_unquote_quoted(value);
}

pub open spec fn is_bracket_line(l: Seq<char>) -> bool {
    l.len() > 0 && l[0] == '['
}

proof fn lemma_next_header_char(ls: Seq<Seq<char>>, a: int, e: int)
    requires
        0 <= a <= e <= ls.len(),
        forall|j: int| a <= j < e ==> !is_bracket_line(#[trigger] ls[j]),
        e == ls.len() || is_bracket_line(ls[e]),
    ensures
        next_header(ls, a) == e,
    decreases e - a,
{
    if a < e {
        lemma_next_header_char(ls, a + 1, e);
    }
}

proof fn lemma_next_header_props(ls: Seq<Seq<char>>, a: int)
    requires
        0 <= a <= ls.len(),
    ensures
        a <= next_header(ls, a) <= ls.len(),
        forall|j: int| a <= j < next_header(ls, a) ==> !is_bracket_line(#[trigger] ls[j]),
        next_header(ls, a) == ls.len() || is_bracket_line(ls[next_header(ls, a)]),
    decreases ls.len() - a,
{
    if a < ls.len() && !is_bracket_line(ls[a]) {
        lemma_next_header_props(ls, a + 1);
    }
}

proof fn lemma_first_value_line_some(ls: Seq<Seq<char>>, name: Seq<char>, a: int, end: int, i: int)
    requires
        first_value_line(ls, name, a, end) == Some(i),
    ensures
        0 <= a <= i < end <= ls.len(),
        value_rest(ls[i], name) is Some,
        forall|j: int| a <= j < i ==> value_rest(#[trigger] ls[j], name) is None,
    decreases end - a,
{
    if value_rest(ls[a], name) is None {
        lemma_first_value_line_some(ls, name, a + 1, end, i);
    }
}

proof fn lemma_first_value_line_none(ls: Seq<Seq<char>>, name: Seq<char>, a: int, end: int)
    requires
        first_value_line(ls, name, a, end) is None,
        0 <= a,
        end <= ls.len(),
    ensures
        forall|j: int| a <= j < end ==> value_rest(#[trigger] ls[j], name) is None,
    decreases end - a,
{
    if a < end {
        lemma_first_value_line_none(ls, name, a + 1, end);
    }
}

proof fn lemma_find_value_at(ls: Seq<Seq<char>>, name: Seq<char>, a: int, i: int, end: int, v: Seq<char>)
    requires
        0 <= a <= i < end <= ls.len(),
        forall|j: int| a <= j < i ==> value_rest(#[trigger] ls[j], name) is None,
        value_rest(ls[i], name) matches Some(r) && unquote(r) == Some(v),
    ensures
        find_value(ls, name, a, end) == Some(v),
    decreases i - a,
{
    if a < i {
        lemma_find_value_at(ls, name, a + 1, i, end, v);
    }
}

proof fn lemma_insert_at_bounds(ls: Seq<Seq<char>>, lo: int, hi: int)
    requires
        lo <= hi,
    ensures
        lo <= insert_at(ls, lo, hi) <= hi,
    decreases hi - lo,
{
    if hi > lo && is_blank(ls[hi - 1]) {
        lemma_insert_at_bounds(ls, lo, hi - 1);
    }
}

proof fn lemma_section_start_same(ls: Seq<Seq<char>>, ls2: Seq<Seq<char>>, path: Seq<char>, st: int)
    requires
        section_start(ls, path) == Some(st),
        st < ls2.len(),
        forall|j: int| 0 <= j <= st ==> #[trigger] ls2[j] == ls[j],
    ensures
        section_start(ls2, path) == Some(st),
{
    let h = header_of(path);
    assert(is_first_header(ls, h, st));
    assert(is_first_header(ls2, h, st));
    let c = choose|c: int| is_first_header(ls2, h, c);
    if c < st {
        assert(ls2[c] == ls[c]);
    } else if c > st {
        assert(!starts_with_ci(ls2[st], h));
    }
}

proof fn lemma_no_header(ls: Seq<Seq<char>>, h: Seq<char>, j: int)
    requires
        0 <= j < ls.len(),
        starts_with_ci(ls[j], h),
    ensures
        exists|i: int| is_first_header(ls, h, i),
    decreases j,
{
    if forall|m: int| 0 <= m < j ==> !starts_with_ci(#[trigger] ls[m], h) {
        assert(is_first_header(ls, h, j));
    } else {
        let m = choose|m: int| 0 <= m < j && starts_with_ci(#[trigger] ls[m], h);
        lemma_no_header(ls, h, m);
    }
}

/// After setting value `name` under `path`, reading it gives the value that was set.
pub proof fn law_get_after_set(ls: Seq<Seq<char>>, path: Seq<char>, name: Seq<char>, value: Seq<char>, now: u64)
    ensures
        get_value(set_lines(ls, path, name, value, now), path, name) == Some(value),
{
    let line = value_line(name, value);
    lemma_value_line(name, value);
    let ls2 = set_lines(ls, path, name, value, now);
    let h = header_of(path);
    match section_start(ls, path) {
        Some(st) => {
            assert(is_first_header(ls, h, st));
            lemma_next_header_props(ls, st + 1);
            let end = next_header(ls, st + 1);
            match first_value_line(ls, name, st + 1, end) {
                Some(i) => {
                    lemma_first_value_line_some(ls, name, st + 1, end, i);
                    assert(ls2 == ls.update(i, line));
                    lemma_section_start_same(ls, ls2, path, st);
                    assert forall|j: int| st + 1 <= j < end implies !is_bracket_line(#[trigger] ls2[j]) by {
                        if j != i {
                            assert(ls2[j] == ls[j]);
                        }
                    }
                    if end < ls.len() {
                        assert(ls2[end] == ls[end]);
                    }
                    lemma_next_header_char(ls2, st + 1, end);
                    assert forall|j: int| st + 1 <= j < i implies value_rest(#[trigger] ls2[j], name) is None by {
                        assert(ls2[j] == ls[j]);
                    }
                    lemma_find_value_at(ls2, name, st + 1, i, end, value);
                },
                None => {
                    lemma_first_value_line_none(ls, name, st + 1, end);
                    lemma_insert_at_bounds(ls, st + 1, end);
                    let at = insert_at(ls, st + 1, end);
                    assert(ls2 == ls.insert(at, line));
                    lemma_section_start_same(ls, ls2, path, st);
                    assert forall|j: int| st + 1 <= j < end + 1 implies !is_bracket_line(#[trigger] ls2[j]) by {
                        if j < at {
                            assert(ls2[j] == ls[j]);
                        } else if j > at {
                            assert(ls2[j] == ls[j - 1]);
                        }
                    }
                    if end < ls.len() {
                        assert(ls2[end + 1] == ls[end]);
                    }
                    lemma_next_header_char(ls2, st + 1, end + 1);
                    assert forall|j: int| st + 1 <= j < at implies value_rest(#[trigger] ls2[j], name) is None by {
                        assert(ls2[j] == ls[j]);
                    }
                    lemma_find_value_at(ls2, name, st + 1, at, end + 1, value);
                },
            }
        },
        None => {
            let base = if ls.len() > 0 && !is_blank(ls.last()) { ls.push(seq![]) } else { ls };
            let hl = h + seq![' '] + decimal(now as nat);
            let n = base.len() as int;
            assert(ls2 == base.push(hl).push(line));
            assert(hl.subrange(0, h.len() as int) =~= h);
            assert forall|j: int| 0 <= j < n implies !starts_with_ci(#[trigger] ls2[j], h) by {
                assert(ls2[j] == base[j]);
                if j < ls.len() {
                    assert(base[j] == ls[j]);
                    if starts_with_ci(ls[j], h) {
                        lemma_no_header(ls, h, j);
                    }
                } else {
                    assert(base[j] == Seq::<char>::empty());
                }
            }
            assert(is_first_header(ls2, h, n));
            let c = choose|c: int| is_first_header(ls2, h, c);
            if c < n {
                assert(!starts_with_ci(ls2[c], h));
            } else if c > n {
                assert(!starts_with_ci(ls2[n], h));
            }
            assert(section_start(ls2, path) == Some(n));
            assert(ls2[n + 1] == line);
            lemma_next_header_char(ls2, n + 1, n + 2);
            lemma_find_value_at(ls2, name, n + 1, n + 1, n + 2, value);
        },
    }
}

proof fn lemma_join_front(a: Seq<char>, m: Seq<Seq<char>>)
    requires
        m.len() > 0,
    ensures
        join_lines(seq![a] + m) == a + seq!['\n'] + join_lines(m),
    decreases m.len(),
{
    let l = seq![a] + m;
    assert(l.drop_last() =~= seq![a] + m.drop_last());
    assert(l.last() == m.last());
    assert(join_lines(l) == join_lines(l.drop_last()) + seq!['\n'] + l.last());
    assert(join_lines(seq![a]) == a);
    if m.len() == 1 {
        assert(m.drop_last() =~= Seq::<Seq<char>>::empty());
        assert(seq![a] + m.drop_last() =~= seq![a]);
        assert(join_lines(m) == m[0]);
    } else {
        lemma_join_front(a, m.drop_last());
        assert(a + seq!['\n'] + join_lines(m) =~= a + seq!['\n'] + join_lines(m.drop_last()) + seq!['\n'] + m.last());
    }
}

proof fn lemma_first_newline_at(s: Seq<char>, i: int, z: int)
    requires
        0 <= i <= z < s.len(),
        forall|k: int| i <= k < z ==> s[k] != '\n',
        s[z] == '\n',
    ensures
        first_newline(s, i) == z,
    decreases z - i,
{
    if i < z {
        lemma_first_newline_at(s, i + 1, z);
    }
}

proof fn lemma_first_newline_props(s: Seq<char>, i: int)
    requires
        0 <= i <= s.len(),
    ensures
        i <= first_newline(s, i) <= s.len(),
        forall|k: int| i <= k < first_newline(s, i) ==> s[k] != '\n',
        first_newline(s, i) < s.len() ==> s[first_newline(s, i)] == '\n',
    decreases s.len() - i,
{
    if i < s.len() && s[i] != '\n' {
        lemma_first_newline_props(s, i + 1);
    }
}

/// No two lines in `[a, end)` hold a value `name`.
pub open spec fn holds_value_once(ls: Seq<Seq<char>>, name: Seq<char>, a: int, end: int) -> bool {
    forall|j: int, k: int|
        a <= j < k < end ==> !(value_rest(#[trigger] ls[j], name) is Some && value_rest(#[trigger] ls[k], name) is Some)
}

proof fn lemma_find_value_none(ls: Seq<Seq<char>>, name: Seq<char>, a: int, end: int)
    requires
        forall|j: int| a <= j < end ==> value_rest(#[trigger] ls[j], name) is None,
    ensures
        find_value(ls, name, a, end) is None,
    decreases end - a,
{
    if 0 <= a < end && end <= ls.len() {
        lemma_find_value_none(ls, name, a + 1, end);
    }
}

/// After removing value `name` under `path`, reading it finds nothing, where the key held
/// the value on one line at most (the first such line is the one removed).
pub proof fn law_get_after_remove(ls: Seq<Seq<char>>, path: Seq<char>, name: Seq<char>)
    requires
        section_start(ls, path) matches Some(st) ==> holds_value_once(ls, name, st + 1, next_header(ls, st + 1)),
    ensures
        get_value(remove_lines(ls, path, name), path, name) is None,
{
    let ls2 = remove_lines(ls, path, name);
    match section_start(ls, path) {
        Some(st) => {
            assert(is_first_header(ls, header_of(path), st));
            lemma_next_header_props(ls, st + 1);
            let end = next_header(ls, st + 1);
            match first_value_line(ls, name, st + 1, end) {
                Some(i) => {
                    lemma_first_value_line_some(ls, name, st + 1, end, i);
                    assert(ls2 == ls.remove(i));
                    lemma_section_start_same(ls, ls2, path, st);
                    assert forall|j: int| st + 1 <= j < end - 1 implies !is_bracket_line(#[trigger] ls2[j]) by {
                        if j < i {
                            assert(ls2[j] == ls[j]);
                        } else {
                            assert(ls2[j] == ls[j + 1]);
                        }
                    }
                    if end < ls.len() {
                        assert(ls2[end - 1] == ls[end]);
                    }
                    lemma_next_header_char(ls2, st + 1, end - 1);
                    assert forall|j: int| st + 1 <= j < end - 1 implies value_rest(#[trigger] ls2[j], name) is None by {
                        if j < i {
                            assert(ls2[j] == ls[j]);
                        } else {
                            assert(ls2[j] == ls[j + 1]);
                            assert(value_rest(ls[i], name) is Some);
                        }
                    }
                    lemma_find_value_none(ls2, name, st + 1, end - 1);
                },
                None => {
                    lemma_first_value_line_none(ls, name, st + 1, end);
                    lemma_find_value_none(ls, name, st + 1, end);
                },
            }
        },
        None => {},
    }
}

/// Neither key's header is, ignoring ASCII case, the start of the other's: no header line
/// can belong to both keys.
pub open spec fn headers_apart(p1: Seq<char>, p2: Seq<char>) -> bool {
    !starts_with_ci(header_of(p1), header_of(p2)) && !starts_with_ci(header_of(p2), header_of(p1))
}

proof fn lemma_header_shape(p: Seq<char>)
    ensures
        header_of(p).len() >= 2,
        header_of(p)[0] == '[',
        header_of(p).last() == ']',
{
}

/// A line that starts with a header is a bracket line.
proof fn lemma_header_line_bracket(l: Seq<char>, p: Seq<char>)
    requires
        starts_with_ci(l, header_of(p)),
    ensures
        is_bracket_line(l),
{
    let h = header_of(p);
    lemma_header_shape(p);
    assert(lower_char(l.subrange(0, h.len() as int)[0]) == lower_char(h[0]));
    assert(l.subrange(0, h.len() as int)[0] == l[0]);
}

/// No line starts with the headers of two keys that are apart.
proof fn lemma_not_both_headers(l: Seq<char>, p1: Seq<char>, p2: Seq<char>)
    requires
        headers_apart(p1, p2),
        starts_with_ci(l, header_of(p1)),
    ensures
        !starts_with_ci(l, header_of(p2)),
{
    let h1 = header_of(p1);
    let h2 = header_of(p2);
    if starts_with_ci(l, h2) {
        if h1.len() <= h2.len() {
            assert forall|t: int| 0 <= t < h1.len() implies lower_char(#[trigger] h2.subrange(0, h1.len() as int)[t])
                == lower_char(h1[t]) by {
                assert(l.subrange(0, h1.len() as int)[t] == l[t]);
                assert(l.subrange(0, h2.len() as int)[t] == l[t]);
            }
            assert(starts_with_ci(h2, h1));
        } else {
            assert forall|t: int| 0 <= t < h2.len() implies lower_char(#[trigger] h1.subrange(0, h2.len() as int)[t])
                == lower_char(h2[t]) by {
                assert(l.subrange(0, h1.len() as int)[t] == l[t]);
                assert(l.subrange(0, h2.len() as int)[t] == l[t]);
            }
            assert(starts_with_ci(h1, h2));
        }
    }
}

/// The header line written for a new key does not start with the header of a key apart from it.
proof fn lemma_new_header_line(p1: Seq<char>, p2: Seq<char>, now: u64)
    requires
        headers_apart(p1, p2),
    ensures
        !starts_with_ci(header_of(p1) + seq![' '] + decimal(now as nat), header_of(p2)),
        is_bracket_line(header_of(p1) + seq![' '] + decimal(now as nat)),
{
    let h1 = header_of(p1);
    let h2 = header_of(p2);
    let l = h1 + seq![' '] + decimal(now as nat);
    lemma_header_shape(p1);
    lemma_header_shape(p2);
    crate::text::lemma_decimal_digits(now as nat);
    if starts_with_ci(l, h2) {
        if h2.len() <= h1.len() {
            assert forall|t: int| 0 <= t < h2.len() implies lower_char(#[trigger] h1.subrange(0, h2.len() as int)[t])
                == lower_char(h2[t]) by {
                assert(l.subrange(0, h2.len() as int)[t] == l[t]);
            }
            assert(starts_with_ci(h1, h2));
        } else {
            let m = h2.len() - 1;
            assert(l.subrange(0, h2.len() as int)[m] == l[m]);
            assert(lower_char(l[m]) == lower_char(h2[m]));
            if m == h1.len() {
                assert(l[m] == ' ');
            } else {
                assert(l[m] == decimal(now as nat)[m - h1.len() - 1]);
            }
        }
    }
}

proof fn lemma_first_header_unique(ls: Seq<Seq<char>>, h: Seq<char>, a: int, b: int)
    requires
        is_first_header(ls, h, a),
        is_first_header(ls, h, b),
    ensures
        a == b,
{
    if a < b {
        assert(!starts_with_ci(ls[a], h));
    } else if b < a {
        assert(!starts_with_ci(ls[b], h));
    }
}

proof fn lemma_section_start_at(ls: Seq<Seq<char>>, path: Seq<char>, st: int)
    requires
        is_first_header(ls, header_of(path), st),
    ensures
        section_start(ls, path) == Some(st),
{
    let c = choose|c: int| is_first_header(ls, header_of(path), c);
    lemma_first_header_unique(ls, header_of(path), c, st);
}

proof fn lemma_next_header_before(ls: Seq<Seq<char>>, a: int, k: int)
    requires
        0 <= a <= k < ls.len(),
        is_bracket_line(ls[k]),
    ensures
        next_header(ls, a) <= k,
{
    lemma_next_header_props(ls, a);
}

/// `find_value` over two runs of equal lines gives the same.
proof fn lemma_find_value_same(
    ls: Seq<Seq<char>>,
    ls2: Seq<Seq<char>>,
    name: Seq<char>,
    a: int,
    e: int,
    a2: int,
    e2: int,
)
    requires
        0 <= a <= e <= ls.len(),
        0 <= a2 <= e2 <= ls2.len(),
        e - a == e2 - a2,
        forall|j: int| 0 <= j < e - a ==> #[trigger] ls2[a2 + j] == ls[a + j],
    ensures
        find_value(ls2, name, a2, e2) == find_value(ls, name, a, e),
    decreases e - a,
{
    if a < e {
        assert(ls2[a2 + 0] == ls[a + 0]);
        assert forall|j: int| 0 <= j < e - (a + 1) implies #[trigger] ls2[(a2 + 1) + j] == ls[(a + 1) + j] by {
            assert(ls2[a2 + (j + 1)] == ls[a + (j + 1)]);
        }
        lemma_find_value_same(ls, ls2, name, a + 1, e, a2 + 1, e2);
    }
}

/// Lines holding no value `name` at the end of a run change nothing of what `find_value` finds.
proof fn lemma_find_value_extend(ls: Seq<Seq<char>>, name: Seq<char>, a: int, e: int, e2: int)
    requires
        0 <= a <= e <= e2 <= ls.len(),
        forall|j: int| e <= j < e2 ==> value_rest(#[trigger] ls[j], name) is None,
    ensures
        find_value(ls, name, a, e2) == find_value(ls, name, a, e),
    decreases e - a,
{
    if a < e {
        lemma_find_value_extend(ls, name, a + 1, e, e2);
    } else {
        lemma_find_value_none(ls, name, a, e2);
    }
}

/// A key whose section is absent stays absent when lines that are not its header are put in.
proof fn lemma_no_section_kept(ls: Seq<Seq<char>>, ls2: Seq<Seq<char>>, path: Seq<char>)
    requires
        section_start(ls, path) is None,
        forall|j: int| 0 <= j < ls2.len() && starts_with_ci(#[trigger] ls2[j], header_of(path))
            ==> exists|m: int| 0 <= m < ls.len() && ls[m] == ls2[j],
    ensures
        section_start(ls2, path) is None,
{
    let h = header_of(path);
    if exists|i: int| is_first_header(ls2, h, i) {
        let i = choose|i: int| is_first_header(ls2, h, i);
        let m = choose|m: int| 0 <= m < ls.len() && ls[m] == ls2[i];
        lemma_no_header(ls, h, m);
    }
}

/// Setting a value under one key leaves every value under another key, whose header is
/// apart from the first one's, as it was.
pub proof fn law_set_keeps_other_keys(
    ls: Seq<Seq<char>>,
    path: Seq<char>,
    name: Seq<char>,
    value: Seq<char>,
    now: u64,
    other: Seq<char>,
    other_name: Seq<char>,
)
    requires
        headers_apart(path, other),
    ensures
        get_value(set_lines(ls, path, name, value, now), other, other_name) == get_value(ls, other, other_name),
{
    let line = value_line(name, value);
    lemma_value_line(name, value);
    let ls2 = set_lines(ls, path, name, value, now);
    let h1 = header_of(path);
    let h2 = header_of(other);
    lemma_header_shape(path);
    lemma_header_shape(other);
    assert(!starts_with_ci(line, h2)) by {
        if starts_with_ci(line, h2) {
            lemma_header_line_bracket(line, other);
        }
    }
    match section_start(ls, path) {
        Some(st1) => {
            assert(is_first_header(ls, h1, st1));
            lemma_header_line_bracket(ls[st1], path);
            lemma_next_header_props(ls, st1 + 1);
            let end1 = next_header(ls, st1 + 1);
            match first_value_line(ls, name, st1 + 1, end1) {
                Some(i) => {
                    lemma_first_value_line_some(ls, name, st1 + 1, end1, i);
                    assert(ls2 == ls.update(i, line));
                    match section_start(ls, other) {
                        None => {
                            assert forall|j: int| 0 <= j < ls2.len() && starts_with_ci(#[trigger] ls2[j], h2)
                                implies exists|m: int| 0 <= m < ls.len() && ls[m] == ls2[j] by {
                                assert(j != i);
                                assert(ls[j] == ls2[j]);
                            }
                            lemma_no_section_kept(ls, ls2, other);
                        },
                        Some(st2) => {
                            assert(is_first_header(ls, h2, st2));
                            lemma_header_line_bracket(ls[st2], other);
                            lemma_next_header_props(ls, st2 + 1);
                            let end2 = next_header(ls, st2 + 1);
                            assert(st2 != i);
                            assert(is_first_header(ls2, h2, st2)) by {
                                assert(ls2[st2] == ls[st2]);
                                assert forall|j: int| 0 <= j < st2 implies !starts_with_ci(#[trigger] ls2[j], h2) by {
                                    if j != i {
                                        assert(ls2[j] == ls[j]);
                                    }
                                }
                            }
                            lemma_section_start_at(ls2, other, st2);
                            assert forall|j: int| st2 + 1 <= j < end2 implies !is_bracket_line(#[trigger] ls2[j]) by {
                                if j != i {
                                    assert(ls2[j] == ls[j]);
                                }
                            }
                            if end2 < ls.len() {
                                assert(end2 != i);
                                assert(ls2[end2] == ls[end2]);
                            }
                            lemma_next_header_char(ls2, st2 + 1, end2);
                            assert(!(st2 < i < end2)) by {
                                if st2 < i < end2 {
                                    if st1 < st2 {
                                        assert(!is_bracket_line(ls[st2]));
                                    } else if st2 < st1 {
                                        assert(!is_bracket_line(ls[st1]));
                                    } else {
                                        lemma_not_both_headers(ls[st1], path, other);
                                    }
                                }
                            }
                            assert forall|j: int| 0 <= j < end2 - (st2 + 1) implies #[trigger] ls2[(st2 + 1) + j]
                                == ls[(st2 + 1) + j] by {}
                            lemma_find_value_same(ls, ls2, other_name, st2 + 1, end2, st2 + 1, end2);
                        },
                    }
                },
                None => {
                    lemma_insert_at_bounds(ls, st1 + 1, end1);
                    let at = insert_at(ls, st1 + 1, end1);
                    assert(ls2 == ls.insert(at, line));
                    match section_start(ls, other) {
                        None => {
                            assert forall|j: int| 0 <= j < ls2.len() && starts_with_ci(#[trigger] ls2[j], h2)
                                implies exists|m: int| 0 <= m < ls.len() && ls[m] == ls2[j] by {
                                if j < at {
                                    assert(ls[j] == ls2[j]);
                                } else if j > at {
                                    assert(ls[j - 1] == ls2[j]);
                                }
                            }
                            lemma_no_section_kept(ls, ls2, other);
                        },
                        Some(st2) => {
                            assert(is_first_header(ls, h2, st2));
                            lemma_header_line_bracket(ls[st2], other);
                            lemma_next_header_props(ls, st2 + 1);
                            let end2 = next_header(ls, st2 + 1);
                            if st2 == st1 {
                                lemma_not_both_headers(ls[st1], path, other);
                            }
                            if st2 < st1 {
                                lemma_next_header_before(ls, st2 + 1, st1);
                                lemma_section_start_same(ls, ls2, other, st2);
                                assert forall|j: int| st2 + 1 <= j < end2 implies !is_bracket_line(#[trigger] ls2[j]) by {
                                    assert(ls2[j] == ls[j]);
                                }
                                assert(ls2[end2] == ls[end2]);
                                lemma_next_header_char(ls2, st2 + 1, end2);
                                assert forall|j: int| 0 <= j < end2 - (st2 + 1) implies #[trigger] ls2[(st2 + 1) + j]
                                    == ls[(st2 + 1) + j] by {}
                                lemma_find_value_same(ls, ls2, other_name, st2 + 1, end2, st2 + 1, end2);
                            } else {
                                assert(st2 >= end1) by {
                                    if st2 < end1 {
                                        assert(!is_bracket_line(ls[st2]));
                                    }
                                }
                                assert(is_first_header(ls2, h2, st2 + 1)) by {
                                    assert(ls2[st2 + 1] == ls[st2]);
                                    assert forall|j: int| 0 <= j < st2 + 1 implies !starts_with_ci(#[trigger] ls2[j], h2) by {
                                        if j < at {
                                            assert(ls2[j] == ls[j]);
                                        } else if j > at {
                                            assert(ls2[j] == ls[j - 1]);
                                        }
                                    }
                                }
                                lemma_section_start_at(ls2, other, st2 + 1);
                                assert forall|j: int| st2 + 2 <= j < end2 + 1 implies !is_bracket_line(#[trigger] ls2[j]) by {
                                    assert(ls2[j] == ls[j - 1]);
                                }
                                if end2 < ls.len() {
                                    assert(ls2[end2 + 1] == ls[end2]);
                                }
                                lemma_next_header_char(ls2, st2 + 2, end2 + 1);
                                assert forall|j: int| 0 <= j < end2 - (st2 + 1) implies #[trigger] ls2[(st2 + 2) + j]
                                    == ls[(st2 + 1) + j] by {}
                                lemma_find_value_same(ls, ls2, other_name, st2 + 1, end2, st2 + 2, end2 + 1);
                            }
                        },
                    }
                },
            }
        },
        None => {
            let base = if ls.len() > 0 && !is_blank(ls.last()) { ls.push(seq![]) } else { ls };
            let hl = h1 + seq![' '] + decimal(now as nat);
            lemma_new_header_line(path, other, now);
            assert(ls2 == base.push(hl).push(line));
            let n = base.len() as int;
            assert(forall|j: int| 0 <= j < ls.len() ==> #[trigger] ls2[j] == ls[j]);
            assert(ls2[n] == hl);
            assert(ls2[n + 1] == line);
            assert forall|j: int| ls.len() <= j < n implies value_rest(#[trigger] ls2[j], other_name) is None
                && !starts_with_ci(ls2[j], h2) && !is_bracket_line(ls2[j]) by {
                assert(ls2[j] == base[j]);
                assert(base[j] == Seq::<char>::empty());
            }
            match section_start(ls, other) {
                None => {
                    assert forall|j: int| 0 <= j < ls2.len() && starts_with_ci(#[trigger] ls2[j], h2)
                        implies exists|m: int| 0 <= m < ls.len() && ls[m] == ls2[j] by {
                        assert(j < ls.len());
                        assert(ls[j] == ls2[j]);
                    }
                    lemma_no_section_kept(ls, ls2, other);
                },
                Some(st2) => {
                    assert(is_first_header(ls, h2, st2));
                    lemma_section_start_same(ls, ls2, other, st2);
                    lemma_next_header_props(ls, st2 + 1);
                    let end2 = next_header(ls, st2 + 1);
                    assert forall|j: int| 0 <= j < end2 - (st2 + 1) implies #[trigger] ls2[(st2 + 1) + j]
                        == ls[(st2 + 1) + j] by {}
                    if end2 < ls.len() {
                        assert forall|j: int| st2 + 1 <= j < end2 implies !is_bracket_line(#[trigger] ls2[j]) by {
                            assert(ls2[j] == ls[j]);
                        }
                        lemma_next_header_char(ls2, st2 + 1, end2);
                        lemma_find_value_same(ls, ls2, other_name, st2 + 1, end2, st2 + 1, end2);
                    } else {
                        assert forall|j: int| st2 + 1 <= j < n implies !is_bracket_line(#[trigger] ls2[j]) by {
                            if j < ls.len() {
                                assert(ls2[j] == ls[j]);
                            }
                        }
                        lemma_next_header_char(ls2, st2 + 1, n);
                        lemma_find_value_same(ls, ls2, other_name, st2 + 1, end2, st2 + 1, end2);
                        lemma_find_value_extend(ls2, other_name, st2 + 1, end2, n);
                    }
                },
            }
        },
    }
}

proof fn lemma_lower_fixed(c: char)
    ensures
        lower_char(c) == '\\' ==> c == '\\',
        lower_char(c) == '"' ==> c == '"',
{
    if 'A' <= c <= 'Z' {
        assert(((c as u32) + 32) as char != '\\');
        assert(((c as u32) + 32) as char != '"');
    }
}

/// Two escaped names, each followed by a quote, that a line holds from `k` on (ignoring
/// ASCII case) are the same name ignoring ASCII case.
proof fn lemma_escaped_names(a: Seq<char>, b: Seq<char>, l: Seq<char>, k: int)
    requires
        0 <= k,
        k + escape(a).len() < l.len(),
        k + escape(b).len() < l.len(),
        forall|t: int| 0 <= t < escape(a).len() ==> lower_char(#[trigger] l[k + t]) == lower_char(escape(a)[t]),
        forall|t: int| 0 <= t < escape(b).len() ==> lower_char(#[trigger] l[k + t]) == lower_char(escape(b)[t]),
        lower_char(l[k + escape(a).len()]) == lower_char('"'),
        lower_char(l[k + escape(b).len()]) == lower_char('"'),
    ensures
        chars_eq_ci(a, b),
    decreases a.len(),
{
    lemma_lower_fixed(l[k]);
    if a.len() == 0 || b.len() == 0 {
        if a.len() > 0 {
            let e = escape(a);
            assert(e == esc_char(a[0]) + escape(a.drop_first()));
            assert(e[0] == esc_char(a[0])[0]);
            assert(lower_char(l[k + 0]) == lower_char(e[0]));
            lemma_lower_fixed(e[0]);
        } else if b.len() > 0 {
            let e = escape(b);
            assert(e == esc_char(b[0]) + escape(b.drop_first()));
            assert(e[0] == esc_char(b[0])[0]);
            assert(lower_char(l[k + 0]) == lower_char(e[0]));
            lemma_lower_fixed(e[0]);
        }
    } else {
        let ea = escape(a);
        let eb = escape(b);
        let a1 = a.drop_first();
        let b1 = b.drop_first();
        assert(ea == esc_char(a[0]) + escape(a1));
        assert(eb == esc_char(b[0]) + escape(b1));
        let wa = esc_char(a[0]).len() as int;
        let wb = esc_char(b[0]).len() as int;
        assert(lower_char(l[k + 0]) == lower_char(ea[0]));
        assert(lower_char(l[k + 0]) == lower_char(eb[0]));
        assert(ea[0] == esc_char(a[0])[0]);
        assert(eb[0] == esc_char(b[0])[0]);
        lemma_lower_fixed(ea[0]);
        lemma_lower_fixed(eb[0]);
        lemma_lower_fixed(a[0]);
        lemma_lower_fixed(b[0]);
        if wa == 2 {
            assert(l[k] == '\\');
            assert(wb == 2);
            assert(lower_char(l[k + 1]) == lower_char(ea[1]));
            assert(lower_char(l[k + 1]) == lower_char(eb[1]));
            assert(ea[1] == a[0]);
            assert(eb[1] == b[0]);
        } else {
            assert(wb == 1);
        }
        assert(wa == wb);
        assert forall|t: int| 0 <= t < escape(a1).len() implies lower_char(#[trigger] l[(k + wa) + t])
            == lower_char(escape(a1)[t]) by {
            assert(ea[wa + t] == escape(a1)[t]);
            assert(lower_char(l[k + (wa + t)]) == lower_char(ea[wa + t]));
        }
        assert forall|t: int| 0 <= t < escape(b1).len() implies lower_char(#[trigger] l[(k + wb) + t])
            == lower_char(escape(b1)[t]) by {
            assert(eb[wb + t] == escape(b1)[t]);
            assert(lower_char(l[k + (wb + t)]) == lower_char(eb[wb + t]));
        }
        lemma_escaped_names(a1, b1, l, k + wa);
        assert(lower_char(a[0]) == lower_char(b[0]));
        assert forall|t: int| 0 <= t < a.len() implies lower_char(#[trigger] a[t]) == lower_char(b[t]) by {
            if t > 0 {
                assert(a[t] == a1[t - 1]);
                assert(b[t] == b1[t - 1]);
            }
        }
    }
}

/// A line holds values of two names only when the names are the same ignoring ASCII case.
proof fn lemma_value_rest_names(l: Seq<char>, a: Seq<char>, b: Seq<char>)
    requires
        value_rest(l, a) is Some,
        value_rest(l, b) is Some,
    ensures
        chars_eq_ci(a, b),
{
    let qa = quoted(a);
    let qb = quoted(b);
    let ea = escape(a);
    let eb = escape(b);
    let la = l.subrange(0, qa.len() as int);
    let lb = l.subrange(0, qb.len() as int);
    assert forall|t: int| 0 <= t < ea.len() implies lower_char(#[trigger] l[1 + t]) == lower_char(ea[t]) by {
        assert(la[1 + t] == l[1 + t]);
        assert(qa[1 + t] == ea[t]);
        assert(lower_char(la[1 + t]) == lower_char(qa[1 + t]));
    }
    assert forall|t: int| 0 <= t < eb.len() implies lower_char(#[trigger] l[1 + t]) == lower_char(eb[t]) by {
        assert(lb[1 + t] == l[1 + t]);
        assert(qb[1 + t] == eb[t]);
        assert(lower_char(lb[1 + t]) == lower_char(qb[1 + t]));
    }
    assert(la[1 + ea.len() as int] == l[1 + ea.len() as int]);
    assert(qa[1 + ea.len() as int] == '"');
    assert(lower_char(la[1 + ea.len() as int]) == lower_char(qa[1 + ea.len() as int]));
    assert(lb[1 + eb.len() as int] == l[1 + eb.len() as int]);
    assert(qb[1 + eb.len() as int] == '"');
    assert(lower_char(lb[1 + eb.len() as int]) == lower_char(qb[1 + eb.len() as int]));
    lemma_escaped_names(a, b, l, 1);
}

/// `find_value` over lines that agree on the value `name` gives the same.
proof fn lemma_find_value_cong(ls: Seq<Seq<char>>, ls2: Seq<Seq<char>>, name: Seq<char>, a: int, e: int)
    requires
        0 <= a,
        e <= ls.len(),
        e <= ls2.len(),
        forall|j: int| a <= j < e ==> value_rest(#[trigger] ls2[j], name) == value_rest(ls[j], name),
    ensures
        find_value(ls2, name, a, e) == find_value(ls, name, a, e),
    decreases e - a,
{
    if a < e {
        lemma_find_value_cong(ls, ls2, name, a + 1, e);
    }
}

/// `find_value` is not changed by a line put in at `at` that holds no value `name`.
proof fn lemma_find_value_insert(ls: Seq<Seq<char>>, l: Seq<char>, name: Seq<char>, a: int, at: int, e: int)
    requires
        0 <= a <= at <= e <= ls.len(),
        value_rest(l, name) is None,
    ensures
        find_value(ls.insert(at, l), name, a, e + 1) == find_value(ls, name, a, e),
    decreases at - a,
{
    let ls2 = ls.insert(at, l);
    if a < at {
        assert(ls2[a] == ls[a]);
        lemma_find_value_insert(ls, l, name, a + 1, at, e);
    } else {
        assert(ls2[at] == l);
        assert forall|j: int| 0 <= j < e - at implies #[trigger] ls2[(at + 1) + j] == ls[at + j] by {}
        lemma_find_value_same(ls, ls2, name, at, e, at + 1, e + 1);
    }
}

proof fn lemma_dbl_ci(p: Seq<char>, q: Seq<char>)
    requires
        chars_eq_ci(p, q),
    ensures
        chars_eq_ci(double_backslashes(p), double_backslashes(q)),
    decreases p.len(),
{
    if p.len() > 0 {
        lemma_lower_fixed(p[0]);
        lemma_lower_fixed(q[0]);
        assert(lower_char(p[0]) == lower_char(q[0]));
        let p1 = p.drop_first();
        let q1 = q.drop_first();
        assert forall|t: int| 0 <= t < p1.len() implies lower_char(#[trigger] p1[t]) == lower_char(q1[t]) by {
            assert(p1[t] == p[t + 1]);
            assert(q1[t] == q[t + 1]);
        }
        lemma_dbl_ci(p1, q1);
        let hp: Seq<char> = if p[0] == '\\' { seq!['\\', '\\'] } else { seq![p[0]] };
        let hq: Seq<char> = if q[0] == '\\' { seq!['\\', '\\'] } else { seq![q[0]] };
        assert(p[0] == '\\' <==> q[0] == '\\');
        let dp = double_backslashes(p);
        let dq = double_backslashes(q);
        assert(dp == hp + double_backslashes(p1));
        assert(dq == hq + double_backslashes(q1));
        assert forall|t: int| 0 <= t < dp.len() implies lower_char(#[trigger] dp[t]) == lower_char(dq[t]) by {
            if t >= hp.len() {
                assert(dp[t] == double_backslashes(p1)[t - hp.len()]);
                assert(dq[t] == double_backslashes(q1)[t - hq.len()]);
            }
        }
    }
}

/// Keys whose paths are equal ignoring ASCII case have the same section, so every value
/// reads the same under either.
proof fn lemma_same_key_get(ls: Seq<Seq<char>>, p: Seq<char>, q: Seq<char>, name: Seq<char>)
    requires
        chars_eq_ci(p, q),
    ensures
        get_value(ls, p, name) == get_value(ls, q, name),
{
    lemma_dbl_ci(p, q);
    let hp = header_of(p);
    let hq = header_of(q);
    assert forall|t: int| 0 <= t < hp.len() implies lower_char(#[trigger] hp[t]) == lower_char(hq[t]) by {
        if 0 < t < hp.len() - 1 {
            assert(hp[t] == double_backslashes(p)[t - 1]);
            assert(hq[t] == double_backslashes(q)[t - 1]);
        }
    }
    assert forall|l: Seq<char>| #[trigger] starts_with_ci(l, hp) == starts_with_ci(l, hq) by {
        if l.len() >= hp.len() {
            assert(chars_eq_ci(l.subrange(0, hp.len() as int), hp) ==> chars_eq_ci(l.subrange(0, hq.len() as int), hq));
            assert(chars_eq_ci(l.subrange(0, hq.len() as int), hq) ==> chars_eq_ci(l.subrange(0, hp.len() as int), hp));
        }
    }
    match section_start(ls, p) {
        Some(st) => {
            assert(is_first_header(ls, hp, st));
            assert(is_first_header(ls, hq, st));
            lemma_section_start_at(ls, q, st);
        },
        None => {
            if let Some(st) = section_start(ls, q) {
                assert(is_first_header(ls, hq, st));
                assert(is_first_header(ls, hp, st));
                lemma_section_start_at(ls, p, st);
            }
        },
    }
}

/// Setting value `name` under `path` leaves every other value name under that key, one
/// that differs from `name` ignoring ASCII case, reading as it did, whichever ASCII case
/// the key's path is written in.
pub proof fn law_set_keeps_other_names(
    ls: Seq<Seq<char>>,
    path: Seq<char>,
    name: Seq<char>,
    value: Seq<char>,
    now: u64,
    other_path: Seq<char>,
    other_name: Seq<char>,
)
    requires
        chars_eq_ci(other_path, path),
        !chars_eq_ci(other_name, name),
    ensures
        get_value(set_lines(ls, path, name, value, now), other_path, other_name) == get_value(
            ls,
            other_path,
            other_name,
        ),
{
    lemma_set_keeps_other_names(ls, path, name, value, now, other_name);
    lemma_same_key_get(ls, other_path, path, other_name);
    lemma_same_key_get(set_lines(ls, path, name, value, now), other_path, path, other_name);
}

proof fn lemma_set_keeps_other_names(
    ls: Seq<Seq<char>>,
    path: Seq<char>,
    name: Seq<char>,
    value: Seq<char>,
    now: u64,
    other_name: Seq<char>,
)
    requires
        !chars_eq_ci(other_name, name),
    ensures
        get_value(set_lines(ls, path, name, value, now), path, other_name) == get_value(ls, path, other_name),
{
    let line = value_line(name, value);
    lemma_value_line(name, value);
    assert(value_rest(line, other_name) is None) by {
        if value_rest(line, other_name) is Some {
            lemma_value_rest_names(line, other_name, name);
        }
    }
    let ls2 = set_lines(ls, path, name, value, now);
    let h = header_of(path);
    match section_start(ls, path) {
        Some(st) => {
            assert(is_first_header(ls, h, st));
            lemma_next_header_props(ls, st + 1);
            let end = next_header(ls, st + 1);
            match first_value_line(ls, name, st + 1, end) {
                Some(i) => {
                    lemma_first_value_line_some(ls, name, st + 1, end, i);
                    assert(ls2 == ls.update(i, line));
                    lemma_section_start_same(ls, ls2, path, st);
                    assert forall|j: int| st + 1 <= j < end implies !is_bracket_line(#[trigger] ls2[j]) by {
                        if j != i {
                            assert(ls2[j] == ls[j]);
                        }
                    }
                    if end < ls.len() {
                        assert(ls2[end] == ls[end]);
                    }
                    lemma_next_header_char(ls2, st + 1, end);
                    assert(value_rest(ls[i], other_name) is None) by {
                        if value_rest(ls[i], other_name) is Some {
                            lemma_value_rest_names(ls[i], other_name, name);
                        }
                    }
                    assert forall|j: int| st + 1 <= j < end implies value_rest(#[trigger] ls2[j], other_name)
                        == value_rest(ls[j], other_name) by {
                        if j != i {
                            assert(ls2[j] == ls[j]);
                        }
                    }
                    lemma_find_value_cong(ls, ls2, other_name, st + 1, end);
                },
                None => {
                    lemma_insert_at_bounds(ls, st + 1, end);
                    let at = insert_at(ls, st + 1, end);
                    assert(ls2 == ls.insert(at, line));
                    lemma_section_start_same(ls, ls2, path, st);
                    assert forall|j: int| st + 1 <= j < end + 1 implies !is_bracket_line(#[trigger] ls2[j]) by {
                        if j < at {
                            assert(ls2[j] == ls[j]);
                        } else if j > at {
                            assert(ls2[j] == ls[j - 1]);
                        }
                    }
                    if end < ls.len() {
                        assert(ls2[end + 1] == ls[end]);
                    }
                    lemma_next_header_char(ls2, st + 1, end + 1);
                    lemma_find_value_insert(ls, line, other_name, st + 1, at, end);
                },
            }
        },
        None => {
            let base = if ls.len() > 0 && !is_blank(ls.last()) { ls.push(seq![]) } else { ls };
            let hl = h + seq![' '] + decimal(now as nat);
            let n = base.len() as int;
            assert(ls2 == base.push(hl).push(line));
            assert(hl.subrange(0, h.len() as int) =~= h);
            assert forall|j: int| 0 <= j < n implies !starts_with_ci(#[trigger] ls2[j], h) by {
                assert(ls2[j] == base[j]);
                if j < ls.len() {
                    assert(base[j] == ls[j]);
                    if starts_with_ci(ls[j], h) {
                        lemma_no_header(ls, h, j);
                    }
                } else {
                    assert(base[j] == Seq::<char>::empty());
                }
            }
            assert(is_first_header(ls2, h, n));
            lemma_section_start_at(ls2, path, n);
            assert(ls2[n + 1] == line);
            lemma_next_header_char(ls2, n + 1, n + 2);
            assert(forall|j: int| n + 1 <= j < n + 2 ==> value_rest(#[trigger] ls2[j], other_name) is None);
            lemma_find_value_none(ls2, other_name, n + 1, n + 2);
        },
    }
}

/// A file that ends with a line ending and has no carriage returns is written back
/// exactly as it was read.
pub proof fn law_text_round_trip(s: Seq<char>)
    requires
        s.len() > 0,
        s.last() == '\n',
        forall|i: int| 0 <= i < s.len() ==> s[i] != '\r',
    ensures
        reg_text(lines_of(s)) == s,
    decreases s.len(),
{
    lemma_first_newline_props(s, 0);
    let n = first_newline(s, 0);
    let l0 = s.subrange(0, n);
    let rest = s.subrange(n + 1, s.len() as int);
    if n > 0 {
        assert(l0.last() == s[n - 1]);
    }
    assert(lines_of(s) == seq![l0] + lines_of(rest));
    if rest.len() == 0 {
        assert(lines_of(rest) =~= Seq::<Seq<char>>::empty());
        assert(seq![l0] + lines_of(rest) =~= seq![l0]);
        assert(join_lines(seq![l0]) == l0);
        assert(n + 1 == s.len());
        assert(reg_text(lines_of(s)) =~= s);
    } else {
        assert(rest.last() == s.last());
        law_text_round_trip(rest);
        lemma_first_newline_props(rest, 0);
        assert(lines_of(rest).len() > 0);
        lemma_join_front(l0, lines_of(rest));
        assert(reg_text(lines_of(s)) =~= l0 + seq!['\n'] + reg_text(lines_of(rest)));
        assert(s =~= l0 + seq!['\n'] + rest);
    }
}

/// Lines without line breaks, none ending in a carriage return, read back as the same
/// lines from the text they are written as.
pub proof fn law_lines_round_trip(ls: Seq<Seq<char>>)
    requires
        ls.len() > 0,
        forall|i: int, k: int| 0 <= i < ls.len() && 0 <= k < ls[i].len() ==> #[trigger] ls[i][k] != '\n',
        forall|i: int| 0 <= i < ls.len() && ls[i].len() > 0 ==> #[trigger] ls[i].last() != '\r',
    ensures
        lines_of(reg_text(ls)) == ls,
    decreases ls.len(),
{
    let a = ls[0];
    let m = ls.drop_first();
    assert(seq![a] + m =~= ls);
    let t = reg_text(ls);
    if m.len() == 0 {
        assert(join_lines(ls) == a);
        assert(t =~= a + seq!['\n']);
    } else {
        lemma_join_front(a, m);
        assert(t =~= a + seq!['\n'] + reg_text(m));
        assert forall|i: int, k: int| 0 <= i < m.len() && 0 <= k < m[i].len() implies #[trigger] m[i][k] != '\n' by {
            assert(m[i] == ls[i + 1]);
        }
        assert forall|i: int| 0 <= i < m.len() && m[i].len() > 0 implies #[trigger] m[i].last() != '\r' by {
            assert(m[i] == ls[i + 1]);
        }
        law_lines_round_trip(m);
    }
    assert forall|k: int| 0 <= k < a.len() implies t[k] != '\n' by {
        assert(t[k] == a[k]);
        assert(ls[0][k] != '\n');
    }
    assert(t[a.len() as int] == '\n');
    lemma_first_newline_at(t, 0, a.len() as int);
    assert(t.subrange(0, a.len() as int) =~= a);
    if m.len() == 0 {
        assert(t.subrange(a.len() as int + 1, t.len() as int) =~= Seq::<char>::empty());
        assert(lines_of(Seq::<char>::empty()) =~= Seq::<Seq<char>>::empty());
    } else {
        assert(t.subrange(a.len() as int + 1, t.len() as int) =~= reg_text(m));
    }
}

/// Current time in seconds since the Unix epoch, read from the system clock
/// (`SystemTime::now`); 0 when the clock is before the epoch. Nothing is promised of
/// the value: it depends on the clock.
#[verifier::external_body]
pub(crate) fn unix_now() -> u64 {
    std::time::SystemTime::now().duration_since(std::time::UNIX_EPOCH).map_or(0, |d| d.as_secs())
}

pub open spec fn lines_view(v: Seq<String>) -> Seq<Seq<char>> {
    Seq::new(v.len(), |i: int| v[i]@)
}

proof fn lemma_first_newline_shift(s: Seq<char>, pos: int, i: int)
    requires
        0 <= pos <= i <= s.len(),
    ensures
        first_newline(s.subrange(pos, s.len() as int), i - pos) == first_newline(s, i) - pos,
    decreases s.len() - i,
{
    if i < s.len() && s[i] != '\n' {
        lemma_first_newline_shift(s, pos, i + 1);
    }
}

fn first_newline_at(s: &[char], i: usize) -> (n: usize)
    requires
        i <= s@.len(),
    ensures
        n == first_newline(s@, i as int),
        i <= n <= s@.len(),
{
    let mut p = i;
    while p < s.len() && s[p] != '\n'
        invariant
            i <= p <= s@.len(),
            first_newline(s@, i as int) == first_newline(s@, p as int),
        decreases s@.len() - p,
    {
        p += 1;
    }
    p
}

fn blank(l: &[char]) -> (r: bool)
    ensures
        r == is_blank(l@),
{
    let mut i: usize = 0;
    while i < l.len()
        invariant
            i <= l@.len(),
            forall|j: int| 0 <= j < i ==> is_white_space(#[trigger] l@[j]),
        decreases l@.len() - i,
    {
        if !white_space_char(l[i]) {
            return false;
        }
        i += 1;
    }
    true
}

fn quoted_chars(s: &str) -> (r: Vec<char>)
    ensures
        r@ == quoted(s@),
{
    let mut q = String::new();
    write_quoted(&mut q, s);
    chars_of(q.as_str())
}

fn header_chars(path: &str) -> (r: Vec<char>)
    ensures
        r@ == header_of(path@),
{
    let p = chars_of(path);
    let mut out: Vec<char> = Vec::new();
    out.push('[');
    let mut i: usize = 0;
    assert(p@.subrange(0, 0) =~= Seq::<char>::empty());
    while i < p.len()
        invariant
            i <= p@.len(),
            p@ == path@,
            out@ == seq!['['] + double_backslashes_rev(p@.subrange(0, i as int)),
        decreases p@.len() - i,
    {
        let ghost before = out@;
        if p[i] == '\\' {
            out.push('\\');
            out.push('\\');
        } else {
            out.push(p[i]);
        }
        proof {
            lemma_double_backslashes_push(p@.subrange(0, i as int), p@[i as int]);
            assert(p@.subrange(0, i + 1) =~= p@.subrange(0, i as int).push(p@[i as int]));
        }
        assert(out@ =~= seq!['['] + double_backslashes_rev(p@.subrange(0, i + 1)));
        i += 1;
    }
    out.push(']');
    assert(p@.subrange(0, p@.len() as int) =~= p@);
    proof {
        lemma_double_backslashes_rev(p@);
    }
    assert(out@ =~= header_of(path@));
    out
}

/// `double_backslashes`, recursing from the back.
spec fn double_backslashes_rev(p: Seq<char>) -> Seq<char>
    decreases p.len(),
{
    if p.len() == 0 {
        seq![]
    } else {
        double_backslashes_rev(p.drop_last()) + (if p.last() == '\\' { seq!['\\', '\\'] } else { seq![p.last()] })
    }
}

proof fn lemma_double_backslashes_push(p: Seq<char>, c: char)
    ensures
        double_backslashes_rev(p.push(c)) == double_backslashes_rev(p) + (if c == '\\' { seq!['\\', '\\'] } else { seq![c] }),
{
    assert(p.push(c).drop_last() =~= p);
}

proof fn lemma_double_backslashes_rev(p: Seq<char>)
    ensures
        double_backslashes_rev(p) == double_backslashes(p),
    decreases p.len(),
{
    if p.len() > 0 {
        lemma_double_backslashes_rev(p.drop_first());
        if p.len() > 1 {
            lemma_double_backslashes_rev_front(p);
        } else {
            assert(p.drop_first() =~= Seq::<char>::empty());
            assert(p.drop_last() =~= Seq::<char>::empty());
        }
    }
}

proof fn lemma_double_backslashes_rev_front(p: Seq<char>)
    requires
        p.len() > 0,
    ensures
        double_backslashes_rev(p) == (if p[0] == '\\' { seq!['\\', '\\'] } else { seq![p[0]] })
            + double_backslashes_rev(p.drop_first()),
    decreases p.len(),
{
    if p.len() == 1 {
        assert(p.drop_first() =~= Seq::<char>::empty());
        assert(p.drop_last() =~= Seq::<char>::empty());
    } else {
        lemma_double_backslashes_rev_front(p.drop_last());
        assert(p.drop_last().drop_first() =~= p.drop_first().drop_last());
        assert(p.drop_last()[0] == p[0]);
        assert(p.drop_first().last() == p.last());
    }
}

/// Where the value text of `line` starts, when it holds a value named `name` (quoted as `q`).
fn value_start(line: &[char], q: &[char], name: Ghost<Seq<char>>) -> (r: Option<usize>)
    requires
        q@ == quoted(name@),
    ensures
        match r {
            Some(k) => k <= line@.len() && value_rest(line@, name@) == Some(line@.subrange(k as int, line@.len() as int)),
            None => value_rest(line@, name@) is None,
        },
{
    if line.len() > q.len() && eq_ci_chars(slice_subrange(line, 0, q.len()), q) && line[q.len()] == '=' {
        Some(q.len() + 1)
    } else {
        None
    }
}

/// Contents of a quoted value, with backslash escapes resolved.
fn unquote_chars(s: &[char]) -> (r: Option<Vec<char>>)
    ensures
        match r {
            Some(v) => unquote(s@) == Some(v@),
            None => unquote(s@) is None,
        },
{
    if s.len() < 2 || s[0] != '"' || s[s.len() - 1] != '"' {
        return None;
    }
    let ghost t = s@.subrange(1, s@.len() - 1);
    let end = s.len() - 1;
    let mut buf: Vec<char> = Vec::new();
    let mut p: usize = 1;
    assert(t.subrange(0, t.len() as int) =~= t);
    assert(buf@ + Seq::<char>::empty() =~= buf@);
    while p < end
        invariant
            1 <= p <= end,
            end == s@.len() - 1,
            t == s@.subrange(1, end as int),
            unescape_all(t) == match unescape_all(t.subrange(p - 1, t.len() as int)) {
                Some(r) => Some(buf@ + r),
                None => None,
            },
        decreases end - p,
    {
        let ghost rest = t.subrange(p - 1, t.len() as int);
        assert(rest[0] == s@[p as int]);
        let ghost before = buf@;
        if s[p] == '\\' {
            if p + 1 >= end {
                assert(rest.len() < 2);
                return None;
            }
            buf.push(s[p + 1]);
            assert(rest[1] == s@[p + 1]);
            assert(rest.subrange(2, rest.len() as int) =~= t.subrange(p + 1, t.len() as int));
            assert forall|r: Seq<char>| #[trigger] (before + (seq![s@[p + 1]] + r)) == buf@ + r by {
                assert(before + (seq![s@[p + 1]] + r) =~= buf@ + r);
            }
            p += 2;
        } else {
            buf.push(s[p]);
            assert(rest.subrange(1, rest.len() as int) =~= t.subrange(p as int, t.len() as int));
            assert forall|r: Seq<char>| #[trigger] (before + (seq![s@[p as int]] + r)) == buf@ + r by {
                assert(before + (seq![s@[p as int]] + r) =~= buf@ + r);
            }
            p += 1;
        }
    }
    assert(t.subrange(p - 1, t.len() as int) =~= Seq::<char>::empty());
    assert(buf@ + Seq::<char>::empty() =~= buf@);
    Some(buf)
}

impl RegFile {
    pub fn parse(src: &str) -> (r: RegFile)
        ensures
            r@ == lines_of(src@),
    {
        let s = chars_of(src);
        let mut lines: Vec<String> = Vec::new();
        let mut pos: usize = 0;
        assert(s@.subrange(0, s@.len() as int) =~= s@);
        while pos < s.len()
            invariant
                pos <= s@.len(),
                s@ == src@,
                lines_of(src@) == lines_view(lines@) + lines_of(s@.subrange(pos as int, s@.len() as int)),
            decreases s@.len() - pos,
        {
            let ghost rest = s@.subrange(pos as int, s@.len() as int);
            let n = first_newline_at(s.as_slice(), pos);
            proof {
                lemma_first_newline_shift(s@, pos as int, pos as int);
            }
            let ghost before = lines_view(lines@);
            if n >= s.len() {
                let line = string_from_chars(slice_subrange(s.as_slice(), pos, s.len()));
                lines.push(line);
                assert(lines_view(lines@) =~= before.push(rest));
                assert(lines_of(rest) =~= seq![rest]);
                assert(s@.subrange(s@.len() as int, s@.len() as int) =~= Seq::<char>::empty());
                pos = s.len();
            } else {
                let mut e = n;
                if e > pos && s[e - 1] == '\r' {
                    e = e - 1;
                }
                let line = string_from_chars(slice_subrange(s.as_slice(), pos, e));
                lines.push(line);
                let ghost l0 = rest.subrange(0, n - pos);
                let ghost l1 = if l0.len() > 0 && l0.last() == '\r' { l0.drop_last() } else { l0 };
                assert(line@ =~= l1);
                assert(lines_view(lines@) =~= before.push(l1));
                assert(rest.subrange(n - pos + 1, rest.len() as int) =~= s@.subrange(n + 1, s@.len() as int));
                assert(lines_view(lines@) + lines_of(s@.subrange(n + 1, s@.len() as int)) =~= before + lines_of(rest));
                pos = n + 1;
            }
        }
        assert(s@.subrange(pos as int, s@.len() as int) =~= Seq::<char>::empty());
        let r = RegFile { lines };
        assert(r@ =~= lines_view(r.lines@));
        assert(lines_view(r.lines@) + Seq::<Seq<char>>::empty() =~= lines_view(r.lines@));
        r
    }

    pub fn serialize(&self) -> (r: String)
        ensures
            r@ == reg_text(self@),
    {
        let mut out = String::new();
        let mut i: usize = 0;
        let ghost ls = self@;
        assert(ls.take(0) =~= Seq::<Seq<char>>::empty());
        while i < self.lines.len()
            invariant
                i <= self.lines@.len(),
                ls == self@,
                out@ == join_lines(ls.take(i as int)),
            decreases self.lines@.len() - i,
        {
            let ghost before = out@;
            if i > 0 {
                push_char(&mut out, '\n');
            }
            let cs = chars_of(self.lines[i].as_str());
            push_chars(&mut out, cs.as_slice());
            assert(ls[i as int] == self.lines@[i as int]@);
            assert(ls.take(i + 1).drop_last() =~= ls.take(i as int));
            if i == 0 {
                assert(out@ =~= join_lines(ls.take(1)));
            } else {
                assert(out@ =~= join_lines(ls.take(i + 1)));
            }
            i += 1;
        }
        assert(ls.take(i as int) =~= ls);
        push_char(&mut out, '\n');
        out
    }

    /// String value `name` under the key `path` (written with single backslashes).
    pub fn get(&self, path: &str, name: &str) -> (r: Option<String>)
        ensures
            (match r {
                Some(v) => Some(v@),
                None => None,
            }) == get_value(self@, path@, name@),
    {
        let (start, end) = self.section(path)?;
        let q = quoted_chars(name);
        let ghost ls = self@;
        let mut i = start + 1;
        while i < end
            invariant
                start < i <= end <= self.lines@.len(),
                ls == self@,
                ls.len() == self.lines@.len(),
                section_start(ls, path@) == Some(start as int),
                end == next_header(ls, start + 1),
                q@ == quoted(name@),
                find_value(ls, name@, start + 1, end as int) == find_value(ls, name@, i as int, end as int),
            decreases end - i,
        {
            let l = chars_of(self.lines[i].as_str());
            assert(ls[i as int] == l@);
            if let Some(k) = value_start(l.as_slice(), q.as_slice(), Ghost(name@)) {
                if let Some(v) = unquote_chars(slice_subrange(l.as_slice(), k, l.len())) {
                    assert(value_rest(ls[i as int], name@) == Some(l@.subrange(k as int, l@.len() as int)));
                    assert(unquote(l@.subrange(k as int, l@.len() as int)) == Some(v@));
                    assert(find_value(ls, name@, i as int, end as int) == Some(v@));
                    assert(get_value(ls, path@, name@) == find_value(ls, name@, start + 1, end as int));
                    return Some(string_from_chars(v.as_slice()));
                }
            }
            i += 1;
        }
        None
    }

    /// Set string value `name` under `path`, creating the key if needed, with `now`
    /// as the time stamp of a newly created key.
    pub fn set_with_time(&mut self, path: &str, name: &str, value: &str, now: u64)
        ensures
            final(self)@ == set_lines(old(self)@, path@, name@, value@, now),
    {
        let ghost ls = old(self)@;
        let mut line = String::new();
        write_quoted(&mut line, name);
        push_char(&mut line, '=');
        write_quoted(&mut line, value);
        assert(line@ =~= value_line(name@, value@));
        match self.section(path) {
            Some((start, end)) => {
                let q = quoted_chars(name);
                let mut i = start + 1;
                while i < end
                    invariant
                        start < i <= end <= self.lines@.len(),
                        ls == self@,
                        ls == old(self)@,
                        ls.len() == self.lines@.len(),
                        section_start(ls, path@) == Some(start as int),
                        end == next_header(ls, start + 1),
                        line@ == value_line(name@, value@),
                        q@ == quoted(name@),
                        first_value_line(ls, name@, start + 1, end as int) == first_value_line(ls, name@, i as int, end as int),
                    decreases end - i,
                {
                    let l = chars_of(self.lines[i].as_str());
                    assert(ls[i as int] == l@);
                    if value_start(l.as_slice(), q.as_slice(), Ghost(name@)).is_some() {
                        self.lines[i] = line;
                        assert(self@ =~= ls.update(i as int, value_line(name@, value@)));
                        return;
                    }
                    i += 1;
                }
                // After the section's last non-blank line.
                let mut at = end;
                while at > start + 1
                    invariant
                        start + 1 <= at <= end <= self.lines@.len(),
                        ls == self@,
                        ls == old(self)@,
                        ls.len() == self.lines@.len(),
                        section_start(ls, path@) == Some(start as int),
                        end == next_header(ls, start + 1),
                        first_value_line(ls, name@, start + 1, end as int) is None,
                        line@ == value_line(name@, value@),
                        insert_at(ls, start + 1, end as int) == insert_at(ls, start + 1, at as int),
                    ensures
                        insert_at(ls, start + 1, end as int) == at,
                        start + 1 <= at <= end,
                        ls == self@,
                    decreases at,
                {
                    let l = chars_of(self.lines[at - 1].as_str());
                    assert(ls[at - 1] == l@);
                    if !blank(l.as_slice()) {
                        break;
                    }
                    at -= 1;
                }
                self.lines.insert(at, line);
                assert(self@ =~= ls.insert(at as int, value_line(name@, value@)));
            },
            None => {
                let n = self.lines.len();
                if n > 0 {
                    let l = chars_of(self.lines[n - 1].as_str());
                    assert(ls.last() == l@);
                    if !blank(l.as_slice()) {
                        self.lines.push(String::new());
                        assert(self@ =~= ls.push(Seq::<char>::empty()));
                    }
                }
                let ghost base = self@;
                let header = header_chars(path);
                let mut h = string_from_chars(header.as_slice());
                push_char(&mut h, ' ');
                h.append(u64_to_string(now).as_str());
                assert(h@ =~= header_of(path@) + seq![' '] + decimal(now as nat));
                let ghost hv = h@;
                let ghost lv = line@;
                self.lines.push(h);
                self.lines.push(line);
                assert(self@.len() == base.len() + 2);
                assert(self@[base.len() as int] == hv);
                assert(self@[base.len() as int + 1] == lv);
                assert(self@ =~= base.push(header_of(path@) + seq![' '] + decimal(now as nat)).push(
                    value_line(name@, value@),
                ));
            },
        }
    }

    /// Set string value `name` under `path`, creating the key if needed; a new key is
    /// stamped with the current time, as Wine does.
    pub fn set(&mut self, path: &str, name: &str, value: &str)
        ensures
            exists|now: u64| final(self)@ == set_lines(old(self)@, path@, name@, value@, now),
    {
        let now = unix_now();
        self.set_with_time(path, name, value, now);
    }

    /// Remove value `name` under `path`. Returns whether it existed.
    pub fn remove(&mut self, path: &str, name: &str) -> (r: bool)
        ensures
            final(self)@ == remove_lines(old(self)@, path@, name@),
            r == match section_start(old(self)@, path@) {
                Some(st) => first_value_line(old(self)@, name@, st + 1, next_header(old(self)@, st + 1)) is Some,
                None => false,
            },
    {
        let ghost ls = old(self)@;
        let (start, end) = match self.section(path) {
            Some(x) => x,
            None => return false,
        };
        let q = quoted_chars(name);
        let mut i = start + 1;
        while i < end
            invariant
                start < i <= end <= self.lines@.len(),
                ls == self@,
                        ls == old(self)@,
                ls.len() == self.lines@.len(),
                section_start(ls, path@) == Some(start as int),
                end == next_header(ls, start + 1),
                q@ == quoted(name@),
                first_value_line(ls, name@, start + 1, end as int) == first_value_line(ls, name@, i as int, end as int),
            decreases end - i,
        {
            let l = chars_of(self.lines[i].as_str());
            assert(ls[i as int] == l@);
            if value_start(l.as_slice(), q.as_slice(), Ghost(name@)).is_some() {
                assert(value_rest(ls[i as int], name@) is Some);
                assert(first_value_line(ls, name@, i as int, end as int) == Some(i as int));
                assert(remove_lines(ls, path@, name@) == ls.remove(i as int));
                self.lines.remove(i);
                assert(self@ =~= ls.remove(i as int));
                return true;
            }
            i += 1;
        }
        false
    }

    /// Line range of a key: (header index, index of the next header or end).
    fn section(&self, path: &str) -> (r: Option<(usize, usize)>)
        ensures
            match r {
                Some((st, end)) => section_start(self@, path@) == Some(st as int) && end == next_header(
                    self@,
                    st + 1,
                ) && st < end <= self.lines@.len() && self@.len() == self.lines@.len(),
                None => section_start(self@, path@) is None,
            },
    {
        let header = header_chars(path);
        let ghost ls = self@;
        let mut i: usize = 0;
        while i < self.lines.len()
            invariant
                i <= self.lines@.len(),
                ls == self@,
                header@ == header_of(path@),
                forall|j: int| 0 <= j < i ==> !starts_with_ci(#[trigger] ls[j], header@),
            decreases self.lines@.len() - i,
        {
            let l = chars_of(self.lines[i].as_str());
            assert(ls[i as int] == l@);
            if l.len() >= header.len() && eq_ci_chars(slice_subrange(l.as_slice(), 0, header.len()), header.as_slice()) {
                assert(is_first_header(ls, header@, i as int));
                proof {
                    let c = choose|c: int| is_first_header(ls, header_of(path@), c);
                    if c < i {
                        assert(!starts_with_ci(ls[c], header@));
                    } else if c > i {
                        assert(!starts_with_ci(ls[i as int], header@));
                    }
                }
                let mut end = i + 1;
                while end < self.lines.len() && !starts_with_char(self.lines[end].as_str(), '[')
                    invariant
                        i + 1 <= end <= self.lines@.len(),
                        ls == self@,
                        next_header(ls, i + 1) == next_header(ls, end as int),
                    decreases self.lines@.len() - end,
                {
                    end += 1;
                }
                return Some((i, end));
            }
            i += 1;
        }
        assert(self@.len() == self.lines@.len());
        None
    }
}

} // verus!
