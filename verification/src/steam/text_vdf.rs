//! Minimal, order-preserving reader/writer for Valve's text KeyValues format
//! (`config.vdf`, `loginusers.vdf`, ...).

use vstd::prelude::*;
use vstd::slice::{slice_subrange, slice_to_vec};
use crate::text::{decimal, escape, esc_char, quoted, write_quoted, lower_char, chars_eq_ci, chars_of, eq_ci_chars, push_char, string_from_chars, u64_to_string};

verus! {

/// Mathematical model of a value.
pub enum Node {
    Str(Seq<char>),
    Obj(Seq<(Seq<char>, Node)>),
}

#[derive(Debug, PartialEq, Eq)]
pub enum Value {
    Str(String),
    Obj(Obj),
}

#[derive(Debug, PartialEq, Eq)]
pub struct Obj(pub Vec<(String, Value)>);

pub open spec fn node_of(v: Value) -> Node
    decreases v,
{
    match v {
        Value::Str(s) => Node::Str(s@),
        Value::Obj(o) => Node::Obj(entries_of(o)),
    }
}

pub open spec fn entries_of(o: Obj) -> Seq<(Seq<char>, Node)>
    decreases o,
{
    Seq::new(
        o.0@.len(),
        |i: int|
            if 0 <= i < o.0@.len() {
                (o.0@[i].0@, node_of(o.0@[i].1))
            } else {
                (Seq::empty(), Node::Str(Seq::empty()))
            },
    )
}

impl View for Value {
    type V = Node;

    open spec fn view(&self) -> Node {
        node_of(*self)
    }
}

impl View for Obj {
    type V = Seq<(Seq<char>, Node)>;

    open spec fn view(&self) -> Seq<(Seq<char>, Node)> {
        entries_of(*self)
    }
}

/// `i` is the first entry whose key equals `key` up to ASCII case.
pub open spec fn is_first_key(es: Seq<(Seq<char>, Node)>, key: Seq<char>, i: int) -> bool {
    &&& 0 <= i < es.len()
    &&& chars_eq_ci(es[i].0, key)
    &&& forall|j: int| 0 <= j < i ==> !chars_eq_ci(#[trigger] es[j].0, key)
}

/// Position of the first entry whose key equals `key` up to ASCII case.
pub open spec fn find_key(es: Seq<(Seq<char>, Node)>, key: Seq<char>) -> Option<int> {
    if exists|i: int| is_first_key(es, key, i) {
        Some(choose|i: int| is_first_key(es, key, i))
    } else {
        None
    }
}

/// Value of the first entry whose key equals `key` up to ASCII case.
pub open spec fn lookup(es: Seq<(Seq<char>, Node)>, key: Seq<char>) -> Option<Node> {
    match find_key(es, key) {
        Some(i) => Some(es[i].1),
        None => None,
    }
}

/// Entries after setting `key` to `v`: the first matching entry keeps its place and key
/// spelling and takes the new value; without one, a new entry is appended.
pub open spec fn set_entry(es: Seq<(Seq<char>, Node)>, key: Seq<char>, v: Node) -> Seq<(Seq<char>, Node)> {
    match find_key(es, key) {
        Some(i) => es.update(i, (es[i].0, v)),
        None => es.push((key, v)),
    }
}

/// Entries after removing the first one whose key matches `key`.
pub open spec fn remove_entry(es: Seq<(Seq<char>, Node)>, key: Seq<char>) -> Seq<(Seq<char>, Node)> {
    match find_key(es, key) {
        Some(i) => es.remove(i),
        None => es,
    }
}

proof fn lemma_first_key_unique(es: Seq<(Seq<char>, Node)>, key: Seq<char>, i: int)
    requires
        is_first_key(es, key, i),
    ensures
        find_key(es, key) == Some(i),
{
    let c = choose|c: int| is_first_key(es, key, c);
    assert(is_first_key(es, key, c));
    if c < i {
        assert(!chars_eq_ci(es[c].0, key));
    } else if c > i {
        assert(!chars_eq_ci(es[i].0, key));
    }
}

/// ASCII whitespace as `u8::is_ascii_whitespace` defines it.
pub open spec fn is_ws(c: char) -> bool {
    c == ' ' || c == '\t' || c == '\n' || c == '\r' || c == '\x0C'
}

/// `depth` tab characters.
pub open spec fn indent(depth: nat) -> Seq<char> {
    Seq::new(depth, |i: int| '\t')
}

/// Text of one entry at the given nesting depth, in Steam's own layout.
pub open spec fn ser_entry(e: (Seq<char>, Node), depth: nat) -> Seq<char>
    decreases e,
{
    match e.1 {
        Node::Str(v) => indent(depth) + quoted(e.0) + seq!['\t', '\t'] + quoted(v) + seq!['\n'],
        Node::Obj(inner) => indent(depth) + quoted(e.0) + seq!['\n'] + indent(depth) + seq!['{', '\n']
            + ser_body(inner, depth + 1) + indent(depth) + seq!['}', '\n'],
    }
}

/// Text of a list of entries at the given nesting depth.
pub open spec fn ser_body(es: Seq<(Seq<char>, Node)>, depth: nat) -> Seq<char>
    decreases es,
{
    if es.len() == 0 {
        seq![]
    } else {
        ser_entry(es[0], depth) + ser_body(es.drop_first(), depth)
    }
}

/// A token of the text format.
pub enum Token {
    Str(Seq<char>),
    Open,
    Close,
    Eof,
}

/// First position at or after `i` that is not whitespace.
pub open spec fn skip_ws(s: Seq<char>, i: int) -> int
    decreases s.len() - i,
{
    if 0 <= i < s.len() && is_ws(s[i]) {
        skip_ws(s, i + 1)
    } else {
        i
    }
}

/// First position at or after `i` holding `c` (the length when there is none).
pub open spec fn find_char(s: Seq<char>, i: int, c: char) -> int
    decreases s.len() - i,
{
    if i < 0 || i >= s.len() {
        s.len() as int
    } else if s[i] == c {
        i
    } else {
        find_char(s, i + 1, c)
    }
}

/// The character an escape sequence `\c` stands for.
pub open spec fn unescape(c: char) -> char {
    if c == 'n' {
        '\n'
    } else if c == 't' {
        '\t'
    } else {
        c
    }
}

/// Contents of a quoted string whose text starts at `i` (after the opening quote), and
/// the position after the closing quote.
pub open spec fn qstr(s: Seq<char>, i: int) -> Option<(Seq<char>, int)>
    decreases s.len() - i,
{
    if i < 0 || i >= s.len() {
        None
    } else if s[i] == '"' {
        Some((seq![], i + 1))
    } else if s[i] == '\\' {
        if i + 1 >= s.len() {
            None
        } else {
            match qstr(s, i + 2) {
                Some((r, e)) => Some((seq![unescape(s[i + 1])] + r, e)),
                None => None,
            }
        }
    } else {
        match qstr(s, i + 1) {
            Some((r, e)) => Some((seq![s[i]] + r, e)),
            None => None,
        }
    }
}

pub open spec fn is_delim(c: char) -> bool {
    is_ws(c) || c == '{' || c == '}' || c == '"'
}

/// End of an unquoted token starting at `i`.
pub open spec fn bare_end(s: Seq<char>, i: int) -> int
    decreases s.len() - i,
{
    if 0 <= i < s.len() && !is_delim(s[i]) {
        bare_end(s, i + 1)
    } else {
        i
    }
}

/// The next token at or after `i`, skipping whitespace, `//` comments and `[...]`
/// platform conditionals, and the position after it.
pub open spec fn next_tok(s: Seq<char>, i: int) -> Option<(Token, int)>
    decreases s.len() - i,
{
    let p = skip_ws(s, i);
    if i < 0 || i > s.len() {
        None
    } else if p >= s.len() {
        Some((Token::Eof, p))
    } else if s[p] == '/' && p + 1 < s.len() && s[p + 1] == '/' {
        let q = find_char(s, p, '\n');
        if i < q <= s.len() {
            next_tok(s, q)
        } else {
            None
        }
    } else if s[p] == '[' {
        let q = find_char(s, p, ']');
        let q1 = if q < s.len() { q + 1 } else { q };
        if i < q1 <= s.len() {
            next_tok(s, q1)
        } else {
            None
        }
    } else if s[p] == '{' {
        Some((Token::Open, p + 1))
    } else if s[p] == '}' {
        Some((Token::Close, p + 1))
    } else if s[p] == '"' {
        match qstr(s, p + 1) {
            Some((t, e)) => Some((Token::Str(t), e)),
            None => None,
        }
    } else {
        Some((Token::Str(s.subrange(p, bare_end(s, p))), bare_end(s, p)))
    }
}

/// Entries of an object body starting at `i`, and the position after its closing brace
/// (or the end of the text, for the top level).
pub open spec fn parse_body(s: Seq<char>, i: int, top: bool) -> Option<(Seq<(Seq<char>, Node)>, int)>
    decreases s.len() - i,
{
    if i < 0 || i > s.len() {
        None
    } else {
        match next_tok(s, i) {
            None => None,
            Some((t, j)) => match t {
                Token::Eof => if top {
                    Some((seq![], j))
                } else {
                    None
                },
                Token::Close => if top {
                    None
                } else {
                    Some((seq![], j))
                },
                Token::Open => None,
                Token::Str(k) => if !(i < j <= s.len()) {
                    None
                } else {
                    match next_tok(s, j) {
                        Some((Token::Str(v), j2)) => if j < j2 <= s.len() {
                            match parse_body(s, j2, top) {
                                Some((rest, e)) => Some((seq![(k, Node::Str(v))] + rest, e)),
                                None => None,
                            }
                        } else {
                            None
                        },
                        Some((Token::Open, j2)) => if j < j2 <= s.len() {
                            match parse_body(s, j2, false) {
                                Some((inner, j3)) => if j2 < j3 <= s.len() {
                                    match parse_body(s, j3, top) {
                                        Some((rest, e)) => Some((seq![(k, Node::Obj(inner))] + rest, e)),
                                        None => None,
                                    }
                                } else {
                                    None
                                },
                                None => None,
                            }
                        } else {
                            None
                        },
                        _ => None,
                    }
                },
            },
        }
    }
}

/// What `parse` makes of a whole text.
pub open spec fn parse_spec(s: Seq<char>) -> Option<Seq<(Seq<char>, Node)>> {
    match parse_body(s, 0, true) {
        Some((es, _)) => Some(es),
        None => None,
    }
}

/// The message for a quoted string from `i` on that has no end.
pub open spec fn qstr_err(s: Seq<char>, i: int) -> Seq<char>
    decreases s.len() - i,
{
    if i < 0 || i >= s.len() {
        "unterminated string"@
    } else if s[i] == '"' {
        seq![]
    } else if s[i] == '\\' {
        if i + 1 >= s.len() {
            "unterminated escape"@
        } else {
            qstr_err(s, i + 2)
        }
    } else {
        qstr_err(s, i + 1)
    }
}

/// The message where [`next_tok`] fails at `i`.
pub open spec fn tok_err(s: Seq<char>, i: int) -> Seq<char>
    decreases s.len() - i,
{
    let p = skip_ws(s, i);
    if i < 0 || i > s.len() || p >= s.len() {
        seq![]
    } else if s[p] == '/' && p + 1 < s.len() && s[p + 1] == '/' {
        let q = find_char(s, p, '\n');
        if i < q <= s.len() {
            tok_err(s, q)
        } else {
            seq![]
        }
    } else if s[p] == '[' {
        let q = find_char(s, p, ']');
        let q1 = if q < s.len() { q + 1 } else { q };
        if i < q1 <= s.len() {
            tok_err(s, q1)
        } else {
            seq![]
        }
    } else if s[p] == '"' {
        qstr_err(s, p + 1)
    } else {
        seq![]
    }
}

/// Bytes a character takes in UTF-8.
pub open spec fn utf8_width(c: char) -> nat {
    if (c as u32) < 0x80 {
        1
    } else if (c as u32) < 0x800 {
        2
    } else if (c as u32) < 0x10000 {
        3
    } else {
        4
    }
}

/// Bytes a text takes in UTF-8.
pub open spec fn utf8_len(cs: Seq<char>) -> nat
    decreases cs.len(),
{
    if cs.len() == 0 {
        0
    } else {
        utf8_len(cs.drop_last()) + utf8_width(cs.last())
    }
}

/// Byte offset of character position `i`, as a `usize` counts it (saturating).
pub open spec fn byte_pos(s: Seq<char>, i: int) -> nat {
    let n = utf8_len(s.take(i));
    if n > usize::MAX {
        usize::MAX as nat
    } else {
        n
    }
}

/// Rust's debug rendering of a string (`{:?}`): quoted, with escapes.
pub uninterp spec fn debug_str(s: Seq<char>) -> Seq<char>;

/// The message for a brace where a key was expected; `j` is the position after it.
pub open spec fn brace_err(s: Seq<char>, j: int) -> Seq<char> {
    "unexpected brace at byte "@ + decimal(byte_pos(s, j))
}

/// The message for the first thing that cannot be read in an object body from `i` on; it is
/// what `parse` reports where [`parse_body`] fails.
pub open spec fn parse_err(s: Seq<char>, i: int, top: bool) -> Seq<char>
    decreases s.len() - i,
{
    if i < 0 || i > s.len() {
        seq![]
    } else {
        match next_tok(s, i) {
            None => tok_err(s, i),
            Some((t, j)) => match t {
                Token::Eof => if top {
                    seq![]
                } else {
                    "unexpected end of file"@
                },
                Token::Close => if top {
                    brace_err(s, j)
                } else {
                    seq![]
                },
                Token::Open => brace_err(s, j),
                Token::Str(k) => if !(i < j <= s.len()) {
                    seq![]
                } else {
                    match next_tok(s, j) {
                        None => tok_err(s, j),
                        Some((Token::Str(_), j2)) => if j < j2 <= s.len() {
                            parse_err(s, j2, top)
                        } else {
                            seq![]
                        },
                        Some((Token::Open, j2)) => if j < j2 <= s.len() {
                            match parse_body(s, j2, false) {
                                None => parse_err(s, j2, false),
                                Some((_, j3)) => if j2 < j3 <= s.len() {
                                    parse_err(s, j3, top)
                                } else {
                                    seq![]
                                },
                            }
                        } else {
                            seq![]
                        },
                        _ => "missing value for key "@ + debug_str(k),
                    }
                },
            },
        }
    }
}

/// The message `parse` reports for a text it cannot read.
pub open spec fn parse_error(s: Seq<char>) -> Seq<char> {
    parse_err(s, 0, true)
}

/// Nested objects fit the indentation counter: `depth` plus the nesting stays in range.
pub open spec fn fits(es: Seq<(Seq<char>, Node)>, depth: nat) -> bool
    decreases es,
{
    if es.len() == 0 {
        true
    } else {
        &&& match es[0].1 {
            Node::Obj(inner) => depth < usize::MAX && fits(inner, depth + 1),
            Node::Str(_) => true,
        }
        &&& fits(es.drop_first(), depth)
    }
}

proof fn lemma_ser_body_push(es: Seq<(Seq<char>, Node)>, e: (Seq<char>, Node), depth: nat)
    ensures
        ser_body(es.push(e), depth) == ser_body(es, depth) + ser_entry(e, depth),
    decreases es.len(),
{
    if es.len() == 0 {
        assert(es.push(e).drop_first() =~= seq![]);
        assert(ser_body(es.push(e).drop_first(), depth) =~= Seq::<char>::empty());
        assert(es.push(e)[0] == e);
        assert(ser_body(es, depth) =~= Seq::<char>::empty());
        assert(ser_body(es.push(e), depth) =~= ser_body(es, depth) + ser_entry(e, depth));
    } else {
        assert(es.push(e).drop_first() =~= es.drop_first().push(e));
        lemma_ser_body_push(es.drop_first(), e, depth);
        assert(ser_body(es.push(e), depth) =~= ser_body(es, depth) + ser_entry(e, depth));
    }
}

proof fn lemma_fits_index(es: Seq<(Seq<char>, Node)>, depth: nat, i: int)
    requires
        fits(es, depth),
        0 <= i < es.len(),
    ensures
        es[i].1 matches Node::Obj(inner) ==> depth < usize::MAX && fits(inner, depth + 1),
    decreases i,
{
    if i > 0 {
        lemma_fits_index(es.drop_first(), depth, i - 1);
        assert(es.drop_first()[i - 1] == es[i]);
    }
}

fn write_indent(out: &mut String, depth: usize)
    ensures
        final(out)@ == old(out)@ + indent(depth as nat),
{
    let ghost start = out@;
    let mut i: usize = 0;
    while i < depth
        invariant
            i <= depth,
            out@ == start + indent(i as nat),
        decreases depth - i,
    {
        push_char(out, '\t');
        i += 1;
        assert(out@ =~= start + indent(i as nat));
    }
}

#[verifier::rlimit(40)]
fn write_obj(out: &mut String, obj: &Obj, depth: usize)
    requires
        fits(obj@, depth as nat),
    ensures
        final(out)@ == old(out)@ + ser_body(obj@, depth as nat),
    decreases obj,
{
    let ghost start = out@;
    let ghost es = obj@;
    let mut i: usize = 0;
    assert(es.take(0) =~= seq![]);
    while i < obj.0.len()
        invariant
            i <= obj.0@.len(),
            es == obj@,
            fits(es, depth as nat),
            out@ == start + ser_body(es.take(i as int), depth as nat),
        decreases obj.0@.len() - i,
    {
        let entry = &obj.0[i];
        let ghost before = out@;
        proof {
            lemma_fits_index(es, depth as nat, i as int);
        }
        match &entry.1 {
            Value::Str(v) => {
                write_indent(out, depth);
                write_quoted(out, entry.0.as_str());
                push_char(out, '\t');
                push_char(out, '\t');
                write_quoted(out, v.as_str());
                push_char(out, '\n');
            },
            Value::Obj(o) => {
                write_indent(out, depth);
                write_quoted(out, entry.0.as_str());
                push_char(out, '\n');
                write_indent(out, depth);
                push_char(out, '{');
                push_char(out, '\n');
                assert(decreases_to!(obj => o));
                write_obj(out, o, depth + 1);
                write_indent(out, depth);
                push_char(out, '}');
                push_char(out, '\n');
            },
        }
        proof {
            assert(es[i as int] == (entry.0@, entry.1@));
            assert(out@ =~= before + ser_entry(es[i as int], depth as nat));
            assert(es.take(i + 1) =~= es.take(i as int).push(es[i as int]));
            lemma_ser_body_push(es.take(i as int), es[i as int], depth as nat);
        }
        i += 1;
    }
    assert(es.take(i as int) =~= es);
}

pub fn serialize(root: &Obj) -> (r: String)
    requires
        fits(root@, 0),
    ensures
        r@ == ser_body(root@, 0),
{
    let mut out = String::new();
    write_obj(&mut out, root, 0);
    assert(out@ =~= ser_body(root@, 0));
    out
}

proof fn lemma_skip_ws_run(s: Seq<char>, i: int, p: int)
    requires
        0 <= i <= p <= s.len(),
        forall|t: int| i <= t < p ==> is_ws(#[trigger] s[t]),
    ensures
        skip_ws(s, i) == skip_ws(s, p),
    decreases p - i,
{
    if i < p {
        lemma_skip_ws_run(s, i + 1, p);
    }
}

proof fn lemma_skip_ws_bound(s: Seq<char>, i: int)
    requires
        0 <= i <= s.len(),
    ensures
        i <= skip_ws(s, i) <= s.len(),
    decreases s.len() - i,
{
    if i < s.len() && is_ws(s[i]) {
        lemma_skip_ws_bound(s, i + 1);
    }
}

proof fn lemma_find_char_bound(s: Seq<char>, i: int, c: char)
    requires
        0 <= i <= s.len(),
    ensures
        i <= find_char(s, i, c) <= s.len(),
    decreases s.len() - i,
{
    if i < s.len() && s[i] != c {
        lemma_find_char_bound(s, i + 1, c);
    }
}

/// Leading whitespace does not change the next token.
proof fn lemma_next_tok_ws(s: Seq<char>, i: int, p: int)
    requires
        0 <= i <= p <= s.len(),
        forall|t: int| i <= t < p ==> is_ws(#[trigger] s[t]),
    ensures
        next_tok(s, i) == next_tok(s, p),
{
    lemma_skip_ws_run(s, i, p);
    let sp = skip_ws(s, p);
    lemma_skip_ws_bound(s, p);
    if sp < s.len() {
        if s[sp] == '/' && sp + 1 < s.len() && s[sp + 1] == '/' {
            lemma_find_char_bound(s, sp + 1, '\n');
            assert(find_char(s, sp, '\n') == find_char(s, sp + 1, '\n'));
        } else if s[sp] == '[' {
            lemma_find_char_bound(s, sp + 1, ']');
            assert(find_char(s, sp, ']') == find_char(s, sp + 1, ']'));
        }
    }
}

/// The token at `p` when whitespace `[i, p)` is followed by character `c` that starts a token.
proof fn lemma_tok_after_ws(s: Seq<char>, i: int, p: int)
    requires
        0 <= i <= p < s.len(),
        forall|t: int| i <= t < p ==> is_ws(#[trigger] s[t]),
        !is_ws(s[p]),
    ensures
        skip_ws(s, i) == p,
        next_tok(s, i) == next_tok(s, p),
{
    lemma_skip_ws_run(s, i, p);
    lemma_next_tok_ws(s, i, p);
}

/// Reading escaped text followed by a quote gives the text back.
proof fn lemma_qstr_escape(s: Seq<char>, a: int, k: Seq<char>)
    requires
        0 <= a,
        a + escape(k).len() + 1 <= s.len(),
        forall|t: int| 0 <= t < escape(k).len() ==> s[a + t] == #[trigger] escape(k)[t],
        s[a + escape(k).len()] == '"',
    ensures
        qstr(s, a) == Some((k, a + escape(k).len() + 1)),
    decreases k.len(),
{
    if k.len() == 0 {
        assert(escape(k).len() == 0);
    } else {
        let c = k[0];
        let r = k.drop_first();
        assert(escape(k) == esc_char(c) + escape(r));
        let w = esc_char(c).len();
        assert forall|t: int| 0 <= t < escape(r).len() implies s[(a + w) + t] == #[trigger] escape(r)[t] by {
            assert(escape(k)[w + t] == escape(r)[t]);
            assert(s[a + (w + t)] == escape(k)[w + t]);
        }
        assert(s[a + 0] == escape(k)[0]);
        if c == '\\' || c == '"' {
            assert(s[a + 1] == escape(k)[1]);
        }
        lemma_qstr_escape(s, a + w, r);
        assert(seq![c] + r =~= k);
    }
}

/// Characters of `s` from `p` on spell `w`.
pub open spec fn spells(s: Seq<char>, p: int, w: Seq<char>) -> bool {
    &&& 0 <= p
    &&& p + w.len() <= s.len()
    &&& forall|t: int| 0 <= t < w.len() ==> s[p + t] == #[trigger] w[t]
}

proof fn lemma_spells_split(s: Seq<char>, p: int, a: Seq<char>, b: Seq<char>)
    requires
        spells(s, p, a + b),
    ensures
        spells(s, p, a),
        spells(s, p + a.len(), b),
{
    assert forall|t: int| 0 <= t < a.len() implies s[p + t] == #[trigger] a[t] by {
        assert((a + b)[t] == a[t]);
    }
    assert forall|t: int| 0 <= t < b.len() implies s[(p + a.len()) + t] == #[trigger] b[t] by {
        assert((a + b)[a.len() + t] == b[t]);
        assert(s[p + (a.len() + t)] == (a + b)[a.len() + t]);
    }
}

proof fn lemma_indent_ws(s: Seq<char>, p: int, depth: nat)
    requires
        spells(s, p, indent(depth)),
    ensures
        forall|t: int| p <= t < p + depth ==> is_ws(#[trigger] s[t]),
{
    assert forall|t: int| p <= t < p + depth implies is_ws(#[trigger] s[t]) by {
        assert(s[p + (t - p)] == indent(depth)[t - p]);
    }
}

proof fn lemma_quoted_tok(s: Seq<char>, i: int, p: int, k: Seq<char>)
    requires
        0 <= i <= p,
        forall|t: int| i <= t < p ==> is_ws(#[trigger] s[t]),
        spells(s, p, quoted(k)),
    ensures
        next_tok(s, i) == Some((Token::Str(k), p + quoted(k).len())),
{
    lemma_spells_split(s, p, seq!['"'] + escape(k), seq!['"']);
    lemma_spells_split(s, p, seq!['"'], escape(k));
    assert(s[p + 0] == seq!['"'][0]);
    assert(s[(p + 1 + escape(k).len()) + 0] == seq!['"'][0]);
    lemma_tok_after_ws(s, i, p);
    assert forall|t: int| 0 <= t < escape(k).len() implies s[(p + 1) + t] == #[trigger] escape(k)[t] by {}
    lemma_qstr_escape(s, p + 1, k);
}

/// Reading back the text of entries (after any whitespace) gives those entries, up to
/// the token that follows them.
proof fn lemma_parse_ser(
    s: Seq<char>,
    i: int,
    p: int,
    es: Seq<(Seq<char>, Node)>,
    depth: nat,
    top: bool,
    e: int,
)
    requires
        0 <= i <= p,
        forall|t: int| i <= t < p ==> is_ws(#[trigger] s[t]),
        spells(s, p, ser_body(es, depth)),
        next_tok(s, p + ser_body(es, depth).len()) == Some((if top { Token::Eof } else { Token::Close }, e)),
    ensures
        parse_body(s, i, top) == Some((es, e)),
    decreases es,
{
    let end = p + ser_body(es, depth).len();
    if es.len() == 0 {
        lemma_next_tok_ws(s, i, p);
    } else {
        let e0 = es[0];
        let rest = es.drop_first();
        let (k, v) = e0;
        assert(ser_body(es, depth) == ser_entry(e0, depth) + ser_body(rest, depth));
        lemma_spells_split(s, p, ser_entry(e0, depth), ser_body(rest, depth));
        let q = p + ser_entry(e0, depth).len();
        assert(decreases_to!(es => rest));
        match v {
            Node::Str(sv) => {
                let w = indent(depth) + quoted(k) + seq!['\t', '\t'] + quoted(sv) + seq!['\n'];
                assert(ser_entry(e0, depth) == w);
                lemma_spells_split(s, p, indent(depth) + quoted(k) + seq!['\t', '\t'] + quoted(sv), seq!['\n']);
                lemma_spells_split(s, p, indent(depth) + quoted(k) + seq!['\t', '\t'], quoted(sv));
                lemma_spells_split(s, p, indent(depth) + quoted(k), seq!['\t', '\t']);
                lemma_spells_split(s, p, indent(depth), quoted(k));
                lemma_indent_ws(s, p, depth);
                assert forall|t: int| i <= t < p + depth implies is_ws(#[trigger] s[t]) by {}
                lemma_quoted_tok(s, i, p + depth, k);
                let j = p + depth + quoted(k).len();
                let tabs = seq!['\t', '\t'];
                assert forall|t: int| j <= t < j + 2 implies is_ws(#[trigger] s[t]) by {
                    assert(s[j + (t - j)] == tabs[t - j]);
                }
                lemma_quoted_tok(s, j, j + 2, sv);
                let j2 = j + 2 + quoted(sv).len();
                assert(s[j2 + 0] == seq!['\n'][0]);
                assert forall|t: int| j2 <= t < j2 + 1 implies is_ws(#[trigger] s[t]) by {}
                assert(j2 + 1 == q);
                lemma_parse_ser(s, j2, q, rest, depth, top, e);
                assert(seq![(k, Node::Str(sv))] + rest =~= es);
            },
            Node::Obj(inner) => {
                let w = indent(depth) + quoted(k) + seq!['\n'] + indent(depth) + seq!['{', '\n'] + ser_body(
                    inner,
                    depth + 1,
                ) + indent(depth) + seq!['}', '\n'];
                assert(ser_entry(e0, depth) == w);
                let a1 = indent(depth) + quoted(k) + seq!['\n'] + indent(depth) + seq!['{', '\n'] + ser_body(
                    inner,
                    depth + 1,
                ) + indent(depth);
                let a2 = indent(depth) + quoted(k) + seq!['\n'] + indent(depth) + seq!['{', '\n'];
                let a3 = indent(depth) + quoted(k) + seq!['\n'] + indent(depth);
                let a4 = indent(depth) + quoted(k) + seq!['\n'];
                lemma_spells_split(s, p, a1, seq!['}', '\n']);
                lemma_spells_split(s, p, a2 + ser_body(inner, depth + 1), indent(depth));
                lemma_spells_split(s, p, a2, ser_body(inner, depth + 1));
                lemma_spells_split(s, p, a3, seq!['{', '\n']);
                lemma_spells_split(s, p, a4, indent(depth));
                lemma_spells_split(s, p, indent(depth) + quoted(k), seq!['\n']);
                lemma_spells_split(s, p, indent(depth), quoted(k));
                lemma_indent_ws(s, p, depth);
                assert forall|t: int| i <= t < p + depth implies is_ws(#[trigger] s[t]) by {}
                lemma_quoted_tok(s, i, p + depth, k);
                let j = p + depth + quoted(k).len();
                // newline and indentation, then the opening brace
                let b = j + 1 + depth;
                assert(s[j + 0] == seq!['\n'][0]);
                lemma_indent_ws(s, j + 1, depth);
                assert forall|t: int| j <= t < b implies is_ws(#[trigger] s[t]) by {}
                assert(s[b + 0] == seq!['{', '\n'][0]);
                assert(s[b + 1] == seq!['{', '\n'][1]);
                lemma_tok_after_ws(s, j, b);
                let j2 = b + 1;
                assert(next_tok(s, j) == Some((Token::Open, j2)));
                // the closing brace after the inner entries
                let ie = j2 + 1 + ser_body(inner, depth + 1).len();
                lemma_indent_ws(s, ie, depth);
                let cb = ie + depth;
                assert(s[cb + 0] == seq!['}', '\n'][0]);
                assert(s[cb + 1] == seq!['}', '\n'][1]);
                lemma_tok_after_ws(s, ie, cb);
                let j3 = cb + 1;
                assert(next_tok(s, ie) == Some((Token::Close, j3)));
                assert(forall|t: int| j2 <= t < j2 + 1 ==> is_ws(#[trigger] s[t]));
                assert(decreases_to!(es => inner)) by {
                    assert(decreases_to!(es => es[0]));
                    assert(decreases_to!(es[0] => es[0].1));
                    assert(decreases_to!(es[0].1 => inner));
                }
                lemma_parse_ser(s, j2, j2 + 1, inner, depth + 1, false, j3);
                assert(forall|t: int| j3 <= t < j3 + 1 ==> is_ws(#[trigger] s[t]));
                assert(j3 + 1 == q);
                lemma_parse_ser(s, j3, q, rest, depth, top, e);
                assert(seq![(k, Node::Obj(inner))] + rest =~= es);
            },
        }
    }
}

/// Reading the text that `serialize` writes gives back the same entries.
pub proof fn law_parse_serialized(es: Seq<(Seq<char>, Node)>)
    ensures
        parse_spec(ser_body(es, 0)) == Some(es),
{
    let s = ser_body(es, 0);
    assert(spells(s, 0, s));
    lemma_skip_ws_bound(s, s.len() as int);
    lemma_parse_ser(s, 0, 0, es, 0, true, s.len() as int);
}

/// Text in the form `serialize` writes is written back exactly as it was read.
pub proof fn law_serialized_text_round_trip(es: Seq<(Seq<char>, Node)>)
    ensures
        parse_spec(ser_body(es, 0)) matches Some(read) && ser_body(read, 0) == ser_body(es, 0),
{
    law_parse_serialized(es);
}

/// A token as the reader produces it.
enum Tok {
    Str(Vec<char>),
    Open,
    Close,
    Eof,
}

impl View for Tok {
    type V = Token;

    closed spec fn view(&self) -> Token {
        match self {
            Tok::Str(s) => Token::Str(s@),
            Tok::Open => Token::Open,
            Tok::Close => Token::Close,
            Tok::Eof => Token::Eof,
        }
    }
}

fn err_msg(text: &str) -> (r: String)
    ensures
        r@ == text@,
{
    text.to_owned()
}

/// `format!("{key:?}")`: the key in Rust's debug notation, as std's `Debug` for `str`
/// writes it. The contract names that rendering and says nothing more of it.
#[verifier::external_body]
fn debug_quoted(key: &str) -> (r: String)
    ensures
        r@ == debug_str(key@),
{
    format!("{key:?}")
}

fn missing_value_msg(key: &str) -> (r: String)
    ensures
        r@ == "missing value for key "@ + debug_str(key@),
{
    let mut m = err_msg("missing value for key ");
    let q = debug_quoted(key);
    m.append(q.as_str());
    m
}

/// Byte offset in UTF-8 of character position `i`.
fn byte_offset(s: &[char], i: usize) -> (n: usize)
    requires
        i <= s@.len(),
    ensures
        n == byte_pos(s@, i as int),
{
    let mut n: usize = 0;
    let mut k: usize = 0;
    assert(s@.take(0) =~= seq![]);
    while k < i
        invariant
            k <= i <= s@.len(),
            n == byte_pos(s@, k as int),
        decreases i - k,
    {
        let c = s[k] as u32;
        let w: usize = if c < 0x80 { 1 } else if c < 0x800 { 2 } else if c < 0x10000 { 3 } else { 4 };
        proof {
            assert(s@.take(k + 1).drop_last() =~= s@.take(k as int));
            assert(s@.take(k + 1).last() == s@[k as int]);
            assert(w == utf8_width(s@[k as int]));
        }
        n = n.saturating_add(w);
        k += 1;
    }
    n
}

fn brace_msg(s: &[char], at: usize) -> (m: String)
    requires
        at <= s@.len(),
    ensures
        m@ == brace_err(s@, at as int),
{
    let mut m = err_msg("unexpected brace at byte ");
    let n = u64_to_string(byte_offset(s, at) as u64);
    m.append(n.as_str());
    m
}

fn is_ws_char(c: char) -> (r: bool)
    ensures
        r == is_ws(c),
{
    c == ' ' || c == '\t' || c == '\n' || c == '\r' || c == '\x0C'
}

fn skip_ws_at(s: &[char], i: usize) -> (p: usize)
    requires
        i <= s@.len(),
    ensures
        p == skip_ws(s@, i as int),
        i <= p <= s@.len(),
        p < s@.len() ==> !is_ws(s@[p as int]),
{
    let mut p = i;
    while p < s.len() && is_ws_char(s[p])
        invariant
            i <= p <= s@.len(),
            skip_ws(s@, i as int) == skip_ws(s@, p as int),
        decreases s@.len() - p,
    {
        p += 1;
    }
    p
}

fn find_char_at(s: &[char], i: usize, c: char) -> (p: usize)
    requires
        i <= s@.len(),
    ensures
        p == find_char(s@, i as int, c),
        i <= p <= s@.len(),
{
    let mut p = i;
    while p < s.len() && s[p] != c
        invariant
            i <= p <= s@.len(),
            find_char(s@, i as int, c) == find_char(s@, p as int, c),
        decreases s@.len() - p,
    {
        p += 1;
    }
    p
}

fn bare_end_at(s: &[char], i: usize) -> (p: usize)
    requires
        i <= s@.len(),
    ensures
        p == bare_end(s@, i as int),
        i <= p <= s@.len(),
{
    let mut p = i;
    while p < s.len() && !(is_ws_char(s[p]) || s[p] == '{' || s[p] == '}' || s[p] == '"')
        invariant
            i <= p <= s@.len(),
            bare_end(s@, i as int) == bare_end(s@, p as int),
        decreases s@.len() - p,
    {
        p += 1;
    }
    p
}

/// Contents of a quoted string whose text starts at `i`, after the opening quote.
fn quoted_at(s: &[char], i: usize) -> (r: Result<(Vec<char>, usize), String>)
    requires
        i <= s@.len(),
    ensures
        match r {
            Ok((t, e)) => qstr(s@, i as int) == Some((t@, e as int)) && i < e <= s@.len(),
            Err(m) => qstr(s@, i as int) is None && m@ == qstr_err(s@, i as int),
        },
{
    let mut buf: Vec<char> = Vec::new();
    let mut p = i;
    assert(buf@ =~= seq![]);
    loop
        invariant
            i <= p <= s@.len(),
            qstr(s@, i as int) == match qstr(s@, p as int) {
                Some((r, e)) => Some((buf@ + r, e)),
                None => None,
            },
            qstr_err(s@, i as int) == qstr_err(s@, p as int),
        decreases s@.len() - p,
    {
        if p >= s.len() {
            return Err(err_msg("unterminated string"));
        }
        let c = s[p];
        if c == '"' {
            assert(buf@ + seq![] =~= buf@);
            return Ok((buf, p + 1));
        } else if c == '\\' {
            if p + 1 >= s.len() {
                return Err(err_msg("unterminated escape"));
            }
            let esc = s[p + 1];
            let u = if esc == 'n' { '\n' } else if esc == 't' { '\t' } else { esc };
            let ghost old_buf = buf@;
            buf.push(u);
            assert(forall|r: Seq<char>| #[trigger] (old_buf + (seq![u] + r)) == buf@ + r) by {
                assert forall|r: Seq<char>| #[trigger] (old_buf + (seq![u] + r)) =~= buf@ + r by {}
            }
            p += 2;
        } else {
            let ghost old_buf = buf@;
            buf.push(c);
            assert(forall|r: Seq<char>| #[trigger] (old_buf + (seq![c] + r)) == buf@ + r) by {
                assert forall|r: Seq<char>| #[trigger] (old_buf + (seq![c] + r)) =~= buf@ + r by {}
            }
            p += 1;
        }
    }
}

fn next_token(s: &[char], i: usize) -> (r: Result<(Tok, usize), String>)
    requires
        i <= s@.len(),
    ensures
        match r {
            Ok((t, j)) => next_tok(s@, i as int) == Some((t@, j as int)) && i <= j <= s@.len()
                && (t@ != Token::Eof ==> i < j),
            Err(m) => next_tok(s@, i as int) is None && m@ == tok_err(s@, i as int),
        },
{
    let mut q = i;
    loop
        invariant
            i <= q <= s@.len(),
            next_tok(s@, i as int) == next_tok(s@, q as int),
            tok_err(s@, i as int) == tok_err(s@, q as int),
        decreases s@.len() - q,
    {
        let p = skip_ws_at(s, q);
        if p >= s.len() {
            return Ok((Tok::Eof, p));
        }
        let c = s[p];
        if c == '/' && p + 1 < s.len() && s[p + 1] == '/' {
            assert(find_char(s@, p as int, '\n') == find_char(s@, p + 1, '\n'));
            let nq = find_char_at(s, p + 1, '\n');
            q = nq;
        } else if c == '[' {
            // Platform conditionals like [$WIN32] are ignored.
            assert(find_char(s@, p as int, ']') == find_char(s@, p + 1, ']'));
            let e = find_char_at(s, p + 1, ']');
            q = if e < s.len() { e + 1 } else { e };
        } else if c == '{' {
            return Ok((Tok::Open, p + 1));
        } else if c == '}' {
            return Ok((Tok::Close, p + 1));
        } else if c == '"' {
            match quoted_at(s, p + 1) {
                Ok((t, e)) => return Ok((Tok::Str(t), e)),
                Err(m) => return Err(m),
            }
        } else {
            assert(bare_end(s@, p as int) == bare_end(s@, p + 1));
            let e = bare_end_at(s, p + 1);
            let t = slice_to_vec(slice_subrange(s, p, e));
            return Ok((Tok::Str(t), e));
        }
    }
}

fn parse_obj_body(s: &[char], start: usize, top: bool) -> (r: Result<(Obj, usize), String>)
    requires
        start <= s@.len(),
    ensures
        match r {
            Ok((o, e)) => parse_body(s@, start as int, top) == Some((o@, e as int)) && start <= e <= s@.len()
                && (!top ==> start < e),
            Err(m) => parse_body(s@, start as int, top) is None && m@ == parse_err(s@, start as int, top),
        },
    decreases s@.len() - start,
{
    let mut obj = Obj(Vec::new());
    let mut i = start;
    assert(obj@ =~= seq![]);
    loop
        invariant
            start <= i <= s@.len(),
            !top ==> (i == start || start < i),
            parse_body(s@, start as int, top) == match parse_body(s@, i as int, top) {
                Some((rest, e)) => Some((obj@ + rest, e)),
                None => None,
            },
            parse_err(s@, start as int, top) == parse_err(s@, i as int, top),
        decreases s@.len() - i,
    {
        let (t, j) = match next_token(s, i) {
            Ok(x) => x,
            Err(m) => return Err(m),
        };
        let key = match t {
            Tok::Str(k) => k,
            Tok::Close if !top => {
                assert(obj@ + seq![] =~= obj@);
                return Ok((obj, j));
            },
            Tok::Eof if top => {
                assert(obj@ + seq![] =~= obj@);
                return Ok((obj, j));
            },
            Tok::Eof => {
                return Err(err_msg("unexpected end of file"));
            },
            _ => {
                return Err(brace_msg(s, j));
            },
        };
        let (t2, j2) = match next_token(s, j) {
            Ok(x) => x,
            Err(m) => return Err(m),
        };
        let (value, k) = match t2 {
            Tok::Str(v) => (Value::Str(string_from_chars(v.as_slice())), j2),
            Tok::Open => {
                match parse_obj_body(s, j2, false) {
                    Ok((inner, k)) => (Value::Obj(inner), k),
                    Err(m) => return Err(m),
                }
            },
            _ => {
                let ks = string_from_chars(key.as_slice());
                return Err(missing_value_msg(ks.as_str()));
            },
        };
        let ghost old_obj = obj@;
        let ghost entry = (key@, value@);
        obj.0.push((string_from_chars(key.as_slice()), value));
        assert(obj@ =~= old_obj.push(entry));
        assert(forall|rest: Seq<(Seq<char>, Node)>| #[trigger] (old_obj + (seq![entry] + rest)) == obj@ + rest) by {
            assert forall|rest: Seq<(Seq<char>, Node)>| #[trigger] (old_obj + (seq![entry] + rest)) =~= obj@ + rest by {}
        }
        i = k;
    }
}

pub fn parse(src: &str) -> (r: Result<Obj, String>)
    ensures
        match r {
            Ok(o) => parse_spec(src@) == Some(o@),
            Err(m) => parse_spec(src@) is None && m@ == parse_error(src@),
        },
{
    let s = chars_of(src);
    match parse_obj_body(s.as_slice(), 0, true) {
        Ok((root, _)) => Ok(root),
        Err(m) => Err(m),
    }
}

/// After setting `key` to `v`, looking `key` up (in any ASCII case) gives `v`; looking up a
/// key that differs from it gives what it gave before.
pub proof fn law_lookup_after_set(es: Seq<(Seq<char>, Node)>, key: Seq<char>, v: Node, other: Seq<char>)
    ensures
        chars_eq_ci(other, key) ==> lookup(set_entry(es, key, v), other) == Some(v),
        !chars_eq_ci(other, key) ==> lookup(set_entry(es, key, v), other) == lookup(es, other),
{
    let es2 = set_entry(es, key, v);
    match find_key(es, key) {
        Some(i) => {
            assert(is_first_key(es, key, i));
            if chars_eq_ci(other, key) {
                assert forall|j: int| 0 <= j < i implies !chars_eq_ci(#[trigger] es2[j].0, other) by {
                    assert(es2[j] == es[j]);
                    assert(!chars_eq_ci(es[j].0, key));
                    if chars_eq_ci(es[j].0, other) {
                        assert forall|t: int| 0 <= t < key.len() implies lower_char(#[trigger] es[j].0[t])
                            == lower_char(key[t]) by {
                            assert(lower_char(other[t]) == lower_char(key[t]));
                        }
                    }
                }
                assert(chars_eq_ci(es2[i].0, other)) by {
                    assert forall|t: int| 0 <= t < other.len() implies lower_char(#[trigger] es2[i].0[t])
                        == lower_char(other[t]) by {
                        assert(lower_char(es[i].0[t]) == lower_char(key[t]));
                    }
                }
                lemma_first_key_unique(es2, other, i);
            } else {
                assert(!chars_eq_ci(es[i].0, other)) by {
                    if chars_eq_ci(es[i].0, other) {
                        assert forall|t: int| 0 <= t < key.len() implies lower_char(#[trigger] other[t])
                            == lower_char(key[t]) by {
                            assert(lower_char(es[i].0[t]) == lower_char(key[t]));
                        }
                    }
                }
                assert forall|j: int| 0 <= j < es.len() implies #[trigger] es2[j].0 == es[j].0 by {}
                match find_key(es, other) {
                    Some(m) => {
                        assert(is_first_key(es, other, m));
                        assert(m != i);
                        assert(is_first_key(es2, other, m));
                        lemma_first_key_unique(es2, other, m);
                    },
                    None => {
                        assert forall|j: int| 0 <= j < es2.len() implies !chars_eq_ci(#[trigger] es2[j].0, other) by {
                            if chars_eq_ci(es2[j].0, other) {
                                assert(is_first_key(es, other, j) || exists|m: int| is_first_key(es, other, m)) by {
                                    lemma_min_match(es, other, j);
                                }
                            }
                        }
                    },
                }
            }
        },
        None => {
            let n = es.len() as int;
            if chars_eq_ci(other, key) {
                assert forall|j: int| 0 <= j < n implies !chars_eq_ci(#[trigger] es2[j].0, other) by {
                    assert(es2[j] == es[j]);
                    if chars_eq_ci(es[j].0, other) {
                        assert(chars_eq_ci(es[j].0, key)) by {
                            assert forall|t: int| 0 <= t < key.len() implies lower_char(#[trigger] es[j].0[t])
                                == lower_char(key[t]) by {
                                assert(lower_char(other[t]) == lower_char(key[t]));
                            }
                        }
                        lemma_min_match(es, key, j);
                    }
                }
                assert(chars_eq_ci(es2[n].0, other));
                lemma_first_key_unique(es2, other, n);
            } else {
                assert(!chars_eq_ci(es2[n].0, other));
                match find_key(es, other) {
                    Some(m) => {
                        assert(is_first_key(es, other, m));
                        assert(is_first_key(es2, other, m));
                        lemma_first_key_unique(es2, other, m);
                    },
                    None => {
                        assert forall|j: int| 0 <= j < es2.len() implies !chars_eq_ci(#[trigger] es2[j].0, other) by {
                            if j < n && chars_eq_ci(es2[j].0, other) {
                                lemma_min_match(es, other, j);
                            }
                        }
                    },
                }
            }
        },
    }
}

/// Some key matches ⟹ there is a first one.
proof fn lemma_min_match(es: Seq<(Seq<char>, Node)>, key: Seq<char>, j: int)
    requires
        0 <= j < es.len(),
        chars_eq_ci(es[j].0, key),
    ensures
        find_key(es, key) is Some,
    decreases j,
{
    if forall|m: int| 0 <= m < j ==> !chars_eq_ci(#[trigger] es[m].0, key) {
        assert(is_first_key(es, key, j));
    } else {
        let m = choose|m: int| 0 <= m < j && chars_eq_ci(#[trigger] es[m].0, key);
        lemma_min_match(es, key, m);
    }
}

/// Removing `key` leaves every other key's lookup as it was.
pub proof fn law_lookup_after_remove(es: Seq<(Seq<char>, Node)>, key: Seq<char>, other: Seq<char>)
    requires
        !chars_eq_ci(other, key),
    ensures
        lookup(remove_entry(es, key), other) == lookup(es, other),
{
    match find_key(es, key) {
        Some(i) => {
            let es2 = es.remove(i);
            assert(is_first_key(es, key, i));
            assert(!chars_eq_ci(es[i].0, other)) by {
                if chars_eq_ci(es[i].0, other) {
                    assert forall|t: int| 0 <= t < key.len() implies lower_char(#[trigger] other[t])
                        == lower_char(key[t]) by {
                        assert(lower_char(es[i].0[t]) == lower_char(key[t]));
                    }
                }
            }
            match find_key(es, other) {
                Some(m) => {
                    assert(is_first_key(es, other, m));
                    assert(m != i);
                    let m2 = if m < i { m } else { m - 1 };
                    assert(es2[m2] == es[m]);
                    assert forall|j: int| 0 <= j < m2 implies !chars_eq_ci(#[trigger] es2[j].0, other) by {
                        if j < i {
                            assert(es2[j] == es[j]);
                        } else {
                            assert(es2[j] == es[j + 1]);
                        }
                    }
                    assert(is_first_key(es2, other, m2));
                    lemma_first_key_unique(es2, other, m2);
                },
                None => {
                    assert forall|j: int| 0 <= j < es2.len() implies !chars_eq_ci(#[trigger] es2[j].0, other) by {
                        let jj = if j < i { j } else { j + 1 };
                        assert(es2[j] == es[jj]);
                        if chars_eq_ci(es[jj].0, other) {
                            lemma_min_match(es, other, jj);
                        }
                    }
                },
            }
        },
        None => {},
    }
}

fn clone_value(v: &Value) -> (r: Value)
    ensures
        r@ == v@,
    decreases v,
{
    match v {
        Value::Str(s) => Value::Str(s.clone()),
        Value::Obj(o) => Value::Obj(clone_obj(o)),
    }
}

fn clone_obj(o: &Obj) -> (r: Obj)
    ensures
        r@ == o@,
    decreases o,
{
    let mut out: Vec<(String, Value)> = Vec::new();
    let mut i: usize = 0;
    while i < o.0.len()
        invariant
            i <= o.0@.len(),
            out@.len() == i,
            forall|j: int| 0 <= j < i ==> #[trigger] out@[j].0@ == o.0@[j].0@ && out@[j].1@ == o.0@[j].1@,
        decreases o.0@.len() - i,
    {
        let entry = &o.0[i];
        assert(decreases_to!(o => entry.1));
        let v = clone_value(&entry.1);
        out.push((entry.0.clone(), v));
        i += 1;
    }
    let r = Obj(out);
    assert(r@ =~= o@);
    r
}

impl Clone for Value {
    fn clone(&self) -> (r: Self)
        ensures
            r@ == self@,
    {
        clone_value(self)
    }
}

impl Clone for Obj {
    fn clone(&self) -> (r: Self)
        ensures
            r@ == self@,
    {
        clone_obj(self)
    }
}

impl Default for Obj {
    fn default() -> (r: Obj)
        ensures
            r@ == Seq::<(Seq<char>, Node)>::empty(),
    {
        let r = Obj(Vec::new());
        assert(r@ =~= Seq::<(Seq<char>, Node)>::empty());
        r
    }
}

impl Obj {
    fn position(&self, key: &str) -> (r: Option<usize>)
        ensures
            match r {
                Some(i) => find_key(self@, key@) == Some(i as int),
                None => find_key(self@, key@) is None,
            },
    {
        let kc = chars_of(key);
        let mut i: usize = 0;
        while i < self.0.len()
            invariant
                i <= self.0@.len(),
                kc@ == key@,
                forall|j: int| 0 <= j < i ==> !chars_eq_ci(#[trigger] self@[j].0, key@),
            decreases self.0@.len() - i,
        {
            let k = chars_of(self.0[i].0.as_str());
            if eq_ci_chars(k.as_slice(), kc.as_slice()) {
                proof {
                    lemma_first_key_unique(self@, key@, i as int);
                }
                return Some(i);
            }
            i += 1;
        }
        None
    }

    pub fn get(&self, key: &str) -> (r: Option<&Value>)
        ensures
            (match r {
                Some(v) => Some(v@),
                None => None,
            }) == lookup(self@, key@),
    {
        match self.position(key) {
            Some(i) => Some(&self.0[i].1),
            None => None,
        }
    }

    pub fn get_obj(&self, key: &str) -> (r: Option<&Obj>)
        ensures
            (match r {
                Some(o) => Some(o@),
                None => None,
            }) == match lookup(self@, key@) {
                Some(Node::Obj(es)) => Some(es),
                _ => None,
            },
    {
        match self.get(key) {
            Some(Value::Obj(o)) => Some(o),
            _ => None,
        }
    }

    pub fn get_str(&self, key: &str) -> (r: Option<&str>)
        ensures
            (match r {
                Some(s) => Some(s@),
                None => None,
            }) == match lookup(self@, key@) {
                Some(Node::Str(s)) => Some(s),
                _ => None,
            },
    {
        match self.get(key) {
            Some(Value::Str(s)) => Some(s.as_str()),
            _ => None,
        }
    }

    /// Get the child object `key`, creating it (or replacing a string of that name).
    pub fn obj_mut(&mut self, key: &str) -> (r: &mut Obj)
        ensures
            (*r)@ == match find_key(old(self)@, key@) {
                Some(i) => match old(self)@[i].1 {
                    Node::Obj(es) => es,
                    _ => Seq::empty(),
                },
                None => Seq::empty(),
            },
            final(self)@ == set_entry(old(self)@, key@, Node::Obj(final(r)@)),
    {
        let i = match self.position(key) {
            Some(i) => {
                let is_str = match &self.0[i].1 {
                    Value::Str(_) => true,
                    _ => false,
                };
                if is_str {
                    self.0[i].1 = Value::Obj(Obj::default());
                }
                i
            },
            None => {
                self.0.push((key.to_owned(), Value::Obj(Obj::default())));
                self.0.len() - 1
            },
        };
        let entry = &mut self.0[i];
        match &mut entry.1 {
            Value::Obj(o) => o,
            _ => vstd::pervasive::unreached(),
        }
    }

    /// Set `key`, replacing an existing entry in place to keep ordering stable.
    pub fn set(&mut self, key: &str, value: Value)
        ensures
            final(self)@ == set_entry(old(self)@, key@, value@),
    {
        let ghost v = value@;
        match self.position(key) {
            Some(i) => {
                let ghost k = self@[i as int].0;
                self.0[i].1 = value;
                assert(self@ =~= old(self)@.update(i as int, (k, v)));
            },
            None => {
                self.0.push((key.to_owned(), value));
                assert(self@ =~= old(self)@.push((key@, v)));
            },
        }
    }

    pub fn set_str(&mut self, key: &str, value: &str)
        ensures
            final(self)@ == set_entry(old(self)@, key@, Node::Str(value@)),
    {
        self.set(key, Value::Str(value.to_owned()));
    }

    pub fn remove(&mut self, key: &str) -> (r: Option<Value>)
        ensures
            final(self)@ == remove_entry(old(self)@, key@),
            (match r {
                Some(v) => Some(v@),
                None => None,
            }) == lookup(old(self)@, key@),
    {
        match self.position(key) {
            Some(i) => {
                let (_, v) = self.0.remove(i);
                assert(self@ =~= old(self)@.remove(i as int));
                Some(v)
            },
            None => None,
        }
    }
}

} // verus!
