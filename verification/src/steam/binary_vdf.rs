//! Binary KeyValues as used by `shortcuts.vdf`.
//!
//! Keys and strings are kept as raw bytes and unknown value types as raw payloads,
//! so rewriting a file never alters entries that were not touched.

use vstd::prelude::*;
use vstd::slice::{slice_subrange, slice_to_vec};
use crate::text::{bytes_eq_ci, decimal, eq_ci_bytes, hex_byte, hex_digit, lower_byte, from_utf8_lossy, push_bytes, push_char, u64_to_string, utf8_lossy};

verus! {

pub const T_OBJ: u8 = 0x00;
pub const T_STR: u8 = 0x01;
pub const T_INT: u8 = 0x02;
pub const T_FLOAT: u8 = 0x03;
pub const T_PTR: u8 = 0x04;
pub const T_WSTR: u8 = 0x05;
pub const T_COLOR: u8 = 0x06;
pub const T_U64: u8 = 0x07;
pub const T_END: u8 = 0x08;
pub const T_I64: u8 = 0x0A;

/// Mathematical model of a value: what a [`Value`] holds, with byte strings as sequences.
pub enum Node {
    Obj(Seq<(Seq<u8>, Node)>),
    Str(Seq<u8>),
    Int(i32),
    Raw(u8, Seq<u8>),
}

#[derive(Debug, PartialEq)]
pub enum Value {
    Obj(Obj),
    Str(Vec<u8>),
    Int(i32),
    /// Any other type, stored as (type byte, payload) for lossless round-trips.
    Raw(u8, Vec<u8>),
}

#[derive(Debug, PartialEq)]
pub struct Obj(pub Vec<(Vec<u8>, Value)>);

pub open spec fn node_of(v: Value) -> Node
    decreases v,
{
    match v {
        Value::Obj(o) => Node::Obj(entries_of(o)),
        Value::Str(s) => Node::Str(s@),
        Value::Int(n) => Node::Int(n),
        Value::Raw(t, p) => Node::Raw(t, p@),
    }
}

pub open spec fn entries_of(o: Obj) -> Seq<(Seq<u8>, Node)>
    decreases o,
{
    Seq::new(
        o.0@.len(),
        |i: int|
            if 0 <= i < o.0@.len() {
                (o.0@[i].0@, node_of(o.0@[i].1))
            } else {
                (Seq::empty(), Node::Int(0))
            },
    )
}

impl View for Value {
    type V = Node;

    open spec fn view(&self) -> Node {
        node_of(*self)
    }
}

impl View for Obj {
    type V = Seq<(Seq<u8>, Node)>;

    open spec fn view(&self) -> Seq<(Seq<u8>, Node)> {
        entries_of(*self)
    }
}

/// Type byte written for a value.
pub open spec fn type_byte(n: Node) -> u8 {
    match n {
        Node::Obj(_) => T_OBJ,
        Node::Str(_) => T_STR,
        Node::Int(_) => T_INT,
        Node::Raw(t, _) => t,
    }
}

/// Little-endian bytes of a 32-bit value.
pub open spec fn le_bytes(u: u32) -> Seq<u8> {
    seq![(u & 0xff) as u8, ((u >> 8) & 0xff) as u8, ((u >> 16) & 0xff) as u8, ((u >> 24) & 0xff) as u8]
}

/// The 32-bit value of four little-endian bytes.
pub open spec fn le_u32(b0: u8, b1: u8, b2: u8, b3: u8) -> u32 {
    (b0 as u32) | ((b1 as u32) << 8) | ((b2 as u32) << 16) | ((b3 as u32) << 24)
}

/// Bytes of one entry: type byte, NUL-terminated key, then the payload.
pub open spec fn ser_entry(e: (Seq<u8>, Node)) -> Seq<u8>
    decreases e,
{
    let (k, v) = e;
    seq![type_byte(v)] + k + seq![0u8] + match v {
        Node::Obj(inner) => ser_entries(inner).push(T_END),
        Node::Str(s) => s.push(0u8),
        Node::Int(n) => le_bytes(n as u32),
        Node::Raw(_, p) => p,
    }
}

/// Bytes of a list of entries, without the closing end marker.
pub open spec fn ser_entries(es: Seq<(Seq<u8>, Node)>) -> Seq<u8>
    decreases es,
{
    if es.len() == 0 {
        seq![]
    } else {
        ser_entry(es[0]) + ser_entries(es.drop_first())
    }
}

/// Bytes of an object: its entries, then the end marker.
pub open spec fn ser_obj(es: Seq<(Seq<u8>, Node)>) -> Seq<u8> {
    ser_entries(es).push(T_END)
}

/// No NUL byte in `s`.
pub open spec fn no_nul(s: Seq<u8>) -> bool {
    forall|i: int| 0 <= i < s.len() ==> s[i] != 0
}

/// A raw payload that the reader takes back as the same payload: 4 bytes for
/// float, pointer and color, 8 bytes for the 64-bit types, and a UTF-16 string with
/// exactly one terminating zero unit for wide strings.
pub open spec fn raw_ok(t: u8, p: Seq<u8>) -> bool {
    ||| (t == T_FLOAT || t == T_PTR || t == T_COLOR) && p.len() == 4
    ||| (t == T_U64 || t == T_I64) && p.len() == 8
    ||| t == T_WSTR && wstr_end(p, 0) == Some(p.len() as int)
}

/// Entries that serialize to bytes that read back as the same entries.
pub open spec fn wf_entries(es: Seq<(Seq<u8>, Node)>) -> bool
    decreases es,
{
    if es.len() == 0 {
        true
    } else {
        &&& no_nul(es[0].0)
        &&& match es[0].1 {
            Node::Obj(inner) => wf_entries(inner),
            Node::Str(s) => no_nul(s),
            Node::Int(_) => true,
            Node::Raw(t, p) => raw_ok(t, p),
        }
        &&& wf_entries(es.drop_first())
    }
}

/// Index of the first NUL at or after `i` (the length when there is none).
pub open spec fn find_nul(d: Seq<u8>, i: int) -> int
    decreases d.len() - i,
{
    if i >= d.len() {
        d.len() as int
    } else if d[i] == 0 {
        i
    } else {
        find_nul(d, i + 1)
    }
}

/// A NUL-terminated string starting at `i`, and the position after its terminator.
pub open spec fn cstr_at(d: Seq<u8>, i: int) -> Option<(Seq<u8>, int)> {
    let z = find_nul(d, i);
    if z < d.len() {
        Some((d.subrange(i, z), z + 1))
    } else {
        None
    }
}

/// End (after the terminator) of a UTF-16 string starting at `i`, read in 2-byte units
/// up to a zero unit.
pub open spec fn wstr_end(d: Seq<u8>, i: int) -> Option<int>
    decreases d.len() - i,
{
    if i < 0 || i + 2 > d.len() {
        None
    } else if d[i] == 0 && d[i + 1] == 0 {
        Some(i + 2)
    } else {
        wstr_end(d, i + 2)
    }
}

/// A value of type `ty` starting at `j` (nested objects excepted), and where it ends.
pub open spec fn scalar_at(d: Seq<u8>, j: int, ty: u8) -> Option<(Node, int)> {
    if ty == T_STR {
        match cstr_at(d, j) {
            Some((s, k)) => Some((Node::Str(s), k)),
            None => None,
        }
    } else if ty == T_INT {
        if j + 4 <= d.len() {
            Some((Node::Int(le_u32(d[j], d[j + 1], d[j + 2], d[j + 3]) as i32), j + 4))
        } else {
            None
        }
    } else if ty == T_FLOAT || ty == T_PTR || ty == T_COLOR {
        if j + 4 <= d.len() {
            Some((Node::Raw(ty, d.subrange(j, j + 4)), j + 4))
        } else {
            None
        }
    } else if ty == T_U64 || ty == T_I64 {
        if j + 8 <= d.len() {
            Some((Node::Raw(ty, d.subrange(j, j + 8)), j + 8))
        } else {
            None
        }
    } else if ty == T_WSTR {
        match wstr_end(d, j) {
            Some(k) => Some((Node::Raw(ty, d.subrange(j, k)), k)),
            None => None,
        }
    } else {
        None
    }
}

/// Reading the entries of an object that starts at `i`: the entries and the position
/// after the end marker. The top level also ends at the end of the data.
pub open spec fn parse_obj(d: Seq<u8>, i: int, top: bool) -> Option<(Seq<(Seq<u8>, Node)>, int)>
    decreases d.len() - i,
{
    if i < 0 || i > d.len() {
        None
    } else if i == d.len() {
        if top {
            Some((seq![], i))
        } else {
            None
        }
    } else if d[i] == T_END {
        Some((seq![], i + 1))
    } else {
        let ty = d[i];
        match cstr_at(d, i + 1) {
            None => None,
            Some((key, j)) => {
                let value = if ty == T_OBJ {
                    if j > i {
                        match parse_obj(d, j, false) {
                            Some((inner, k)) => Some((Node::Obj(inner), k)),
                            None => None,
                        }
                    } else {
                        None
                    }
                } else {
                    scalar_at(d, j, ty)
                };
                match value {
                    None => None,
                    Some((v, k)) => if i < k <= d.len() {
                        match parse_obj(d, k, top) {
                            Some((rest, e)) => Some((seq![(key, v)] + rest, e)),
                            None => None,
                        }
                    } else {
                        None
                    },
                }
            },
        }
    }
}

/// What `parse` makes of a whole file.
pub open spec fn parse_spec(d: Seq<u8>) -> Option<Seq<(Seq<u8>, Node)>> {
    match parse_obj(d, 0, true) {
        Some((es, _)) => Some(es),
        None => None,
    }
}

/// The message for a value of type `ty` at `j` that cannot be read.
pub open spec fn scalar_err(j: int, ty: u8) -> Seq<char> {
    if ty == T_STR {
        "unterminated string"@
    } else if ty == T_INT || ty == T_FLOAT || ty == T_PTR || ty == T_COLOR || ty == T_U64 || ty == T_I64
        || ty == T_WSTR {
        "truncated value"@
    } else {
        "unknown value type 0x"@ + hex_byte(ty) + " at byte "@ + decimal(j as nat)
    }
}

/// The message for the first thing that cannot be read in the entries from `i` on; it is
/// what `parse` reports where [`parse_obj`] fails.
pub open spec fn parse_err(d: Seq<u8>, i: int, top: bool) -> Seq<char>
    decreases d.len() - i,
{
    if i < 0 || i >= d.len() {
        "unexpected end of data"@
    } else if d[i] == T_END {
        seq![]
    } else {
        let ty = d[i];
        match cstr_at(d, i + 1) {
            None => "unterminated string"@,
            Some((_, j)) => if !(i < j) {
                seq![]
            } else if ty == T_OBJ {
                match parse_obj(d, j, false) {
                    None => parse_err(d, j, false),
                    Some((_, k)) => if i < k <= d.len() {
                        parse_err(d, k, top)
                    } else {
                        seq![]
                    },
                }
            } else {
                match scalar_at(d, j, ty) {
                    None => scalar_err(j, ty),
                    Some((_, k)) => if i < k <= d.len() {
                        parse_err(d, k, top)
                    } else {
                        seq![]
                    },
                }
            },
        }
    }
}

/// The message `parse` reports for a file it cannot read.
pub open spec fn parse_error(d: Seq<u8>) -> Seq<char> {
    parse_err(d, 0, true)
}

fn err_msg(text: &str) -> (r: String)
    ensures
        r@ == text@,
{
    text.to_owned()
}

fn hex_digit_of(n: u8) -> (c: char)
    requires
        n < 16,
    ensures
        c == hex_digit(n as nat),
{
    if n < 10 {
        ((n + 48) as char)
    } else {
        ((n + 87) as char)
    }
}

fn unknown_type_msg(ty: u8, at: usize) -> (m: String)
    ensures
        m@ == "unknown value type 0x"@ + hex_byte(ty) + " at byte "@ + decimal(at as nat),
{
    let mut m = err_msg("unknown value type 0x");
    push_char(&mut m, hex_digit_of(ty / 16));
    push_char(&mut m, hex_digit_of(ty % 16));
    m.append(" at byte ");
    let n = u64_to_string(at as u64);
    m.append(n.as_str());
    assert(m@ =~= "unknown value type 0x"@ + hex_byte(ty) + " at byte "@ + decimal(at as nat));
    m
}

proof fn lemma_find_nul_step(d: Seq<u8>, i: int)
    requires
        0 <= i < d.len(),
        d[i] != 0,
    ensures
        find_nul(d, i) == find_nul(d, i + 1),
{
}

fn cstr(d: &[u8], i: usize) -> (r: Result<(Vec<u8>, usize), String>)
    requires
        i <= d@.len(),
    ensures
        match r {
            Ok((s, j)) => cstr_at(d@, i as int) == Some((s@, j as int)) && i < j <= d@.len(),
            Err(e) => cstr_at(d@, i as int) is None && e@ == "unterminated string"@,
        },
{
    let mut p = i;
    while p < d.len()
        invariant
            i <= p <= d@.len(),
            find_nul(d@, i as int) == find_nul(d@, p as int),
        decreases d@.len() - p,
    {
        if d[p] == 0 {
            let s = slice_to_vec(slice_subrange(d, i, p));
            return Ok((s, p + 1));
        }
        proof {
            lemma_find_nul_step(d@, p as int);
        }
        p += 1;
    }
    Err(err_msg("unterminated string"))
}

/// UTF-16 string terminated by a 0x0000 code unit; payload includes the terminator.
fn wstr(d: &[u8], i: usize) -> (r: Result<(Vec<u8>, usize), String>)
    requires
        i <= d@.len(),
    ensures
        match r {
            Ok((s, j)) => wstr_end(d@, i as int) == Some(j as int) && s@ == d@.subrange(i as int, j as int)
                && i < j <= d@.len(),
            Err(e) => wstr_end(d@, i as int) is None && e@ == "truncated value"@,
        },
{
    let mut p = i;
    loop
        invariant
            i <= p <= d@.len(),
            wstr_end(d@, i as int) == wstr_end(d@, p as int),
        decreases d@.len() - p,
    {
        if d.len() - p < 2 {
            return Err(err_msg("truncated value"));
        }
        if d[p] == 0 && d[p + 1] == 0 {
            let s = slice_to_vec(slice_subrange(d, i, p + 2));
            return Ok((s, p + 2));
        }
        p += 2;
    }
}

fn read_i32(d: &[u8], j: usize) -> (n: i32)
    requires
        j + 4 <= d@.len(),
    ensures
        n == le_u32(d@[j as int], d@[j + 1], d@[j + 2], d@[j + 3]) as i32,
{
    let u: u32 = (d[j] as u32) | ((d[j + 1] as u32) << 8) | ((d[j + 2] as u32) << 16) | ((d[j + 3] as u32) << 24);
    u as i32
}

/// A value of scalar type `ty` at `j`.
fn scalar(d: &[u8], j: usize, ty: u8) -> (r: Result<(Value, usize), String>)
    requires
        j <= d@.len(),
        ty != T_OBJ,
    ensures
        match r {
            Ok((v, k)) => scalar_at(d@, j as int, ty) == Some((v@, k as int)) && j < k <= d@.len(),
            Err(e) => scalar_at(d@, j as int, ty) is None && e@ == scalar_err(j as int, ty),
        },
{
    if ty == T_STR {
        match cstr(d, j) {
            Ok((s, k)) => Ok((Value::Str(s), k)),
            Err(e) => Err(e),
        }
    } else if ty == T_INT {
        if d.len() - j < 4 {
            return Err(err_msg("truncated value"));
        }
        Ok((Value::Int(read_i32(d, j)), j + 4))
    } else if ty == T_FLOAT || ty == T_PTR || ty == T_COLOR || ty == T_U64 || ty == T_I64 {
        let n: usize = if ty == T_U64 || ty == T_I64 { 8 } else { 4 };
        if d.len() - j < n {
            return Err(err_msg("truncated value"));
        }
        let p = slice_to_vec(slice_subrange(d, j, j + n));
        Ok((Value::Raw(ty, p), j + n))
    } else if ty == T_WSTR {
        match wstr(d, j) {
            Ok((p, k)) => Ok((Value::Raw(ty, p), k)),
            Err(e) => Err(e),
        }
    } else {
        Err(unknown_type_msg(ty, j))
    }
}

/// Entries of an object starting at `start`, up to and including its end marker.
fn obj_body(d: &[u8], start: usize, top: bool) -> (r: Result<(Obj, usize), String>)
    requires
        start <= d@.len(),
    ensures
        match r {
            Ok((o, e)) => parse_obj(d@, start as int, top) == Some((o@, e as int)) && start <= e <= d@.len()
                && (!top ==> start < e),
            Err(e) => parse_obj(d@, start as int, top) is None && e@ == parse_err(d@, start as int, top),
        },
    decreases d@.len() - start,
{
    let mut obj = Obj(Vec::new());
    let mut i = start;
    assert(obj@ =~= seq![]);
    loop
        invariant
            start <= i <= d@.len(),
            !top ==> (i == start || start < i),
            parse_obj(d@, start as int, top) == match parse_obj(d@, i as int, top) {
                Some((rest, e)) => Some((obj@ + rest, e)),
                None => None,
            },
            parse_err(d@, start as int, top) == parse_err(d@, i as int, top),
        decreases d@.len() - i,
    {
        if i >= d.len() {
            // Tolerate files missing the final terminator.
            if top {
                assert(obj@ + seq![] =~= obj@);
                return Ok((obj, i));
            } else {
                return Err(err_msg("unexpected end of data"));
            }
        }
        let ty = d[i];
        if ty == T_END {
            assert(obj@ + seq![] =~= obj@);
            return Ok((obj, i + 1));
        }
        let (key, j) = match cstr(d, i + 1) {
            Ok(x) => x,
            Err(e) => return Err(e),
        };
        let (value, k) = if ty == T_OBJ {
            match obj_body(d, j, false) {
                Ok((o, k)) => (Value::Obj(o), k),
                Err(e) => return Err(e),
            }
        } else {
            match scalar(d, j, ty) {
                Ok(x) => x,
                Err(e) => return Err(e),
            }
        };
        let ghost old_obj = obj@;
        let ghost entry = (key@, value@);
        obj.0.push((key, value));
        assert(obj@ =~= old_obj.push(entry));
        assert(forall|rest: Seq<(Seq<u8>, Node)>| #[trigger] (old_obj + (seq![entry] + rest)) == obj@ + rest) by {
            assert forall|rest: Seq<(Seq<u8>, Node)>| #[trigger] (old_obj + (seq![entry] + rest)) =~= obj@ + rest by {}
        }
        i = k;
    }
}

pub fn parse(data: &[u8]) -> (r: Result<Obj, String>)
    ensures
        match r {
            Ok(o) => parse_spec(data@) == Some(o@),
            Err(e) => parse_spec(data@) is None && e@ == parse_error(data@),
        },
{
    match obj_body(data, 0, true) {
        Ok((obj, _)) => Ok(obj),
        Err(e) => Err(e),
    }
}

proof fn lemma_ser_entries_push(es: Seq<(Seq<u8>, Node)>, e: (Seq<u8>, Node))
    ensures
        ser_entries(es.push(e)) == ser_entries(es) + ser_entry(e),
    decreases es.len(),
{
    if es.len() == 0 {
        assert(es.push(e).drop_first() =~= seq![]);
        assert(ser_entries(es.push(e).drop_first()) =~= Seq::<u8>::empty());
        assert(es.push(e)[0] == e);
        assert(ser_entries(es) =~= Seq::<u8>::empty());
        assert(ser_entries(es.push(e)) =~= ser_entries(es) + ser_entry(e));
    } else {
        assert(es.push(e).drop_first() =~= es.drop_first().push(e));
        lemma_ser_entries_push(es.drop_first(), e);
        assert(ser_entries(es.push(e)) =~= ser_entries(es) + ser_entry(e));
    }
}

fn push_u32_le(out: &mut Vec<u8>, u: u32)
    ensures
        final(out)@ == old(out)@ + le_bytes(u),
{
    out.push((u & 0xff) as u8);
    out.push(((u >> 8) & 0xff) as u8);
    out.push(((u >> 16) & 0xff) as u8);
    out.push(((u >> 24) & 0xff) as u8);
    assert(out@ =~= old(out)@ + le_bytes(u));
}

fn write_obj(out: &mut Vec<u8>, obj: &Obj)
    ensures
        final(out)@ == old(out)@ + ser_obj(obj@),
    decreases obj,
{
    let ghost start = out@;
    let ghost es = obj@;
    let mut i: usize = 0;
    assert(es.take(0) =~= seq![]);
    while i < obj.0.len()
        invariant
            i <= obj.0@.len(),
            es == obj@,
            out@ == start + ser_entries(es.take(i as int)),
        decreases obj.0@.len() - i,
    {
        let entry = &obj.0[i];
        let ghost before = out@;
        let ty: u8 = match &entry.1 {
            Value::Obj(_) => T_OBJ,
            Value::Str(_) => T_STR,
            Value::Int(_) => T_INT,
            Value::Raw(t, _) => *t,
        };
        out.push(ty);
        push_bytes(out, entry.0.as_slice());
        out.push(0);
        match &entry.1 {
            Value::Obj(o) => {
                assert(decreases_to!(obj => o));
                write_obj(out, o);
            },
            Value::Str(s) => {
                push_bytes(out, s.as_slice());
                out.push(0);
            },
            Value::Int(n) => {
                push_u32_le(out, *n as u32);
            },
            Value::Raw(_, p) => {
                push_bytes(out, p.as_slice());
            },
        }
        proof {
            assert(es[i as int] == (entry.0@, entry.1@));
            assert(out@ =~= before + ser_entry(es[i as int]));
            assert(es.take(i + 1) =~= es.take(i as int).push(es[i as int]));
            lemma_ser_entries_push(es.take(i as int), es[i as int]);
        }
        i += 1;
    }
    assert(es.take(i as int) =~= es);
    out.push(T_END);
    assert(out@ =~= start + ser_obj(es));
}

pub fn serialize(root: &Obj) -> (r: Vec<u8>)
    ensures
        r@ == ser_obj(root@),
{
    let mut out = Vec::new();
    write_obj(&mut out, root);
    assert(out@ =~= ser_obj(root@));
    out
}

proof fn lemma_find_nul_props(d: Seq<u8>, i: int)
    requires
        0 <= i <= d.len(),
    ensures
        i <= find_nul(d, i) <= d.len(),
        forall|k: int| i <= k < find_nul(d, i) ==> d[k] != 0,
        find_nul(d, i) < d.len() ==> d[find_nul(d, i)] == 0,
    decreases d.len() - i,
{
    if i < d.len() && d[i] != 0 {
        lemma_find_nul_props(d, i + 1);
    }
}

proof fn lemma_find_nul_at(d: Seq<u8>, i: int, z: int)
    requires
        0 <= i <= z < d.len(),
        forall|k: int| i <= k < z ==> d[k] != 0,
        d[z] == 0,
    ensures
        find_nul(d, i) == z,
    decreases z - i,
{
    if i < z {
        lemma_find_nul_at(d, i + 1, z);
    }
}

proof fn lemma_wstr_bounds(d: Seq<u8>, i: int)
    requires
        wstr_end(d, i) is Some,
    ensures
        0 <= i && i + 2 <= wstr_end(d, i)->0 <= d.len(),
    decreases d.len() - i,
{
    if !(d[i] == 0 && d[i + 1] == 0) {
        lemma_wstr_bounds(d, i + 2);
    }
}

/// `wstr_end` only looks at the bytes up to the end it finds.
proof fn lemma_wstr_transfer(d: Seq<u8>, i: int, d2: Seq<u8>, i2: int)
    requires
        wstr_end(d, i) is Some,
        0 <= i2,
        i2 + (wstr_end(d, i)->0 - i) <= d2.len(),
        d2.subrange(i2, i2 + (wstr_end(d, i)->0 - i)) == d.subrange(i, wstr_end(d, i)->0),
    ensures
        wstr_end(d2, i2) == Some(i2 + (wstr_end(d, i)->0 - i)),
    decreases d.len() - i,
{
    let k = wstr_end(d, i)->0;
    lemma_wstr_bounds(d, i);
    assert(d2[i2] == d2.subrange(i2, i2 + (k - i))[0]);
    assert(d2[i2 + 1] == d2.subrange(i2, i2 + (k - i))[1]);
    assert(d[i] == d.subrange(i, k)[0]);
    assert(d[i + 1] == d.subrange(i, k)[1]);
    if !(d[i] == 0 && d[i + 1] == 0) {
        lemma_wstr_bounds(d, i + 2);
        assert(d2.subrange(i2 + 2, i2 + (k - i)) =~= d.subrange(i + 2, k)) by {
            assert forall|t: int| 0 <= t < k - i - 2 implies #[trigger] d2.subrange(i2 + 2, i2 + (k - i))[t]
                == d.subrange(i + 2, k)[t] by {
                assert(d2.subrange(i2, i2 + (k - i))[t + 2] == d.subrange(i, k)[t + 2]);
            }
        }
        lemma_wstr_transfer(d, i + 2, d2, i2 + 2);
    }
}

proof fn lemma_le_roundtrip(u: u32)
    ensures
        le_u32(le_bytes(u)[0], le_bytes(u)[1], le_bytes(u)[2], le_bytes(u)[3]) == u,
{
    let b0 = (u & 0xff) as u8;
    let b1 = ((u >> 8) & 0xff) as u8;
    let b2 = ((u >> 16) & 0xff) as u8;
    let b3 = ((u >> 24) & 0xff) as u8;
    assert((b0 as u32) | ((b1 as u32) << 8) | ((b2 as u32) << 16) | ((b3 as u32) << 24) == u) by (bit_vector)
        requires
            b0 == (u & 0xff) as u8,
            b1 == ((u >> 8) & 0xff) as u8,
            b2 == ((u >> 16) & 0xff) as u8,
            b3 == ((u >> 24) & 0xff) as u8,
    ;
}

proof fn lemma_le_bytes_of(b0: u8, b1: u8, b2: u8, b3: u8)
    ensures
        le_bytes(le_u32(b0, b1, b2, b3)) == seq![b0, b1, b2, b3],
{
    let u = le_u32(b0, b1, b2, b3);
    assert(((u & 0xff) as u8) == b0 && (((u >> 8) & 0xff) as u8) == b1 && (((u >> 16) & 0xff) as u8) == b2
        && (((u >> 24) & 0xff) as u8) == b3) by (bit_vector)
        requires
            u == (b0 as u32) | ((b1 as u32) << 8) | ((b2 as u32) << 16) | ((b3 as u32) << 24),
    ;
    assert(le_bytes(u) =~= seq![b0, b1, b2, b3]);
}

proof fn lemma_i32_u32(n: i32, u: u32)
    ensures
        ((n as u32) as i32) == n,
        ((u as i32) as u32) == u,
{
    assert(((n as u32) as i32) == n) by (bit_vector);
    assert(((u as i32) as u32) == u) by (bit_vector);
}

proof fn lemma_ser_obj_cons(es: Seq<(Seq<u8>, Node)>)
    requires
        es.len() > 0,
    ensures
        ser_obj(es) == ser_entry(es[0]) + ser_obj(es.drop_first()),
        ser_entries(es) == ser_entry(es[0]) + ser_entries(es.drop_first()),
{
    assert(ser_obj(es) =~= ser_entry(es[0]) + ser_obj(es.drop_first()));
}

/// Reading at `i` the bytes of serialized entries gives those entries back.
proof fn lemma_parse_ser(d: Seq<u8>, i: int, es: Seq<(Seq<u8>, Node)>, top: bool, closed: bool)
    requires
        wf_entries(es),
        0 <= i,
        closed ==> i + ser_obj(es).len() <= d.len() && d.subrange(i, i + ser_obj(es).len()) == ser_obj(es),
        !closed ==> top && i <= d.len() && d.subrange(i, d.len() as int) == ser_entries(es),
    ensures
        parse_obj(d, i, top) == Some((es, if closed { i + ser_obj(es).len() } else { d.len() as int })),
    decreases es,
{
    if es.len() == 0 {
        if closed {
            assert(ser_obj(es) =~= seq![T_END]);
            assert(d[i] == d.subrange(i, i + 1)[0]);
        } else {
            assert(ser_entries(es) =~= Seq::<u8>::empty());
            assert(d.subrange(i, d.len() as int).len() == 0);
        }
    } else {
        let e0 = es[0];
        let rest = es.drop_first();
        let (k, v) = e0;
        lemma_ser_obj_cons(es);
        let body = ser_entry(e0);
        let whole = if closed { ser_obj(es) } else { ser_entries(es) };
        let end = if closed { i + ser_obj(es).len() } else { d.len() as int };
        assert(d.subrange(i, end) == whole);
        let tail = if closed { ser_obj(rest) } else { ser_entries(rest) };
        assert(whole == body + tail);
        let payload = match v {
            Node::Obj(inner) => ser_entries(inner).push(T_END),
            Node::Str(s) => s.push(0u8),
            Node::Int(n) => le_bytes(n as u32),
            Node::Raw(_, p) => p,
        };
        assert(body == seq![type_byte(v)] + k + seq![0u8] + payload);
        let j = i + 2 + k.len();
        let kend = j + payload.len();
        assert(kend == i + body.len());
        // pieces of the data
        assert forall|t: int| 0 <= t < body.len() implies #[trigger] d[i + t] == body[t] by {
            assert(d.subrange(i, end)[t] == d[i + t]);
        }
        assert(d.subrange(kend, end) =~= tail) by {
            assert forall|t: int| 0 <= t < tail.len() implies #[trigger] d.subrange(kend, end)[t] == tail[t] by {
                assert(d.subrange(i, end)[body.len() + t] == d[kend + t]);
            }
        }
        assert(d.subrange(j, kend) =~= payload) by {
            assert forall|t: int| 0 <= t < payload.len() implies #[trigger] d.subrange(j, kend)[t] == payload[t] by {
                assert(d[i + (2 + k.len() + t)] == body[2 + k.len() + t]);
            }
        }
        assert(d[i] == type_byte(v)) by {
            assert(d[i + 0] == body[0]);
        }
        // the key
        assert(d.subrange(i + 1, j - 1) =~= k) by {
            assert forall|t: int| 0 <= t < k.len() implies #[trigger] d.subrange(i + 1, j - 1)[t] == k[t] by {
                assert(d[i + (1 + t)] == body[1 + t]);
            }
        }
        assert(d[j - 1] == 0) by {
            assert(d[i + (1 + k.len())] == body[1 + k.len() as int]);
        }
        assert forall|t: int| i + 1 <= t < j - 1 implies #[trigger] d[t] != 0 by {
            assert(d[i + (t - i)] == body[t - i]);
            assert(body[t - i] == k[t - i - 1]);
        }
        lemma_find_nul_at(d, i + 1, j - 1);
        assert(cstr_at(d, i + 1) == Some((k, j)));
        assert(decreases_to!(es => rest));
        match v {
            Node::Obj(inner) => {
                assert(decreases_to!(es => inner)) by {
                    assert(decreases_to!(es => es[0]));
                    assert(decreases_to!(es[0] => es[0].1));
                    assert(decreases_to!(es[0].1 => inner));
                }
                assert(ser_obj(inner) == payload);
                lemma_parse_ser(d, j, inner, false, true);
            },
            Node::Str(sv) => {
                assert(d.subrange(j, kend - 1) =~= sv) by {
                    assert forall|t: int| 0 <= t < sv.len() implies #[trigger] d.subrange(j, kend - 1)[t] == sv[t] by {
                        assert(d.subrange(j, kend)[t] == payload[t]);
                    }
                }
                assert(d[kend - 1] == 0) by {
                    assert(d.subrange(j, kend)[sv.len() as int] == payload[sv.len() as int]);
                }
                assert forall|t: int| j <= t < kend - 1 implies #[trigger] d[t] != 0 by {
                    assert(d.subrange(j, kend)[t - j] == payload[t - j]);
                }
                lemma_find_nul_at(d, j, kend - 1);
            },
            Node::Int(n) => {
                assert(d[j] == payload[0] && d[j + 1] == payload[1] && d[j + 2] == payload[2] && d[j + 3]
                    == payload[3]) by {
                    assert(d.subrange(j, kend)[0] == payload[0]);
                    assert(d.subrange(j, kend)[1] == payload[1]);
                    assert(d.subrange(j, kend)[2] == payload[2]);
                    assert(d.subrange(j, kend)[3] == payload[3]);
                }
                lemma_le_roundtrip(n as u32);
                lemma_i32_u32(n, n as u32);
            },
            Node::Raw(t, p) => {
                if t == T_WSTR {
                    lemma_wstr_bounds(p, 0);
                    assert(p.subrange(0, p.len() as int) =~= p);
                    lemma_wstr_transfer(p, 0, d, j);
                }
            },
        }
        lemma_parse_ser(d, kend, rest, top, closed);
        assert(seq![e0] + rest =~= es);
    }
}

/// Entries that `parse_obj` reads are well formed, and the bytes read are their serialization.
proof fn lemma_ser_parse(d: Seq<u8>, i: int, top: bool, es: Seq<(Seq<u8>, Node)>, e: int)
    requires
        parse_obj(d, i, top) == Some((es, e)),
    ensures
        wf_entries(es),
        0 <= i <= e <= d.len(),
        !top ==> i < e,
        d.subrange(i, e) == ser_obj(es) || (top && e == d.len() && d.subrange(i, e) == ser_entries(es)),
    decreases d.len() - i,
{
    if i == d.len() {
        assert(ser_entries(es) =~= d.subrange(i, e));
    } else if d[i] == T_END {
        assert(ser_obj(es) =~= d.subrange(i, e));
    } else {
        let ty = d[i];
        let (key, j) = cstr_at(d, i + 1)->0;
        lemma_find_nul_props(d, i + 1);
        let value = if ty == T_OBJ {
            match parse_obj(d, j, false) {
                Some((inner, k)) => Some((Node::Obj(inner), k)),
                None => None,
            }
        } else {
            scalar_at(d, j, ty)
        };
        let (v, k) = value->0;
        let (rest, e2) = parse_obj(d, k, top)->0;
        assert(es == seq![(key, v)] + rest);
        assert(e2 == e);
        lemma_ser_parse(d, k, top, rest, e);
        let payload = d.subrange(j, k);
        if ty == T_OBJ {
            let (inner, k2) = parse_obj(d, j, false)->0;
            lemma_ser_parse(d, j, false, inner, k);
            assert(payload == ser_entries(inner).push(T_END));
        } else if ty == T_STR {
            let (sv, k2) = cstr_at(d, j)->0;
            lemma_find_nul_props(d, j);
            assert(payload =~= sv.push(0u8));
        } else if ty == T_INT {
            lemma_le_bytes_of(d[j], d[j + 1], d[j + 2], d[j + 3]);
            let u = le_u32(d[j], d[j + 1], d[j + 2], d[j + 3]);
            lemma_i32_u32(u as i32, u);
            assert(payload =~= le_bytes((u as i32) as u32));
        } else if ty == T_WSTR {
            lemma_wstr_bounds(d, j);
            assert(wstr_end(d, j) == Some(k));
            assert(payload.subrange(0, payload.len() as int) =~= payload);
            lemma_wstr_transfer(d, j, payload, 0);
        }
        assert(es[0] == (key, v));
        assert(es.drop_first() =~= rest);
        assert(type_byte(v) == ty);
        assert(ser_entry(es[0]) =~= d.subrange(i, k));
        lemma_ser_obj_cons(es);
        assert(no_nul(key));
        assert(d.subrange(i, e) =~= d.subrange(i, k) + d.subrange(k, e));
    }
}

/// Reading back what `serialize` wrote gives the same entries, whatever bytes follow;
/// so does reading the entries alone when the final end marker is missing.
pub proof fn law_parse_serialized(es: Seq<(Seq<u8>, Node)>, rest: Seq<u8>)
    requires
        wf_entries(es),
    ensures
        parse_spec(ser_obj(es) + rest) == Some(es),
        parse_spec(ser_entries(es)) == Some(es),
{
    let d = ser_obj(es) + rest;
    assert(d.subrange(0, ser_obj(es).len() as int) =~= ser_obj(es));
    lemma_parse_ser(d, 0, es, true, true);
    let d2 = ser_entries(es);
    assert(d2.subrange(0, d2.len() as int) =~= d2);
    lemma_parse_ser(d2, 0, es, true, false);
}

/// A file in the form `serialize` writes is written back byte for byte.
pub proof fn law_serialized_bytes_round_trip(es: Seq<(Seq<u8>, Node)>)
    requires
        wf_entries(es),
    ensures
        parse_spec(ser_obj(es)) matches Some(read) && ser_obj(read) == ser_obj(es),
{
    law_parse_serialized(es, seq![]);
    assert(ser_obj(es) + seq![] =~= ser_obj(es));
}

/// What `parse` accepts is a serialized object, possibly followed by more bytes, or the
/// entries of one without the final end marker; the entries read are well formed.
pub proof fn law_parsed_is_serialized(d: Seq<u8>)
    requires
        parse_spec(d) is Some,
    ensures
        wf_entries(parse_spec(d)->0),
        ({
            let es = parse_spec(d)->0;
            ||| ser_obj(es).len() <= d.len() && d.subrange(0, ser_obj(es).len() as int) == ser_obj(es)
            ||| d == ser_entries(es)
        }),
{
    let (es, e) = parse_obj(d, 0, true)->0;
    lemma_ser_parse(d, 0, true, es, e);
    if e == d.len() {
        assert(d.subrange(0, e) =~= d);
    }
}

/// `i` is the first entry whose key equals `key` up to ASCII case.
pub open spec fn is_first_key(es: Seq<(Seq<u8>, Node)>, key: Seq<u8>, i: int) -> bool {
    &&& 0 <= i < es.len()
    &&& bytes_eq_ci(es[i].0, key)
    &&& forall|j: int| 0 <= j < i ==> !bytes_eq_ci(#[trigger] es[j].0, key)
}

/// Position of the first entry whose key equals `key` up to ASCII case.
pub open spec fn find_key(es: Seq<(Seq<u8>, Node)>, key: Seq<u8>) -> Option<int> {
    if exists|i: int| is_first_key(es, key, i) {
        Some(choose|i: int| is_first_key(es, key, i))
    } else {
        None
    }
}

/// Value of the first entry whose key equals `key` up to ASCII case.
pub open spec fn lookup(es: Seq<(Seq<u8>, Node)>, key: Seq<u8>) -> Option<Node> {
    match find_key(es, key) {
        Some(i) => Some(es[i].1),
        None => None,
    }
}

/// Entries after setting `key` to `v`: the first matching entry keeps its place and key
/// spelling and takes the new value; without one, a new entry is appended.
pub open spec fn set_entry(es: Seq<(Seq<u8>, Node)>, key: Seq<u8>, v: Node) -> Seq<(Seq<u8>, Node)> {
    match find_key(es, key) {
        Some(i) => es.update(i, (es[i].0, v)),
        None => es.push((key, v)),
    }
}

proof fn lemma_first_key_unique(es: Seq<(Seq<u8>, Node)>, key: Seq<u8>, i: int)
    requires
        is_first_key(es, key, i),
    ensures
        find_key(es, key) == Some(i),
{
    let c = choose|c: int| is_first_key(es, key, c);
    assert(is_first_key(es, key, c));
    if c < i {
        assert(!bytes_eq_ci(es[c].0, key));
    } else if c > i {
        assert(!bytes_eq_ci(es[i].0, key));
    }
}

proof fn lemma_no_key(es: Seq<(Seq<u8>, Node)>, key: Seq<u8>)
    requires
        forall|j: int| 0 <= j < es.len() ==> !bytes_eq_ci(#[trigger] es[j].0, key),
    ensures
        find_key(es, key) is None,
{
}

/// After setting `key` to `v`, looking `key` up (in any ASCII case) gives `v`; looking up a
/// key that differs from it gives what it gave before.
pub proof fn law_lookup_after_set(es: Seq<(Seq<u8>, Node)>, key: Seq<u8>, v: Node, other: Seq<u8>)
    ensures
        bytes_eq_ci(other, key) ==> lookup(set_entry(es, key, v), other) == Some(v),
        !bytes_eq_ci(other, key) ==> lookup(set_entry(es, key, v), other) == lookup(es, other),
{
    let es2 = set_entry(es, key, v);
    match find_key(es, key) {
        Some(i) => {
            assert(is_first_key(es, key, i));
            if bytes_eq_ci(other, key) {
                assert forall|j: int| 0 <= j < i implies !bytes_eq_ci(#[trigger] es2[j].0, other) by {
                    assert(es2[j] == es[j]);
                    assert(!bytes_eq_ci(es[j].0, key));
                    if bytes_eq_ci(es[j].0, other) {
                        assert forall|t: int| 0 <= t < key.len() implies lower_byte(#[trigger] es[j].0[t])
                            == lower_byte(key[t]) by {
                            assert(lower_byte(other[t]) == lower_byte(key[t]));
                        }
                    }
                }
                assert(bytes_eq_ci(es2[i].0, other)) by {
                    assert forall|t: int| 0 <= t < other.len() implies lower_byte(#[trigger] es2[i].0[t])
                        == lower_byte(other[t]) by {
                        assert(lower_byte(es[i].0[t]) == lower_byte(key[t]));
                    }
                }
                lemma_first_key_unique(es2, other, i);
            } else {
                assert(!bytes_eq_ci(es[i].0, other)) by {
                    if bytes_eq_ci(es[i].0, other) {
                        assert forall|t: int| 0 <= t < key.len() implies lower_byte(#[trigger] other[t])
                            == lower_byte(key[t]) by {
                            assert(lower_byte(es[i].0[t]) == lower_byte(key[t]));
                        }
                    }
                }
                assert forall|j: int| 0 <= j < es.len() implies #[trigger] es2[j].0 == es[j].0 by {}
                match find_key(es, other) {
                    Some(m) => {
                        assert(is_first_key(es, other, m));
                        assert(m != i);
                        assert(is_first_key(es2, other, m));
                        lemma_first_key_unique(es2, other, m);
                    },
                    None => {
                        assert forall|j: int| 0 <= j < es2.len() implies !bytes_eq_ci(#[trigger] es2[j].0, other) by {
                            if bytes_eq_ci(es2[j].0, other) {
                                assert(is_first_key(es, other, j) || exists|m: int| is_first_key(es, other, m)) by {
                                    lemma_min_match(es, other, j);
                                }
                            }
                        }
                        lemma_no_key(es2, other);
                    },
                }
            }
        },
        None => {
            let n = es.len() as int;
            if bytes_eq_ci(other, key) {
                assert forall|j: int| 0 <= j < n implies !bytes_eq_ci(#[trigger] es2[j].0, other) by {
                    assert(es2[j] == es[j]);
                    if bytes_eq_ci(es[j].0, other) {
                        assert(bytes_eq_ci(es[j].0, key)) by {
                            assert forall|t: int| 0 <= t < key.len() implies lower_byte(#[trigger] es[j].0[t])
                                == lower_byte(key[t]) by {
                                assert(lower_byte(other[t]) == lower_byte(key[t]));
                            }
                        }
                        lemma_min_match(es, key, j);
                    }
                }
                assert(bytes_eq_ci(es2[n].0, other));
                lemma_first_key_unique(es2, other, n);
            } else {
                assert(!bytes_eq_ci(es2[n].0, other));
                match find_key(es, other) {
                    Some(m) => {
                        assert(is_first_key(es, other, m));
                        assert(is_first_key(es2, other, m));
                        lemma_first_key_unique(es2, other, m);
                    },
                    None => {
                        assert forall|j: int| 0 <= j < es2.len() implies !bytes_eq_ci(#[trigger] es2[j].0, other) by {
                            if j < n && bytes_eq_ci(es2[j].0, other) {
                                lemma_min_match(es, other, j);
                            }
                        }
                        lemma_no_key(es2, other);
                    },
                }
            }
        },
    }
}

/// Some key matches ⟹ there is a first one.
proof fn lemma_min_match(es: Seq<(Seq<u8>, Node)>, key: Seq<u8>, j: int)
    requires
        0 <= j < es.len(),
        bytes_eq_ci(es[j].0, key),
    ensures
        find_key(es, key) is Some,
    decreases j,
{
    if forall|m: int| 0 <= m < j ==> !bytes_eq_ci(#[trigger] es[m].0, key) {
        assert(is_first_key(es, key, j));
    } else {
        let m = choose|m: int| 0 <= m < j && bytes_eq_ci(#[trigger] es[m].0, key);
        lemma_min_match(es, key, m);
    }
}

/// Setting a key to the value it already has changes nothing.
pub proof fn lemma_set_unchanged(es: Seq<(Seq<u8>, Node)>, key: Seq<u8>, v: Node)
    requires
        lookup(es, key) == Some(v),
    ensures
        set_entry(es, key, v) == es,
{
    let i = find_key(es, key)->0;
    assert(es.update(i, (es[i].0, v)) =~= es);
}

impl Default for Obj {
    fn default() -> (r: Obj)
        ensures
            r@ == Seq::<(Seq<u8>, Node)>::empty(),
    {
        let r = Obj(Vec::new());
        assert(r@ =~= Seq::<(Seq<u8>, Node)>::empty());
        r
    }
}

impl Obj {
    fn position(&self, key: &str) -> (r: Option<usize>)
        ensures
            match r {
                Some(i) => find_key(self@, vstd::utf8::encode_utf8(key@)) == Some(i as int),
                None => find_key(self@, vstd::utf8::encode_utf8(key@)) is None,
            },
    {
        let kb = key.as_bytes();
        let mut i: usize = 0;
        while i < self.0.len()
            invariant
                i <= self.0@.len(),
                kb@ == vstd::utf8::encode_utf8(key@),
                forall|j: int| 0 <= j < i ==> !bytes_eq_ci(#[trigger] self@[j].0, kb@),
            decreases self.0@.len() - i,
        {
            if eq_ci_bytes(self.0[i].0.as_slice(), kb) {
                proof {
                    lemma_first_key_unique(self@, kb@, i as int);
                }
                return Some(i);
            }
            i += 1;
        }
        proof {
            lemma_no_key(self@, kb@);
        }
        None
    }

    pub fn get(&self, key: &str) -> (r: Option<&Value>)
        ensures
            (match r {
                Some(v) => Some(v@),
                None => None,
            }) == lookup(self@, vstd::utf8::encode_utf8(key@)),
    {
        match self.position(key) {
            Some(i) => Some(&self.0[i].1),
            None => None,
        }
    }

    pub fn get_str(&self, key: &str) -> (r: Option<String>)
        ensures
            r is Some <==> lookup(self@, vstd::utf8::encode_utf8(key@)) matches Some(Node::Str(_)),
            r matches Some(s) ==> (lookup(self@, vstd::utf8::encode_utf8(key@)) matches Some(Node::Str(b))
                && s@ == utf8_lossy(b) && (vstd::utf8::valid_utf8(b) ==> s@ == vstd::utf8::decode_utf8(b))),
    {
        match self.get(key) {
            Some(Value::Str(s)) => Some(from_utf8_lossy(s.as_slice())),
            _ => None,
        }
    }

    pub fn get_int(&self, key: &str) -> (r: Option<i32>)
        ensures
            r == match lookup(self@, vstd::utf8::encode_utf8(key@)) {
                Some(Node::Int(n)) => Some(n),
                _ => None,
            },
    {
        match self.get(key) {
            Some(Value::Int(n)) => Some(*n),
            _ => None,
        }
    }

    pub fn get_obj(&self, key: &str) -> (r: Option<&Obj>)
        ensures
            (match r {
                Some(o) => Some(o@),
                None => None,
            }) == match lookup(self@, vstd::utf8::encode_utf8(key@)) {
                Some(Node::Obj(es)) => Some(es),
                _ => None,
            },
    {
        match self.get(key) {
            Some(Value::Obj(o)) => Some(o),
            _ => None,
        }
    }

    /// The child object `key`, created (or replacing a non-object value of that name) when needed.
    pub fn obj_mut(&mut self, key: &str) -> (r: &mut Obj)
        ensures
            (*r)@ == match find_key(old(self)@, vstd::utf8::encode_utf8(key@)) {
                Some(i) => match old(self)@[i].1 {
                    Node::Obj(es) => es,
                    _ => Seq::empty(),
                },
                None => Seq::empty(),
            },
            final(self)@ == set_entry(
                old(self)@,
                vstd::utf8::encode_utf8(key@),
                Node::Obj(final(r)@),
            ),
    {
        let ghost kb = vstd::utf8::encode_utf8(key@);
        let i = match self.position(key) {
            Some(i) => {
                let is_obj = match &self.0[i].1 {
                    Value::Obj(_) => true,
                    _ => false,
                };
                if !is_obj {
                    self.0[i].1 = Value::Obj(Obj::default());
                }
                i
            },
            None => {
                let kv = slice_to_vec(key.as_bytes());
                self.0.push((kv, Value::Obj(Obj::default())));
                self.0.len() - 1
            },
        };
        let entry = &mut self.0[i];
        match &mut entry.1 {
            Value::Obj(o) => o,
            _ => vstd::pervasive::unreached(),
        }
    }

    pub fn set(&mut self, key: &str, value: Value)
        ensures
            final(self)@ == set_entry(old(self)@, vstd::utf8::encode_utf8(key@), value@),
    {
        let ghost kb = vstd::utf8::encode_utf8(key@);
        let ghost v = value@;
        match self.position(key) {
            Some(i) => {
                let ghost k = self@[i as int].0;
                self.0[i].1 = value;
                assert(self@ =~= old(self)@.update(i as int, (k, v)));
            },
            None => {
                let kv = slice_to_vec(key.as_bytes());
                self.0.push((kv, value));
                assert(self@ =~= old(self)@.push((kb, v)));
            },
        }
    }

    pub fn set_str(&mut self, key: &str, value: &str)
        ensures
            final(self)@ == set_entry(
                old(self)@,
                vstd::utf8::encode_utf8(key@),
                Node::Str(vstd::utf8::encode_utf8(value@)),
            ),
    {
        self.set(key, Value::Str(slice_to_vec(value.as_bytes())));
    }

    pub fn set_int(&mut self, key: &str, value: i32)
        ensures
            final(self)@ == set_entry(old(self)@, vstd::utf8::encode_utf8(key@), Node::Int(value)),
    {
        self.set(key, Value::Int(value));
    }
}

fn clone_value(v: &Value) -> (r: Value)
    ensures
        r@ == v@,
    decreases v,
{
    match v {
        Value::Obj(o) => Value::Obj(clone_obj(o)),
        Value::Str(s) => Value::Str(slice_to_vec(s.as_slice())),
        Value::Int(n) => Value::Int(*n),
        Value::Raw(t, p) => Value::Raw(*t, slice_to_vec(p.as_slice())),
    }
}

fn clone_obj(o: &Obj) -> (r: Obj)
    ensures
        r@ == o@,
    decreases o,
{
    let mut out: Vec<(Vec<u8>, Value)> = Vec::new();
    let mut i: usize = 0;
    while i < o.0.len()
        invariant
            i <= o.0@.len(),
            out@.len() == i,
            forall|j: int| 0 <= j < i ==> #[trigger] out@[j].0@ == o.0@[j].0@ && out@[j].1@ == o.0@[j].1@,
        decreases o.0@.len() - i,
    {
        let entry = &o.0[i];
        assert(decreases_to!(o => entry.1));
        let v = clone_value(&entry.1);
        out.push((slice_to_vec(entry.0.as_slice()), v));
        i += 1;
    }
    let r = Obj(out);
    assert(r@ =~= o@);
    r
}

impl Clone for Value {
    fn clone(&self) -> (r: Self)
        ensures
            r@ == self@,
    {
        clone_value(self)
    }
}

impl Clone for Obj {
    fn clone(&self) -> (r: Self)
        ensures
            r@ == self@,
    {
        clone_obj(self)
    }
}

} // verus!
