//! The user's non-Steam shortcuts in `shortcuts.vdf`: finding the game's entry by its
//! app id, adding or updating it, and removing it, leaving every other entry as it was.

use vstd::prelude::*;
use vstd::slice::slice_to_vec;
use vstd::utf8::encode_utf8;
use crate::steam::binary_vdf::{
    law_lookup_after_set, lemma_set_unchanged, lookup, node_of, set_entry, Node, Obj, Value,
};
use crate::steam::ShortcutSpec;
use crate::text::{decimal, push_char, push_str, u64_to_string, utf8_lossy};

verus! {

/// Entries of an object node (nothing for any other node).
pub open spec fn obj_entries(n: Node) -> Seq<(Seq<u8>, Node)> {
    match n {
        Node::Obj(es) => es,
        _ => Seq::empty(),
    }
}

/// What `obj_mut(key)` works on: the child object `key`, or nothing when there is none.
pub open spec fn child(es: Seq<(Seq<u8>, Node)>, key: Seq<u8>) -> Seq<(Seq<u8>, Node)> {
    match lookup(es, key) {
        Some(n) => obj_entries(n),
        None => Seq::empty(),
    }
}

/// The shortcut list of a parsed `shortcuts.vdf`.
pub open spec fn shortcut_list(root: Seq<(Seq<u8>, Node)>) -> Seq<(Seq<u8>, Node)> {
    child(root, encode_utf8("shortcuts"@))
}

/// The app id a shortcut entry holds, read as Steam's unsigned id.
pub open spec fn node_appid(n: Node) -> Option<u32> {
    match n {
        Node::Obj(es) => match lookup(es, encode_utf8("appid"@)) {
            Some(Node::Int(k)) => Some(k as u32),
            _ => None,
        },
        _ => None,
    }
}

/// Index of the first entry at or after `i` holding `appid`.
pub open spec fn find_shortcut(es: Seq<(Seq<u8>, Node)>, appid: u32, i: int) -> Option<int>
    decreases es.len() - i,
{
    if i < 0 || i >= es.len() {
        None
    } else if node_appid(es[i].1) == Some(appid) {
        Some(i)
    } else {
        find_shortcut(es, appid, i + 1)
    }
}

/// The entries with their keys replaced by "0", "1", ... in order.
pub open spec fn renumbered(es: Seq<(Seq<u8>, Node)>) -> Seq<(Seq<u8>, Node)> {
    Seq::new(es.len(), |i: int| (encode_utf8(decimal(i as nat)), es[i].1))
}

/// A shortcut path as Steam writes it: in double quotes.
pub open spec fn quoted_path(p: Seq<char>) -> Seq<char> {
    seq!['"'] + p + seq!['"']
}

/// A start directory as Steam writes it: in double quotes, with a trailing `/`.
pub open spec fn quoted_dir(p: Seq<char>) -> Seq<char> {
    if p.len() > 0 && p.last() == '/' {
        seq!['"'] + p + seq!['"']
    } else {
        seq!['"'] + p + seq!['/', '"']
    }
}

pub open spec fn str_node(s: Seq<char>) -> Node {
    Node::Str(encode_utf8(s))
}

/// The fields of a fresh shortcut entry, in the order Steam writes them.
pub open spec fn new_entry_spec() -> Seq<(Seq<u8>, Node)> {
    seq![
        (encode_utf8("appid"@), Node::Int(0)),
        (encode_utf8("AppName"@), Node::Str(Seq::empty())),
        (encode_utf8("Exe"@), Node::Str(Seq::empty())),
        (encode_utf8("StartDir"@), Node::Str(Seq::empty())),
        (encode_utf8("icon"@), Node::Str(Seq::empty())),
        (encode_utf8("ShortcutPath"@), Node::Str(Seq::empty())),
        (encode_utf8("LaunchOptions"@), Node::Str(Seq::empty())),
        (encode_utf8("IsHidden"@), Node::Int(0)),
        (encode_utf8("AllowDesktopConfig"@), Node::Int(1)),
        (encode_utf8("AllowOverlay"@), Node::Int(1)),
        (encode_utf8("OpenVR"@), Node::Int(0)),
        (encode_utf8("Devkit"@), Node::Int(0)),
        (encode_utf8("DevkitGameID"@), Node::Str(Seq::empty())),
        (encode_utf8("DevkitOverrideAppID"@), Node::Int(0)),
        (encode_utf8("LastPlayTime"@), Node::Int(0)),
        (encode_utf8("FlatpakAppID"@), Node::Str(Seq::empty())),
        (encode_utf8("tags"@), Node::Obj(Seq::empty())),
    ]
}

/// The values a shortcut for the game gets: app id, name, quoted exe, quoted start
/// directory, launch options and, when `set_icon`, the icon.
pub open spec fn with_fields(
    e: Seq<(Seq<u8>, Node)>,
    appid: u32,
    name: Seq<char>,
    exe: Seq<char>,
    start_dir: Seq<char>,
    launch_options: Seq<char>,
    icon: Seq<char>,
    set_icon: bool,
) -> Seq<(Seq<u8>, Node)> {
    let e1 = set_entry(e, encode_utf8("appid"@), Node::Int(appid as i32));
    let e2 = set_entry(e1, encode_utf8("AppName"@), str_node(name));
    let e3 = set_entry(e2, encode_utf8("Exe"@), str_node(exe));
    let e4 = set_entry(e3, encode_utf8("StartDir"@), str_node(quoted_dir(start_dir)));
    let e5 = set_entry(e4, encode_utf8("LaunchOptions"@), str_node(launch_options));
    if set_icon {
        set_entry(e5, encode_utf8("icon"@), str_node(icon))
    } else {
        e5
    }
}

/// The shortcut list after adding or updating the game's entry, and whether it was added.
/// The first entry holding `appid` is updated in place; without one a new entry is
/// appended and the list renumbered. The icon is only written when there is one or the
/// entry is new.
pub open spec fn upserted_list(
    l: Seq<(Seq<u8>, Node)>,
    appid: u32,
    name: Seq<char>,
    exe: Seq<char>,
    start_dir: Seq<char>,
    launch_options: Seq<char>,
    icon: Seq<char>,
) -> (Seq<(Seq<u8>, Node)>, bool) {
    match find_shortcut(l, appid, 0) {
        Some(i) => (
            l.update(
                i,
                (
                    l[i].0,
                    Node::Obj(
                        with_fields(obj_entries(l[i].1), appid, name, exe, start_dir, launch_options, icon, icon.len() > 0),
                    ),
                ),
            ),
            false,
        ),
        None => {
            let l2 = renumbered(l.push((Seq::empty(), Node::Obj(new_entry_spec()))));
            (
                l2.update(
                    l.len() as int,
                    (
                        l2[l.len() as int].0,
                        Node::Obj(with_fields(new_entry_spec(), appid, name, exe, start_dir, launch_options, icon, true)),
                    ),
                ),
                true,
            )
        },
    }
}

/// A parsed `shortcuts.vdf` after adding or updating the game's entry (see [`upserted_list`]).
pub open spec fn upserted(
    root: Seq<(Seq<u8>, Node)>,
    appid: u32,
    name: Seq<char>,
    exe: Seq<char>,
    start_dir: Seq<char>,
    launch_options: Seq<char>,
    icon: Seq<char>,
) -> (Seq<(Seq<u8>, Node)>, bool) {
    let r = upserted_list(shortcut_list(root), appid, name, exe, start_dir, launch_options, icon);
    (set_entry(root, encode_utf8("shortcuts"@), Node::Obj(r.0)), r.1)
}

/// The entries that do not hold `appid`, in order.
pub open spec fn without_appid(es: Seq<(Seq<u8>, Node)>, appid: u32) -> Seq<(Seq<u8>, Node)>
    decreases es.len(),
{
    if es.len() == 0 {
        seq![]
    } else if node_appid(es.last().1) == Some(appid) {
        without_appid(es.drop_last(), appid)
    } else {
        without_appid(es.drop_last(), appid).push(es.last())
    }
}

/// A parsed `shortcuts.vdf` after removing every entry for `appid` and renumbering.
pub open spec fn removed(root: Seq<(Seq<u8>, Node)>, appid: u32) -> Seq<(Seq<u8>, Node)> {
    set_entry(
        root,
        encode_utf8("shortcuts"@),
        Node::Obj(renumbered(without_appid(shortcut_list(root), appid))),
    )
}

proof fn lemma_find_shortcut_found(es: Seq<(Seq<u8>, Node)>, appid: u32, i: int)
    requires
        0 <= i,
    ensures
        match find_shortcut(es, appid, i) {
            Some(k) => i <= k < es.len() && node_appid(es[k].1) == Some(appid) && es[k].1 is Obj
                && forall|j: int| i <= j < k ==> node_appid(#[trigger] es[j].1) != Some(appid),
            None => forall|j: int| i <= j < es.len() ==> node_appid(#[trigger] es[j].1) != Some(appid),
        },
    decreases es.len() - i,
{
    if i < es.len() && node_appid(es[i].1) != Some(appid) {
        lemma_find_shortcut_found(es, appid, i + 1);
    }
}

/// The app id stored in a shortcut entry.
pub fn entry_appid(v: &Value) -> (r: Option<u32>)
    ensures
        r == node_appid(v@),
{
    match v {
        Value::Obj(o) => match o.get_int("appid") {
            Some(n) => Some(n as u32),
            None => None,
        },
        _ => None,
    }
}

/// Index of the first entry holding `appid`.
fn position_of(list: &Obj, appid: u32) -> (r: Option<usize>)
    ensures
        match r {
            Some(i) => find_shortcut(list@, appid, 0) == Some(i as int),
            None => find_shortcut(list@, appid, 0) is None,
        },
{
    let mut i: usize = 0;
    while i < list.0.len()
        invariant
            i <= list.0@.len(),
            find_shortcut(list@, appid, 0) == find_shortcut(list@, appid, i as int),
        decreases list.0@.len() - i,
    {
        if entry_appid(&list.0[i].1) == Some(appid) {
            return Some(i);
        }
        i += 1;
    }
    None
}

/// Shortcut entries are keyed "0", "1", ... in order.
pub fn renumber(list: &mut Obj)
    ensures
        final(list)@ == renumbered(old(list)@),
{
    let ghost start = old(list)@;
    let mut i: usize = 0;
    while i < list.0.len()
        invariant
            i <= list.0@.len(),
            list@.len() == start.len(),
            forall|j: int| 0 <= j < i ==> #[trigger] list@[j] == renumbered(start)[j],
            forall|j: int| i <= j < start.len() ==> #[trigger] list@[j] == start[j],
        decreases list.0@.len() - i,
    {
        let key = u64_to_string(i as u64);
        let kb = slice_to_vec(key.as_str().as_bytes());
        let ghost pv = list@;
        let ghost praw = list.0@;
        list.0[i].0 = kb;
        assert(list.0@ == praw.update(i as int, (kb, praw[i as int].1)));
        assert(kb@ == encode_utf8(decimal(i as nat)));
        assert(pv[i as int] == start[i as int]);
        assert(list@[i as int] == (kb@, node_of(praw[i as int].1)));
        assert(pv[i as int].1 == node_of(praw[i as int].1));
        assert(list@[i as int] == renumbered(start)[i as int]);
        assert forall|j: int| 0 <= j < start.len() && j != i implies #[trigger] list@[j] == pv[j] by {
            assert(list.0@[j] == praw[j]);
        }
        i += 1;
    }
    assert(list@ =~= renumbered(start));
}

fn key_bytes(s: &str) -> (r: Vec<u8>)
    ensures
        r@ == encode_utf8(s@),
{
    slice_to_vec(s.as_bytes())
}

/// A fresh shortcut entry with Steam's default fields.
pub fn new_entry() -> (r: Obj)
    ensures
        r@ == new_entry_spec(),
{
    let mut v: Vec<(Vec<u8>, Value)> = Vec::new();
    v.push((key_bytes("appid"), Value::Int(0)));
    v.push((key_bytes("AppName"), Value::Str(Vec::new())));
    v.push((key_bytes("Exe"), Value::Str(Vec::new())));
    v.push((key_bytes("StartDir"), Value::Str(Vec::new())));
    v.push((key_bytes("icon"), Value::Str(Vec::new())));
    v.push((key_bytes("ShortcutPath"), Value::Str(Vec::new())));
    v.push((key_bytes("LaunchOptions"), Value::Str(Vec::new())));
    v.push((key_bytes("IsHidden"), Value::Int(0)));
    v.push((key_bytes("AllowDesktopConfig"), Value::Int(1)));
    v.push((key_bytes("AllowOverlay"), Value::Int(1)));
    v.push((key_bytes("OpenVR"), Value::Int(0)));
    v.push((key_bytes("Devkit"), Value::Int(0)));
    v.push((key_bytes("DevkitGameID"), Value::Str(Vec::new())));
    v.push((key_bytes("DevkitOverrideAppID"), Value::Int(0)));
    v.push((key_bytes("LastPlayTime"), Value::Int(0)));
    v.push((key_bytes("FlatpakAppID"), Value::Str(Vec::new())));
    let tags = Obj(Vec::new());
    assert(tags@ =~= Seq::<(Seq<u8>, Node)>::empty());
    v.push((key_bytes("tags"), Value::Obj(tags)));
    let r = Obj(v);
    assert(r@.len() == new_entry_spec().len());
    assert forall|k: int| 0 <= k < 17 implies #[trigger] r@[k] == new_entry_spec()[k] by {
        assert(r@[k] == (v@[k].0@, v@[k].1@));
    }
    assert(r@ =~= new_entry_spec());
    r
}

/// `"path"`, the form in which shortcuts name their exe.
pub fn quote(p: &str) -> (r: String)
    ensures
        r@ == quoted_path(p@),
{
    let mut out = String::new();
    push_char(&mut out, '"');
    push_str(&mut out, p);
    push_char(&mut out, '"');
    assert(out@ =~= quoted_path(p@));
    out
}

/// `"dir/"`, the form in which shortcuts name their start directory.
pub fn quote_dir(p: &str) -> (r: String)
    ensures
        r@ == quoted_dir(p@),
{
    let mut out = String::new();
    push_char(&mut out, '"');
    push_str(&mut out, p);
    if !crate::text::ends_with_char(p, '/') {
        push_char(&mut out, '/');
    }
    push_char(&mut out, '"');
    assert(out@ =~= quoted_dir(p@));
    out
}

/// Set the game's fields on a shortcut entry.
fn fill_entry(e: &mut Obj, appid: u32, exe: &str, spec: &ShortcutSpec, icon: &str, set_icon: bool)
    ensures
        final(e)@ == with_fields(
            old(e)@,
            appid,
            spec.name@,
            exe@,
            spec.start_dir@,
            spec.launch_options@,
            icon@,
            set_icon,
        ),
{
    e.set_int("appid", appid as i32);
    e.set_str("AppName", spec.name.as_str());
    e.set_str("Exe", exe);
    let dir = quote_dir(spec.start_dir.as_str());
    e.set_str("StartDir", dir.as_str());
    e.set_str("LaunchOptions", spec.launch_options.as_str());
    if set_icon {
        e.set_str("icon", icon);
    }
}

/// Add the game's shortcut to a parsed `shortcuts.vdf`, or update the existing one with
/// the same app id. Returns whether a new entry was added.
pub fn upsert_shortcut(root: &mut Obj, appid: u32, exe: &str, spec: &ShortcutSpec, icon: &str) -> (created: bool)
    ensures
        (final(root)@, created) == upserted(
            old(root)@,
            appid,
            spec.name@,
            exe@,
            spec.start_dir@,
            spec.launch_options@,
            icon@,
        ),
{
    let list = root.obj_mut("shortcuts");
    let ghost l = list@;
    let existing = position_of(list, appid);
    let created = existing.is_none();
    let idx = match existing {
        Some(i) => {
            proof {
                lemma_find_shortcut_found(l, appid, 0);
            }
            i
        },
        None => {
            let ne = new_entry();
            let ghost pushed = list@.push((Seq::empty(), Node::Obj(ne@)));
            list.0.push((Vec::new(), Value::Obj(ne)));
            assert(list@ =~= pushed);
            renumber(list);
            assert(list@.len() == l.len() + 1);
            assert(list@[l.len() as int].1 == Node::Obj(new_entry_spec()));
            list.0.len() - 1
        },
    };
    let ghost before = list@;
    assert(before[idx as int].1 == node_of(list.0@[idx as int].1));
    assert(before[idx as int].1 is Obj);
    let mut e = match &list.0[idx].1 {
        Value::Obj(o) => o.clone(),
        _ => {
            assert(false);
            Obj(Vec::new())
        },
    };
    let set_icon = !icon.is_empty() || created;
    fill_entry(&mut e, appid, exe, spec, icon, set_icon);
    let ghost ev = e@;
    list.0[idx].1 = Value::Obj(e);
    assert(list@ =~= before.update(idx as int, (before[idx as int].0, Node::Obj(ev))));
    assert(list@ == upserted_list(l, appid, spec.name@, exe@, spec.start_dir@, spec.launch_options@, icon@).0);
    created
}

/// Remove every shortcut entry holding `appid` from a parsed `shortcuts.vdf` and renumber
/// the rest.
pub fn remove_shortcut(root: &mut Obj, appid: u32)
    ensures
        final(root)@ == removed(old(root)@, appid),
{
    let list = root.obj_mut("shortcuts");
    let ghost l = list@;
    let mut kept: Vec<(Vec<u8>, Value)> = Vec::new();
    let mut old_entries: Vec<(Vec<u8>, Value)> = Vec::new();
    std::mem::swap(&mut old_entries, &mut list.0);
    assert(Obj(old_entries)@ == l);
    let mut i: usize = 0;
    while i < old_entries.len()
        invariant
            i <= old_entries@.len(),
            Obj(old_entries)@ == l,
            Obj(kept)@ == without_appid(l.take(i as int), appid),
        decreases old_entries@.len() - i,
    {
        let keep = entry_appid(&old_entries[i].1) != Some(appid);
        assert(l.take(i + 1).drop_last() =~= l.take(i as int));
        if keep {
            let ghost before = Obj(kept)@;
            let k = slice_to_vec(old_entries[i].0.as_slice());
            let v = old_entries[i].1.clone();
            kept.push((k, v));
            assert(Obj(kept)@ =~= before.push(l[i as int]));
        }
        i += 1;
    }
    assert(l.take(l.len() as int) =~= l);
    list.0 = kept;
    renumber(list);
}

/// A shortcut as `(appid, name, exe)`: an entry without a numeric app id reads as 0,
/// missing text as empty.
pub open spec fn entry_row(e: Seq<(Seq<u8>, Node)>) -> (u32, Seq<char>, Seq<char>) {
    (
        match lookup(e, encode_utf8("appid"@)) {
            Some(Node::Int(k)) => k as u32,
            _ => 0u32,
        },
        text_field(e, encode_utf8("AppName"@)),
        text_field(e, encode_utf8("Exe"@)),
    )
}

pub open spec fn row_view(r: (u32, String, String)) -> (u32, Seq<char>, Seq<char>) {
    (r.0, r.1@, r.2@)
}

/// The shortcuts of a parsed `shortcuts.vdf` as `(appid, name, exe)`, in order.
pub fn shortcut_entries(root: &Obj) -> (r: Vec<(u32, String, String)>)
    ensures
        r@.map_values(|x: (u32, String, String)| row_view(x)) == obj_list(shortcut_list(root@)).map_values(
            |e: Seq<(Seq<u8>, Node)>| entry_row(e),
        ),
{
    let mut out: Vec<(u32, String, String)> = Vec::new();
    let list = match root.get_obj("shortcuts") {
        Some(l) => l,
        None => {
            assert(obj_list(shortcut_list(root@)) =~= Seq::<Seq<(Seq<u8>, Node)>>::empty());
            assert(out@.map_values(|x: (u32, String, String)| row_view(x)) =~= Seq::<(u32, Seq<char>, Seq<char>)>::empty());
            return out;
        },
    };
    let ghost l = list@;
    let mut i: usize = 0;
    while i < list.0.len()
        invariant
            i <= list.0@.len(),
            l == list@,
            l == shortcut_list(root@),
            out@.map_values(|x: (u32, String, String)| row_view(x)) == obj_list(l.take(i as int)).map_values(
                |e: Seq<(Seq<u8>, Node)>| entry_row(e),
            ),
        decreases list.0@.len() - i,
    {
        assert(l.take(i + 1).drop_last() =~= l.take(i as int));
        let ghost prev = obj_list(l.take(i as int));
        match &list.0[i].1 {
            Value::Obj(o) => {
                let id = match o.get_int("appid") {
                    Some(n) => n as u32,
                    None => 0,
                };
                let name = match o.get_str("AppName") {
                    Some(s) => s,
                    None => String::new(),
                };
                let exe = match o.get_str("Exe") {
                    Some(s) => s,
                    None => String::new(),
                };
                let ghost before = out@;
                out.push((id, name, exe));
                assert(obj_list(l.take(i + 1)) == prev.push(o@));
                assert(out@.map_values(|x: (u32, String, String)| row_view(x)) =~= before.map_values(
                    |x: (u32, String, String)| row_view(x),
                ).push(entry_row(o@)));
                assert(obj_list(l.take(i + 1)).map_values(|e: Seq<(Seq<u8>, Node)>| entry_row(e)) =~= prev.map_values(
                    |e: Seq<(Seq<u8>, Node)>| entry_row(e),
                ).push(entry_row(o@)));
            },
            _ => {
                assert(obj_list(l.take(i + 1)) == prev);
            },
        }
        i += 1;
    }
    assert(l.take(l.len() as int) =~= l);
    out
}

/// The object entries of a list, in order (other values are skipped).
pub open spec fn obj_list(es: Seq<(Seq<u8>, Node)>) -> Seq<Seq<(Seq<u8>, Node)>>
    decreases es.len(),
{
    if es.len() == 0 {
        seq![]
    } else {
        let rest = obj_list(es.drop_last());
        match es.last().1 {
            Node::Obj(o) => rest.push(o),
            _ => rest,
        }
    }
}

/// A text field of an entry as `get_str(..).unwrap_or_default()` reads it: valid UTF-8
/// decoded, anything else as `from_utf8_lossy` makes it.
pub open spec fn text_field(e: Seq<(Seq<u8>, Node)>, key: Seq<u8>) -> Seq<char> {
    match lookup(e, key) {
        Some(Node::Str(b)) => if vstd::utf8::valid_utf8(b) {
            vstd::utf8::decode_utf8(b)
        } else {
            utf8_lossy(b)
        },
        _ => Seq::empty(),
    }
}

/// Whether a parsed `shortcuts.vdf` has a shortcut holding `appid`.
pub fn has_shortcut(root: &Obj, appid: u32) -> (r: bool)
    ensures
        r == (lookup(root@, encode_utf8("shortcuts"@)) matches Some(Node::Obj(l)) && find_shortcut(
            l,
            appid,
            0,
        ) is Some),
{
    match root.get_obj("shortcuts") {
        Some(l) => position_of(l, appid).is_some(),
        None => false,
    }
}


proof fn lemma_ascii_key(s: Seq<char>)
    requires
        vstd::utf8::is_ascii_chars(s),
    ensures
        encode_utf8(s).len() == s.len(),
{
    vstd::utf8::is_ascii_chars_encode_utf8(s);
}

/// The field names a shortcut entry is filled with have different lengths, so no two of
/// them are equal up to case.
proof fn lemma_field_keys()
    ensures
        encode_utf8("appid"@).len() == 5,
        encode_utf8("AppName"@).len() == 7,
        encode_utf8("Exe"@).len() == 3,
        encode_utf8("StartDir"@).len() == 8,
        encode_utf8("LaunchOptions"@).len() == 13,
        encode_utf8("icon"@).len() == 4,
{
    reveal_strlit("appid");
    reveal_strlit("AppName");
    reveal_strlit("Exe");
    reveal_strlit("StartDir");
    reveal_strlit("LaunchOptions");
    reveal_strlit("icon");
    lemma_ascii_key("appid"@);
    lemma_ascii_key("AppName"@);
    lemma_ascii_key("Exe"@);
    lemma_ascii_key("StartDir"@);
    lemma_ascii_key("LaunchOptions"@);
    lemma_ascii_key("icon"@);
}

/// What an entry filled by [`with_fields`] reads back.
proof fn lemma_fields_read(
    e: Seq<(Seq<u8>, Node)>,
    appid: u32,
    name: Seq<char>,
    exe: Seq<char>,
    start_dir: Seq<char>,
    launch_options: Seq<char>,
    icon: Seq<char>,
    set_icon: bool,
)
    ensures
        ({
            let f = with_fields(e, appid, name, exe, start_dir, launch_options, icon, set_icon);
            &&& lookup(f, encode_utf8("appid"@)) == Some(Node::Int(appid as i32))
            &&& lookup(f, encode_utf8("AppName"@)) == Some(str_node(name))
            &&& lookup(f, encode_utf8("Exe"@)) == Some(str_node(exe))
            &&& lookup(f, encode_utf8("StartDir"@)) == Some(str_node(quoted_dir(start_dir)))
            &&& lookup(f, encode_utf8("LaunchOptions"@)) == Some(str_node(launch_options))
            &&& set_icon ==> lookup(f, encode_utf8("icon"@)) == Some(str_node(icon))
        }),
{
    lemma_field_keys();
    let ka = encode_utf8("appid"@);
    let kn = encode_utf8("AppName"@);
    let kx = encode_utf8("Exe"@);
    let ks = encode_utf8("StartDir"@);
    let kl = encode_utf8("LaunchOptions"@);
    let ki = encode_utf8("icon"@);
    let e1 = set_entry(e, ka, Node::Int(appid as i32));
    let e2 = set_entry(e1, kn, str_node(name));
    let e3 = set_entry(e2, kx, str_node(exe));
    let e4 = set_entry(e3, ks, str_node(quoted_dir(start_dir)));
    let e5 = set_entry(e4, kl, str_node(launch_options));
    let e6 = set_entry(e5, ki, str_node(icon));
    law_lookup_after_set(e, ka, Node::Int(appid as i32), ka);
    law_lookup_after_set(e1, kn, str_node(name), ka);
    law_lookup_after_set(e1, kn, str_node(name), kn);
    law_lookup_after_set(e2, kx, str_node(exe), ka);
    law_lookup_after_set(e2, kx, str_node(exe), kn);
    law_lookup_after_set(e2, kx, str_node(exe), kx);
    law_lookup_after_set(e3, ks, str_node(quoted_dir(start_dir)), ka);
    law_lookup_after_set(e3, ks, str_node(quoted_dir(start_dir)), kn);
    law_lookup_after_set(e3, ks, str_node(quoted_dir(start_dir)), kx);
    law_lookup_after_set(e3, ks, str_node(quoted_dir(start_dir)), ks);
    law_lookup_after_set(e4, kl, str_node(launch_options), ka);
    law_lookup_after_set(e4, kl, str_node(launch_options), kn);
    law_lookup_after_set(e4, kl, str_node(launch_options), kx);
    law_lookup_after_set(e4, kl, str_node(launch_options), ks);
    law_lookup_after_set(e4, kl, str_node(launch_options), kl);
    law_lookup_after_set(e5, ki, str_node(icon), ka);
    law_lookup_after_set(e5, ki, str_node(icon), kn);
    law_lookup_after_set(e5, ki, str_node(icon), kx);
    law_lookup_after_set(e5, ki, str_node(icon), ks);
    law_lookup_after_set(e5, ki, str_node(icon), kl);
    law_lookup_after_set(e5, ki, str_node(icon), ki);
}

/// Filling an entry a second time with the same values (the icon at most where it was
/// written before) changes nothing.
proof fn lemma_fields_again(
    e: Seq<(Seq<u8>, Node)>,
    appid: u32,
    name: Seq<char>,
    exe: Seq<char>,
    start_dir: Seq<char>,
    launch_options: Seq<char>,
    icon: Seq<char>,
    s1: bool,
    s2: bool,
)
    requires
        s2 ==> s1,
    ensures
        ({
            let f = with_fields(e, appid, name, exe, start_dir, launch_options, icon, s1);
            with_fields(f, appid, name, exe, start_dir, launch_options, icon, s2) == f
        }),
{
    let f = with_fields(e, appid, name, exe, start_dir, launch_options, icon, s1);
    lemma_fields_read(e, appid, name, exe, start_dir, launch_options, icon, s1);
    lemma_set_unchanged(f, encode_utf8("appid"@), Node::Int(appid as i32));
    lemma_set_unchanged(f, encode_utf8("AppName"@), str_node(name));
    lemma_set_unchanged(f, encode_utf8("Exe"@), str_node(exe));
    lemma_set_unchanged(f, encode_utf8("StartDir"@), str_node(quoted_dir(start_dir)));
    lemma_set_unchanged(f, encode_utf8("LaunchOptions"@), str_node(launch_options));
    if s2 {
        lemma_set_unchanged(f, encode_utf8("icon"@), str_node(icon));
    }
}

proof fn lemma_find_shortcut_at(es: Seq<(Seq<u8>, Node)>, appid: u32, i: int, t: int)
    requires
        0 <= i <= t < es.len(),
        node_appid(es[t].1) == Some(appid),
        forall|j: int| i <= j < t ==> node_appid(#[trigger] es[j].1) != Some(appid),
    ensures
        find_shortcut(es, appid, i) == Some(t),
    decreases t - i,
{
    if i < t {
        lemma_find_shortcut_at(es, appid, i + 1, t);
    }
}

proof fn lemma_find_shortcut_none(es: Seq<(Seq<u8>, Node)>, appid: u32, i: int)
    requires
        0 <= i,
        forall|j: int| i <= j < es.len() ==> node_appid(#[trigger] es[j].1) != Some(appid),
    ensures
        find_shortcut(es, appid, i) is None,
    decreases es.len() - i,
{
    if i < es.len() {
        lemma_find_shortcut_none(es, appid, i + 1);
    }
}

/// Where the game's entry is in the list after [`upserted_list`].
pub open spec fn upsert_index(l: Seq<(Seq<u8>, Node)>, appid: u32) -> int {
    match find_shortcut(l, appid, 0) {
        Some(i) => i,
        None => l.len() as int,
    }
}

/// Adding or updating the game's shortcut puts an entry for `appid` with the given name,
/// exe, start directory and launch options at the first place a lookup by app id finds;
/// every other entry keeps its value and place, and keeps its key too unless an entry
/// was added (the list is then renumbered).
pub proof fn law_upsert_places_entry(
    root: Seq<(Seq<u8>, Node)>,
    appid: u32,
    name: Seq<char>,
    exe: Seq<char>,
    start_dir: Seq<char>,
    launch_options: Seq<char>,
    icon: Seq<char>,
)
    ensures
        ({
            let (r1, created) = upserted(root, appid, name, exe, start_dir, launch_options, icon);
            let l = shortcut_list(root);
            let l2 = shortcut_list(r1);
            let t = upsert_index(l, appid);
            let e = obj_entries(l2[t].1);
            &&& created <==> find_shortcut(l, appid, 0) is None
            &&& find_shortcut(l2, appid, 0) == Some(t)
            &&& l2[t].1 is Obj
            &&& lookup(e, encode_utf8("appid"@)) == Some(Node::Int(appid as i32))
            &&& lookup(e, encode_utf8("AppName"@)) == Some(str_node(name))
            &&& lookup(e, encode_utf8("Exe"@)) == Some(str_node(exe))
            &&& lookup(e, encode_utf8("StartDir"@)) == Some(str_node(quoted_dir(start_dir)))
            &&& lookup(e, encode_utf8("LaunchOptions"@)) == Some(str_node(launch_options))
            &&& l2.len() == if created { l.len() + 1 } else { l.len() }
            &&& forall|j: int| 0 <= j < l.len() && j != t ==> (#[trigger] l2[j]).1 == l[j].1
            &&& !created ==> forall|j: int| 0 <= j < l.len() && j != t ==> #[trigger] l2[j] == l[j]
        }),
{
    let l = shortcut_list(root);
    let (l2, created) = upserted_list(l, appid, name, exe, start_dir, launch_options, icon);
    let k = encode_utf8("shortcuts"@);
    let r1 = set_entry(root, k, Node::Obj(l2));
    law_lookup_after_set(root, k, Node::Obj(l2), k);
    assert(shortcut_list(r1) == l2);
    lemma_find_shortcut_found(l, appid, 0);
    let t = upsert_index(l, appid);
    match find_shortcut(l, appid, 0) {
        Some(i) => {
            lemma_fields_read(obj_entries(l[i].1), appid, name, exe, start_dir, launch_options, icon, icon.len() > 0);
        },
        None => {
            lemma_fields_read(new_entry_spec(), appid, name, exe, start_dir, launch_options, icon, true);
        },
    }
    let e = obj_entries(l2[t].1);
    assert(((appid as i32) as u32) == appid) by (bit_vector);
    assert(node_appid(l2[t].1) == Some(appid));
    assert forall|j: int| 0 <= j < t implies node_appid(#[trigger] l2[j].1) != Some(appid) by {
        assert(l2[j].1 == l[j].1);
    }
    lemma_find_shortcut_at(l2, appid, 0, t);
}

/// Adding or updating the game's shortcut a second time with the same values changes
/// nothing and adds nothing.
pub proof fn law_upsert_idempotent(
    root: Seq<(Seq<u8>, Node)>,
    appid: u32,
    name: Seq<char>,
    exe: Seq<char>,
    start_dir: Seq<char>,
    launch_options: Seq<char>,
    icon: Seq<char>,
)
    ensures
        ({
            let r1 = upserted(root, appid, name, exe, start_dir, launch_options, icon).0;
            upserted(r1, appid, name, exe, start_dir, launch_options, icon) == (r1, false)
        }),
{
    let l = shortcut_list(root);
    let (l2, created) = upserted_list(l, appid, name, exe, start_dir, launch_options, icon);
    let k = encode_utf8("shortcuts"@);
    let r1 = set_entry(root, k, Node::Obj(l2));
    law_upsert_places_entry(root, appid, name, exe, start_dir, launch_options, icon);
    law_lookup_after_set(root, k, Node::Obj(l2), k);
    let t = upsert_index(l, appid);
    lemma_find_shortcut_found(l, appid, 0);
    match find_shortcut(l, appid, 0) {
        Some(i) => {
            let e0 = obj_entries(l[i].1);
            let f = with_fields(e0, appid, name, exe, start_dir, launch_options, icon, icon.len() > 0);
            assert(l2[t].1 == Node::Obj(f));
            lemma_fields_again(e0, appid, name, exe, start_dir, launch_options, icon, icon.len() > 0, icon.len() > 0);
        },
        None => {
            let f = with_fields(new_entry_spec(), appid, name, exe, start_dir, launch_options, icon, true);
            assert(l2[t].1 == Node::Obj(f));
            lemma_fields_again(new_entry_spec(), appid, name, exe, start_dir, launch_options, icon, true, icon.len() > 0);
        },
    }
    let (l3, c2) = upserted_list(l2, appid, name, exe, start_dir, launch_options, icon);
    assert(l3 =~= l2);
    lemma_set_unchanged(r1, k, Node::Obj(l2));
}

proof fn lemma_without_appid(es: Seq<(Seq<u8>, Node)>, appid: u32)
    ensures
        forall|j: int| 0 <= j < without_appid(es, appid).len() ==> node_appid(
            #[trigger] without_appid(es, appid)[j].1,
        ) != Some(appid),
    decreases es.len(),
{
    if es.len() > 0 {
        lemma_without_appid(es.drop_last(), appid);
    }
}

/// After removing the game's shortcut no entry holds its app id, and the other entries
/// are kept in order with their values, keyed "0", "1", ...
pub proof fn law_removed_absent(root: Seq<(Seq<u8>, Node)>, appid: u32)
    ensures
        find_shortcut(shortcut_list(removed(root, appid)), appid, 0) is None,
        shortcut_list(removed(root, appid)) == renumbered(without_appid(shortcut_list(root), appid)),
{
    let k = encode_utf8("shortcuts"@);
    let l2 = renumbered(without_appid(shortcut_list(root), appid));
    law_lookup_after_set(root, k, Node::Obj(l2), k);
    lemma_without_appid(shortcut_list(root), appid);
    assert forall|j: int| 0 <= j < l2.len() implies node_appid(#[trigger] l2[j].1) != Some(appid) by {
        assert(l2[j].1 == without_appid(shortcut_list(root), appid)[j].1);
    }
    lemma_find_shortcut_none(l2, appid, 0);
}

} // verus!
