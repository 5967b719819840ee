use yaccgl_core::steam::binary_vdf::{parse, serialize, Obj, Value};

fn sample() -> Vec<u8> {
    let mut d = Vec::new();
    d.extend_from_slice(b"\x00shortcuts\x00");
    d.extend_from_slice(b"\x000\x00");
    d.extend_from_slice(b"\x02appid\x00\x15\xcd\x5b\x87");
    d.extend_from_slice(b"\x01AppName\x00Some Game\x00");
    d.extend_from_slice(b"\x01Exe\x00\"/usr/bin/game\"\x00");
    d.extend_from_slice(b"\x07Weird\x00\x01\x02\x03\x04\x05\x06\x07\x08");
    d.extend_from_slice(b"\x00tags\x00\x010\x00favorite\x00\x08");
    d.extend_from_slice(b"\x08");
    d.extend_from_slice(b"\x08\x08");
    d
}

#[test]
fn round_trips_byte_for_byte() {
    let data = sample();
    let root = parse(&data).unwrap();
    assert_eq!(serialize(&root), data);
}

#[test]
fn reads_fields() {
    let root = parse(&sample()).unwrap();
    let entry = root.get_obj("shortcuts").unwrap().get_obj("0").unwrap();
    assert_eq!(entry.get_str("appname").as_deref(), Some("Some Game"));
    assert_eq!(entry.get_int("appid"), Some(0x875bcd15u32 as i32));
    assert_eq!(entry.get_obj("tags").unwrap().get_str("0").as_deref(), Some("favorite"));
}

#[test]
fn empty_file_is_empty_root() {
    assert_eq!(parse(&[]).unwrap(), Obj::default());
}

#[test]
fn rejects_truncated() {
    assert!(parse(b"\x00shortcuts\x00\x02appid\x00\x01").is_err());
}

#[test]
fn missing_final_terminator_is_tolerated() {
    let root = parse(b"\x01a\x00b\x00").unwrap();
    assert_eq!(root.get_str("A").as_deref(), Some("b"));
}

#[test]
fn binary_errors_name_the_problem() {
    assert_eq!(parse(b"\x00x\x00").unwrap_err(), "unexpected end of data");
    assert_eq!(parse(b"\x02n\x00\x01\x02").unwrap_err(), "truncated value");
    assert_eq!(parse(b"\x01s\x00abc").unwrap_err(), "unterminated string");
    assert_eq!(parse(b"\x09k\x00").unwrap_err(), "unknown value type 0x09 at byte 3");
}

#[test]
fn binary_objects_parse_back() {
    let mut root = Obj::default();
    root.set_str("Name", "x");
    root.set_int("n", -5);
    root.obj_mut("inner").set_str("k", "v");
    root.set("raw", Value::Raw(0x07, vec![1, 2, 3, 4, 5, 6, 7, 8]));
    let again = parse(&serialize(&root)).unwrap();
    assert_eq!(again, root);
}

#[test]
fn set_replaces_first_match_in_place_and_keeps_its_spelling() {
    let mut root = Obj::default();
    root.set_str("AppName", "a");
    root.set_str("other", "b");
    root.set_str("appname", "c");
    assert_eq!(root.0.len(), 2);
    assert_eq!(root.0[0].0, b"AppName".to_vec());
    assert_eq!(root.get_str("APPNAME").as_deref(), Some("c"));
    assert_eq!(root.get_str("other").as_deref(), Some("b"));
}

#[test]
fn obj_mut_replaces_a_non_object() {
    let mut root = Obj::default();
    root.set_int("tags", 3);
    root.obj_mut("tags").set_str("0", "x");
    assert_eq!(root.get_obj("tags").unwrap().get_str("0").as_deref(), Some("x"));
    assert_eq!(root.0.len(), 1);
}
