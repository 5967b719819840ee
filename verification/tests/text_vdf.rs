use yaccgl_core::steam::text_vdf::{parse, serialize, Obj, Value};

const CONFIG: &str = "\"InstallConfigStore\"\n{\n\t\"Software\"\n\t{\n\t\t\"valve\"\n\t\t{\n\t\t\t\"Steam\"\n\t\t\t{\n\t\t\t\t\"BaseInstallFolder_1\"\t\t\"/run/media/deck/SD\"\n\t\t\t\t\"CompatToolMapping\"\n\t\t\t\t{\n\t\t\t\t\t\"0\"\n\t\t\t\t\t{\n\t\t\t\t\t\t\"name\"\t\t\"proton_experimental\"\n\t\t\t\t\t\t\"config\"\t\t\"\"\n\t\t\t\t\t\t\"priority\"\t\t\"75\"\n\t\t\t\t\t}\n\t\t\t\t}\n\t\t\t}\n\t\t}\n\t}\n}\n";

#[test]
fn round_trips_steam_formatting() {
    let parsed = parse(CONFIG).unwrap();
    assert_eq!(serialize(&parsed), CONFIG);
}

#[test]
fn case_insensitive_navigation() {
    let root = parse(CONFIG).unwrap();
    let steam = root
        .get_obj("installconfigstore")
        .and_then(|o| o.get_obj("Software"))
        .and_then(|o| o.get_obj("Valve"))
        .and_then(|o| o.get_obj("steam"))
        .unwrap();
    assert_eq!(steam.get_str("basEinstallfolder_1"), Some("/run/media/deck/SD"));
}

#[test]
fn escapes_comments_and_conditionals() {
    let src = "// comment\n\"a\" { \"p\" \"C:\\\\x \\\"q\\\"\" [$WIN32] \"b\" \"1\" }";
    let root = parse(src).unwrap();
    let a = root.get_obj("a").unwrap();
    assert_eq!(a.get_str("p"), Some("C:\\x \"q\""));
    assert_eq!(a.get_str("b"), Some("1"));
    let again = parse(&serialize(&root)).unwrap();
    assert_eq!(again, root);
}

#[test]
fn rejects_garbage() {
    assert!(parse("\"a\" { \"b\" ").is_err());
    assert!(parse("}").is_err());
}

#[test]
fn text_errors_name_the_problem() {
    assert_eq!(parse("\"a\" {").unwrap_err(), "unexpected end of file");
    assert_eq!(parse("}").unwrap_err(), "unexpected brace at byte 1");
    assert_eq!(parse("\"a").unwrap_err(), "unterminated string");
    assert_eq!(parse("\"a\\").unwrap_err(), "unterminated escape");
    assert_eq!(parse("\"k\" }").unwrap_err(), "missing value for key \"k\"");
    assert_eq!(parse("\"a\" \"é\" {").unwrap_err(), "unexpected brace at byte 10");
}

#[test]
fn set_remove_and_lookup() {
    let mut root = Obj::default();
    root.set_str("Key", "1");
    root.set("Other", Value::Str("2".to_string()));
    root.set_str("key", "3");
    assert_eq!(root.get_str("KEY"), Some("3"));
    assert_eq!(root.0[0].0, "Key");
    assert!(matches!(root.remove("kEy"), Some(Value::Str(s)) if s == "3"));
    assert_eq!(root.get_str("key"), None);
    assert_eq!(root.get_str("other"), Some("2"));
    assert!(root.remove("key").is_none());
}

#[test]
fn text_objects_parse_back() {
    let mut root = Obj::default();
    root.obj_mut("a").set_str("quote\"d", "back\\slash");
    root.set_str("b", "");
    let again = parse(&serialize(&root)).unwrap();
    assert_eq!(again, root);
}
