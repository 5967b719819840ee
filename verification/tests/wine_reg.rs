use yaccgl_core::steam::wine_reg::RegFile;

const SAMPLE: &str = "WINE REGISTRY Version 2\n;; All keys relative to \\\\User\\\\S-1-5-21-0-0-0-1000\n\n#arch=win64\n\n[Control Panel\\\\Desktop] 1700000000\n#time=1da0000000000\n\"FontSmoothing\"=\"2\"\n\n[Software\\\\Wine\\\\Explorer] 1700000000\n#time=1da0000000000\n\"Desktop\"=\"Other\"\n\n[Software\\\\Wine\\\\Explorer\\\\Desktops] 1700000000\n\"Other\"=\"800x600\"\n";

#[test]
fn untouched_file_round_trips() {
    assert_eq!(RegFile::parse(SAMPLE).serialize(), SAMPLE);
}

#[test]
fn reads_and_updates_existing_values() {
    let mut r = RegFile::parse(SAMPLE);
    assert_eq!(r.get("Software\\Wine\\Explorer", "Desktop").as_deref(), Some("Other"));
    // Section names match exactly, not by prefix.
    assert_eq!(r.get("Software\\Wine\\Explorer\\Desktops", "Desktop"), None);
    r.set("Software\\Wine\\Explorer", "Desktop", "Default");
    r.set("Software\\Wine\\Explorer\\Desktops", "Default", "1280x800");
    let out = r.serialize();
    assert!(out.contains("[Software\\\\Wine\\\\Explorer] 1700000000\n#time=1da0000000000\n\"Desktop\"=\"Default\"\n"));
    assert!(out.contains("\"Other\"=\"800x600\"\n\"Default\"=\"1280x800\"\n"));
    assert!(out.contains("\"FontSmoothing\"=\"2\""));
}

#[test]
fn creates_missing_keys_and_removes_values() {
    let mut r = RegFile::parse("WINE REGISTRY Version 2\n\n[Control Panel\\\\Desktop] 1\n\"A\"=\"b\"\n");
    r.set("Software\\Wine\\Explorer", "Desktop", "Default");
    let reparsed = RegFile::parse(&r.serialize());
    assert_eq!(reparsed.get("Software\\Wine\\Explorer", "Desktop").as_deref(), Some("Default"));
    assert!(r.serialize().contains("\n\n[Software\\\\Wine\\\\Explorer] "));

    assert!(r.remove("software\\wine\\explorer", "desktop"));
    assert!(!r.remove("Software\\Wine\\Explorer", "Desktop"));
    assert_eq!(r.get("Software\\Wine\\Explorer", "Desktop"), None);
}

#[test]
fn escapes_values() {
    let mut r = RegFile::parse("");
    r.set("K", "path", "C:\\x \"y\"");
    assert!(r.serialize().contains(r#""path"="C:\\x \"y\"""#));
    assert_eq!(r.get("K", "path").as_deref(), Some("C:\\x \"y\""));
}

#[test]
fn new_key_is_stamped_with_the_given_time() {
    let mut r = RegFile::parse("[A] 1\n\"x\"=\"y\"\n");
    r.set_with_time("B\\C", "n", "v", 1234);
    assert_eq!(r.serialize(), "[A] 1\n\"x\"=\"y\"\n\n[B\\\\C] 1234\n\"n\"=\"v\"\n");
}

#[test]
fn new_value_goes_after_the_last_non_blank_line_of_its_section() {
    let mut r = RegFile::parse("[A] 1\n\"x\"=\"y\"\n\n[B] 2\n");
    r.set_with_time("A", "z", "w", 9);
    assert_eq!(r.serialize(), "[A] 1\n\"x\"=\"y\"\n\"z\"=\"w\"\n\n[B] 2\n");
}

#[test]
fn carriage_returns_are_dropped_and_a_final_newline_added() {
    let r = RegFile::parse("[A] 1\r\n\"x\"=\"y\"");
    assert_eq!(r.serialize(), "[A] 1\n\"x\"=\"y\"\n");
    assert_eq!(r.get("a", "X").as_deref(), Some("y"));
}

#[test]
fn removed_value_reads_back_as_missing_and_neighbours_stay() {
    let mut r = RegFile::parse("[K] 1\n\"A\"=\"1\"\n\"B\"=\"2\"\n[L] 2\n\"A\"=\"3\"\n");
    assert!(r.remove("k", "a"));
    assert_eq!(r.get("K", "A"), None);
    assert_eq!(r.get("K", "B").as_deref(), Some("2"));
    assert_eq!(r.get("L", "A").as_deref(), Some("3"));
    assert_eq!(r.serialize(), "[K] 1\n\"B\"=\"2\"\n[L] 2\n\"A\"=\"3\"\n");
}

#[test]
fn setting_one_value_leaves_other_names_under_the_key() {
    let mut r = RegFile::parse("[K] 1\n\"A\"=\"1\"\n\"B\"=\"2\"\n");
    r.set("K", "a", "C:\\x \"y\"");
    assert_eq!(r.get("K", "A").as_deref(), Some("C:\\x \"y\""));
    assert_eq!(r.get("K", "B").as_deref(), Some("2"));
    r.set("K", "New", "3");
    assert_eq!(r.get("K", "b").as_deref(), Some("2"));
    assert_eq!(r.get("K", "new").as_deref(), Some("3"));
}

#[test]
fn setting_under_a_path_in_other_case_leaves_other_names() {
    let mut r = RegFile::parse("[Software\\\\Wine] 1\n\"A\"=\"1\"\n\"B\"=\"2\"\n");
    r.set("software\\wine", "a", "x");
    assert_eq!(r.get("SOFTWARE\\WINE", "B").as_deref(), Some("2"));
    assert_eq!(r.get("Software\\Wine", "A").as_deref(), Some("x"));
}
