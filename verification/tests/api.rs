use yaccgl_core::api::{lenient_u64_text, parse_envelope, Envelope, GamePackage, PackageExt};
use yaccgl_core::error::Error;

// Trimmed real response from 2026-09-21.
const SAMPLE: &str = r#"{"code":0,"data":{"platfrom":{"id":2389},"primitive_game":{"id":2402,"md5":"76b8cdf4b45418ea6ef3c8d6404e656e","version_number":"1.0.0.3","version_code":0,"package_name":"","url":"https:\/\/worldx-global-pc-cdn.kingsgroupgames.com\/pc-client-launcher\/worldx_global|primitive\/prod\/package_new\/76b8cdf4b45418ea6ef3c8d6404e656e.7z","back_url":"https:\/\/worldx-global-pc-cdn-backup.kingsgroupgames.com\/pc-client-launcher\/worldx_global|primitive\/prod\/package_new\/76b8cdf4b45418ea6ef3c8d6404e656e.7z","7z_url":"","7z_package_file_size":null,"package_file_size":"40880880831","update_status":1,"exe_start_name":"Aniimo.exe","ext":{"7z_file_size":340386629},"limit_new":0},"ts":1790014540},"msg":"SUCCESS"}"#;

fn size_of(v: &serde_json::Value) -> Option<u64> {
    match v {
        serde_json::Value::Number(n) => n.as_u64(),
        serde_json::Value::String(s) => lenient_u64_text(s),
        _ => None,
    }
}

fn package_of(v: &serde_json::Value) -> GamePackage {
    let text = |k: &str| v.get(k).and_then(|x| x.as_str()).unwrap_or_default().to_string();
    GamePackage {
        id: v["id"].as_u64().unwrap(),
        version_number: text("version_number"),
        md5: text("md5"),
        url: text("url"),
        back_url: text("back_url"),
        exe_start_name: text("exe_start_name"),
        package_file_size: size_of(&v["package_file_size"]),
        ext: PackageExt { archive_size: size_of(&v["ext"]["7z_file_size"]) },
    }
}

fn envelope_of(src: &str) -> Envelope<GamePackage> {
    let v: serde_json::Value = serde_json::from_str(src).unwrap();
    Envelope {
        code: v["code"].as_i64().unwrap(),
        msg: v["msg"].as_str().unwrap_or_default().to_string(),
        data: v.get("data").filter(|d| !d.is_null()).map(|d| package_of(&d["primitive_game"])),
    }
}

#[test]
fn parses_version_list() {
    let game = parse_envelope(envelope_of(SAMPLE)).unwrap();
    assert_eq!(game.id, 2402);
    assert_eq!(game.version_number, "1.0.0.3");
    assert_eq!(game.package_file_size, Some(40_880_880_831));
    assert_eq!(game.ext.archive_size, Some(340_386_629));
    assert_eq!(game.exe_name(), "Aniimo.exe");
    let urls = game.download_urls();
    assert_eq!(urls.len(), 2);
    assert!(urls[0].contains("worldx_global%7Cprimitive"));
    assert!(urls[1].contains("cdn-backup"));
}

#[test]
fn api_error_is_reported() {
    let env = envelope_of(r#"{"code":1001,"msg":"bad project","data":null}"#);
    assert!(matches!(parse_envelope(env), Err(Error::Api(m)) if m.contains("bad project")));
}

#[test]
fn api_error_text_and_defaults() {
    let env: Envelope<u8> = Envelope { code: -3, msg: "x".into(), data: Some(1) };
    assert!(matches!(parse_envelope(env), Err(Error::Api(m)) if m == "code -3: x"));
    let env: Envelope<u8> = Envelope { code: 0, msg: String::new(), data: None };
    assert!(matches!(parse_envelope(env), Err(Error::Api(m)) if m == "code 0: "));
    assert_eq!(lenient_u64_text(" 12 "), Some(12));
    assert_eq!(lenient_u64_text("x"), None);
    let p = GamePackage {
        id: 1,
        version_number: String::new(),
        md5: String::new(),
        url: String::new(),
        back_url: "a|b".into(),
        exe_start_name: String::new(),
        package_file_size: None,
        ext: PackageExt::default(),
    };
    assert_eq!(p.exe_name(), "Aniimo.exe");
    assert_eq!(p.download_urls(), vec!["a%7Cb".to_string()]);
}
