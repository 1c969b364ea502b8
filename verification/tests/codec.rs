use nl_core::json::{encode_instance, parse_instance, ParseError};
use nl_core::record::InstanceConfig;

fn record(name: &str, path: &str, ty: &str, desc: &str) -> InstanceConfig {
    InstanceConfig::new(
        name.to_string(),
        path.to_string(),
        ty.to_string(),
        desc.to_string(),
    )
}

fn assert_round_trip(r: &InstanceConfig) {
    let doc = encode_instance(r);
    let back = parse_instance(&doc).expect("encoded document must parse");
    assert_eq!(back.instance_name, r.instance_name);
    assert_eq!(back.instance_path, r.instance_path);
    assert_eq!(back.instance_type, r.instance_type);
    assert_eq!(back.description, r.description);
}

#[test]
fn round_trip_plain() {
    assert_round_trip(&record(
        "Test Game",
        "/usr/bin/test-game",
        "linux-native",
        "a plain record",
    ));
}

#[test]
fn round_trip_empty_fields() {
    assert_round_trip(&record("", "", "", ""));
}

#[test]
fn round_trip_quotes_and_backslashes() {
    assert_round_trip(&record(
        "He said \"go\"",
        "C:\\Games\\Thing\\thing.exe",
        "wine",
        "quotes \" and \\ backslashes",
    ));
}

#[test]
fn round_trip_control_characters() {
    assert_round_trip(&record(
        "line\nbreak",
        "tab\there",
        "cr\rhere",
        "low controls \u{1} \u{8} \u{c} \u{1f}",
    ));
}

#[test]
fn round_trip_unicode() {
    assert_round_trip(&record("Épée ☺", "/häme/游戏", "wine", "déjà vu"));
}

#[test]
fn encoded_document_shape() {
    let doc = encode_instance(&record("A", "/b", "wine", ""));
    assert_eq!(
        doc,
        "{\n  \"instance_name\": \"A\",\n  \"instance_path\": \"/b\",\n  \"instance_type\": \"wine\",\n  \"description\": \"\"\n}"
    );
}

#[test]
fn parses_members_in_any_order() {
    let doc = "{\"description\":\"d\",\"instance_type\":\"wine\",\"instance_path\":\"/p\",\"instance_name\":\"n\"}";
    let r = parse_instance(doc).unwrap();
    assert_eq!(r.instance_name, "n");
    assert_eq!(r.instance_path, "/p");
    assert_eq!(r.instance_type, "wine");
    assert_eq!(r.description, "d");
}

#[test]
fn parses_extra_whitespace_and_unknown_members() {
    let doc = "  {\n\t\"instance_name\" : \"n\" ,\r\n \"extra\": \"ignored\",\n \"instance_path\": \"/p\",\n \"instance_type\": \"wine\",\n \"description\": \"\"\n}  ";
    let r = parse_instance(doc).unwrap();
    assert_eq!(r.instance_name, "n");
    assert_eq!(r.description, "");
}

#[test]
fn parses_standard_escapes() {
    let doc = "{\"instance_name\":\"a\\\"b\\\\c\\/d\\n\\t\\r\\b\\f\",\"instance_path\":\"\\u0001\",\"instance_type\":\"w\",\"description\":\"\"}";
    let r = parse_instance(doc).unwrap();
    assert_eq!(r.instance_name, "a\"b\\c/d\n\t\r\u{8}\u{c}");
    assert_eq!(r.instance_path, "\u{1}");
}

#[test]
fn first_member_wins_on_duplicate_key() {
    let doc = "{\"instance_name\":\"first\",\"instance_name\":\"second\",\"instance_path\":\"/p\",\"instance_type\":\"w\",\"description\":\"\"}";
    let r = parse_instance(doc).unwrap();
    assert_eq!(r.instance_name, "first");
}

#[test]
fn rejects_invalid_json() {
    assert_eq!(parse_instance("not json at all"), Err(ParseError::Syntax));
    assert_eq!(parse_instance(""), Err(ParseError::Syntax));
    assert_eq!(
        parse_instance("{\"instance_name\":\"x\""),
        Err(ParseError::Syntax)
    );
    assert_eq!(
        parse_instance("{\"instance_name\": 3}"),
        Err(ParseError::Syntax)
    );
    assert_eq!(
        parse_instance("{\"a\":\"b\"} trailing"),
        Err(ParseError::Syntax)
    );
}

#[test]
fn rejects_unescaped_control_character() {
    let doc = "{\"instance_name\":\"a\u{1}b\",\"instance_path\":\"\",\"instance_type\":\"\",\"description\":\"\"}";
    assert_eq!(parse_instance(doc), Err(ParseError::Syntax));
}

#[test]
fn reports_missing_fields() {
    assert_eq!(parse_instance("{}"), Err(ParseError::MissingField));
    assert_eq!(
        parse_instance("{\"instance_name\":\"n\",\"instance_path\":\"/p\",\"instance_type\":\"w\"}"),
        Err(ParseError::MissingField)
    );
}

#[test]
fn encoded_document_is_valid_json_for_serde() {
    let r = record(
        "Mixed \"quotes\"\n",
        "C:\\path\\x",
        "wine",
        "control \u{2} and é",
    );
    let doc = encode_instance(&r);
    let value: serde_json::Value = serde_json::from_str(&doc).expect("serde_json must accept it");
    assert_eq!(value["instance_name"].as_str().unwrap(), r.instance_name);
    assert_eq!(value["instance_path"].as_str().unwrap(), r.instance_path);
    assert_eq!(value["instance_type"].as_str().unwrap(), r.instance_type);
    assert_eq!(value["description"].as_str().unwrap(), r.description);
}

#[test]
fn parses_serde_generated_document() {
    let mut map = serde_json::Map::new();
    map.insert(
        "instance_name".to_string(),
        serde_json::Value::String("Tricky \"name\"\twith\nstuff".to_string()),
    );
    map.insert(
        "instance_path".to_string(),
        serde_json::Value::String("/opt/games/x".to_string()),
    );
    map.insert(
        "instance_type".to_string(),
        serde_json::Value::String("linux-native".to_string()),
    );
    map.insert(
        "description".to_string(),
        serde_json::Value::String("".to_string()),
    );
    let doc = serde_json::to_string_pretty(&serde_json::Value::Object(map)).unwrap();
    let r = parse_instance(&doc).unwrap();
    assert_eq!(r.instance_name, "Tricky \"name\"\twith\nstuff");
    assert_eq!(r.instance_path, "/opt/games/x");
    assert_eq!(r.instance_type, "linux-native");
    assert_eq!(r.description, "");
}

#[test]
fn rejects_unicode_escape_beyond_one_byte() {
    let doc = "{\"instance_name\":\"\\u0100\",\"instance_path\":\"\",\"instance_type\":\"\",\"description\":\"\"}";
    assert_eq!(parse_instance(doc), Err(ParseError::Syntax));
}

#[test]
fn accepts_latin_unicode_escape() {
    let doc = "{\"instance_name\":\"\\u0041\\u00e9\",\"instance_path\":\"\",\"instance_type\":\"\",\"description\":\"\"}";
    let r = parse_instance(doc).unwrap();
    assert_eq!(r.instance_name, "Aé");
}
