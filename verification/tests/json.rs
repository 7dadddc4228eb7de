use elten_scraper::json::{Json, JsonObject};

#[test]
fn what_is_written_reads_back() {
    let text = r#"{"a":[null,true,-3,18446744073709551615,1.25,"x\"y\u0001ż"],"b":{}}"#;
    let v = Json::parse(text).unwrap();
    assert_eq!(v.encode(), text.replace("\\u0001", "\\u0001"));
    let again = Json::parse(&v.encode()).unwrap();
    assert_eq!(again.encode(), v.encode());
}

#[test]
fn members_are_found_by_name() {
    let v = Json::parse(r#"{"a": 1, "b": "two", "a": 3}"#).unwrap();
    assert!(matches!(v.get("a"), Some(Json::Int(3))));
    assert!(matches!(v.get("b"), Some(Json::Str(s)) if s == "two"));
    assert!(v.get("c").is_none());
    assert!(Json::parse("[1]").unwrap().get("a").is_none());
}

#[test]
fn objects_are_built_member_by_member() {
    let mut o = JsonObject::new();
    o.insert("k".to_string(), Json::Int(1));
    o.insert("k".to_string(), Json::Bool(true));
    assert!(o.is_only("k"));
    o.insert("l".to_string(), Json::Null);
    assert!(!o.is_only("k"));
    assert_eq!(Json::Object(o).encode(), r#"{"k":true,"l":null}"#);
}

#[test]
fn numbers_keep_their_kind() {
    assert!(matches!(Json::parse("-5").unwrap(), Json::Int(-5)));
    assert!(matches!(Json::parse("9223372036854775807").unwrap(), Json::Int(i64::MAX)));
    assert!(matches!(
        Json::parse("9223372036854775808").unwrap(),
        Json::UInt(9223372036854775808)
    ));
    match Json::parse("-2.75").unwrap() {
        Json::Float(f) => assert_eq!(f.whole(), -2),
        other => panic!("{other:?}"),
    }
    assert_eq!(Json::parse("1e2").unwrap().encode(), "100.0");
}

#[test]
fn what_is_not_json_is_explained() {
    let e = Json::parse("{").unwrap_err();
    assert_eq!(e.detail, "EOF while parsing an object at line 1 column 1");
    assert!(Json::parse("").is_err());
    assert!(Json::parse("1 2").is_err());
}

#[test]
fn pretty_text_is_indented() {
    let v = Json::parse(r#"{"b":[1],"a":"x"}"#).unwrap();
    assert_eq!(
        v.encode_pretty().unwrap(),
        "{\n  \"a\": \"x\",\n  \"b\": [\n    1\n  ]\n}"
    );
}

#[test]
fn copies_are_equal() {
    let text = r#"{"a":[null,true,-3,1.25,"x"],"b":{"c":{}}}"#;
    let v = Json::parse(text).unwrap();
    assert_eq!(v.copy().encode(), text);
    assert_eq!(v.clone().encode(), text);
}
