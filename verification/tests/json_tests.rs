use neurogit::json::{json_string, json_uint, member, object1, object2, Json, JsonNumber};

fn to_value(j: &Json) -> serde_json::Value {
    match j {
        Json::Null => serde_json::Value::Null,
        Json::Bool(b) => serde_json::Value::Bool(*b),
        Json::Number(JsonNumber::PosInt(n)) => serde_json::Value::from(*n),
        Json::Number(JsonNumber::NegInt(n)) => serde_json::Value::from(*n),
        Json::Number(JsonNumber::Float(t)) => serde_json::from_str(t).unwrap(),
        Json::Str(s) => serde_json::Value::String(s.clone()),
        Json::Array(items) => serde_json::Value::Array(items.iter().map(to_value).collect()),
        Json::Object(members) => {
            let mut m = serde_json::Map::new();
            for (k, v) in members {
                m.insert(k.clone(), to_value(v));
            }
            serde_json::Value::Object(m)
        }
    }
}

fn sample() -> Json {
    Json::Object(vec![
        ("a".to_string(), Json::Str("x\"y\\z\n\t\u{1}\u{1f}\u{7f}é\u{8}\u{c}\r".to_string())),
        (
            "b".to_string(),
            Json::Array(vec![
                Json::Null,
                Json::Bool(true),
                Json::Bool(false),
                Json::Number(JsonNumber::PosInt(18446744073709551615)),
                Json::Number(JsonNumber::NegInt(-9223372036854775808)),
                Json::Number(JsonNumber::NegInt(-3)),
                Json::Number(JsonNumber::Float("1.5".to_string())),
            ]),
        ),
        ("c".to_string(), Json::Object(vec![])),
        ("d".to_string(), Json::Array(vec![])),
    ])
}

#[test]
fn text_is_what_serde_json_writes() {
    let j = sample();
    let expected = to_value(&j).to_string();
    assert_eq!(j.to_text(), expected);
    assert_eq!(
        j.to_text(),
        "{\"a\":\"x\\\"y\\\\z\\n\\t\\u0001\\u001f\u{7f}é\\b\\f\\r\",\"b\":[null,true,false,18446744073709551615,-9223372036854775808,-3,1.5],\"c\":{},\"d\":[]}"
    );
}

#[test]
fn string_text_escapes_quotes_and_controls() {
    assert_eq!(json_string("say \"hi\"").to_text(), "\"say \\\"hi\\\"\"");
    assert_eq!(json_string("").to_text(), "\"\"");
    assert_eq!(json_string("\u{0}").to_text(), "\"\\u0000\"");
    assert_eq!(json_uint(0).to_text(), "0");
}

#[test]
fn lookups_read_members_and_items() {
    let j = sample();
    assert!(j.get("b").unwrap().is_array());
    assert_eq!(j.get("b").unwrap().as_array().unwrap().len(), 7);
    assert_eq!(j.get("b").unwrap().item(3).unwrap().as_u64(), Some(18446744073709551615));
    assert_eq!(j.get("b").unwrap().item(5).unwrap().as_u64(), None);
    assert!(j.get("b").unwrap().item(7).is_none());
    assert_eq!(j.get("zz").is_none(), true);
    assert_eq!(j.get("a").unwrap().as_str().is_some(), true);
    assert_eq!(Json::Null.get("a").is_none(), true);
    assert_eq!(json_uint(5).as_str(), None);
    assert!(!Json::Null.is_array());
}

#[test]
fn first_member_with_a_key_is_found() {
    let j = Json::Object(vec![
        ("k".to_string(), json_uint(1)),
        ("k".to_string(), json_uint(2)),
    ]);
    assert_eq!(j.get("k").unwrap().as_u64(), Some(1));
}

#[test]
fn builders_make_objects_in_order() {
    let j = object2(member("a", json_uint(1)), member("b", object1(member("c", json_string("d")))));
    assert_eq!(j.to_text(), "{\"a\":1,\"b\":{\"c\":\"d\"}}");
    let copy = j.deep_clone();
    assert_eq!(copy.to_text(), j.to_text());
}
