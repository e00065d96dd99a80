use spead::json::from_json_string;
use spead::json::to_json_string;
use spead::value::Value;

fn obj(pairs: Vec<(&str, Value)>) -> Value {
    Value::Object(pairs.into_iter().map(|(k, v)| (k.to_string(), v)).collect())
}

#[test]
fn serialises_compactly() {
    let doc = obj(vec![
        ("a", Value::Number("-1.5".to_string())),
        ("b", Value::Array(vec![Value::Null, Value::Bool(true), Value::Bool(false)])),
        ("c", Value::Text("hi".to_string())),
    ]);
    assert_eq!(to_json_string(&doc), "{\"a\":-1.5,\"b\":[null,true,false],\"c\":\"hi\"}");
}

#[test]
fn parse_restores_a_serialised_document() {
    let doc = obj(vec![
        ("q", Value::Text("say \"hi\" \\ there".to_string())),
        ("empty", Value::Text(String::new())),
        ("nested", obj(vec![("k", Value::Array(vec![Value::Number("0.25".to_string())]))])),
        ("none", obj(vec![])),
        ("list", Value::Array(vec![])),
    ]);
    let text = to_json_string(&doc);
    let back = from_json_string(&text).unwrap();
    assert_eq!(to_json_string(&back), text);
    assert!(matches!(back, Value::Object(_)));
}

#[test]
fn parse_rejects_malformed_text() {
    for bad in ["", "{", "[1,", "{\"a\":}", "tru", "1.", "\"unterminated", "{}x"] {
        assert!(from_json_string(bad).is_none(), "accepted: {bad}");
    }
}

#[test]
fn parse_reads_numbers_exactly() {
    let back = from_json_string("[-12.50,0,7]").unwrap();
    match back {
        Value::Array(vs) => {
            match &vs[0] {
                Value::Number(s) => assert_eq!(s, "-12.50"),
                _ => panic!("kind"),
            }
            match &vs[1] {
                Value::Number(s) => assert_eq!(s, "0"),
                _ => panic!("kind"),
            }
        },
        _ => panic!("kind"),
    }
}
