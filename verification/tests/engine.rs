use spead::error::Error;
use spead::json::to_json_string;
use spead::utils::KEY_LEN;
use spead::value::Value;
use spead::Spead;

fn text(s: &str) -> Value {
    Value::Text(s.to_string())
}

fn number(s: &str) -> Value {
    Value::Number(s.to_string())
}

fn obj(pairs: Vec<(&str, Value)>) -> Value {
    Value::Object(pairs.into_iter().map(|(k, v)| (k.to_string(), v)).collect())
}

fn doc_eq(a: &Value, b: &Value) -> bool {
    to_json_string(a) == to_json_string(b)
}

#[test]
fn simple_object_roundtrip() {
    let original = obj(vec![("x", number("42"))]);
    let mut doc = obj(vec![("x", number("42"))]);
    let engine = Spead::new().password("pw").unwrap();
    engine.encrypt(&mut doc).unwrap();
    match &doc {
        Value::Object(ps) => {
            assert_eq!(ps.len(), 1);
            assert_eq!(ps[0].0, "x");
            assert!(matches!(ps[0].1, Value::Number(_)));
        },
        _ => panic!("shape changed"),
    }
    assert!(!doc_eq(&doc, &original));
    let engine = Spead::new().password("pw").unwrap();
    engine.decrypt(&mut doc).unwrap();
    assert!(doc_eq(&doc, &original));
}

#[test]
fn fraction_keeps_numeric_syntax() {
    let mut doc = obj(vec![("v", number("3.1415"))]);
    let key: [u8; KEY_LEN] = rand::random();
    Spead::new().secret_key(key).encrypt(&mut doc).unwrap();
    let ct = match &doc {
        Value::Object(ps) => match &ps[0].1 {
            Value::Number(s) => s.clone(),
            _ => panic!("number leaf changed kind"),
        },
        _ => panic!("shape changed"),
    };
    let (left, right) = ct.split_once('.').unwrap();
    let body = left.strip_prefix('-').unwrap_or(left);
    assert!(body.chars().all(|c| c.is_ascii_digit()));
    assert!(right.chars().all(|c| c.is_ascii_digit()));
    assert!(!body.starts_with('0'));
    assert!(!right.ends_with('0'));
    let original = obj(vec![("v", number("3.1415"))]);
    Spead::new().secret_key(key).decrypt(&mut doc).unwrap();
    assert!(doc_eq(&doc, &original));
}

#[test]
fn string_keeps_its_length() {
    let mut doc = obj(vec![("s", text("hello"))]);
    let key: [u8; KEY_LEN] = rand::random();
    Spead::new().secret_key(key).encrypt(&mut doc).unwrap();
    match &doc {
        Value::Object(ps) => match &ps[0].1 {
            Value::Text(s) => {
                assert_eq!(s.chars().count(), 5);
                assert_ne!(s, "hello");
            },
            _ => panic!("string leaf changed kind"),
        },
        _ => panic!("shape changed"),
    }
    let original = obj(vec![("s", text("hello"))]);
    Spead::new().secret_key(key).decrypt(&mut doc).unwrap();
    assert!(doc_eq(&doc, &original));
}

#[test]
fn array_of_256_elements_roundtrips() {
    let build = || Value::Array((1..=256).map(|i: u32| number(&i.to_string())).collect());
    let original = build();
    let mut doc = build();
    let key: [u8; KEY_LEN] = rand::random();
    Spead::new().secret_key(key).encrypt(&mut doc).unwrap();
    match &doc {
        Value::Array(vs) => {
            assert_eq!(vs.len(), 256);
            assert!(vs.iter().all(|v| matches!(v, Value::Number(_))));
        },
        _ => panic!("shape changed"),
    }
    Spead::new().secret_key(key).decrypt(&mut doc).unwrap();
    assert!(doc_eq(&doc, &original));
}

#[test]
fn array_of_257_elements_is_a_schema_error() {
    let build = || Value::Array((0..257).map(|i: u32| number(&i.to_string())).collect());
    let original = build();
    let mut doc = build();
    let key: [u8; KEY_LEN] = rand::random();
    assert_eq!(Spead::new().secret_key(key).encrypt(&mut doc), Err(Error::Schema));
    assert!(doc_eq(&doc, &original));
}

#[test]
fn deep_object_collapses_to_a_string() {
    let original = obj(vec![("a", obj(vec![("b", obj(vec![("c", number("7"))]))]))]);
    let mut doc = obj(vec![("a", obj(vec![("b", obj(vec![("c", number("7"))]))]))]);
    let key: [u8; KEY_LEN] = rand::random();
    Spead::new().secret_key(key).max_depth(1).encrypt(&mut doc).unwrap();
    match &doc {
        Value::Object(ps) => {
            assert_eq!(ps[0].0, "a");
            assert!(matches!(ps[0].1, Value::Text(_)));
        },
        _ => panic!("shape changed"),
    }
    Spead::new().secret_key(key).max_depth(1).decrypt(&mut doc).unwrap();
    assert!(doc_eq(&doc, &original));
}

#[test]
fn zero_roundtrips_exactly() {
    let original = obj(vec![("n", number("0"))]);
    let mut doc = obj(vec![("n", number("0"))]);
    let key: [u8; KEY_LEN] = rand::random();
    Spead::new().secret_key(key).encrypt(&mut doc).unwrap();
    match &doc {
        Value::Object(ps) => match &ps[0].1 {
            Value::Number(s) => {
                let body = s.strip_prefix('-').unwrap_or(s);
                assert!(!body.starts_with('0'));
                assert!(body.chars().all(|c| c.is_ascii_digit()));
            },
            _ => panic!("number leaf changed kind"),
        },
        _ => panic!("shape changed"),
    }
    Spead::new().secret_key(key).decrypt(&mut doc).unwrap();
    assert!(doc_eq(&doc, &original));
}

#[test]
fn sign_survives_and_ciphertext_sign_is_uncorrelated() {
    let original = obj(vec![("n", number("-1"))]);
    let mut negatives = 0;
    for _ in 0..200 {
        let key: [u8; KEY_LEN] = rand::random();
        let mut doc = obj(vec![("n", number("-1"))]);
        Spead::new().secret_key(key).encrypt(&mut doc).unwrap();
        if let Value::Object(ps) = &doc {
            if let Value::Number(s) = &ps[0].1 {
                if s.starts_with('-') {
                    negatives += 1;
                }
            }
        }
        Spead::new().secret_key(key).decrypt(&mut doc).unwrap();
        assert!(doc_eq(&doc, &original));
    }
    assert!(negatives > 40 && negatives < 160, "sign heavily correlated: {negatives}/200");
}

#[test]
fn equal_leaves_at_distinct_positions_encrypt_differently() {
    let original = obj(vec![("a", text("hello1")), ("b", text("hello1"))]);
    let mut doc = obj(vec![("a", text("hello1")), ("b", text("hello1"))]);
    let key: [u8; KEY_LEN] = rand::random();
    Spead::new().secret_key(key).encrypt(&mut doc).unwrap();
    match &doc {
        Value::Object(ps) => {
            let a = match &ps[0].1 {
                Value::Text(s) => s.clone(),
                _ => panic!("kind"),
            };
            let b = match &ps[1].1 {
                Value::Text(s) => s.clone(),
                _ => panic!("kind"),
            };
            assert_ne!(a, b);
        },
        _ => panic!("shape changed"),
    }
    Spead::new().secret_key(key).decrypt(&mut doc).unwrap();
    assert!(doc_eq(&doc, &original));
}

#[test]
fn repeated_encryption_differs_but_both_decrypt() {
    let original = obj(vec![("n", number("12345"))]);
    let key: [u8; KEY_LEN] = rand::random();
    let mut first = obj(vec![("n", number("12345"))]);
    let mut second = obj(vec![("n", number("12345"))]);
    Spead::new().secret_key(key).encrypt(&mut first).unwrap();
    Spead::new().secret_key(key).encrypt(&mut second).unwrap();
    assert!(!doc_eq(&first, &second));
    Spead::new().secret_key(key).decrypt(&mut first).unwrap();
    Spead::new().secret_key(key).decrypt(&mut second).unwrap();
    assert!(doc_eq(&first, &original));
    assert!(doc_eq(&second, &original));
}

#[test]
fn wrong_key_fails_or_yields_a_different_document() {
    let original = obj(vec![("x", number("424242")), ("s", text("top secret"))]);
    let mut doc = obj(vec![("x", number("424242")), ("s", text("top secret"))]);
    let enc = Spead::new().password("pw").unwrap();
    enc.encrypt(&mut doc).unwrap();
    let dec = Spead::new().password("pw2").unwrap();
    match dec.decrypt(&mut doc) {
        Err(e) => assert_eq!(e, Error::Encoding),
        Ok(()) => assert!(!doc_eq(&doc, &original)),
    }
}

#[test]
fn one_character_string_is_an_fpe_error() {
    let original = obj(vec![("s", text("a"))]);
    let mut doc = obj(vec![("s", text("a"))]);
    let key: [u8; KEY_LEN] = rand::random();
    assert_eq!(Spead::new().secret_key(key).encrypt(&mut doc), Err(Error::Fpe));
    assert!(doc_eq(&doc, &original));
}

#[test]
fn tampered_number_is_an_encoding_error() {
    let mut doc = obj(vec![("n", number("5"))]);
    let key: [u8; KEY_LEN] = rand::random();
    assert_eq!(Spead::new().secret_key(key).decrypt(&mut doc), Err(Error::Encoding));
}

#[test]
fn same_passphrase_derives_the_same_key() {
    let a = spead::utils::kdf("correct horse").unwrap();
    let b = spead::utils::kdf("correct horse").unwrap();
    let c = spead::utils::kdf("correct horsf").unwrap();
    assert_eq!(a, b);
    assert_ne!(a, c);
    assert_ne!(a, [0u8; KEY_LEN]);
}

#[test]
fn characters_outside_the_alphabet_survive_a_roundtrip() {
    // The primitive's alphabet covers code points up to U+10000; anything
    // beyond passes through in place, and the round trip must still hold.
    let original = obj(vec![("s", text("h\u{e9}llo \u{1F680}!"))]);
    let mut doc = obj(vec![("s", text("h\u{e9}llo \u{1F680}!"))]);
    let key: [u8; KEY_LEN] = rand::random();
    Spead::new().secret_key(key).encrypt(&mut doc).unwrap();
    match &doc {
        Value::Object(ps) => match &ps[0].1 {
            Value::Text(s) => assert_eq!(s.chars().count(), 8),
            _ => panic!("string leaf changed kind"),
        },
        _ => panic!("shape changed"),
    }
    Spead::new().secret_key(key).decrypt(&mut doc).unwrap();
    assert!(doc_eq(&doc, &original));
}

#[test]
fn include_keys_flag_leaves_keys_in_plaintext() {
    let original = obj(vec![("alpha", number("12345"))]);
    let mut doc = obj(vec![("alpha", number("12345"))]);
    let key: [u8; KEY_LEN] = rand::random();
    Spead::new().secret_key(key).include_keys(true).encrypt(&mut doc).unwrap();
    match &doc {
        Value::Object(ps) => assert_eq!(ps[0].0, "alpha"),
        _ => panic!("shape changed"),
    }
    Spead::new().secret_key(key).include_keys(true).decrypt(&mut doc).unwrap();
    assert!(doc_eq(&doc, &original));
}

#[test]
fn arrays_do_not_count_toward_the_depth_limit() {
    // Depth counts object nesting only: under a depth limit of one, an
    // object inside an array inside the root object still collapses.
    let original = obj(vec![("a", Value::Array(vec![obj(vec![("b", number("1"))])]))]);
    let mut doc = obj(vec![("a", Value::Array(vec![obj(vec![("b", number("1"))])]))]);
    let key: [u8; KEY_LEN] = rand::random();
    Spead::new().secret_key(key).max_depth(1).encrypt(&mut doc).unwrap();
    match &doc {
        Value::Object(ps) => match &ps[0].1 {
            Value::Array(vs) => assert!(matches!(vs[0], Value::Text(_))),
            _ => panic!("array changed kind"),
        },
        _ => panic!("shape changed"),
    }
    Spead::new().secret_key(key).max_depth(1).decrypt(&mut doc).unwrap();
    assert!(doc_eq(&doc, &original));
}

#[test]
fn null_and_bool_pass_through() {
    let original = obj(vec![("t", Value::Bool(true)), ("u", Value::Null)]);
    let mut doc = obj(vec![("t", Value::Bool(true)), ("u", Value::Null)]);
    let key: [u8; KEY_LEN] = rand::random();
    Spead::new().secret_key(key).encrypt(&mut doc).unwrap();
    assert!(doc_eq(&doc, &original));
    Spead::new().secret_key(key).decrypt(&mut doc).unwrap();
    assert!(doc_eq(&doc, &original));
}
