use tmpl::{val_is_truthy, val_to_string, Mapping, Number, Value};

#[test]
fn false_and_null_are_falsy() {
    assert!(!val_is_truthy(&Value::Bool(false)));
    assert!(!val_is_truthy(&Value::Null));
}

#[test]
fn everything_else_is_truthy() {
    assert!(val_is_truthy(&Value::Bool(true)));
    assert!(val_is_truthy(&Value::Number(Number::PosInt(0))));
    assert!(val_is_truthy(&Value::Number(Number::NegInt(-1))));
    assert!(val_is_truthy(&Value::Number(Number::Real("0.0".to_string()))));
    assert!(val_is_truthy(&Value::String(String::new())));
    assert!(val_is_truthy(&Value::String("false".to_string())));
    assert!(val_is_truthy(&Value::Sequence(vec![])));
    assert!(val_is_truthy(&Value::Mapping(Mapping::new())));
}

#[test]
fn strings_render_as_themselves() {
    assert_eq!(val_to_string(Value::String("a b\n\u{e9}".to_string())), "a b\n\u{e9}");
    assert_eq!(val_to_string(Value::String(String::new())), "");
}

#[test]
fn booleans_and_null_render_as_words() {
    assert_eq!(val_to_string(Value::Bool(true)), "true");
    assert_eq!(val_to_string(Value::Bool(false)), "false");
    assert_eq!(val_to_string(Value::Null), "null");
}

#[test]
fn collections_render_as_placeholders() {
    assert_eq!(val_to_string(Value::Sequence(vec![Value::Bool(true)])), "[list]");
    assert_eq!(val_to_string(Value::Sequence(vec![])), "[list]");
    let mut m = Mapping::new();
    m.insert("k".to_string(), Value::Null);
    assert_eq!(val_to_string(Value::Mapping(m)), "{map}");
    assert_eq!(val_to_string(Value::Mapping(Mapping::new())), "{map}");
}

#[test]
fn unsigned_integers_render_in_decimal() {
    assert_eq!(val_to_string(Value::Number(Number::PosInt(0))), "0");
    assert_eq!(val_to_string(Value::Number(Number::PosInt(7))), "7");
    assert_eq!(val_to_string(Value::Number(Number::PosInt(10))), "10");
    assert_eq!(val_to_string(Value::Number(Number::PosInt(12345))), "12345");
    assert_eq!(val_to_string(Value::Number(Number::PosInt(u64::MAX))), "18446744073709551615");
}

#[test]
fn signed_integers_render_in_decimal_with_their_sign() {
    assert_eq!(val_to_string(Value::Number(Number::NegInt(-1))), "-1");
    assert_eq!(val_to_string(Value::Number(Number::NegInt(-42))), "-42");
    assert_eq!(val_to_string(Value::Number(Number::NegInt(0))), "0");
    assert_eq!(val_to_string(Value::Number(Number::NegInt(99))), "99");
    assert_eq!(val_to_string(Value::Number(Number::NegInt(i64::MIN))), "-9223372036854775808");
    assert_eq!(val_to_string(Value::Number(Number::NegInt(i64::MAX))), "9223372036854775807");
}

#[test]
fn other_numbers_render_as_the_text_they_hold() {
    assert_eq!(val_to_string(Value::Number(Number::Real("1.5".to_string()))), "1.5");
    assert_eq!(val_to_string(Value::Number(Number::Real(".inf".to_string()))), ".inf");
}

#[test]
fn numbers_render_as_the_outside_crate_writes_them() {
    for n in [0u64, 1, 9, 10, 99, 100, 65535, 1 << 40, u64::MAX] {
        assert_eq!(
            val_to_string(Value::Number(Number::PosInt(n))),
            serde_yaml::Number::from(n).to_string()
        );
    }
    for i in [i64::MIN, -100, -10, -9, -1, 0, 1, 10, i64::MAX] {
        assert_eq!(
            val_to_string(Value::Number(Number::NegInt(i))),
            serde_yaml::Number::from(i).to_string()
        );
    }
}

#[test]
fn mapping_insert_adds_then_replaces() {
    let mut m = Mapping::new();
    assert!(!m.insert("a".to_string(), Value::Bool(true)));
    assert!(!m.insert("b".to_string(), Value::Null));
    assert!(m.insert("a".to_string(), Value::Bool(false)));
    assert_eq!(m.entries.len(), 2);
    assert_eq!(m.get("a"), Some(&Value::Bool(false)));
    assert_eq!(m.get("b"), Some(&Value::Null));
    assert_eq!(m.get("c"), None);
    assert_eq!(m.position(b"b"), Some(1));
    assert_eq!(m.position(b"zz"), None);
}

#[test]
fn clone_copies_the_whole_tree() {
    let mut inner = Mapping::new();
    inner.insert("x".to_string(), Value::Sequence(vec![Value::Number(Number::NegInt(-3))]));
    let v = Value::Sequence(vec![
        Value::Mapping(inner),
        Value::String("s".to_string()),
        Value::Number(Number::Real("2.5".to_string())),
        Value::Null,
    ]);
    let w = v.clone();
    assert_eq!(v, w);
}
