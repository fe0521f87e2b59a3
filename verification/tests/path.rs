use tmpl::{
    get_val_from_config_map, get_val_from_config_seq, set_val_in_config_map,
    set_val_in_config_seq, Error, EscapePattern, Mapping, Number, Value,
};

fn table(entries: Vec<(&str, Value)>) -> Mapping {
    let mut m = Mapping::new();
    for (k, v) in entries {
        m.insert(k.to_string(), v);
    }
    m
}

fn num(n: u64) -> Value {
    Value::Number(Number::PosInt(n))
}

fn sample() -> Mapping {
    let b = table(vec![("b", num(5))]);
    let deep = table(vec![("list", Value::Sequence(vec![num(10), Value::Sequence(vec![num(20)])]))]);
    table(vec![
        ("a", Value::Sequence(vec![Value::Mapping(b)])),
        ("deep", Value::Mapping(deep)),
        ("s", Value::String("text".to_string())),
        ("nil", Value::Null),
        ("", num(0)),
    ])
}

#[test]
fn path_through_sequence_and_mapping_resolves() {
    assert_eq!(get_val_from_config_map(&sample(), "a.0.b"), Some(num(5)));
}

#[test]
fn path_into_an_empty_sequence_is_missing() {
    let d = table(vec![("a", Value::Sequence(vec![]))]);
    assert_eq!(get_val_from_config_map(&d, "a.0.b"), None);
    let out = tmpl::render(&d, &EscapePattern::default(), b'%', b"{{a.0.b}}");
    assert_eq!(out, Err(Error::MissingConfigValue("a.0.b".to_string())));
}

#[test]
fn path_resolves_to_the_rendered_value() {
    let out = tmpl::render(&sample(), &EscapePattern::default(), b'%', b"{{a.0.b}}");
    assert_eq!(out, Ok(b"5".to_vec()));
}

#[test]
fn get_returns_scalars_sequences_and_mappings_as_they_are() {
    let d = sample();
    assert_eq!(get_val_from_config_map(&d, "s"), Some(Value::String("text".to_string())));
    assert_eq!(
        get_val_from_config_map(&d, "a"),
        Some(Value::Sequence(vec![Value::Mapping(table(vec![("b", num(5))]))]))
    );
    assert_eq!(
        get_val_from_config_map(&d, "a.0"),
        Some(Value::Mapping(table(vec![("b", num(5))])))
    );
    assert_eq!(get_val_from_config_map(&d, "deep.list.1.0"), Some(num(20)));
}

#[test]
fn get_fails_on_null_on_scalars_with_segments_left_and_on_unknown_segments() {
    let d = sample();
    assert_eq!(get_val_from_config_map(&d, "nil"), None);
    assert_eq!(get_val_from_config_map(&d, "nil.x"), None);
    assert_eq!(get_val_from_config_map(&d, "s.x"), None);
    assert_eq!(get_val_from_config_map(&d, "s."), None);
    assert_eq!(get_val_from_config_map(&d, "zzz"), None);
    assert_eq!(get_val_from_config_map(&d, "a.1"), None);
    assert_eq!(get_val_from_config_map(&d, "a.x"), None);
    assert_eq!(get_val_from_config_map(&d, "a.-0"), None);
    assert_eq!(get_val_from_config_map(&d, "a."), None);
    assert_eq!(get_val_from_config_map(&d, "a.0.b.c"), None);
    assert_eq!(get_val_from_config_map(&d, "A"), None);
}

#[test]
fn empty_segment_is_a_key_like_any_other() {
    let d = sample();
    assert_eq!(get_val_from_config_map(&d, ""), Some(num(0)));
}

#[test]
fn index_may_carry_a_plus_sign_and_leading_zeros() {
    let d = sample();
    assert_eq!(get_val_from_config_map(&d, "deep.list.+0"), Some(num(10)));
    assert_eq!(get_val_from_config_map(&d, "deep.list.000"), Some(num(10)));
    assert_eq!(get_val_from_config_map(&d, "deep.list.+"), None);
    assert_eq!(get_val_from_config_map(&d, "deep.list.0x0"), None);
    assert_eq!(get_val_from_config_map(&d, "deep.list. 0"), None);
}

#[test]
fn index_too_large_for_the_machine_is_missing() {
    let d = sample();
    assert_eq!(get_val_from_config_map(&d, "deep.list.99999999999999999999999999"), None);
    assert_eq!(get_val_from_config_map(&d, "deep.list.18446744073709551616"), None);
}

#[test]
fn get_from_a_sequence_starts_with_an_index() {
    let seq = vec![num(1), Value::Mapping(table(vec![("k", num(2))])), Value::Null];
    assert_eq!(get_val_from_config_seq(&seq, "0"), Some(num(1)));
    assert_eq!(get_val_from_config_seq(&seq, "1.k"), Some(num(2)));
    assert_eq!(get_val_from_config_seq(&seq, "2"), None);
    assert_eq!(get_val_from_config_seq(&seq, "3"), None);
    assert_eq!(get_val_from_config_seq(&seq, "k"), None);
    assert_eq!(get_val_from_config_seq(&seq, ""), None);
    assert_eq!(get_val_from_config_seq(&[], "0"), None);
}

#[test]
fn set_overwrites_the_slot_and_nothing_else() {
    let mut d = sample();
    assert_eq!(set_val_in_config_map(&mut d, "a.0.b", num(6)), Some(()));
    assert_eq!(get_val_from_config_map(&d, "a.0.b"), Some(num(6)));
    assert_eq!(get_val_from_config_map(&d, "s"), Some(Value::String("text".to_string())));
    assert_eq!(get_val_from_config_map(&d, "deep.list.0"), Some(num(10)));
    let mut expected = sample();
    expected.insert(
        "a".to_string(),
        Value::Sequence(vec![Value::Mapping(table(vec![("b", num(6))]))]),
    );
    assert_eq!(d, expected);
}

#[test]
fn set_replaces_whole_subtrees_and_null() {
    let mut d = sample();
    assert_eq!(set_val_in_config_map(&mut d, "a", num(1)), Some(()));
    assert_eq!(get_val_from_config_map(&d, "a"), Some(num(1)));
    assert_eq!(set_val_in_config_map(&mut d, "nil", num(2)), Some(()));
    assert_eq!(get_val_from_config_map(&d, "nil"), Some(num(2)));
    assert_eq!(set_val_in_config_map(&mut d, "deep.list.1.0", Value::Null), Some(()));
    assert_eq!(get_val_from_config_map(&d, "deep.list.1.0"), None);
    assert_eq!(get_val_from_config_map(&d, "deep.list.1"), Some(Value::Sequence(vec![Value::Null])));
}

#[test]
fn set_never_creates_a_key_or_an_index() {
    let mut d = sample();
    assert_eq!(set_val_in_config_map(&mut d, "new", num(1)), None);
    assert_eq!(set_val_in_config_map(&mut d, "a.1", num(1)), None);
    assert_eq!(set_val_in_config_map(&mut d, "a.0.c", num(1)), None);
    assert_eq!(set_val_in_config_map(&mut d, "s.x", num(1)), None);
    assert_eq!(set_val_in_config_map(&mut d, "nil.x", num(1)), None);
    assert_eq!(set_val_in_config_map(&mut d, "deep.list.2", num(1)), None);
    assert_eq!(d, sample());
}

#[test]
fn set_in_a_sequence_starts_with_an_index() {
    let mut seq = vec![num(1), Value::Mapping(table(vec![("k", num(2))]))];
    assert_eq!(set_val_in_config_seq(&mut seq, "0", num(9)), Some(()));
    assert_eq!(set_val_in_config_seq(&mut seq, "1.k", num(8)), Some(()));
    assert_eq!(seq, vec![num(9), Value::Mapping(table(vec![("k", num(8))]))]);
    assert_eq!(set_val_in_config_seq(&mut seq, "2", num(7)), None);
    assert_eq!(set_val_in_config_seq(&mut seq, "1.z", num(7)), None);
    assert_eq!(seq, vec![num(9), Value::Mapping(table(vec![("k", num(8))]))]);
}

#[test]
fn a_value_that_was_found_can_be_overwritten() {
    let d = sample();
    for path in ["a", "a.0", "a.0.b", "deep", "deep.list", "deep.list.1", "deep.list.1.0", "s", ""] {
        assert!(get_val_from_config_map(&d, path).is_some());
        let mut copy = d.clone();
        assert_eq!(set_val_in_config_map(&mut copy, path, num(77)), Some(()));
        assert_eq!(get_val_from_config_map(&copy, path), Some(num(77)));
    }
}

#[test]
fn first_of_two_equal_keys_counts() {
    let d = Mapping {
        entries: vec![("k".to_string(), num(1)), ("k".to_string(), num(2))],
    };
    assert_eq!(get_val_from_config_map(&d, "k"), Some(num(1)));
    let mut e = d.clone();
    assert_eq!(set_val_in_config_map(&mut e, "k", num(3)), Some(()));
    assert_eq!(e.entries, vec![("k".to_string(), num(3)), ("k".to_string(), num(2))]);
}
