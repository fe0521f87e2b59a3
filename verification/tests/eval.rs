use tmpl::{eval, eval_bounded, Error, EscapePattern, Mapping, Number, Value};

fn sample() -> Mapping {
    let mut auth = Mapping::new();
    auth.insert("user".to_string(), Value::String("alice".to_string()));
    auth.insert("password".to_string(), Value::String("secret".to_string()));
    let mut m = Mapping::new();
    m.insert("auth".to_string(), Value::Mapping(auth));
    m.insert("listen".to_string(), Value::Bool(false));
    m.insert(
        "allow".to_string(),
        Value::Sequence(vec![
            Value::String("10.0.0.1".to_string()),
            Value::String("10.0.0.2".to_string()),
        ]),
    );
    m.insert("limit".to_string(), Value::Number(Number::PosInt(8333)));
    m
}

fn ev(expr: &str) -> Result<String, Error> {
    eval(&sample(), expr, &EscapePattern::default(), b'%')
}

#[test]
fn eval_of_a_path_is_the_value_as_text() {
    assert_eq!(ev("limit"), Ok("8333".to_string()));
    assert_eq!(ev("  auth.user\n"), Ok("alice".to_string()));
    assert_eq!(ev("auth"), Ok("{map}".to_string()));
    assert_eq!(ev("allow"), Ok("[list]".to_string()));
    assert_eq!(ev("allow.1"), Ok("10.0.0.2".to_string()));
    assert_eq!(ev("listen"), Ok("false".to_string()));
}

#[test]
fn eval_of_a_missing_path_fails_with_the_trimmed_path() {
    assert_eq!(ev(" auth.nobody "), Err(Error::MissingConfigValue("auth.nobody".to_string())));
    assert_eq!(ev(""), Err(Error::MissingConfigValue("".to_string())));
    assert_eq!(ev("pört"), Err(Error::MissingConfigValue("pört".to_string())));
}

#[test]
fn eval_of_if_renders_the_body_through_a_scan_of_its_own() {
    assert_eq!(
        ev("#IF auth\nuser={{auth.user}}\npassword={{auth.password}}\n"),
        Ok("user=alice\npassword=secret".to_string())
    );
    assert_eq!(ev("#IF listen\nlisten=1\nbind=0.0.0.0:8333\n"), Ok("".to_string()));
}

#[test]
fn eval_of_ifnot_inverts_the_test() {
    assert_eq!(ev("#IFNOT listen\nlisten=0\n"), Ok("listen=0".to_string()));
    assert_eq!(ev("#IFNOT auth\nnone\n"), Ok("".to_string()));
    assert_eq!(ev("#IFNOT absent\nnone\n"), Ok("none".to_string()));
}

#[test]
fn eval_of_foreach_joins_the_bodies_without_a_separator() {
    assert_eq!(
        ev("#FOREACH allow\nallow={{allow}};"),
        Ok("allow=10.0.0.1;allow=10.0.0.2;".to_string())
    );
}

#[test]
fn eval_of_foreach_keeps_line_breaks_inside_the_body() {
    assert_eq!(
        ev("#FOREACH allow\nip={{allow}}\n\n"),
        Ok("ip=10.0.0.1ip=10.0.0.2".to_string())
    );
    assert_eq!(
        ev("#FOREACH allow\n\nip={{allow}}"),
        Ok("\nip=10.0.0.1\nip=10.0.0.2".to_string())
    );
}

#[test]
fn eval_needs_a_line_break_that_trimming_leaves_in_place() {
    assert_eq!(eval(&sample(), "#IF limit\n", &EscapePattern::default(), b'%').is_err(), true);
    assert_eq!(ev("#IF limit\n\n"), Err(Error::ParseError));
    assert_eq!(ev("#IF limit\n \nx"), Ok(" \nx".to_string()));
}

#[test]
fn eval_fails_on_a_directive_that_lacks_a_part() {
    assert_eq!(ev("#IF limit"), Err(Error::ParseError));
    assert_eq!(ev("#IF \nbody"), Err(Error::ParseError));
    assert_eq!(ev("#FOREACH allow"), Err(Error::ParseError));
    assert_eq!(ev("#IFNOT\nbody"), Err(Error::MissingConfigValue("#IFNOT\nbody".to_string())));
}

#[test]
fn eval_uses_the_pattern_it_is_given_for_the_body() {
    let p = EscapePattern(b"<".to_vec(), b">".to_vec());
    assert_eq!(eval(&sample(), "#IF limit\n{{limit}}=<limit>", &p, b'%'), Ok("{{limit}}=8333".to_string()));
}

#[test]
fn eval_refuses_a_degenerate_pattern_only_where_it_needs_one() {
    let p = EscapePattern(vec![], vec![]);
    assert_eq!(eval(&sample(), "limit", &p, b'%'), Ok("8333".to_string()));
    assert_eq!(eval(&sample(), "#IF limit\nx", &p, b'%'), Err(Error::InvalidEscapeSequence));
    assert_eq!(eval(&sample(), "#IF listen\nx", &p, b'%'), Ok("".to_string()));
}

#[test]
fn eval_bounded_limits_the_nesting_in_the_body() {
    let p = EscapePattern::default();
    assert_eq!(eval_bounded(&sample(), "#IF limit\n{{limit}}", &p, b'%', 1), Ok("8333".to_string()));
    assert_eq!(eval_bounded(&sample(), "#IF limit\n{{limit}}", &p, b'%', 0), Err(Error::NestingTooDeep));
    assert_eq!(eval_bounded(&sample(), "#IF limit\nplain", &p, b'%', 0), Ok("plain".to_string()));
}
