use logfmt_parse::humantime::Duration;
use logfmt_parse::logfmt::parse_logfmt;
use logfmt_parse::record::Log;
use logfmt_parse::value::DataValue;

fn int_at(log: &Log, key: &str) -> i64 {
    match log.get(key) {
        Some(DataValue::I64(i)) => *i,
        other => panic!("not an integer: {:?}", other),
    }
}

fn text_at(log: &Log, key: &str) -> String {
    match log.get(key) {
        Some(DataValue::String(s)) => s.clone(),
        other => panic!("not a string: {:?}", other),
    }
}

#[test]
fn header_message_and_pairs() {
    let log = parse_logfmt(
        "INFO server::onboarding::location_availability: Updated profile with postal code tz=America/Chicago area=- postal_code=10001 req=abc user=7"
            .to_string(),
    );
    assert_eq!(log.level(), &Some("INFO".to_string()));
    assert_eq!(log.name(), &Some("server::onboarding::location_availability".to_string()));
    assert_eq!(log.message(), "Updated profile with postal code");
    assert_eq!(text_at(&log, "tz"), "America/Chicago");
    assert_eq!(text_at(&log, "area"), "-");
    assert_eq!(int_at(&log, "postal_code"), 10001);
    assert_eq!(text_at(&log, "req"), "abc");
    assert_eq!(int_at(&log, "user"), 7);
    assert_eq!(log.entries().len(), 5);
    assert!(log.dt().is_none());
    assert!(log.platform().is_none());
}

#[test]
fn later_key_wins() {
    let log = parse_logfmt(
        "[4-1] user=db_user,db=foo,LOG:  disconnection: session user=other port=1".to_string(),
    );
    assert_eq!(text_at(&log, "user"), "other");
    assert_eq!(log.message(), "[4-1] user=db_user,db=foo,LOG:  disconnection: session");
    assert_eq!(log.entries().len(), 2);
    assert!(log.level().is_none());
}

#[test]
fn duration_value() {
    let log = parse_logfmt("Request completed latency=100.32ms".to_string());
    match log.get("latency") {
        Some(DataValue::Duration(d)) => assert_eq!(*d, Duration { secs: 0, nanos: 100_320_000 }),
        other => panic!("not a duration: {:?}", other),
    }
    assert_eq!(log.message(), "Request completed");
}

#[test]
fn quoted_value_keeps_escapes() {
    let log = parse_logfmt(r#"done msg="a b\" c" n=2"#.to_string());
    assert_eq!(text_at(&log, "msg"), r#"a b\" c"#);
    assert_eq!(int_at(&log, "n"), 2);
    // The space after the closing quote ends the message anew.
    assert_eq!(log.message(), r#"done msg="a b\" c""#);
}

#[test]
fn quoted_value_without_end() {
    let log = parse_logfmt(r#"x k="open ended"#.to_string());
    assert_eq!(text_at(&log, "k"), "open ended");
}

#[test]
fn empty_value() {
    let log = parse_logfmt("x a= b=1".to_string());
    assert_eq!(text_at(&log, "a"), "");
    assert_eq!(int_at(&log, "b"), 1);
    let log = parse_logfmt("x a=".to_string());
    assert_eq!(text_at(&log, "a"), "");
}

#[test]
fn no_pairs_is_all_message() {
    let log = parse_logfmt("just some words".to_string());
    assert_eq!(log.message(), "just some words");
    assert!(log.entries().is_empty());
    assert!(log.level().is_none());
    assert!(log.name().is_none());
}

#[test]
fn severity_deeper_in_line_is_recorded_but_not_stripped() {
    let log = parse_logfmt("hello WARN there".to_string());
    assert_eq!(log.level(), &Some("WARN".to_string()));
    assert_eq!(log.message(), "hello WARN there");
}

#[test]
fn name_after_an_ordinary_token_is_not_taken() {
    let log = parse_logfmt("hello a.b c".to_string());
    assert!(log.name().is_none());
    assert_eq!(log.message(), "hello a.b c");
}

#[test]
fn first_severity_is_kept() {
    let log = parse_logfmt("ERROR WARN x".to_string());
    assert_eq!(log.level(), &Some("ERROR".to_string()));
    assert_eq!(log.message(), "x");
}

#[test]
fn header_directly_before_key_gives_empty_message() {
    let log = parse_logfmt("INFO x=1".to_string());
    assert_eq!(log.level(), &Some("INFO".to_string()));
    assert_eq!(log.message(), "");
    assert_eq!(int_at(&log, "x"), 1);
}

#[test]
fn retokenizing_the_message_changes_nothing() {
    let first = parse_logfmt("WARN app.core: disk almost full used=93 free=7".to_string());
    assert_eq!(first.message(), "disk almost full");
    let again = parse_logfmt(first.message().clone());
    assert_eq!(again.message(), first.message());
    assert!(again.entries().is_empty());
}

#[test]
fn merge_rules() {
    let mut outer = Log::new(None, None, Some("outer".to_string()), String::new(), None, None);
    outer.insert("a".to_string(), DataValue::I64(1));
    outer.insert("b".to_string(), DataValue::I64(2));
    let inner = parse_logfmt("ERROR x.y: body b=3 c=4".to_string());
    let log = outer.merge(inner);
    assert_eq!(log.level(), &Some("ERROR".to_string()));
    assert_eq!(log.name(), &Some("x.y".to_string()));
    assert_eq!(log.message(), "body");
    assert_eq!(int_at(&log, "a"), 1);
    assert_eq!(int_at(&log, "b"), 3);
    assert_eq!(int_at(&log, "c"), 4);
}

#[test]
fn outer_level_is_kept() {
    let outer = Log::new(None, Some("info".to_string()), None, "DEBUG m k=v".to_string(), None, None);
    let log = outer.expand_message();
    assert_eq!(log.level(), &Some("info".to_string()));
    assert_eq!(log.message(), "m");
    assert_eq!(text_at(&log, "k"), "v");
}
