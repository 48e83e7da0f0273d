use logfmt_parse::humantime::Duration;
use logfmt_parse::value::DataValue;

#[test]
fn integer() {
    assert!(matches!(DataValue::from_token("7"), DataValue::I64(7)));
    assert!(matches!(DataValue::from_token("-42"), DataValue::I64(-42)));
    assert!(matches!(DataValue::from_token("+5"), DataValue::I64(5)));
}

#[test]
fn float() {
    match DataValue::from_token("3.14") {
        DataValue::F64(t) => assert_eq!(t.parse::<f64>().unwrap(), 3.14),
        other => panic!("not a float: {:?}", other),
    }
    assert!(matches!(DataValue::from_token("1e5"), DataValue::F64(_)));
    assert!(matches!(DataValue::from_token("-.5"), DataValue::F64(_)));
    assert!(matches!(DataValue::from_token("inf"), DataValue::F64(_)));
    assert!(matches!(DataValue::from_token("NaN"), DataValue::F64(_)));
    // Too large for i64, still a float.
    assert!(matches!(DataValue::from_token("99999999999999999999"), DataValue::F64(_)));
}

#[test]
fn duration() {
    match DataValue::from_token("100.32ms") {
        DataValue::Duration(d) => assert_eq!(d, Duration { secs: 0, nanos: 100_320_000 }),
        other => panic!("not a duration: {:?}", other),
    }
}

#[test]
fn text_stays_text() {
    match DataValue::from_token("America/Chicago") {
        DataValue::String(s) => assert_eq!(s, "America/Chicago"),
        other => panic!("not a string: {:?}", other),
    }
    assert!(matches!(DataValue::from_token("-"), DataValue::String(_)));
    assert!(matches!(DataValue::from_token("1e"), DataValue::String(_)));
    assert!(matches!(DataValue::from_token("."), DataValue::String(_)));
    assert!(matches!(DataValue::from_token(""), DataValue::String(_)));
}

#[test]
fn conversion_from_text() {
    assert!(matches!(DataValue::from("7"), DataValue::I64(7)));
    let v: DataValue = "2h".into();
    assert!(matches!(v, DataValue::Duration(Duration { secs: 7200, nanos: 0 })));
}
