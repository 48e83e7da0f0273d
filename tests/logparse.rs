use logfmt_parse::logfmt::parse_logfmt;
use logfmt_parse::record::{InnerStrategy, Log, Parser, Strategy};
use logfmt_parse::value::DataValue;

/// The text of a value, as the record's display writes it.
fn text(v: &DataValue) -> String {
    match v {
        DataValue::String(s) => s.clone(),
        DataValue::F64(t) => format!("{}", t.parse::<f64>().unwrap()),
        DataValue::I64(i) => format!("{}", i),
        DataValue::Duration(d) => format!("{:?}", std::time::Duration::new(d.secs, d.nanos)),
    }
}

/// What `Parser::nested()` does with a line: the JSON envelope's fields,
/// decoded, then its message run through the tokenizer and merged.
fn parse_nested(json: &str) -> Log {
    let parser = Parser::nested();
    assert_eq!(
        parser.strategy(),
        Strategy::Nested { outer: InnerStrategy::Json, inner: InnerStrategy::Logfmt }
    );
    let v: serde_json::Value = serde_json::from_str(json).unwrap();
    let field = |k: &str| v.get(k).and_then(|x| x.as_str()).map(|s| s.to_string());
    let outer = Log::new(
        field("dt"),
        field("level"),
        field("name"),
        field("message").unwrap(),
        field("platform"),
        None,
    );
    outer.expand_message()
}

fn data(log: &Log, key: &str) -> String {
    text(log.get(key).unwrap())
}

#[test]
fn test_logparse() {
    let json = r#"
        {"dt":"2023-06-04T01:42:46.344493Z","level":"info","message":"INFO server::onboarding::location_availability: Updated profile with postal code tz=America/Chicago area=- postal_code=10001 req=00djxys6h3gzskbwhwy5zk_pgkx user=7","platform":"Syslog","syslog":{"appname":"web-2q9fl","facility":"kern","host":"jyve-next","hostname":"jyve-next","msgid":"web-2q9fl","procid":1,"source_ip":"10.0.9.247","version":1}}
        "#.trim();
    let log = parse_nested(json);
    assert_eq!(log.level(), &Some("info".to_string()));
    assert_eq!(log.name(), &Some("server::onboarding::location_availability".to_string()));
    assert_eq!(log.message, "Updated profile with postal code".to_string());
    assert_eq!(data(&log, "tz"), "America/Chicago");
    assert_eq!(data(&log, "area"), "-");
    assert_eq!(data(&log, "postal_code"), "10001");
    assert_eq!(data(&log, "req"), "00djxys6h3gzskbwhwy5zk_pgkx");
    assert_eq!(data(&log, "user"), "7");
}

#[test]
fn test_render_postgres_log() {
    let json = r#"
        {
    "dt": "2023-06-04T01:41:12.519614Z",
    "level": "info",
    "message": "[4-1] user=db_user,db=foo,app=[unknown],client=2.2.2.2,LOG:  disconnection: session time: 0:00:00.153 user=db_user database=foo host=1.1.1.1 port=1",
    "platform": "Syslog",
    "syslog": {
        "appname": "dpg-4hdwr",
        "facility": "kern",
        "host": "dpg-ccuecsl3t398coemnq80-a-64647bb8b9-4hdwr",
        "hostname": "dpg-ccuecsl3t398coemnq80-a-64647bb8b9-4hdwr",
        "msgid": "dpg-4hdwr",
        "procid": 1,
        "source_ip": "10.0.9.247",
        "version": 1
    }
}"#;
    let log = parse_nested(json);
    assert_eq!(data(&log, "user"), "db_user");
    assert_eq!(data(&log, "database"), "foo");
    assert_eq!(data(&log, "port"), "1");
    assert_eq!(data(&log, "host"), "1.1.1.1");
    assert!(log.get("client").is_none());
    assert_eq!(log.message, "[4-1] user=db_user,db=foo,app=[unknown],client=2.2.2.2,LOG:  disconnection: session time: 0:00:00.153");
}

#[test]
fn test_render_request_completed_log() {
    let json = r#"
        {
    "dt": "2023-06-04T01:41:12.519614Z",
    "level": "info",
    "message": "Request completed latency=100.32ms",
    "platform": "Syslog",
    "syslog": {
        "appname": "dpg-4hdwr",
        "facility": "kern",
        "host": "dpg-ccuecsl3t398coemnq80-a-64647bb8b9-4hdwr",
        "hostname": "dpg-ccuecsl3t398coemnq80-a-64647bb8b9-4hdwr",
        "msgid": "dpg-4hdwr",
        "procid": 1,
        "source_ip": "10.0.9.247",
        "version": 1
    }
}"#;
    let log = parse_nested(json);
    assert_eq!(data(&log, "latency"), "100.32ms");
}
