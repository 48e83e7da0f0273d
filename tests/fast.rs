use logfmt_parse::fast::Log;

#[test]
fn fresh_record_has_no_fields() {
    let log = Log::new("INFO a.b: hello k=v".to_string());
    assert!(log.path().is_none());
    assert!(log.level().is_none());
    assert!(log.message().is_none());
    assert!(log.pairs().is_empty());
}
