use logfmt_parse::humantime::{parse_duration, Duration, Error};
use std::ops::Add;

fn std_duration(d: Duration) -> std::time::Duration {
    std::time::Duration::new(d.secs, d.nanos)
}

#[test]
fn test_decimal() {
    let s = "189.457178ms";
    let s = parse_duration(s).unwrap();
    assert_eq!(
        std_duration(s),
        std::time::Duration::from_millis(189).add(std::time::Duration::from_nanos(457178))
    );
}

#[test]
fn test_rounding() {
    let s = "100.32ms";
    let s = parse_duration(s).unwrap();
    assert_eq!(
        std_duration(s),
        std::time::Duration::from_millis(100).add(std::time::Duration::from_micros(320))
    );
}

#[test]
fn test_error() {
    assert!(parse_duration("123.1234").is_err());
    assert!(parse_duration("127.0.0.1").is_err());
}

#[test]
fn whole_units() {
    assert_eq!(parse_duration("2h"), Ok(Duration { secs: 7200, nanos: 0 }));
    assert_eq!(parse_duration("3 days"), Ok(Duration { secs: 259_200, nanos: 0 }));
    assert_eq!(parse_duration("1M"), Ok(Duration { secs: 2_630_016, nanos: 0 }));
    assert_eq!(parse_duration("1y"), Ok(Duration { secs: 31_557_600, nanos: 0 }));
    assert_eq!(parse_duration("1w"), Ok(Duration { secs: 604_800, nanos: 0 }));
}

#[test]
fn groups_add_up() {
    assert_eq!(parse_duration("1h30m"), Ok(Duration { secs: 5400, nanos: 0 }));
    assert_eq!(parse_duration("1h 30m 15s"), Ok(Duration { secs: 5415, nanos: 0 }));
}

#[test]
fn nanoseconds_are_not_carried() {
    assert_eq!(parse_duration("0.6s0.6s"), Ok(Duration { secs: 0, nanos: 1_200_000_000 }));
}

#[test]
fn sub_second_units() {
    assert_eq!(parse_duration("5µs"), Ok(Duration { secs: 0, nanos: 5_000 }));
    assert_eq!(parse_duration("5us"), Ok(Duration { secs: 0, nanos: 5_000 }));
    assert_eq!(parse_duration("7ns"), Ok(Duration { secs: 0, nanos: 7 }));
    assert_eq!(parse_duration("1500ms"), Ok(Duration { secs: 1, nanos: 500_000_000 }));
}

#[test]
fn fraction_loses_leading_zeros() {
    // "05" is read as 5 over one place: 1.5 s, not 1.05 s.
    assert_eq!(parse_duration("1.05s"), Ok(Duration { secs: 1, nanos: 500_000_000 }));
}

#[test]
fn fraction_of_a_large_unit() {
    assert_eq!(parse_duration("1.5h"), Ok(Duration { secs: 5400, nanos: 0 }));
    assert_eq!(parse_duration("0.5ns"), Ok(Duration { secs: 0, nanos: 1 }));
}

#[test]
fn empty_input() {
    assert_eq!(parse_duration(""), Err(Error::Empty));
    assert_eq!(parse_duration("   "), Err(Error::Empty));
}

#[test]
fn invalid_character_offsets() {
    assert_eq!(parse_duration("127.0.0.1"), Err(Error::InvalidCharacter(5)));
    assert_eq!(parse_duration("5s!"), Err(Error::InvalidCharacter(2)));
    assert_eq!(parse_duration("µs5s!"), Err(Error::InvalidCharacter(0)));
    assert_eq!(parse_duration("5µs!"), Err(Error::InvalidCharacter(4)));
}

#[test]
fn unknown_units() {
    assert_eq!(
        parse_duration("5 parsecs"),
        Err(Error::UnknownUnit { unit: "parsecs".to_string(), value: 5 })
    );
    assert_eq!(
        parse_duration("123.1234"),
        Err(Error::UnknownUnit { unit: String::new(), value: 123 })
    );
}

#[test]
fn overflow() {
    assert_eq!(parse_duration("99999999999999999999s"), Err(Error::NumberOverflow));
    assert_eq!(parse_duration("18446744073709551615y"), Err(Error::NumberOverflow));
}
