use rublo::filter::Fpp;
use rublo::protocol::{decimal, fpp_to_text, parse_fpp, parse_usize, InfoReport, ParserError, Request, Response};

#[test]
fn test_parse() -> Result<(), ParserError> {
    assert_eq!(
        Request::parse("create foo 5 0.01")?,
        Request::Create("foo".into(), 5, Fpp { mantissa: 1, scale: 2 })
    );
    assert_eq!(Request::parse("check foo bar")?, Request::Check("foo".into(), "bar".into()));
    assert_eq!(Request::parse("set foo bar")?, Request::Insert("foo".into(), "bar".into()));
    let r = Request::parse("create foo bar 0.01").map_err(|e| e);
    assert!(r.is_err());
    Ok(())
}

fn error_of(line: &str) -> String {
    Request::parse(line).unwrap_err().message
}

#[test]
fn create_takes_an_exponent_probability() {
    assert_eq!(
        Request::parse("create foo 5 1e-2").unwrap(),
        Request::Create("foo".into(), 5, Fpp { mantissa: 1, scale: 2 })
    );
}

#[test]
fn create_defaults_capacity_and_probability() {
    assert_eq!(
        Request::parse("create foo").unwrap(),
        Request::Create("foo".into(), 50000, Fpp { mantissa: 5, scale: 2 })
    );
    assert_eq!(
        Request::parse("create foo 7").unwrap(),
        Request::Create("foo".into(), 7, Fpp { mantissa: 5, scale: 2 })
    );
}

#[test]
fn bad_capacity_is_a_parser_error() {
    let e = Request::parse("create bad foo 0.01").unwrap_err();
    assert_eq!(e.message, "capacity must be an i64 value");
    assert_eq!(Response::Error(e.to_text()).serialize(), "Error: parser error: capacity must be an i64 value");
}

#[test]
fn parse_errors_name_what_is_missing() {
    assert_eq!(error_of("create"), "missing name");
    assert_eq!(error_of("create foo 5 x"), "false-positive probability must be a f64 value");
    assert_eq!(error_of("set foo"), "missing key");
    assert_eq!(error_of("check"), "missing name");
    assert_eq!(error_of("info"), "missing filter name");
    assert_eq!(error_of("drop"), "missing filter name");
    assert_eq!(error_of("frobnicate foo"), "unknown command");
    assert_eq!(error_of(""), "unknown command");
}

#[test]
fn other_commands_parse() {
    assert_eq!(Request::parse("info foo").unwrap(), Request::Info("foo".into()));
    assert_eq!(Request::parse("drop foo").unwrap(), Request::Drop("foo".into()));
    assert_eq!(Request::parse("clear foo").unwrap(), Request::Clear("foo".into()));
    assert_eq!(Request::parse("persist foo").unwrap(), Request::Persist("foo".into()));
    assert_eq!(Request::parse("list").unwrap(), Request::List);
    // Tokens are split at every single space, so a double space makes an empty name.
    assert_eq!(Request::parse("info  foo").unwrap(), Request::Info("".into()));
    assert_eq!(Request::parse("set foo bar baz").unwrap(), Request::Insert("foo".into(), "bar".into()));
}

#[test]
fn numbers_parse_in_decimal() {
    assert_eq!(parse_usize(&"+42".to_string()), Some(42));
    assert_eq!(parse_usize(&"0".to_string()), Some(0));
    assert_eq!(parse_usize(&"".to_string()), None);
    assert_eq!(parse_usize(&"-1".to_string()), None);
    assert_eq!(parse_usize(&"99999999999999999999999".to_string()), None);
    assert_eq!(parse_fpp(&"0.05".to_string()), Some(Fpp { mantissa: 5, scale: 2 }));
    assert_eq!(parse_fpp(&".5".to_string()), Some(Fpp { mantissa: 5, scale: 1 }));
    assert_eq!(parse_fpp(&"1".to_string()), Some(Fpp { mantissa: 1, scale: 0 }));
    assert_eq!(parse_fpp(&"2.".to_string()), Some(Fpp { mantissa: 2, scale: 0 }));
    assert_eq!(parse_fpp(&".".to_string()), None);
    assert_eq!(parse_fpp(&"0.0.1".to_string()), None);
    assert_eq!(parse_fpp(&"1e-3".to_string()), Some(Fpp { mantissa: 1, scale: 3 }));
    assert_eq!(parse_fpp(&"5E-2".to_string()), Some(Fpp { mantissa: 5, scale: 2 }));
    assert_eq!(parse_fpp(&"2.5e1".to_string()), Some(Fpp { mantissa: 25, scale: 0 }));
    assert_eq!(parse_fpp(&"1e+2".to_string()), Some(Fpp { mantissa: 100, scale: 0 }));
    assert_eq!(parse_fpp(&"0.05e0".to_string()), Some(Fpp { mantissa: 5, scale: 2 }));
    assert_eq!(parse_fpp(&"0e99999".to_string()), Some(Fpp { mantissa: 0, scale: 0 }));
    assert_eq!(parse_fpp(&"1e400".to_string()), None);
    assert_eq!(parse_fpp(&"1e".to_string()), None);
    assert_eq!(parse_fpp(&"e5".to_string()), None);
    assert_eq!(parse_fpp(&"1e-+2".to_string()), None);
    assert_eq!(parse_fpp(&"1e2e3".to_string()), None);
}

#[test]
fn probabilities_render_in_decimal() {
    assert_eq!(fpp_to_text(Fpp { mantissa: 1, scale: 2 }), "0.01");
    assert_eq!(fpp_to_text(Fpp { mantissa: 5, scale: 2 }), "0.05");
    assert_eq!(fpp_to_text(Fpp { mantissa: 125, scale: 2 }), "1.25");
    assert_eq!(fpp_to_text(Fpp { mantissa: 3, scale: 0 }), "3");
    assert_eq!(fpp_to_text(Fpp { mantissa: 0, scale: 0 }), "0");
    assert_eq!(decimal(0), "0");
    assert_eq!(decimal(907), "907");
    assert_eq!(decimal(u64::MAX), "18446744073709551615");
    assert_eq!(fpp_to_text(Fpp { mantissa: 1234567, scale: 3 }), "1234.567");
}

#[test]
fn responses_serialize_as_one_line() {
    assert_eq!(Response::Done.serialize(), "Done");
    assert_eq!(Response::True.serialize(), "True");
    assert_eq!(Response::False.serialize(), "False");
    assert_eq!(Response::Error("boom".into()).serialize(), "Error: boom");
    let info = InfoReport {
        name: "foo".into(),
        capacity: 99,
        size: 1,
        space: 12,
        filters: 1,
        hash_functions: 7,
        hits: 2,
        miss: 3,
        creation: 0,
        last_access: 86400,
    };
    assert_eq!(
        Response::Info(info).serialize(),
        "foo capacity: 99 size: 1 space: 12 filters: 1 hash functions: 7 hits: 2 miss: 3 \
         creation: 1970-01-01T00:00:00+00:00 last access: 1970-01-02T00:00:00+00:00"
    );
}
