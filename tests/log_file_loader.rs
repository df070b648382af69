use status_plot::error::{ParseError, ProgramError};
use status_plot::log_file_loader::{parse_csv_line, parse_log_file, Ratio, StatusValue};

fn r(mantissa: u64, scale: i64) -> Ratio {
    Ratio::new(mantissa, -scale).unwrap()
}

#[test]
fn test_log_load() {
    let data = r#"0.76,0
        0.56,1
        0.12,
        0.56,2
        0.12,2
        0.7678,0
        0.80,"#;

    let ans = parse_log_file(data).unwrap();
    let correct = vec![
        StatusValue::Linear(r(76, 2)),
        StatusValue::Integer(r(56, 2)),
        StatusValue::Infeasible(r(12, 2)),
        StatusValue::Timeout(r(56, 2)),
        StatusValue::Timeout(r(12, 2)),
        StatusValue::Linear(r(7678, 4)),
        StatusValue::Infeasible(r(8, 1)),
    ];

    assert_eq!(ans, correct);
}

#[test]
fn ratio_new_is_canonical() {
    assert_eq!(r(80, 2), Ratio { mantissa: 8, exponent: -1 });
    assert_eq!(r(30, 1), Ratio { mantissa: 3, exponent: 0 });
    assert_eq!(r(0, 5), Ratio { mantissa: 0, exponent: 0 });
    assert_eq!(r(7678, 4), Ratio { mantissa: 7678, exponent: -4 });
}

#[test]
fn unknown_status_code_is_an_error() {
    assert!(matches!(parse_log_file("1.0,5"), Err(ProgramError::UnknowStatus(5))));
    assert!(matches!(parse_csv_line("2.5,3"), Err(ProgramError::UnknowStatus(3))));
    assert!(matches!(parse_csv_line("2.5, 42 "), Err(ProgramError::UnknowStatus(42))));
}

#[test]
fn bad_payload_is_a_float_error_at_column_zero() {
    match parse_log_file("abc,0") {
        Err(ProgramError::ParseError(ParseError::Float(t, c))) => {
            assert_eq!(t, "abc");
            assert_eq!(c, 0);
        }
        _ => panic!("expected a float error"),
    }
    assert!(matches!(
        parse_csv_line("1.2.3,0"),
        Err(ProgramError::ParseError(ParseError::Float(_, 0)))
    ));
    assert!(matches!(
        parse_csv_line(".,0"),
        Err(ProgramError::ParseError(ParseError::Float(_, 0)))
    ));
    assert!(matches!(
        parse_csv_line(",1"),
        Err(ProgramError::ParseError(ParseError::Float(_, 0)))
    ));
}

#[test]
fn bad_status_is_an_int_error_at_column_one() {
    match parse_csv_line("1.0, x1 ") {
        Err(ProgramError::ParseError(ParseError::Int(t, c))) => {
            assert_eq!(t, "x1");
            assert_eq!(c, 1);
        }
        _ => panic!("expected an int error"),
    }
    assert!(matches!(
        parse_csv_line("1.0,-1"),
        Err(ProgramError::ParseError(ParseError::Int(_, 1)))
    ));
}

#[test]
fn missing_status_field() {
    assert!(matches!(
        parse_csv_line("1.5"),
        Err(ProgramError::ParseError(ParseError::MissingToken(1)))
    ));
}

#[test]
fn empty_input_is_empty_sequence() {
    assert_eq!(parse_log_file("").unwrap(), vec![]);
}

#[test]
fn each_status_code_maps_to_its_variant() {
    assert_eq!(parse_csv_line("1,0").unwrap(), StatusValue::Linear(r(1, 0)));
    assert_eq!(parse_csv_line("1,1").unwrap(), StatusValue::Integer(r(1, 0)));
    assert_eq!(parse_csv_line("1,2").unwrap(), StatusValue::Timeout(r(1, 0)));
    assert_eq!(parse_csv_line("1,").unwrap(), StatusValue::Infeasible(r(1, 0)));
    assert_eq!(parse_csv_line("1,  \t").unwrap(), StatusValue::Infeasible(r(1, 0)));
    assert_eq!(parse_csv_line("1,+2").unwrap(), StatusValue::Timeout(r(1, 0)));
}

#[test]
fn payload_forms() {
    assert_eq!(parse_csv_line(" 12 ,0").unwrap(), StatusValue::Linear(r(12, 0)));
    assert_eq!(parse_csv_line(".5,0").unwrap(), StatusValue::Linear(r(5, 1)));
    assert_eq!(parse_csv_line("5.,0").unwrap(), StatusValue::Linear(r(5, 0)));
    assert_eq!(parse_csv_line("+0.25,0").unwrap(), StatusValue::Linear(r(25, 2)));
    assert_eq!(parse_csv_line("0.500,0").unwrap(), StatusValue::Linear(r(5, 1)));
    assert_eq!(parse_csv_line("\u{a0}1.5\u{3000},1").unwrap(), StatusValue::Integer(r(15, 1)));
    assert_eq!(parse_csv_line("1.5,1,ignored").unwrap(), StatusValue::Integer(r(15, 1)));
}

#[test]
fn one_record_per_line_in_order() {
    let out = parse_log_file("3,0\n1,1\r\n2,\n").unwrap();
    assert_eq!(
        out,
        vec![
            StatusValue::Linear(r(3, 0)),
            StatusValue::Integer(r(1, 0)),
            StatusValue::Infeasible(r(2, 0)),
        ]
    );
}

#[test]
fn first_bad_line_decides_the_error() {
    assert!(matches!(
        parse_log_file("1,0\n2,9\nx,0"),
        Err(ProgramError::UnknowStatus(9))
    ));
    assert!(matches!(
        parse_log_file("1,0\n\n2,0"),
        Err(ProgramError::ParseError(ParseError::Float(_, 0)))
    ));
}

#[test]
fn round_trip_of_written_records() {
    let values = [
        StatusValue::Linear(r(76, 2)),
        StatusValue::Integer(r(123456789, 3)),
        StatusValue::Timeout(r(0, 0)),
        StatusValue::Infeasible(r(42, 0)),
    ];
    let lines = ["0.76,0", "123456.789,1", "0.0,2", "42.0,"];
    for (v, l) in values.iter().zip(lines.iter()) {
        assert_eq!(&parse_csv_line(l).unwrap(), v);
    }
}

#[test]
fn error_messages() {
    assert_eq!(
        ProgramError::UnknowStatus(5).message(),
        "Read Unknown Status Value: 5\nExpect: ``, `0`, `1`, `2`"
    );
    assert_eq!(
        ParseError::MissingToken(1).message(),
        "Missing Value on column 1"
    );
    let e = parse_log_file("abc,0").err().unwrap();
    assert_eq!(
        e.message(),
        "Parse Error: invalid float literal `abc` on column 0"
    );
    assert_eq!(
        ProgramError::InputOutput("gone".to_string()).message(),
        "IO Error: gone"
    );
    assert_eq!(
        ProgramError::UnknowStatus(1207).message(),
        "Read Unknown Status Value: 1207\nExpect: ``, `0`, `1`, `2`"
    );
}

#[test]
fn payload_with_exponent() {
    assert_eq!(parse_csv_line("1e-3,0").unwrap(), StatusValue::Linear(r(1, 3)));
    assert_eq!(parse_csv_line("2.5E2,1").unwrap(), StatusValue::Integer(r(250, 0)));
    assert_eq!(parse_csv_line("1.5e+1,2").unwrap(), StatusValue::Timeout(r(15, 0)));
    assert_eq!(parse_csv_line("1500e-2,").unwrap(), StatusValue::Infeasible(r(15, 0)));
    assert_eq!(parse_csv_line("0e-99,0").unwrap(), StatusValue::Linear(r(0, 0)));
    assert_eq!(parse_csv_line("+7.25e-1,0").unwrap(), StatusValue::Linear(r(725, 3)));
    assert_eq!(
        parse_csv_line("0.5000000000000000000,0").unwrap(),
        StatusValue::Linear(r(5, 1))
    );
}

#[test]
fn payload_limits() {
    for bad in ["1e", "1e+", "e5", ".", "-1", "-0.5e1", "inf", "NaN", "1e99999999999999"] {
        let line = format!("{},0", bad);
        assert!(
            matches!(parse_csv_line(&line), Err(ProgramError::ParseError(ParseError::Float(_, 0)))),
            "{}",
            bad
        );
    }
}

#[test]
fn payload_of_any_size() {
    let big = |m: u64, e: i64| Ratio::new(m, e).unwrap();
    assert_eq!(parse_csv_line("1e20,0").unwrap(), StatusValue::Linear(big(1, 20)));
    assert_eq!(
        parse_csv_line("100000000000000000000,0").unwrap(),
        StatusValue::Linear(big(1, 20))
    );
    assert_eq!(
        parse_csv_line("0.0033333333333333335,1").unwrap(),
        StatusValue::Integer(big(33333333333333335, -19))
    );
    assert_eq!(parse_csv_line("1e-400,2").unwrap(), StatusValue::Timeout(big(1, -400)));
    assert_eq!(parse_csv_line("-0.0,").unwrap(), StatusValue::Infeasible(r(0, 0)));
    assert_eq!(parse_csv_line("-0e5,").unwrap(), StatusValue::Infeasible(r(0, 0)));
    assert_eq!(
        parse_csv_line("18446744073709551616,0").unwrap(),
        StatusValue::Linear(big(1844674407370955161, 1))
    );
    assert_eq!(
        parse_csv_line("1.7976931348623157e308,0").unwrap(),
        StatusValue::Linear(big(17976931348623157, 292))
    );
    assert_eq!(parse_csv_line("5e-99999999999999,0").unwrap(), StatusValue::Linear(r(0, 0)));
    assert!(matches!(parse_log_file("1e20,5"), Err(ProgramError::UnknowStatus(5))));
    assert!(matches!(
        parse_csv_line("1e20"),
        Err(ProgramError::ParseError(ParseError::MissingToken(1)))
    ));
    assert!(matches!(
        parse_csv_line("1e20,x"),
        Err(ProgramError::ParseError(ParseError::Int(_, 1)))
    ));
}

#[test]
fn written_payloads_read_back() {
    assert_eq!(
        parse_csv_line("0000000000000000076e-0000000000002,0").unwrap(),
        StatusValue::Linear(r(76, 2))
    );
    assert_eq!(
        parse_csv_line("0000000000000000003e0000000000020,").unwrap(),
        StatusValue::Infeasible(Ratio::new(3, 20).unwrap())
    );
    let expected = [
        (1e20f64, Ratio::new(1, 20).unwrap()),
        (1.0f64 / 300.0, Ratio::new(33333333333333335, -19).unwrap()),
        (0.5f64, r(5, 1)),
        (0.0f64, r(0, 0)),
        (123.25f64, r(12325, 2)),
    ];
    for (x, want) in expected.iter() {
        let line = format!("{},2", x);
        assert_eq!(parse_csv_line(&line).unwrap(), StatusValue::Timeout(*want), "{}", line);
    }
}
