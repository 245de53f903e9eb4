use pose::Pose;
use pose::PoseError;
use pose::PoseError::InvalidEnd;
use pose::PoseError::InvalidFirstLetter;
use pose::PoseError::InvalidNumber;
use pose::PoseError::InvalidString;
use pose::PoseError::InvalidSymbol;
use pose::PoseError::NothingClosingParenthesis;
use pose::PoseNum;
use pose::PoseType;
use pose::PoseType::End;
use pose::PoseType::List;
use pose::PoseType::Number;
use pose::PoseType::String;
use pose::PoseType::Symbol;

fn pose_str(s: &str) -> Result<PoseType, PoseError> {
    Ok(String(s.to_string()))
}

fn pose_sym(s: &str) -> Result<PoseType, PoseError> {
    Ok(Symbol(s.to_string()))
}

fn pose_num(neg: bool, digits: &[u8], exp: i128) -> Result<PoseType, PoseError> {
    Ok(Number(PoseNum { neg, digits: digits.to_vec(), exp }))
}

fn same(a: &Result<PoseType, PoseError>, b: &Result<PoseType, PoseError>) -> bool {
    match (a, b) {
        (Ok(x), Ok(y)) => x.deep_eq(y),
        (Err(x), Err(y)) => x == y,
        _ => false,
    }
}

fn read_str(s: &str) -> Result<PoseType, PoseError> {
    let mut parser = Pose::new(s.chars().collect());
    parser.read()
}

#[test]
fn parse_one() {
    let testcase = [
        (";abc\n\"abc\"", pose_str("abc")),
        (" :abc\n\"abc\"", pose_sym(":abc")),
        (" :@", Err(InvalidSymbol)),
        ("ABC", Err(InvalidFirstLetter)),
        ("\"a\\\"bc\"", pose_str("a\"bc")),
        ("\"a\\bc\"", Err(InvalidString)),
        ("  def;ghi", pose_sym("def")),
        (" jkl-mno123;comment", pose_sym("jkl-mno123")),
        ("0", pose_num(false, &[], 0)),
        ("1", pose_num(false, &[1], 0)),
        ("-150.05", pose_num(true, &[1, 5, 0, 0, 5], -2)),
        ("-2.34", pose_num(true, &[2, 3, 4], -2)),
        ("-2.abc", Err(InvalidNumber)),
        ("-2.0E+12", pose_num(true, &[2], 12)),
        ("-2.0e12", pose_num(true, &[2], 12)),
        ("-0abc", pose_num(true, &[], 0)),
        ("+abc", pose_sym("+abc")),
        ("-abc", pose_sym("-abc")),
        ("+12", pose_sym("+")),
        (
            "(\"jkl\" \"mnf\")",
            Ok(List(vec![String("jkl".into()), String("mnf".into())])),
        ),
        ("(\"jkl\" \"mnf\"", Err(NothingClosingParenthesis)),
        (
            "(a (b c) d)",
            Ok(List(vec![
                Symbol("a".into()),
                List(vec![Symbol("b".into()), Symbol("c".into())]),
                Symbol("d".into()),
            ])),
        ),
        (
            "(-0123)",
            Ok(List(vec![
                Number(PoseNum { neg: true, digits: vec![], exp: 0 }),
                Number(PoseNum { neg: false, digits: vec![1, 2, 3], exp: 0 }),
            ])),
        ),
        (
            "(+123)",
            Ok(List(vec![
                Symbol("+".into()),
                Number(PoseNum { neg: false, digits: vec![1, 2, 3], exp: 0 }),
            ])),
        ),
        (";nothing object", Ok(End)),
        ("@abc", Err(InvalidFirstLetter)),
    ];

    for (s, expect_result) in &testcase {
        let result = read_str(s);
        assert!(same(&result, expect_result), "case: {}", s);
    }
}

#[test]
fn parse_and_write() {
    let testcase = [
        ("abc", "abc"),
        (" ;comment\nabc ", "abc"),
        ("1.543", "1.543"),
        ("150.05", "150.05"),
        ("-150.05", "-150.05"),
        ("1.5e100", "1.5e100"),
        ("150000000000000", "150000000000000"),
        ("1500000000000000", "1.5e15"),
        ("-1500000000000000", "-1.5e15"),
        ("0.000000532", "5.32e-7"),
        ("\"ab\\\"c\"", "\"ab\\\"c\""),
    ];

    for (s, expected_result) in &testcase {
        let v = pose::parse_one(s).unwrap();
        assert_eq!(pose::writer::format(&v), *expected_result, "case: {}", s);
    }
}

#[test]
fn number_round_trip_concrete() {
    let inputs = ["0", "-0", "1", "0.1", "10", "1.05", "12.5e-3", "9e3", "123456789012345"];
    for s in &inputs {
        let v = pose::parse_one(s).unwrap();
        let text = pose::writer::format(&v);
        let w = pose::parse_one(&text).unwrap();
        assert!(v.deep_eq(&w), "case: {} -> {}", s, text);
    }
}

#[test]
fn value_round_trip_concrete() {
    let v = List(vec![
        Symbol("a".into()),
        String("b\"c\\d".into()),
        List(vec![Symbol("+".into()), Symbol(":k".into())]),
    ]);
    let text = pose::writer::format(&v);
    assert_eq!(text, "(a\"b\\\"c\\\\d\"(+:k))");
    let w = pose::parse_one(&text).unwrap();
    assert!(v.deep_eq(&w));
    let u = List(vec![Symbol("a".into()), String("b".into()), Symbol("c".into())]);
    let text2 = pose::writer::format(&u);
    assert_eq!(text2, "(a\"b\"c)");
    let w2 = pose::parse_one(&text2).unwrap();
    assert!(u.deep_eq(&w2));
}

#[test]
fn comments_and_whitespace_insignificant() {
    let plain = pose::parse_one("(a (b c) d)").unwrap();
    let padded = pose::parse_one(" ;note\n\t( a ;x\n ( b \x0b c ) d )").unwrap();
    assert!(plain.deep_eq(&padded));
}

#[test]
fn negative_zero_formats_with_sign() {
    let v = pose::parse_one("-0").unwrap();
    assert_eq!(pose::writer::format(&v), "-0");
    let z = pose::parse_one("0").unwrap();
    assert!(v.deep_eq(&z), "negative zero equals zero");
}

#[test]
fn sign_disambiguation() {
    // `+` before a digit stays the bare symbol `+`; the digits are left
    // for the next read.
    let mut parser = Pose::new("+12".chars().collect());
    let first = parser.read().unwrap();
    assert!(first.deep_eq(&Symbol("+".into())));
    let second = parser.read().unwrap();
    assert!(second.deep_eq(&Number(PoseNum { neg: false, digits: vec![1, 2], exp: 0 })));
}

#[test]
fn end_is_idempotent() {
    let mut parser = Pose::new("a".chars().collect());
    assert!(parser.read().unwrap().deep_eq(&Symbol("a".into())));
    assert!(matches!(parser.read().unwrap(), End));
    assert!(matches!(parser.read().unwrap(), End));
}

#[test]
fn next_yields_forms_then_none() {
    let mut parser = Pose::new("(1 a \"b\") ;comment\n+ 1.0 1.2e+3".chars().collect());
    let mut got: Vec<std::string::String> = Vec::new();
    while let Some(item) = parser.next() {
        got.push(pose::writer::format(&item.unwrap()));
    }
    assert_eq!(got, vec!["(1a\"b\")", "+", "1", "1200"]);
    assert!(parser.next().is_none());
}

#[test]
fn trailing_content_is_invalid_end() {
    assert_eq!(pose::parse_one("abc def").unwrap_err(), InvalidEnd);
    assert_eq!(pose::parse_one("1 2").unwrap_err(), InvalidEnd);
}

#[test]
fn error_variants() {
    assert_eq!(pose::parse_one("\"abc").unwrap_err(), InvalidString);
    assert_eq!(pose::parse_one("1.").unwrap_err(), InvalidNumber);
    assert_eq!(pose::parse_one("2e").unwrap_err(), InvalidNumber);
    assert_eq!(pose::parse_one(":").unwrap_err(), InvalidSymbol);
    assert_eq!(pose::parse_one("(a").unwrap_err(), NothingClosingParenthesis);
    assert_eq!(pose::parse_one("^").unwrap_err(), InvalidFirstLetter);
}

#[test]
fn empty_list_and_end_render() {
    assert_eq!(pose::writer::format(&List(vec![])), "(");
    assert_eq!(pose::writer::format(&End), "EOF");
}

#[test]
fn exponent_boundary_formats() {
    // fifteen significant digits stay fixed-point, sixteen switch to
    // scientific form; small magnitudes switch below one tenth.
    let cases = [
        ("0.1", "0.1"),
        ("0.0999", "9.99e-2"),
        ("999999999999999", "999999999999999"),
        ("1e15", "1000000000000000"),
        ("1e16", "10e15"),
        ("123.456e-3", "0.123456"),
    ];
    for (s, expected) in &cases {
        let v = pose::parse_one(s).unwrap();
        assert_eq!(pose::writer::format(&v), *expected, "case: {}", s);
    }
}
