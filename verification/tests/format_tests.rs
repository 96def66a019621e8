use f77_io::format::{parse_format, FormatNode, ParseError};
use f77_io::format::FormatNode::{
    Group, Literal, NewLine, SkipChar, Int, Oct, Hex, Bool, Str, Real, Repeat, Scale, Radix,
    AbsColumn, RelColumn, SuppressNewLine, Terminate, RemainingChars, BlankControl,
};
use f77_io::format::{RealFormat, BlankType};

#[test]
fn empty() {
    assert_eq!(parse_format("()").unwrap(), Group(vec![]));
}

#[test]
fn err_eof() {
    assert!(parse_format("(").is_err());
}

#[test]
fn err_paren() {
    assert!(parse_format("/").is_err());
}

#[test]
fn unescape_quot() {
    let src = "(' '' ')";
    let parsed = Group(vec![Literal(" ' ".to_string())]);
    assert_eq!(parse_format(src).unwrap(), parsed);
}

#[test]
fn escape_quot() {
    let parsed = Literal(" ' ".to_string());
    let src = "' '' '";
    assert_eq!(parsed.to_string(), src);
}

#[test]
fn some_header() {
    let src = "('1'/1X,125('*')/1X,125('*')/1X,50('*'),25X,50('*')/1X,50('*'),10X,'FOBAR',10X,50('*')/1X,50('*'),25X,50('*')/1X,125('*')/1X,125('*')////)";

    let parsed = Group(vec![
        Literal("1".to_string()),
        NewLine,
        Repeat(1, Box::new(SkipChar)),
        Repeat(125, Box::new(Group(vec![Literal("*".to_string())]))),
        NewLine,
        Repeat(1, Box::new(SkipChar)),
        Repeat(125, Box::new(Group(vec![Literal("*".to_string())]))),
        NewLine,
        Repeat(1, Box::new(SkipChar)),
        Repeat(50, Box::new(Group(vec![Literal("*".to_string())]))),
        Repeat(25, Box::new(SkipChar)),
        Repeat(50, Box::new(Group(vec![Literal("*".to_string())]))),
        NewLine,
        Repeat(1, Box::new(SkipChar)),
        Repeat(50, Box::new(Group(vec![Literal("*".to_string())]))),
        Repeat(10, Box::new(SkipChar)),
        Literal("FOBAR".to_string()),
        Repeat(10, Box::new(SkipChar)),
        Repeat(50, Box::new(Group(vec![Literal("*".to_string())]))),
        NewLine,
        Repeat(1, Box::new(SkipChar)),
        Repeat(50, Box::new(Group(vec![Literal("*".to_string())]))),
        Repeat(25, Box::new(SkipChar)),
        Repeat(50, Box::new(Group(vec![Literal("*".to_string())]))),
        NewLine,
        Repeat(1, Box::new(SkipChar)),
        Repeat(125, Box::new(Group(vec![Literal("*".to_string())]))),
        NewLine,
        Repeat(1, Box::new(SkipChar)),
        Repeat(125, Box::new(Group(vec![Literal("*".to_string())]))),
        NewLine,
        NewLine,
        NewLine,
        NewLine,
    ]);

    assert_eq!(parse_format(src).unwrap(), parsed);
}

#[test]
fn some_header_str() {
    let src = "('1'/1X,125('*')/1X,125('*')/1X,50('*'),25X,50('*')/1X,50('*'),10X,'FOBAR',10X,50('*')/1X,50('*'),25X,50('*')/1X,125('*')/1X,125('*')////)";
    let expected = "('1'/1X, 125('*')/1X, 125('*')/1X, 50('*'), 25X, 50('*')/1X, 50('*'), 10X, 'FOBAR', 10X, 50('*')/1X, 50('*'), 25X, 50('*')/1X, 125('*')/1X, 125('*')////)";

    assert_eq!(parse_format(src).unwrap().to_string(), expected);
}

#[test]
fn doc_example() {
    let fmt = parse_format("('hello world'/, I16)").unwrap();
    assert_eq!(fmt.to_string(), "('hello world'/I16)");
    assert_eq!(
        fmt,
        Group(vec![Literal("hello world".to_string()), NewLine, Int(Some(16), None)])
    );
}

#[test]
fn zero_width_rejected() {
    assert!(matches!(parse_format("(I0)"), Err(ParseError::ExpectedNonZero(_))));
    assert!(matches!(parse_format("(L0)"), Err(ParseError::ExpectedNonZero(_))));
    assert!(matches!(parse_format("(A0)"), Err(ParseError::ExpectedNonZero(_))));
    assert!(matches!(parse_format("(F0)"), Err(ParseError::ExpectedNonZero(_))));
    assert!(matches!(parse_format("(0X)"), Err(ParseError::ExpectedNonZero(_))));
}

#[test]
fn unterminated_group() {
    assert!(matches!(parse_format("("), Err(ParseError::UnexpectedEOF(_))));
    assert!(matches!(parse_format("(I4"), Err(ParseError::UnexpectedEOF(_))));
}

#[test]
fn missing_open_paren() {
    assert!(matches!(parse_format("/"), Err(ParseError::ExpectedParen(_))));
    assert!(matches!(parse_format("  /"), Err(ParseError::ExpectedParen(_))));
    assert!(matches!(parse_format("I4"), Err(ParseError::ExpectedParen(_))));
}

#[test]
fn radix_bounds() {
    assert!(matches!(parse_format("(37R)"), Err(ParseError::RadixOutOfRange(_, 37))));
    assert!(matches!(parse_format("(1R)"), Err(ParseError::RadixOutOfRange(_, 1))));
    assert_eq!(parse_format("(2R)").unwrap(), Group(vec![Radix(2)]));
    assert_eq!(parse_format("(36R)").unwrap(), Group(vec![Radix(36)]));
}

#[test]
fn parse_error_taxonomy() {
    assert!(matches!(parse_format("(I8.)"), Err(ParseError::ExpectedNumber(_))));
    assert!(matches!(parse_format("(I4 I5)"), Err(ParseError::ExpectedComma(_))));
    assert!(matches!(parse_format("(-3X)"), Err(ParseError::ExpectedScaleControl(_))));
    assert!(matches!(
        parse_format("(99999999999999999999999999999999X)"),
        Err(ParseError::NumberTooBig(_))
    ));
    assert!(matches!(parse_format("(3$)"), Err(ParseError::RepeatingDollar(_))));
    assert!(matches!(parse_format("(3:)"), Err(ParseError::RepeatingColon(_))));
    assert!(matches!(parse_format("(3'a')"), Err(ParseError::RepeatingStr(_))));
    assert!(matches!(parse_format("(3B)"), Err(ParseError::RepeatingBlankControl(_))));
    assert!(matches!(parse_format("(3T5)"), Err(ParseError::RepeatingTab(_))));
    assert!(matches!(parse_format("(3Q)"), Err(ParseError::RepeatingQ(_))));
    assert!(matches!(parse_format("(I4,)"), Err(ParseError::ExtraComma(_))));
    assert!(matches!(parse_format("(P)"), Err(ParseError::MissingScale(_))));
    assert!(matches!(parse_format("(W)"), Err(ParseError::UnexpectedChar(_, 'W'))));
    assert!(matches!(parse_format("(R)"), Err(ParseError::MissingRadix(_))));
}

#[test]
fn descriptor_zoo() {
    assert_eq!(
        parse_format("(I4, O7.2, Z3, L1, A, A9, F8.3, E12.4E2, $, :, Q, BN, BZ, B)").unwrap(),
        Group(vec![
            Int(Some(4), None),
            Oct(Some(7), Some(2)),
            Hex(Some(3), None),
            Bool(Some(1)),
            Str(None),
            Str(Some(9)),
            Real(RealFormat::F, Some(8), Some(3), None),
            Real(RealFormat::E, Some(12), Some(4), Some(2)),
            SuppressNewLine,
            Terminate,
            RemainingChars,
            BlankControl(BlankType::BN),
            BlankControl(BlankType::BZ),
            BlankControl(BlankType::B),
        ])
    );
}

#[test]
fn sticky_prefixes() {
    assert_eq!(
        parse_format("(-2P, 3P, 16R, T5, TL3, TR4)").unwrap(),
        Group(vec![
            Scale(-2),
            Scale(3),
            Radix(16),
            AbsColumn(5),
            RelColumn(-3),
            RelColumn(4),
        ])
    );
}

#[test]
fn case_insensitive_letters() {
    assert_eq!(parse_format("(i4, z3, o2, l1, a5, f6.2, x, q)").unwrap(),
        parse_format("(I4, Z3, O2, L1, A5, F6.2, X, Q)").unwrap());
}

#[test]
fn whitespace_tolerated() {
    assert_eq!(
        parse_format(" ( I 4 , \t3 ( A2 ) ,\n'x' ) ").unwrap(),
        Group(vec![
            Int(Some(4), None),
            Repeat(3, Box::new(Group(vec![Str(Some(2))]))),
            Literal("x".to_string()),
        ])
    );
}

#[test]
fn round_trip_reparse() {
    let sources = [
        "()",
        "(I4)",
        "(' '' ')",
        "(3(I4, A2)/, L1, $)",
        "(-2P, 3P, 16R, T5, TL3, TR4, BN, BZ, B, Q, :, I8.3, F12.4E2)",
        "('1'/1X,125('*')/1X,50('*'),25X,50('*')////)",
    ];
    for src in sources.iter() {
        let ast = parse_format(src).unwrap();
        let printed = ast.to_string();
        let reparsed = parse_format(&printed).unwrap();
        assert_eq!(reparsed, ast);
    }
}

#[test]
fn double_quoted_literal() {
    assert_eq!(
        parse_format("(\"he said \"\"hi\"\"\")").unwrap(),
        Group(vec![Literal("he said \"hi\"".to_string())])
    );
}

#[test]
fn nested_groups() {
    assert_eq!(
        parse_format("(2(I2, 3(A1)))").unwrap(),
        Group(vec![Repeat(
            2,
            Box::new(Group(vec![
                Int(Some(2), None),
                Repeat(3, Box::new(Group(vec![Str(Some(1))]))),
            ]))
        )])
    );
}

#[test]
fn parser_object_surface() {
    let mut p = f77_io::format::FormatParser::new(" (2X) ");
    assert_eq!(
        p.parse().unwrap(),
        Group(vec![Repeat(2, Box::new(SkipChar))])
    );
}
