use agent_safe_spl::parser::parse;
use agent_safe_spl::types::{Decimal, Node};

#[test]
fn parse_integer() {
    assert_eq!(parse("42").unwrap(), Node::Number(Decimal::new(42, 0)));
}

#[test]
fn parse_negative_float() {
    assert_eq!(parse("-3.14").unwrap(), Node::Number(Decimal::new(-314, 2)));
}

#[test]
fn parse_string() {
    assert_eq!(parse(r#""hello""#).unwrap(), Node::Str("hello".into()));
}

#[test]
fn parse_bool_true() {
    assert_eq!(parse("#t").unwrap(), Node::Bool(true));
}

#[test]
fn parse_bool_false() {
    assert_eq!(parse("#f").unwrap(), Node::Bool(false));
}

#[test]
fn parse_symbol() {
    assert_eq!(parse("foo").unwrap(), Node::Symbol("foo".into()));
}

#[test]
fn parse_list() {
    let ast = parse("(and #t #f)").unwrap();
    match ast {
        Node::List(items) => {
            assert_eq!(items.len(), 3);
            assert_eq!(items[0], Node::Symbol("and".into()));
        }
        _ => panic!("expected list"),
    }
}

#[test]
fn parse_nested() {
    let ast = parse("(and (= 1 2) (> 3 1))").unwrap();
    if let Node::List(items) = ast {
        assert_eq!(items.len(), 3);
        if let Node::List(inner) = &items[1] {
            assert_eq!(inner[0], Node::Symbol("=".into()));
        } else {
            panic!("expected inner list");
        }
    } else {
        panic!("expected list");
    }
}

#[test]
fn parse_strings_with_spaces() {
    let ast = parse(r#"(= "hello world" "hello world")"#).unwrap();
    if let Node::List(items) = ast {
        assert_eq!(items[1], Node::Str("hello world".into()));
    } else {
        panic!("expected list");
    }
}

#[test]
fn parse_unterminated() {
    assert!(parse("(and #t").is_err());
}

#[test]
fn parse_unexpected_close() {
    assert!(parse(")").is_err());
}

#[test]
fn parse_extra_tokens() {
    assert!(parse("#t #f").is_err());
}

#[test]
fn parse_empty() {
    assert!(parse("").is_err());
}

#[test]
fn parse_escaped_quote() {
    assert_eq!(parse(r#""say \"hi\"""#).unwrap(), Node::Str(r#"say "hi""#.into()));
}

#[test]
fn parse_size_cap() {
    let big = "x".repeat(65537);
    let err = parse(&big).unwrap_err();
    assert_eq!(err.0, "policy exceeds maximum size of 65536 bytes");
    let ok = "x".repeat(65536);
    assert!(parse(&ok).is_ok());
}

#[test]
fn parse_error_messages() {
    assert_eq!(parse("").unwrap_err().0, "unexpected EOF");
    assert_eq!(parse("(and #t").unwrap_err().0, "unterminated (");
    assert_eq!(parse(")").unwrap_err().0, "unexpected )");
    assert_eq!(parse("#t #f").unwrap_err().0, "extra tokens");
}

#[test]
fn parse_trims_whitespace() {
    assert_eq!(parse("  \n\t 42 \r\n").unwrap(), Node::Number(Decimal::new(42, 0)));
}

#[test]
fn parse_number_overflow_is_symbol() {
    // a run of digits past the mantissa bound reads as a symbol
    assert_eq!(
        parse("99999999999999999999").unwrap(),
        Node::Symbol("99999999999999999999".into())
    );
}

#[test]
fn display_round_trip() {
    let src = r#"(and #t (= 1 2.50) (member "a b" (tuple "a b" nil)))"#;
    let ast = agent_safe_spl::parser::parse(src).unwrap();
    let shown = agent_safe_spl::render::display_string(&ast);
    let again = agent_safe_spl::parser::parse(&shown).unwrap();
    assert_eq!(ast, again);
    let shown2 = agent_safe_spl::render::display_string(&again);
    assert_eq!(shown, shown2);
}

#[test]
fn parse_exponent_and_sign_forms() {
    assert_eq!(parse("1e5").unwrap(), Node::Number(Decimal::new(100000, 0)));
    assert_eq!(parse("1E5").unwrap(), Node::Number(Decimal::new(100000, 0)));
    assert_eq!(parse(".5").unwrap(), Node::Number(Decimal::new(5, 1)));
    assert_eq!(parse("1.").unwrap(), Node::Number(Decimal::new(1, 0)));
    assert_eq!(parse("+3").unwrap(), Node::Number(Decimal::new(3, 0)));
    assert_eq!(parse("1.5e2").unwrap(), Node::Number(Decimal::new(150, 0)));
    assert_eq!(parse("1.5e-1").unwrap(), Node::Number(Decimal::new(15, 2)));
    assert_eq!(parse("2e+3").unwrap(), Node::Number(Decimal::new(2000, 0)));
    assert_eq!(parse("-2.5e1").unwrap(), Node::Number(Decimal::new(-25, 0)));
    assert_eq!(parse("0e999999999999999999999").unwrap(), Node::Number(Decimal::new(0, 0)));
}

#[test]
fn parse_out_of_range_numbers_are_symbols() {
    // magnitudes or scales past the decimal bounds read as symbols
    assert_eq!(parse("1e999").unwrap(), Node::Symbol("1e999".into()));
    assert_eq!(parse("1e-999").unwrap(), Node::Symbol("1e-999".into()));
    assert_eq!(parse("1e").unwrap(), Node::Symbol("1e".into()));
    assert_eq!(parse("e5").unwrap(), Node::Symbol("e5".into()));
    assert_eq!(parse("1.2.3").unwrap(), Node::Symbol("1.2.3".into()));
    assert_eq!(parse("+").unwrap(), Node::Symbol("+".into()));
    assert_eq!(parse("inf").unwrap(), Node::Symbol("inf".into()));
}
