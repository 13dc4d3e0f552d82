use sexp_interp::parse::parse_i64;
use sexp_interp::{Atom, ParseSExprError, Parser, SExpr, Tokenizer};

fn sym(s: &str) -> SExpr {
    SExpr::Atom(Atom::Symbol(s.to_string()))
}

fn integer(i: i64) -> SExpr {
    SExpr::Atom(Atom::Integer(i))
}

#[test]
fn parses_nested_lists() {
    let e: SExpr = "(+ 1 (* 2 3))".parse().unwrap();
    assert_eq!(
        e,
        SExpr::SList(vec![sym("+"), integer(1), SExpr::SList(vec![sym("*"), integer(2), integer(3)])])
    );
}

#[test]
fn parses_empty_list() {
    assert_eq!(SExpr::parse_str("()"), Ok(SExpr::SList(vec![])));
}

#[test]
fn open_paren_alone_is_unmatched() {
    assert_eq!(SExpr::parse_str("("), Err(ParseSExprError::UnmatchedParen));
    assert_eq!(SExpr::parse_str("(1 (2)"), Err(ParseSExprError::UnmatchedParen));
}

#[test]
fn close_paren_alone_fails() {
    assert_eq!(SExpr::parse_str(")"), Err(ParseSExprError::ExpectedOpenParen));
    assert_eq!(SExpr::parse_str("(1 ))"), Ok(SExpr::SList(vec![integer(1)])));
}

#[test]
fn empty_input_is_unexpected_end() {
    assert_eq!(SExpr::parse_str(""), Err(ParseSExprError::UnexpectedEnd));
    assert_eq!(SExpr::parse_str(" \t\n"), Err(ParseSExprError::UnexpectedEnd));
}

#[test]
fn parser_reads_one_expression_at_a_time() {
    let mut parser = Parser::new(Tokenizer::from("(+ 1 2) x 7"));
    assert_eq!(parser.parse_expr(), Ok(SExpr::SList(vec![sym("+"), integer(1), integer(2)])));
    assert_eq!(parser.parse_expr(), Ok(sym("x")));
    assert_eq!(parser.parse_expr(), Ok(integer(7)));
    assert_eq!(parser.parse_expr(), Err(ParseSExprError::UnexpectedEnd));
    assert_eq!(parser.tokenizer.next_token(), None);
}

#[test]
fn integer_tokens() {
    assert_eq!("42".parse::<Atom>(), Ok(Atom::Integer(42)));
    assert_eq!("-17".parse::<Atom>(), Ok(Atom::Integer(-17)));
    assert_eq!("+5".parse::<Atom>(), Ok(Atom::Integer(5)));
    assert_eq!("007".parse::<Atom>(), Ok(Atom::Integer(7)));
    assert_eq!("-0".parse::<Atom>(), Ok(Atom::Integer(0)));
    assert_eq!(Atom::from_token("9223372036854775807"), Atom::Integer(i64::MAX));
    assert_eq!(Atom::from_token("-9223372036854775808"), Atom::Integer(i64::MIN));
}

#[test]
fn non_integer_tokens_are_symbols() {
    for s in ["+", "-", "x", "1a", "--1", "+-1", "9223372036854775808", "-9223372036854775809", "1_000", "٣"] {
        assert_eq!(Atom::from_token(s), Atom::Symbol(s.to_string()));
    }
}

#[test]
fn parse_i64_agrees_with_std() {
    for s in [
        "0", "12", "-12", "+12", "", "+", "-", "12x", " 1", "99999999999999999999",
        "9223372036854775807", "9223372036854775808", "-9223372036854775808",
        "-9223372036854775809", "00000000000000000000001",
    ] {
        assert_eq!(parse_i64(s), s.parse::<i64>().ok(), "{:?}", s);
    }
}

#[test]
fn parse_error_text() {
    assert_eq!(ParseSExprError::UnmatchedParen.to_string(), "expected a `)` to close `(`");
    assert_eq!(ParseSExprError::ExpectedOpenParen.to_string(), "expected a `(`");
    assert_eq!(
        ParseSExprError::UnexpectedEnd.to_string(),
        "expected an expression, but the input ended"
    );
}

#[test]
fn atom_from_str_never_fails() {
    for s in ["12", "-7", "+", "abc", "9223372036854775808", ""] {
        assert_eq!(s.parse::<Atom>(), Ok(Atom::from_token(s)));
    }
}
