use sexp_interp::{scan_one_token, tokenize, Tokenizer};

#[test]
fn test_tokenizer() {
    assert_eq!(tokenize("(+ 1 2)"), vec!["(", "+", "1", "2", ")"]);
    assert_eq!(tokenize("(+  1 2)"), vec!["(", "+", "1", "2", ")"]);
    assert_eq!(tokenize(" (+  1 2)"), vec!["(", "+", "1", "2", ")"]);
    assert_eq!(tokenize(" ( + 1 2)"), vec!["(", "+", "1", "2", ")"]);

    assert_eq!(
        tokenize("(+ 1 (* 2 3))"),
        vec!["(", "+", "1", "(", "*", "2", "3", ")", ")"]
    );
}

#[test]
fn extra_whitespace_gives_same_tokens() {
    let expected = vec!["(", "+", "1", "2", ")"];
    assert_eq!(tokenize("(+  1   2)"), expected);
    assert_eq!(tokenize("\t(+\n1 \r\n 2 )  "), expected);
    assert_eq!(tokenize("(+\u{a0}1\u{3000}2)"), expected);
}

#[test]
fn empty_and_blank_text_have_no_tokens() {
    assert!(tokenize("").is_empty());
    assert!(tokenize("   \n\t").is_empty());
}

#[test]
fn words_end_at_parens_and_whitespace() {
    assert_eq!(tokenize("abc(def)ghi jkl"), vec!["abc", "(", "def", ")", "ghi", "jkl"]);
    assert_eq!(tokenize("))(("), vec![")", ")", "(", "("]);
    assert_eq!(tokenize("λx.y"), vec!["λx.y"]);
}

#[test]
fn scan_one_token_splits_off_the_next_token() {
    assert_eq!(scan_one_token("  foo bar"), Some(("foo", " bar")));
    assert_eq!(scan_one_token("(a)"), Some(("(", "a)")));
    assert_eq!(scan_one_token("abc"), Some(("abc", "")));
    assert_eq!(scan_one_token("   "), None);
}

#[test]
fn tokenizer_hands_out_tokens_in_order() {
    let mut t = Tokenizer::from(" (x 12)");
    assert_eq!(t.next_token(), Some("("));
    assert_eq!(t.next_token(), Some("x"));
    assert_eq!(t.remaining, " 12)");
    assert_eq!(t.next_token(), Some("12"));
    assert_eq!(t.next_token(), Some(")"));
    assert_eq!(t.next_token(), None);
    assert_eq!(t.next_token(), None);
}

#[test]
fn whitespace_next_to_parens_and_runs_do_not_matter() {
    let expected = vec!["(", "*", "(", "+", "1", "2", ")", "3", ")"];
    assert_eq!(tokenize("(*(+ 1 2)3)"), expected);
    assert_eq!(tokenize("  ( * ( + 1\t\t2 ) 3 )\n"), expected);
    assert_eq!(tokenize("(*\n(+\u{2003}1 \t 2)\r3)   "), expected);
}
