use lisp_reader::lexer::Token::{Number, Symbol, BQ, C, LP, Q, RP};
use lisp_reader::lexer::{Lexer, Token};

fn lex(source: &str) -> Vec<Result<Token, String>> {
    Lexer { source }.collect()
}

fn number(whole: &str, fraction: &str) -> Token {
    Number { whole: whole.into(), fraction: fraction.into() }
}

fn symbol(name: &str) -> Token {
    Symbol(name.into())
}

#[test]
fn lexer() {
    let lexer = Lexer {
        source: "(* (+ 2 1.14) a &&& .88)",
    };
    assert_eq!(
        lexer.collect(),
        vec![
            Ok(LP),
            Ok(Symbol("*".into())),
            Ok(LP),
            Ok(Symbol("+".into())),
            Ok(Number {
                whole: "2".into(),
                fraction: "".into(),
            }),
            Ok(Number {
                whole: "1".into(),
                fraction: "14".into(),
            }),
            Ok(RP),
            Ok(Symbol("a".into())),
            Ok(Symbol("&&&".into())),
            Ok(Number {
                whole: "".into(),
                fraction: "88".into(),
            }),
            Ok(RP),
        ]
    );
}

#[test]
fn empty_source_yields_nothing() {
    assert_eq!(lex(""), vec![]);
    let mut lexer = Lexer { source: "" };
    assert_eq!(lexer.next(), None);
    assert_eq!(lexer.source, "");
}

#[test]
fn whitespace_only_is_consumed_and_yields_nothing() {
    let mut lexer = Lexer { source: " \t\r\n " };
    assert_eq!(lexer.next(), None);
    assert_eq!(lexer.source, "");
}

#[test]
fn structural_characters_are_tokens() {
    assert_eq!(lex("()'`,"), vec![Ok(LP), Ok(RP), Ok(Q), Ok(BQ), Ok(C)]);
}

#[test]
fn second_dot_in_a_number_is_an_error() {
    let mut lexer = Lexer { source: "1..2" };
    assert_eq!(lexer.next(), Some(Err("dot after floating number".to_string())));
    // The offending dot has been consumed.
    assert_eq!(lexer.source, "2");
    assert_eq!(lexer.next(), Some(Ok(number("2", ""))));
    assert_eq!(lexer.next(), None);
}

#[test]
fn second_dot_after_fraction_digits_is_an_error() {
    assert_eq!(
        lex("1.5.2"),
        vec![Err("dot after floating number".to_string()), Ok(number("2", ""))]
    );
}

#[test]
fn terminating_character_is_left_in_the_source() {
    let mut lexer = Lexer { source: "12)" };
    assert_eq!(lexer.next(), Some(Ok(number("12", ""))));
    assert_eq!(lexer.source, ")");
    let mut lexer = Lexer { source: "1.5 x" };
    assert_eq!(lexer.next(), Some(Ok(number("1", "5"))));
    assert_eq!(lexer.source, " x");
    let mut lexer = Lexer { source: "  foo'bar" };
    assert_eq!(lexer.next(), Some(Ok(symbol("foo"))));
    assert_eq!(lexer.source, "'bar");
}

#[test]
fn tokens_end_at_the_end_of_the_text() {
    assert_eq!(lex("42"), vec![Ok(number("42", ""))]);
    assert_eq!(lex("4.25"), vec![Ok(number("4", "25"))]);
    assert_eq!(lex("abc"), vec![Ok(symbol("abc"))]);
    assert_eq!(lex("7."), vec![Ok(number("7", ""))]);
    assert_eq!(lex("."), vec![Ok(number("", ""))]);
}

#[test]
fn number_followed_by_letters_splits() {
    assert_eq!(lex("12ab"), vec![Ok(number("12", "")), Ok(symbol("ab"))]);
    assert_eq!(lex("1.5x"), vec![Ok(number("1", "5")), Ok(symbol("x"))]);
}

#[test]
fn symbols_may_hold_digits_and_dots() {
    assert_eq!(lex("a1.b2"), vec![Ok(symbol("a1.b2"))]);
    assert_eq!(lex("-3"), vec![Ok(symbol("-3"))]);
}

#[test]
fn symbols_may_hold_any_other_character() {
    assert_eq!(lex("λx (é→ü)"), vec![
        Ok(symbol("λx")),
        Ok(LP),
        Ok(symbol("é→ü")),
        Ok(RP),
    ]);
    let mut lexer = Lexer { source: "日本語 x" };
    assert_eq!(lexer.next(), Some(Ok(symbol("日本語"))));
    assert_eq!(lexer.source, " x");
}

#[test]
fn quote_prefixes_split_symbols() {
    assert_eq!(lex("a'b`c,d"), vec![
        Ok(symbol("a")),
        Ok(Q),
        Ok(symbol("b")),
        Ok(BQ),
        Ok(symbol("c")),
        Ok(C),
        Ok(symbol("d")),
    ]);
}
