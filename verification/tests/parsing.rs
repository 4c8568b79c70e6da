use lisp_reader::lexer::{Lexer, Token};
use lisp_reader::parser::{Ast, Parser, QuoteState};

fn tokens_of(source: &str) -> Vec<Token> {
    Lexer { source }
        .collect()
        .into_iter()
        .map(|item| item.expect("lexes"))
        .collect()
}

fn feed(parser: &mut Parser, source: &str) -> Result<(), String> {
    for token in tokens_of(source) {
        parser.parse(token)?;
    }
    Ok(())
}

fn sym(name: &str) -> Ast {
    Ast::Symbol(name.to_string())
}

fn num(whole: &str, fraction: &str) -> Ast {
    Ast::Number { whole: whole.to_string(), fraction: fraction.to_string() }
}

#[test]
fn new_parser_is_empty() {
    let parser = Parser::new();
    assert!(parser.program.is_empty());
    assert!(parser.stack().is_empty());
    assert_eq!(parser.finish(), vec![]);
}

#[test]
fn list_of_two_symbols() {
    let mut parser = Parser::new();
    assert_eq!(feed(&mut parser, "(a b)"), Ok(()));
    assert!(parser.stack().is_empty());
    assert_eq!(
        parser.finish(),
        vec![(
            Ast::List(vec![
                (sym("a"), QuoteState::Unquoted),
                (sym("b"), QuoteState::Unquoted),
            ]),
            QuoteState::Unquoted,
        )]
    );
}

#[test]
fn quoted_list_is_annotated() {
    let mut parser = Parser::new();
    assert_eq!(feed(&mut parser, "'(a)"), Ok(()));
    assert_eq!(
        parser.finish(),
        vec![(Ast::List(vec![(sym("a"), QuoteState::Unquoted)]), QuoteState::Quote)]
    );
}

#[test]
fn lone_right_paren_is_unmatched() {
    let mut parser = Parser::new();
    assert_eq!(
        parser.parse(Token::RP),
        Err("no matching `(` found for `)`".to_string())
    );
    assert!(parser.program.is_empty());
    assert!(parser.stack().is_empty());
}

#[test]
fn unterminated_list_stays_on_the_stack() {
    let mut parser = Parser::new();
    assert_eq!(feed(&mut parser, "(a"), Ok(()));
    assert_eq!(
        parser.stack(),
        &vec![(vec![(sym("a"), QuoteState::Unquoted)], QuoteState::Unquoted)]
    );
    // The open list is no part of the program.
    assert_eq!(parser.finish(), vec![]);
}

#[test]
fn comma_inside_backquoted_list_is_accepted() {
    let mut parser = Parser::new();
    assert_eq!(feed(&mut parser, "`(a ,b)"), Ok(()));
    // The comma is checked and leaves no mark on the tree.
    assert_eq!(
        parser.finish(),
        vec![(
            Ast::List(vec![
                (sym("a"), QuoteState::Unquoted),
                (sym("b"), QuoteState::Unquoted),
            ]),
            QuoteState::Backquote,
        )]
    );
}

#[test]
fn comma_at_top_level_is_rejected() {
    let mut parser = Parser::new();
    assert_eq!(
        feed(&mut parser, ",(a)"),
        Err("`,` can only be used in a list quoted with `\\``".to_string())
    );
    assert!(parser.program.is_empty());
    assert!(parser.stack().is_empty());
}

#[test]
fn comma_in_plain_or_quoted_list_is_rejected() {
    let reason = "`,` can only be used in a list quoted with `\\``".to_string();
    let mut parser = Parser::new();
    assert_eq!(feed(&mut parser, "(a ,b)"), Err(reason.clone()));
    let mut parser = Parser::new();
    assert_eq!(feed(&mut parser, "'(a ,b)"), Err(reason.clone()));
    // Only the innermost open list counts.
    let mut parser = Parser::new();
    assert_eq!(feed(&mut parser, "`(a (b ,c))"), Err(reason));
}

#[test]
fn comma_in_nested_backquoted_list_is_accepted() {
    let mut parser = Parser::new();
    assert_eq!(feed(&mut parser, "(a `(b ,c))"), Ok(()));
}

#[test]
fn prefix_after_prefix_is_rejected() {
    let cases = [
        ("''", "`'` right after `'`"),
        ("`'", "`'` right after `\\``"),
        ("'`", "`\\`` right after `'`"),
        ("``", "`\\`` right after `\\``"),
    ];
    for (source, reason) in cases {
        let mut parser = Parser::new();
        assert_eq!(feed(&mut parser, source), Err(reason.to_string()), "{source}");
    }
}

#[test]
fn right_paren_after_prefix_is_rejected() {
    let mut parser = Parser::new();
    assert_eq!(feed(&mut parser, "(')"), Err("`)` right after `'`".to_string()));
    let mut parser = Parser::new();
    assert_eq!(feed(&mut parser, "(`)"), Err("`)` right after `\\``".to_string()));
}

#[test]
fn comma_after_prefix_is_rejected() {
    let mut parser = Parser::new();
    assert_eq!(feed(&mut parser, "`(',"), Err("`,` right after `'`".to_string()));
    let mut parser = Parser::new();
    assert_eq!(feed(&mut parser, "`(`,"), Err("`,` right after `\\``".to_string()));
}

#[test]
fn rejected_token_leaves_the_state_unchanged() {
    let mut parser = Parser::new();
    assert_eq!(feed(&mut parser, "(a '"), Ok(()));
    assert!(parser.parse(Token::Q).is_err());
    assert!(parser.parse(Token::RP).is_err());
    assert!(parser.parse(Token::C).is_err());
    // The quote is still pending and the list still open.
    assert_eq!(feed(&mut parser, "b)"), Ok(()));
    assert_eq!(
        parser.finish(),
        vec![(
            Ast::List(vec![(sym("a"), QuoteState::Unquoted), (sym("b"), QuoteState::Quote)]),
            QuoteState::Unquoted,
        )]
    );
}

#[test]
fn atoms_at_top_level_join_the_program() {
    let mut parser = Parser::new();
    assert_eq!(feed(&mut parser, "a '1.5 `b .25"), Ok(()));
    assert_eq!(
        parser.program,
        vec![
            (sym("a"), QuoteState::Unquoted),
            (num("1", "5"), QuoteState::Quote),
            (sym("b"), QuoteState::Backquote),
            (num("", "25"), QuoteState::Unquoted),
        ]
    );
}

#[test]
fn nested_lists_carry_their_own_annotations() {
    let mut parser = Parser::new();
    assert_eq!(feed(&mut parser, "(a '(b `c) `() 2)"), Ok(()));
    assert_eq!(
        parser.finish(),
        vec![(
            Ast::List(vec![
                (sym("a"), QuoteState::Unquoted),
                (
                    Ast::List(vec![
                        (sym("b"), QuoteState::Unquoted),
                        (sym("c"), QuoteState::Backquote),
                    ]),
                    QuoteState::Quote,
                ),
                (Ast::List(vec![]), QuoteState::Backquote),
                (num("2", ""), QuoteState::Unquoted),
            ]),
            QuoteState::Unquoted,
        )]
    );
}

#[test]
fn stack_lists_open_frames_outermost_first() {
    let mut parser = Parser::new();
    assert_eq!(feed(&mut parser, "x '(a `(b"), Ok(()));
    assert_eq!(
        parser.stack(),
        &vec![
            (vec![(sym("a"), QuoteState::Unquoted)], QuoteState::Quote),
            (vec![(sym("b"), QuoteState::Unquoted)], QuoteState::Backquote),
        ]
    );
    assert_eq!(parser.program, vec![(sym("x"), QuoteState::Unquoted)]);
}

#[test]
fn quote_state_derefs_to_an_option() {
    assert_eq!(*QuoteState::Unquoted, None);
    assert_eq!(*QuoteState::Quote, Some(QuoteState::Quote));
    assert_eq!(*QuoteState::Backquote, Some(QuoteState::Backquote));
    assert!(QuoteState::Unquoted.is_none());
    assert!(QuoteState::Quote.is_some());
}

#[test]
fn quote_state_as_text() {
    assert_eq!(QuoteState::Unquoted.as_str(), "");
    assert_eq!(QuoteState::Backquote.as_str(), "`");
    assert_eq!(QuoteState::Quote.as_str(), "'");
}
