use lisp_reader::lexer::{Lexer, Token};
use lisp_reader::parser::{Ast, Parser, QuoteState};

fn lexed(source: &str) -> Vec<Token> {
    Lexer { source }
        .collect()
        .into_iter()
        .map(|item| item.expect("lexes"))
        .collect()
}

fn parsed(source: &str) -> Vec<(Ast, QuoteState)> {
    let mut parser = Parser::new();
    for token in lexed(source) {
        parser.parse(token).expect("parses");
    }
    assert!(parser.stack().is_empty());
    parser.finish()
}

fn written(program: &[(Ast, QuoteState)]) -> String {
    let mut text = String::new();
    for (ast, quote) in program {
        text.push_str(quote.as_str());
        text.push_str(&ast.to_string());
        text.push(' ');
    }
    text
}

#[test]
fn number_is_written_as_whole_or_whole_dot_fraction() {
    let cases = [
        ("12", "12"),
        ("12.", "12"),
        ("12.5", "12.5"),
        (".88", ".88"),
        ("0.0", "0.0"),
        ("007", "007"),
    ];
    for (literal, expected) in cases {
        let program = parsed(literal);
        assert_eq!(program.len(), 1, "{literal}");
        assert_eq!(program[0].0.to_string(), expected, "{literal}");
    }
}

#[test]
fn atoms_are_written_as_themselves() {
    assert_eq!(Ast::Symbol("foo".into()).to_string(), "foo");
    assert_eq!(
        Ast::Number { whole: "3".into(), fraction: "".into() }.to_string(),
        "3"
    );
    assert_eq!(
        Ast::Number { whole: "3".into(), fraction: "14".into() }.to_string(),
        "3.14"
    );
    assert_eq!(
        Ast::Number { whole: "".into(), fraction: "5".into() }.to_string(),
        ".5"
    );
}

#[test]
fn list_is_written_with_spaces_and_prefixes() {
    assert_eq!(Ast::List(vec![]).to_string(), "( )");
    let program = parsed("(a 'b `(c 1.5) ())");
    assert_eq!(program[0].0.to_string(), "( a 'b `( c 1.5 ) ( ) )");
}

#[test]
fn relexing_the_written_program_gives_the_tokens_back() {
    let sources = [
        "(* (+ 2 1.14) a &&& .88)",
        "'(a) `(b 'c) x 12 .5 7.",
        "(define (f x) (if (< x 2) 1 (* x (f (- x 1)))))",
        "",
        "((()))",
        "'a `b",
    ];
    for source in sources {
        let tokens = lexed(source);
        let program = parsed(source);
        assert_eq!(lexed(&written(&program)), tokens, "{source}");
    }
}

#[test]
fn relexing_the_program_as_one_list_adds_the_parentheses() {
    let source = "'(a 1.5) b";
    let mut expected = vec![Token::LP];
    expected.extend(lexed(source));
    expected.push(Token::RP);
    let whole = Ast::List(parsed(source));
    assert_eq!(whole.to_string(), "( '( a 1.5 ) b )");
    assert_eq!(lexed(&whole.to_string()), expected);
}

#[test]
fn writing_is_stable_after_one_round() {
    let first = written(&parsed("(a   (b\n'c)\t1.50 )"));
    let second = written(&parsed(&first));
    assert_eq!(first, "( a ( b 'c ) 1.50 ) ");
    assert_eq!(first, second);
}

#[test]
fn commas_are_not_written_back() {
    let program = parsed("`(a ,b)");
    assert_eq!(written(&program), "`( a b ) ");
    assert_eq!(
        lexed(&written(&program)),
        vec![
            Token::BQ,
            Token::LP,
            Token::Symbol("a".into()),
            Token::Symbol("b".into()),
            Token::RP,
        ]
    );
}

#[test]
fn lone_dot_is_written_as_nothing() {
    let program = parsed(".");
    assert_eq!(
        program,
        vec![(Ast::Number { whole: "".into(), fraction: "".into() }, QuoteState::Unquoted)]
    );
    assert_eq!(program[0].0.to_string(), "");
}
