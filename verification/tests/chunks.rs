use lisp_reader::lexer::Token::{Number, Symbol, LP, RP};
use lisp_reader::lexer::{Lexer, Token};

fn lex_whole(source: &str) -> Vec<Result<Token, String>> {
    Lexer { source }.collect()
}

/// Lexes `pieces` one after the other, carrying the token in flight from
/// each piece to the next.
fn lex_pieces(pieces: &[&str]) -> Vec<Result<Token, String>> {
    let mut items = Vec::new();
    let mut text = String::new();
    for piece in pieces {
        text.push_str(piece);
        let mut lexer = Lexer { source: &text };
        while let Some(item) = lexer.next_confirmed() {
            items.push(item);
        }
        text = lexer.source.to_string();
    }
    let mut lexer = Lexer { source: &text };
    while let Some(item) = lexer.next() {
        items.push(item);
    }
    items
}

#[test]
fn token_in_flight_is_held_back() {
    let mut lexer = Lexer { source: "(foo 12" };
    assert_eq!(lexer.next_confirmed(), Some(Ok(LP)));
    assert_eq!(lexer.next_confirmed(), Some(Ok(Symbol("foo".into()))));
    assert_eq!(lexer.next_confirmed(), None);
    // The number may go on; it stays in the source, without the space.
    assert_eq!(lexer.source, "12");
    assert_eq!(lexer.next_confirmed(), None);
    assert_eq!(lexer.source, "12");
    // At the end of the input it is a token.
    assert_eq!(lexer.next(), Some(Ok(Number { whole: "12".into(), fraction: "".into() })));
}

#[test]
fn structural_token_at_the_end_is_confirmed() {
    let mut lexer = Lexer { source: "a)" };
    assert_eq!(lexer.next_confirmed(), Some(Ok(Symbol("a".into()))));
    assert_eq!(lexer.next_confirmed(), Some(Ok(RP)));
    assert_eq!(lexer.next_confirmed(), None);
    assert_eq!(lexer.source, "");
}

#[test]
fn error_at_the_end_is_confirmed() {
    let mut lexer = Lexer { source: "1.5." };
    assert_eq!(
        lexer.next_confirmed(),
        Some(Err("dot after floating number".to_string()))
    );
    assert_eq!(lexer.source, "");
}

#[test]
fn number_with_trailing_dot_is_in_flight() {
    let mut lexer = Lexer { source: " 7." };
    assert_eq!(lexer.next_confirmed(), None);
    assert_eq!(lexer.source, "7.");
}

#[test]
fn whitespace_only_leaves_nothing_in_flight() {
    let mut lexer = Lexer { source: "  \n" };
    assert_eq!(lexer.next_confirmed(), None);
    assert_eq!(lexer.source, "");
}

#[test]
fn lexing_in_two_pieces_equals_lexing_the_whole() {
    let text = "(* (+ 2 1.14) 'a &&& .88 `(x ,y) 1..2 λz)";
    let whole = lex_whole(text);
    for (at, _) in text.char_indices() {
        let (head, tail) = text.split_at(at);
        assert_eq!(lex_pieces(&[head, tail]), whole, "split at {at}");
    }
}

#[test]
fn lexing_character_by_character_equals_lexing_the_whole() {
    let text = "(define pi 3.14159) (area 'r .5)";
    let pieces: Vec<String> = text.chars().map(|c| c.to_string()).collect();
    let pieces: Vec<&str> = pieces.iter().map(|piece| piece.as_str()).collect();
    assert_eq!(lex_pieces(&pieces), lex_whole(text));
}
