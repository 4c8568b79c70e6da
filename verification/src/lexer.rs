//! The lexer: a pull-based scanner that turns text into tokens, one per call.
//!
//! What a call returns is defined by [`lex_next`], a function of the text
//! that is still to be read. Tokens are recognised by maximal munch: a number
//! or a symbol extends as far as its characters allow, and the character that
//! ends it is left in the source for the next call.

use crate::text::{
    is_digit, is_space, is_structural, lemma_run_len, lemma_run_len_is, run_len, space,
    split_first, CharClass,
};
use vstd::prelude::*;
use vstd::string::StrSliceExecFns;
use vstd::string::StringExecFns;

verus! {

/// A lexical token.
#[derive(Debug, PartialEq, Eq)]
pub enum Token {
    /// Left parenthesis, `(`.
    LP,
    /// Right parenthesis, `)`.
    RP,
    /// Quote, `'`.
    Q,
    /// Backquote, `` ` ``.
    BQ,
    /// Comma, `,`.
    C,
    /// A decimal number such as `123`, `456.789` or `.5`, kept as its two
    /// digit strings. Numbers carry no sign.
    Number { whole: String, fraction: String },
    /// A symbol such as `a`, `+` or `_foo`.
    Symbol(String),
}

/// The mathematical value of a [`Token`]: the same variants over character
/// sequences.
pub enum TokenView {
    LP,
    RP,
    Q,
    BQ,
    C,
    Number { whole: Seq<char>, fraction: Seq<char> },
    Symbol(Seq<char>),
}

impl View for Token {
    type V = TokenView;

    open spec fn view(&self) -> TokenView {
        match self {
            Token::LP => TokenView::LP,
            Token::RP => TokenView::RP,
            Token::Q => TokenView::Q,
            Token::BQ => TokenView::BQ,
            Token::C => TokenView::C,
            Token::Number { whole, fraction } => TokenView::Number {
                whole: whole@,
                fraction: fraction@,
            },
            Token::Symbol(name) => TokenView::Symbol(name@),
        }
    }
}

/// What one call of the lexer yields, as a mathematical value: a token or
/// the reason of a lex error.
pub type ItemView = Result<TokenView, Seq<char>>;

/// The outcome of one lexing step: what is yielded (`None` at the end of the
/// text) and the text that is left.
pub struct LexStep {
    pub item: Option<ItemView>,
    pub rest: Seq<char>,
}

/// The reason given when a second `.` follows the digits of a fraction.
pub open spec fn dot_after_float() -> Seq<char> {
    "dot after floating number"@
}

/// The token that a structural character stands for.
pub open spec fn structural_token(c: char) -> TokenView
    recommends
        is_structural(c),
{
    if c == '(' {
        TokenView::LP
    } else if c == ')' {
        TokenView::RP
    } else if c == '\'' {
        TokenView::Q
    } else if c == '`' {
        TokenView::BQ
    } else {
        TokenView::C
    }
}

/// Lexes a number at the start of `s`: the longest run of digits, then, if
/// a `.` follows, the longest run of digits after it. A further `.` right
/// after the fraction is an error, and that `.` is consumed.
pub open spec fn lex_number(s: Seq<char>) -> LexStep {
    let w = run_len(s, CharClass::Digit) as int;
    let after_whole = s.skip(w);
    if after_whole.len() > 0 && after_whole[0] == '.' {
        let tail = after_whole.skip(1);
        let f = run_len(tail, CharClass::Digit) as int;
        let after_fraction = tail.skip(f);
        if after_fraction.len() > 0 && after_fraction[0] == '.' {
            LexStep { item: Some(Err(dot_after_float())), rest: after_fraction.skip(1) }
        } else {
            LexStep {
                item: Some(Ok(TokenView::Number { whole: s.take(w), fraction: tail.take(f) })),
                rest: after_fraction,
            }
        }
    } else {
        LexStep {
            item: Some(Ok(TokenView::Number { whole: s.take(w), fraction: Seq::empty() })),
            rest: after_whole,
        }
    }
}

/// Lexes the token at the start of `s`, which begins with no whitespace and
/// is not empty.
pub open spec fn lex_token(s: Seq<char>) -> LexStep
    recommends
        s.len() > 0,
        !is_space(s[0]),
{
    if is_structural(s[0]) {
        LexStep { item: Some(Ok(structural_token(s[0]))), rest: s.skip(1) }
    } else if is_digit(s[0]) || s[0] == '.' {
        lex_number(s)
    } else {
        let n = run_len(s, CharClass::Symbol) as int;
        LexStep { item: Some(Ok(TokenView::Symbol(s.take(n)))), rest: s.skip(n) }
    }
}

/// One step of the lexer on the text `s`: leading whitespace is skipped;
/// if nothing is left, the step yields nothing; otherwise it yields the
/// token that starts there, or the error met while reading it. A number or
/// symbol that reaches the end of the text ends there.
pub open spec fn lex_next(s: Seq<char>) -> LexStep {
    let t = s.skip(run_len(s, CharClass::Space) as int);
    if t.len() == 0 {
        LexStep { item: None, rest: t }
    } else {
        lex_token(t)
    }
}

/// Everything the lexer yields on the text `s`, in order, errors included.
pub open spec fn lex_all(s: Seq<char>) -> Seq<ItemView>
    decreases s.len(),
{
    let step = lex_next(s);
    if step.item is Some && step.rest.len() < s.len() {
        seq![step.item->0] + lex_all(step.rest)
    } else {
        Seq::empty()
    }
}

/// What is left after a step is a suffix of the text, and a step that yields
/// something consumes at least one character.
pub proof fn lemma_lex_next_advances(s: Seq<char>)
    ensures
        lex_next(s).rest.len() <= s.len(),
        lex_next(s).rest == s.skip(s.len() - lex_next(s).rest.len()),
        lex_next(s).item is Some ==> lex_next(s).rest.len() < s.len(),
{
    lemma_run_len(s, CharClass::Space);
    let t = s.skip(run_len(s, CharClass::Space) as int);
    if t.len() > 0 {
        if is_structural(t[0]) {
        } else if is_digit(t[0]) || t[0] == '.' {
            lemma_run_len(t, CharClass::Digit);
            let w = run_len(t, CharClass::Digit) as int;
            let after_whole = t.skip(w);
            if after_whole.len() > 0 && after_whole[0] == '.' {
                let tail = after_whole.skip(1);
                lemma_run_len(tail, CharClass::Digit);
            } else {
                assert(w > 0);
            }
        } else {
            lemma_run_len(t, CharClass::Symbol);
            assert(run_len(t, CharClass::Symbol) > 0);
        }
    }
}

/// `lex_all` yields what the first step yields, then what is yielded on the
/// rest.
pub proof fn lemma_lex_all_unfold(s: Seq<char>)
    ensures
        lex_all(s) == if lex_next(s).item is Some {
            seq![lex_next(s).item->0] + lex_all(lex_next(s).rest)
        } else {
            Seq::empty()
        },
{
    lemma_lex_next_advances(s);
}

/// Whether a token is a number or a symbol, the tokens that extend over a
/// run of characters.
pub open spec fn is_atom(token: TokenView) -> bool {
    token is Number || token is Symbol
}

/// Whether what a step yields is confirmed: no text appended to the source
/// could change it. A structural token and an error always are; a number or
/// a symbol is once the character that ends it has been seen. At the end of
/// the text nothing is confirmed.
pub open spec fn is_confirmed(step: LexStep) -> bool {
    match step.item {
        None => false,
        Some(Err(_)) => true,
        Some(Ok(token)) => !is_atom(token) || step.rest.len() > 0,
    }
}

/// One step of the lexer on a text that may be continued: the step of
/// [`lex_next`] if what it yields is confirmed; otherwise nothing is
/// yielded, and what is left is the text without its leading whitespace:
/// the token in flight, if there is one.
pub open spec fn lex_next_confirmed(s: Seq<char>) -> LexStep {
    if is_confirmed(lex_next(s)) {
        lex_next(s)
    } else {
        LexStep { item: None, rest: s.skip(run_len(s, CharClass::Space) as int) }
    }
}

/// The mathematical value of what one call of [`Lexer::next`] returns.
pub open spec fn item_view(item: Result<Token, String>) -> ItemView {
    match item {
        Ok(token) => Ok(token@),
        Err(reason) => Err(reason@),
    }
}

/// The mathematical value of a list of lexer results.
pub open spec fn items_view(items: Seq<Result<Token, String>>) -> Seq<ItemView> {
    Seq::new(items.len(), |i: int| item_view(items[i]))
}

/// Tests whether a token is a number or a symbol.
fn atom(token: &Token) -> (r: bool)
    ensures
        r == is_atom(token@),
{
    match token {
        Token::Number { .. } => true,
        Token::Symbol(_) => true,
        _ => false,
    }
}

/// A lexer over a borrowed text.
#[derive(Debug)]
pub struct Lexer<'a> {
    /// The part of the text that has not been lexed yet.
    pub source: &'a str,
}

impl<'a> Lexer<'a> {
    /// Consumes the longest run of characters of `class` at the start of the
    /// source and appends it to `out`.
    fn take_run(&mut self, class: CharClass, out: &mut String)
        ensures
            final(out)@ == old(out)@ + old(self).source@.take(
                run_len(old(self).source@, class) as int,
            ),
            final(self).source@ == old(self).source@.skip(run_len(old(self).source@, class) as int),
    {
        let ghost text = self.source@;
        let ghost start = out@;
        let ghost mut k: int = 0;
        loop
            invariant
                text == old(self).source@,
                start == old(out)@,
                0 <= k <= text.len(),
                self.source@ == text.skip(k),
                out@ == start + text.take(k),
                forall|i: int| 0 <= i < k ==> class.has(#[trigger] text[i]),
            decreases text.len() - k,
        {
            match split_first(self.source) {
                None => {
                    proof {
                        lemma_run_len_is(text, class, k as nat);
                    }
                    return ;
                },
                Some((head, tail)) => {
                    let c = head.get_char(0);
                    assert(c == text[k]);
                    if !class.contains(c) {
                        proof {
                            lemma_run_len_is(text, class, k as nat);
                        }
                        return ;
                    }
                    out.append(head);
                    self.source = tail;
                    proof {
                        assert(text.take(k) + head@ =~= text.take(k + 1));
                        assert(tail@ =~= text.skip(k + 1));
                        k = k + 1;
                    }
                },
            }
        }
    }

    /// Skips the whitespace at the start of the source.
    fn skip_spaces(&mut self)
        ensures
            final(self).source@ == old(self).source@.skip(
                run_len(old(self).source@, CharClass::Space) as int,
            ),
    {
        let ghost text = self.source@;
        let ghost mut k: int = 0;
        loop
            invariant
                text == old(self).source@,
                0 <= k <= text.len(),
                self.source@ == text.skip(k),
                forall|i: int| 0 <= i < k ==> is_space(#[trigger] text[i]),
            decreases text.len() - k,
        {
            match split_first(self.source) {
                None => {
                    proof {
                        lemma_run_len_is(text, CharClass::Space, k as nat);
                    }
                    return ;
                },
                Some((head, tail)) => {
                    let c = head.get_char(0);
                    assert(c == text[k]);
                    if !space(c) {
                        proof {
                            lemma_run_len_is(text, CharClass::Space, k as nat);
                        }
                        return ;
                    }
                    self.source = tail;
                    proof {
                        assert(tail@ =~= text.skip(k + 1));
                        k = k + 1;
                    }
                },
            }
        }
    }

    /// Consumes a `.` at the start of the source, if there is one, and says
    /// whether it did.
    fn take_dot(&mut self) -> (found: bool)
        ensures
            found == (old(self).source@.len() > 0 && old(self).source@[0] == '.'),
            final(self).source@ == if found {
                old(self).source@.skip(1)
            } else {
                old(self).source@
            },
    {
        match split_first(self.source) {
            None => false,
            Some((head, tail)) => {
                if head.get_char(0) == '.' {
                    self.source = tail;
                    true
                } else {
                    false
                }
            },
        }
    }

    /// Lexes a number at the start of the source.
    fn number(&mut self) -> (r: Result<Token, String>)
        ensures
            Some(item_view(r)) == lex_number(old(self).source@).item,
            final(self).source@ == lex_number(old(self).source@).rest,
    {
        let mut whole = String::new();
        self.take_run(CharClass::Digit, &mut whole);
        if !self.take_dot() {
            return Ok(Token::Number { whole, fraction: String::new() });
        }
        let mut fraction = String::new();
        self.take_run(CharClass::Digit, &mut fraction);
        if self.take_dot() {
            return Err("dot after floating number".to_owned());
        }
        Ok(Token::Number { whole, fraction })
    }

    /// Returns the next token of the source and advances past it, or
    /// returns `None` when only whitespace is left.
    ///
    /// The characters consumed are exactly those of the token and the
    /// whitespace before it; the character that ends a number or a symbol
    /// stays in the source. The one lex error is a second `.` in a number:
    /// it is reported after that `.` has been consumed.
    pub fn next(&mut self) -> (r: Option<Result<Token, String>>)
        ensures
            match r {
                Some(item) => lex_next(old(self).source@).item == Some(item_view(item)),
                None => lex_next(old(self).source@).item is None,
            },
            final(self).source@ == lex_next(old(self).source@).rest,
    {
        self.skip_spaces();
        match split_first(self.source) {
            None => None,
            Some((head, tail)) => {
                let c = head.get_char(0);
                if c == '(' {
                    self.source = tail;
                    Some(Ok(Token::LP))
                } else if c == ')' {
                    self.source = tail;
                    Some(Ok(Token::RP))
                } else if c == '\'' {
                    self.source = tail;
                    Some(Ok(Token::Q))
                } else if c == '`' {
                    self.source = tail;
                    Some(Ok(Token::BQ))
                } else if c == ',' {
                    self.source = tail;
                    Some(Ok(Token::C))
                } else if ('0' <= c && c <= '9') || c == '.' {
                    Some(self.number())
                } else {
                    let mut name = String::new();
                    self.take_run(CharClass::Symbol, &mut name);
                    Some(Ok(Token::Symbol(name)))
                }
            },
        }
    }

    /// Returns the next token only if it is confirmed, for a source that
    /// may be continued by more text.
    ///
    /// A confirmed token is returned as by [`Lexer::next`]. Otherwise
    /// `None` is returned and the source keeps the token in flight, without
    /// the whitespace before it: lexing can resume on that text followed by
    /// the text that arrives next. When no more text will arrive, `next`
    /// yields the token in flight.
    pub fn next_confirmed(&mut self) -> (r: Option<Result<Token, String>>)
        ensures
            match r {
                Some(item) => lex_next_confirmed(old(self).source@).item == Some(item_view(item)),
                None => lex_next_confirmed(old(self).source@).item is None,
            },
            final(self).source@ == lex_next_confirmed(old(self).source@).rest,
    {
        self.skip_spaces();
        let start = self.source;
        proof {
            lemma_run_len(old(self).source@, CharClass::Space);
            assert(run_len(start@, CharClass::Space) == 0);
            assert(start@.skip(0) =~= start@);
        }
        let r = self.next();
        let confirmed = match &r {
            None => false,
            Some(Err(_)) => true,
            Some(Ok(token)) => !atom(token) || !self.source.is_empty(),
        };
        if confirmed {
            r
        } else {
            self.source = start;
            None
        }
    }

    /// Runs the lexer to the end of the source and returns everything it
    /// yields, in order. An error does not stop the run.
    pub fn collect(self) -> (items: Vec<Result<Token, String>>)
        ensures
            items_view(items@) == lex_all(self.source@),
    {
        let mut lexer = self;
        let mut items: Vec<Result<Token, String>> = Vec::new();
        loop
            invariant
                items_view(items@) + lex_all(lexer.source@) == lex_all(self.source@),
            decreases lexer.source@.len(),
        {
            let ghost before = lexer.source@;
            let ghost done = items@;
            proof {
                lemma_lex_next_advances(before);
            }
            match lexer.next() {
                None => {
                    assert(lex_all(before) =~= Seq::empty());
                    assert(items_view(items@) + Seq::empty() =~= items_view(items@));
                    return items;
                },
                Some(item) => {
                    items.push(item);
                    assert(items_view(items@) =~= items_view(done) + seq![item_view(item)]);
                    assert(items_view(done) + (seq![item_view(item)] + lex_all(lexer.source@))
                        =~= items_view(items@) + lex_all(lexer.source@));
                },
            }
        }
    }
}

} // verus!
