//! The parser: a state machine that consumes tokens one at a time and builds
//! nested lists whose elements each carry a quote annotation.
//!
//! The parser keeps an explicit stack of open lists, so that it can be fed
//! token by token and inspected between calls. Its transition is defined by
//! [`parse_step`].

use crate::lexer::{Token, TokenView};
use vstd::prelude::*;

verus! {

/// The quoting prefix that applies to a form: none, a backquote or a quote.
#[derive(Debug, Clone, Copy, PartialEq, Eq, Structural)]
pub enum QuoteState {
    /// No prefix.
    Unquoted,
    /// Prefixed with `` ` ``.
    Backquote,
    /// Prefixed with `'`.
    Quote,
}

/// A parsed form: an atom, or a list of forms with their quote annotations.
#[derive(Debug, PartialEq, Eq)]
pub enum Ast {
    /// A number, as the digit strings before and after the decimal point.
    /// The fraction is empty for an integer; the whole part is empty for a
    /// literal that began with `.`.
    Number { whole: String, fraction: String },
    /// A symbol.
    Symbol(String),
    /// A list. Every element carries its own quote annotation.
    List(Vec<(Ast, QuoteState)>),
}

/// The mathematical value of an [`Ast`].
pub enum AstView {
    Number { whole: Seq<char>, fraction: Seq<char> },
    Symbol(Seq<char>),
    List(Seq<(AstView, QuoteState)>),
}

/// A form together with its quote annotation, as a mathematical value.
pub type FormView = (AstView, QuoteState);

impl View for Ast {
    type V = AstView;

    open spec fn view(&self) -> AstView
        decreases self,
    {
        match self {
            Ast::Number { whole, fraction } => AstView::Number {
                whole: whole@,
                fraction: fraction@,
            },
            Ast::Symbol(name) => AstView::Symbol(name@),
            Ast::List(elements) => AstView::List(forms_view(elements@)),
        }
    }
}

/// The mathematical value of a list of forms.
pub open spec fn forms_view(forms: Seq<(Ast, QuoteState)>) -> Seq<FormView>
    decreases forms,
{
    Seq::new(
        forms.len(),
        |i: int|
            if 0 <= i < forms.len() {
                (forms[i].0.view(), forms[i].1)
            } else {
                arbitrary()
            },
    )
}

/// The text of a quoting prefix.
pub open spec fn prefix_text(q: QuoteState) -> Seq<char> {
    match q {
        QuoteState::Unquoted => Seq::empty(),
        QuoteState::Backquote => seq!['`'],
        QuoteState::Quote => seq!['\''],
    }
}

/// The textual form of a tree. A number is its whole part, followed by `.`
/// and the fraction unless the fraction is empty; a symbol is its name; a
/// list is `( `, its elements and `)`.
pub open spec fn render(ast: AstView) -> Seq<char>
    decreases ast,
{
    match ast {
        AstView::Number { whole, fraction } => if fraction.len() == 0 {
            whole
        } else {
            whole + seq!['.'] + fraction
        },
        AstView::Symbol(name) => name,
        AstView::List(elements) => seq!['(', ' '] + render_forms(elements) + seq![')'],
    }
}

/// The textual form of a sequence of forms: each form is written as its
/// quoting prefix, its tree and one space.
pub open spec fn render_forms(forms: Seq<FormView>) -> Seq<char>
    decreases forms,
{
    if forms.len() == 0 {
        Seq::empty()
    } else {
        render_forms(forms.drop_last()) + render_form(forms.last())
    }
}

/// The textual form of one form of a sequence: prefix, tree, space.
pub open spec fn render_form(form: FormView) -> Seq<char>
    decreases form,
{
    prefix_text(form.1) + render(form.0) + seq![' ']
}

impl QuoteState {
    /// The prefix as text: empty, `` ` `` or `'`.
    pub fn as_str(&self) -> (text: &'static str)
        ensures
            text@ == prefix_text(*self),
    {
        match self {
            QuoteState::Unquoted => {
                proof {
                    reveal_strlit("");
                }
                assert(""@ =~= Seq::empty());
                ""
            },
            QuoteState::Backquote => {
                proof {
                    reveal_strlit("`");
                }
                assert("`"@ =~= seq!['`']);
                "`"
            },
            QuoteState::Quote => {
                proof {
                    reveal_strlit("'");
                }
                assert("'"@ =~= seq!['\'']);
                "'"
            },
        }
    }

    /// The prefix as an option: `None` for no prefix, else the prefix.
    pub open spec fn as_option(self) -> Option<QuoteState> {
        if self == QuoteState::Unquoted {
            None
        } else {
            Some(self)
        }
    }
}

impl std::ops::Deref for QuoteState {
    type Target = Option<QuoteState>;

    /// Views the state as an option, so that the methods of `Option` can be
    /// called on it.
    fn deref(&self) -> (target: &Option<QuoteState>)
        ensures
            *target == self.as_option(),
    {
        match self {
            QuoteState::Unquoted => &None,
            QuoteState::Backquote => &Some(QuoteState::Backquote),
            QuoteState::Quote => &Some(QuoteState::Quote),
        }
    }
}

impl Ast {
    /// Writes the tree as text. Lexing the text gives back the tokens that
    /// the tree was parsed from, as long as its atoms are such as the lexer
    /// produces.
    pub fn to_string(&self) -> (text: String)
        ensures
            text@ == render(self@),
        decreases self,
    {
        match self {
            Ast::Number { whole, fraction } => {
                let mut text = whole.clone();
                if !fraction.as_str().is_empty() {
                    proof {
                        reveal_strlit(".");
                    }
                    assert("."@ =~= seq!['.']);
                    text.append(".");
                    text.append(fraction.as_str());
                }
                text
            },
            Ast::Symbol(name) => name.clone(),
            Ast::List(elements) => {
                proof {
                    reveal_strlit("( ");
                    reveal_strlit(" ");
                    reveal_strlit(")");
                }
                assert("( "@ =~= seq!['(', ' ']);
                assert(" "@ =~= seq![' ']);
                assert(")"@ =~= seq![')']);
                let mut text = "( ".to_owned();
                let ghost forms = forms_view(elements@);
                let mut i: usize = 0;
                while i < elements.len()
                    invariant
                        i <= elements.len(),
                        forms == forms_view(elements@),
                        self == Ast::List(*elements),
                        text@ == seq!['(', ' '] + render_forms(forms.take(i as int)),
                        " "@ == seq![' '],
                    decreases elements.len() - i,
                {
                    let ghost before = text@;
                    text.append(elements[i].1.as_str());
                    proof {
                        assert(decreases_to!(*elements => elements[i as int]));
                        assert(decreases_to!(elements[i as int] => elements[i as int].0));
                        assert(decreases_to!(self => self->List_0));
                    }
                    let inner = elements[i].0.to_string();
                    text.append(inner.as_str());
                    text.append(" ");
                    proof {
                        assert(forms.take(i + 1).drop_last() =~= forms.take(i as int));
                        assert(forms.take(i + 1).last() == forms[i as int]);
                        assert(forms[i as int] == (elements[i as int].0@, elements[i as int].1));
                        assert(text@ =~= before + render_form(forms[i as int]));
                        assert(text@ =~= seq!['(', ' '] + render_forms(forms.take(i + 1)));
                    }
                    i = i + 1;
                }
                assert(forms.take(i as int) =~= forms);
                text.append(")");
                text
            },
        }
    }
}

/// An open list: the elements read so far, and the quote annotation that
/// the list itself will carry once it is closed.
pub type FrameView = (Seq<FormView>, QuoteState);

/// The mathematical value of a stack of open lists, outermost first.
pub open spec fn frames_view(frames: Seq<(Vec<(Ast, QuoteState)>, QuoteState)>) -> Seq<FrameView> {
    Seq::new(frames.len(), |i: int| (forms_view(frames[i].0@), frames[i].1))
}

/// The state of a parser as a mathematical value.
pub struct ParserView {
    /// The completed top-level forms, in the order in which they closed.
    pub program: Seq<FormView>,
    /// The open lists, outermost first.
    pub stack: Seq<FrameView>,
    /// The quoting prefix that waits for the next atom or list.
    pub pending: QuoteState,
}

impl ParserView {
    /// The state of a parser that has read nothing.
    pub open spec fn fresh() -> ParserView {
        ParserView { program: Seq::empty(), stack: Seq::empty(), pending: QuoteState::Unquoted }
    }

    /// Whether the input so far is complete: no list is open and no prefix
    /// waits for its form.
    pub open spec fn is_clean(self) -> bool {
        self.stack.len() == 0 && self.pending == QuoteState::Unquoted
    }

    /// The state after `forms` have been completed, one after the other:
    /// they join the innermost open list, or the program if no list is
    /// open.
    pub open spec fn with_forms(self, forms: Seq<FormView>) -> ParserView {
        if self.stack.len() > 0 {
            let top = self.stack.last();
            ParserView {
                program: self.program,
                stack: self.stack.drop_last().push((top.0 + forms, top.1)),
                pending: QuoteState::Unquoted,
            }
        } else {
            ParserView {
                program: self.program + forms,
                stack: self.stack,
                pending: QuoteState::Unquoted,
            }
        }
    }

    /// The state after `form` has been completed: it joins the innermost
    /// open list, or the program if no list is open. The pending prefix is
    /// used up.
    pub open spec fn with_form(self, form: FormView) -> ParserView {
        if self.stack.len() > 0 {
            let top = self.stack.last();
            ParserView {
                program: self.program,
                stack: self.stack.drop_last().push((top.0.push(form), top.1)),
                pending: QuoteState::Unquoted,
            }
        } else {
            ParserView {
                program: self.program.push(form),
                stack: self.stack,
                pending: QuoteState::Unquoted,
            }
        }
    }
}

/// How a quoting prefix is named in an error message.
pub open spec fn prefix_name(q: QuoteState) -> Seq<char> {
    if q == QuoteState::Backquote {
        "`\\``"@
    } else {
        "`'`"@
    }
}

/// How a token that may not follow a quoting prefix is named in an error
/// message.
pub open spec fn token_name(token: TokenView) -> Seq<char> {
    match token {
        TokenView::Q => "`'`"@,
        TokenView::BQ => "`\\``"@,
        TokenView::RP => "`)`"@,
        _ => "`,`"@,
    }
}

/// The reason given when `token` comes right after the quoting prefix `q`.
pub open spec fn right_after(token: TokenView, q: QuoteState) -> Seq<char> {
    token_name(token) + " right after "@ + prefix_name(q)
}

/// The reason given for a `)` while no list is open.
pub open spec fn unmatched_paren() -> Seq<char> {
    "no matching `(` found for `)`"@
}

/// The reason given for a `,` that is not directly inside a backquoted list.
pub open spec fn misplaced_comma() -> Seq<char> {
    "`,` can only be used in a list quoted with `\\``"@
}

/// The transition of the parser: the state after `token` has been read in
/// state `st`, or the reason why the token is rejected there.
///
/// - A quote or backquote becomes the pending prefix; it is rejected while
///   another prefix is pending.
/// - `(` opens a list that takes the pending prefix as its annotation.
/// - `)` closes the innermost open list, which joins its parent or the
///   program; it is rejected right after a prefix and when no list is open.
/// - `,` is checked and then dropped: it leaves no mark on the tree. It is
///   rejected right after a prefix and unless the innermost open list is
///   backquoted; a backquoted list further out does not count.
/// - A number or symbol becomes an atom annotated with the pending prefix.
pub open spec fn parse_step(st: ParserView, token: TokenView) -> Result<ParserView, Seq<char>> {
    match token {
        TokenView::Q => if st.pending == QuoteState::Unquoted {
            Ok(ParserView { pending: QuoteState::Quote, ..st })
        } else {
            Err(right_after(token, st.pending))
        },
        TokenView::BQ => if st.pending == QuoteState::Unquoted {
            Ok(ParserView { pending: QuoteState::Backquote, ..st })
        } else {
            Err(right_after(token, st.pending))
        },
        TokenView::LP => Ok(
            ParserView {
                program: st.program,
                stack: st.stack.push((Seq::empty(), st.pending)),
                pending: QuoteState::Unquoted,
            },
        ),
        TokenView::RP => if st.pending != QuoteState::Unquoted {
            Err(right_after(token, st.pending))
        } else if st.stack.len() == 0 {
            Err(unmatched_paren())
        } else {
            let top = st.stack.last();
            Ok(
                ParserView { stack: st.stack.drop_last(), ..st }.with_form(
                    (AstView::List(top.0), top.1),
                ),
            )
        },
        TokenView::C => if st.pending != QuoteState::Unquoted {
            Err(right_after(token, st.pending))
        } else if st.stack.len() > 0 && st.stack.last().1 == QuoteState::Backquote {
            Ok(st)
        } else {
            Err(misplaced_comma())
        },
        TokenView::Number { whole, fraction } => Ok(
            st.with_form((AstView::Number { whole, fraction }, st.pending)),
        ),
        TokenView::Symbol(name) => Ok(st.with_form((AstView::Symbol(name), st.pending))),
    }
}

/// The state after all of `tokens` have been read, one after the other,
/// starting in state `st`; or the reason why the first rejected token is
/// rejected.
pub open spec fn parse_all(st: ParserView, tokens: Seq<TokenView>) -> Result<ParserView, Seq<char>>
    decreases tokens.len(),
{
    if tokens.len() == 0 {
        Ok(st)
    } else {
        match parse_all(st, tokens.drop_last()) {
            Ok(mid) => parse_step(mid, tokens.last()),
            Err(reason) => Err(reason),
        }
    }
}

/// A parser: the program read so far, the stack of open lists and the
/// pending quoting prefix.
#[derive(Debug)]
pub struct Parser {
    /// The completed top-level forms, each with its quote annotation.
    pub program: Vec<(Ast, QuoteState)>,
    stack: Vec<(Vec<(Ast, QuoteState)>, QuoteState)>,
    quote_state: QuoteState,
}

impl View for Parser {
    type V = ParserView;

    closed spec fn view(&self) -> ParserView {
        ParserView {
            program: forms_view(self.program@),
            stack: frames_view(self.stack@),
            pending: self.quote_state,
        }
    }
}

/// Builds the message for `token` coming right after the prefix `q`.
fn right_after_message(token: &Token, q: QuoteState) -> (reason: String)
    ensures
        reason@ == right_after(token@, q),
{
    let mut reason = match token {
        Token::Q => "`'`".to_owned(),
        Token::BQ => "`\\``".to_owned(),
        Token::RP => "`)`".to_owned(),
        _ => "`,`".to_owned(),
    };
    reason.append(" right after ");
    match q {
        QuoteState::Backquote => reason.append("`\\``"),
        _ => reason.append("`'`"),
    }
    reason
}

impl Parser {
    /// Creates a parser that has read nothing.
    pub fn new() -> (parser: Parser)
        ensures
            parser@ == ParserView::fresh(),
    {
        let parser = Parser {
            program: Vec::new(),
            stack: Vec::new(),
            quote_state: QuoteState::Unquoted,
        };
        assert(parser@.program =~= Seq::empty());
        assert(parser@.stack =~= Seq::empty());
        parser
    }

    /// Ends parsing and returns the program: the top-level forms that were
    /// completed, in order. Lists that are still open are not part of it.
    pub fn finish(self) -> (program: Vec<(Ast, QuoteState)>)
        ensures
            forms_view(program@) == self@.program,
    {
        self.program
    }

    /// The lists that are still open, outermost first, each with the
    /// elements read so far. The input read so far is unterminated exactly
    /// when this is not empty.
    pub fn stack(&self) -> (frames: &Vec<(Vec<(Ast, QuoteState)>, QuoteState)>)
        ensures
            frames_view(frames@) == self@.stack,
    {
        &self.stack
    }

    /// Adds a completed form to the innermost open list, or to the program
    /// if no list is open, and clears the pending prefix.
    fn complete(&mut self, form: (Ast, QuoteState))
        ensures
            final(self)@ == old(self)@.with_form((form.0@, form.1)),
    {
        match self.stack.pop() {
            Some(frame) => {
                let mut elements = frame.0;
                let ghost before = elements@;
                elements.push(form);
                assert(forms_view(elements@) =~= forms_view(before).push((form.0@, form.1)));
                self.stack.push((elements, frame.1));
                assert(self@.stack =~= old(self)@.with_form((form.0@, form.1)).stack);
            },
            None => {
                self.program.push(form);
                assert(self@.program =~= old(self)@.program.push((form.0@, form.1)));
            },
        }
        self.quote_state = QuoteState::Unquoted;
    }

    /// Reads one token.
    ///
    /// On success the state has moved as [`parse_step`] says. A rejected
    /// token leaves the state as it was, so that the caller may go on with
    /// the next token.
    pub fn parse(&mut self, token: Token) -> (r: Result<(), String>)
        ensures
            match parse_step(old(self)@, token@) {
                Ok(next) => r is Ok && final(self)@ == next,
                Err(reason) => r is Err && r->Err_0@ == reason && final(self)@ == old(self)@,
            },
    {
        let q = self.quote_state;
        match token {
            Token::Q => {
                if q != QuoteState::Unquoted {
                    return Err(right_after_message(&token, q));
                }
                self.quote_state = QuoteState::Quote;
            },
            Token::BQ => {
                if q != QuoteState::Unquoted {
                    return Err(right_after_message(&token, q));
                }
                self.quote_state = QuoteState::Backquote;
            },
            Token::LP => {
                let elements: Vec<(Ast, QuoteState)> = Vec::new();
                assert(forms_view(elements@) =~= Seq::empty());
                self.stack.push((elements, q));
                self.quote_state = QuoteState::Unquoted;
                assert(self@.stack =~= old(self)@.stack.push((Seq::empty(), q)));
            },
            Token::RP => {
                if q != QuoteState::Unquoted {
                    return Err(right_after_message(&token, q));
                }
                match self.stack.pop() {
                    None => {
                        return Err("no matching `(` found for `)`".to_owned());
                    },
                    Some(frame) => {
                        assert(self@.stack =~= old(self)@.stack.drop_last());
                        self.complete((Ast::List(frame.0), frame.1));
                    },
                }
            },
            Token::C => {
                if q != QuoteState::Unquoted {
                    return Err(right_after_message(&token, q));
                }
                let depth = self.stack.len();
                if depth == 0 || self.stack[depth - 1].1 != QuoteState::Backquote {
                    return Err("`,` can only be used in a list quoted with `\\``".to_owned());
                }
            },
            Token::Number { whole, fraction } => {
                self.complete((Ast::Number { whole, fraction }, q));
            },
            Token::Symbol(name) => {
                self.complete((Ast::Symbol(name), q));
            },
        }
        Ok(())
    }
}

} // verus!
