//! What ties the lexer, the parser and the textual form of trees together:
//! a tree written as text lexes back to the tokens it was parsed from.

use crate::lexer::{
    lemma_lex_all_unfold, lex_all, lex_next, structural_token, ItemView, LexStep, TokenView,
};
use crate::parser::{
    parse_all, parse_step, prefix_text, render, render_form, render_forms, AstView, FormView,
    FrameView, ParserView, QuoteState,
};
use crate::text::{
    is_delimiter, is_digit, is_space, is_structural, is_symbol_start, lemma_run_len_is, run_len,
    CharClass,
};
use vstd::prelude::*;

verus! {

/// Whether `s` consists of decimal digits only.
pub open spec fn is_digits(s: Seq<char>) -> bool {
    forall|i: int| 0 <= i < s.len() ==> is_digit(#[trigger] s[i])
}

/// Whether `s` can be the name of a symbol: it is not empty, holds no
/// delimiter, and does not begin like a number.
pub open spec fn is_symbol_name(s: Seq<char>) -> bool {
    &&& s.len() > 0
    &&& is_symbol_start(s[0])
    &&& forall|i: int| 0 <= i < s.len() ==> !is_delimiter(#[trigger] s[i])
}

/// Whether a token has a textual form that lexes back to it: a number has
/// digits only and at least one of them, a symbol has a proper name. The
/// structural tokens always have.
pub open spec fn is_lexeme(token: TokenView) -> bool {
    match token {
        TokenView::Number { whole, fraction } => is_digits(whole) && is_digits(fraction)
            && whole.len() + fraction.len() > 0,
        TokenView::Symbol(name) => is_symbol_name(name),
        _ => true,
    }
}

/// Whether every token of the sequence is a lexeme.
pub open spec fn all_lexemes(tokens: Seq<TokenView>) -> bool {
    forall|i: int| 0 <= i < tokens.len() ==> is_lexeme(#[trigger] tokens[i])
}

/// The tokens as the lexer yields them: each one a success.
pub open spec fn oks(tokens: Seq<TokenView>) -> Seq<ItemView> {
    Seq::new(tokens.len(), |i: int| Ok(tokens[i]))
}

/// The token of a quoting prefix, if there is a prefix.
pub open spec fn prefix_tokens(q: QuoteState) -> Seq<TokenView> {
    match q {
        QuoteState::Unquoted => Seq::empty(),
        QuoteState::Backquote => seq![TokenView::BQ],
        QuoteState::Quote => seq![TokenView::Q],
    }
}

/// The tokens that a tree is written as.
pub open spec fn tree_tokens(ast: AstView) -> Seq<TokenView>
    decreases ast,
{
    match ast {
        AstView::Number { whole, fraction } => seq![TokenView::Number { whole, fraction }],
        AstView::Symbol(name) => seq![TokenView::Symbol(name)],
        AstView::List(elements) => seq![TokenView::LP] + forms_tokens(elements) + seq![
            TokenView::RP,
        ],
    }
}

/// The tokens that a sequence of forms is written as.
pub open spec fn forms_tokens(forms: Seq<FormView>) -> Seq<TokenView>
    decreases forms,
{
    if forms.len() == 0 {
        Seq::empty()
    } else {
        forms_tokens(forms.drop_last()) + form_tokens(forms.last())
    }
}

/// The tokens that a form is written as: its prefix, then its tree.
pub open spec fn form_tokens(form: FormView) -> Seq<TokenView>
    decreases form,
{
    prefix_tokens(form.1) + tree_tokens(form.0)
}

/// If the first step on `s` yields `item` and leaves `rest`, then `lex_all`
/// yields `item` followed by what it yields on `rest`.
proof fn lemma_lex_all_step(s: Seq<char>, item: ItemView, rest: Seq<char>)
    requires
        lex_next(s) == (LexStep { item: Some(item), rest }),
    ensures
        lex_all(s) == seq![item] + lex_all(rest),
{
    lemma_lex_all_unfold(s);
}

/// Whitespace in front of a text does not change what is lexed.
proof fn lemma_lex_space(c: char, r: Seq<char>)
    requires
        is_space(c),
    ensures
        lex_all(seq![c] + r) == lex_all(r),
{
    let s = seq![c] + r;
    assert(s.drop_first() =~= r);
    let k = run_len(r, CharClass::Space) as int;
    crate::text::lemma_run_len(r, CharClass::Space);
    assert(run_len(s, CharClass::Space) == 1 + k);
    assert(s.skip(1 + k) =~= r.skip(k));
    assert(lex_next(s) == lex_next(r));
    lemma_lex_all_unfold(s);
    lemma_lex_all_unfold(r);
}

/// A structural character in front of a text is lexed as its token.
proof fn lemma_lex_structural(c: char, r: Seq<char>)
    requires
        is_structural(c),
    ensures
        lex_all(seq![c] + r) == seq![Ok(structural_token(c))] + lex_all(r),
{
    let s = seq![c] + r;
    assert(run_len(s, CharClass::Space) == 0);
    assert(s.skip(0) =~= s);
    assert(s.skip(1) =~= r);
    lemma_lex_all_step(s, Ok(structural_token(c)), r);
}

/// Whether a token may end where `r` begins: at the end of the text or in
/// front of a delimiter.
pub open spec fn ends_token(r: Seq<char>) -> bool {
    r.len() == 0 || is_delimiter(r[0])
}

/// A symbol name in front of a text that ends it is lexed as that symbol.
proof fn lemma_lex_symbol(name: Seq<char>, r: Seq<char>)
    requires
        is_symbol_name(name),
        ends_token(r),
    ensures
        lex_next(name + r) == (LexStep { item: Some(Ok(TokenView::Symbol(name))), rest: r }),
{
    let s = name + r;
    assert(s[0] == name[0]);
    assert(run_len(s, CharClass::Space) == 0);
    assert(s.skip(0) =~= s);
    assert forall|i: int| 0 <= i < name.len() implies CharClass::Symbol.has(#[trigger] s[i]) by {
        assert(s[i] == name[i]);
    }
    if name.len() < s.len() {
        assert(s[name.len() as int] == r[0]);
    }
    lemma_run_len_is(s, CharClass::Symbol, name.len());
    assert(s.take(name.len() as int) =~= name);
    assert(s.skip(name.len() as int) =~= r);
}

/// The digits of `digits` in front of a text that does not go on with a
/// digit form the run of digits at its start.
proof fn lemma_digit_run(digits: Seq<char>, r: Seq<char>)
    requires
        is_digits(digits),
        r.len() == 0 || !is_digit(r[0]),
    ensures
        run_len(digits + r, CharClass::Digit) == digits.len(),
        (digits + r).take(digits.len() as int) == digits,
        (digits + r).skip(digits.len() as int) == r,
{
    let s = digits + r;
    assert forall|i: int| 0 <= i < digits.len() implies CharClass::Digit.has(#[trigger] s[i]) by {
        assert(s[i] == digits[i]);
    }
    if digits.len() < s.len() {
        assert(s[digits.len() as int] == r[0]);
    }
    lemma_run_len_is(s, CharClass::Digit, digits.len());
    assert(s.take(digits.len() as int) =~= digits);
    assert(s.skip(digits.len() as int) =~= r);
}

/// The text of a number in front of a text that ends it is lexed as that
/// number.
proof fn lemma_lex_number(whole: Seq<char>, fraction: Seq<char>, r: Seq<char>)
    requires
        is_digits(whole),
        is_digits(fraction),
        whole.len() + fraction.len() > 0,
        ends_token(r),
    ensures
        lex_next(render(AstView::Number { whole, fraction }) + r) == (LexStep {
            item: Some(Ok(TokenView::Number { whole, fraction })),
            rest: r,
        }),
{
    let s = render(AstView::Number { whole, fraction }) + r;
    if fraction.len() == 0 {
        assert(s[0] == whole[0]);
        assert(run_len(s, CharClass::Space) == 0);
        assert(s.skip(0) =~= s);
        lemma_digit_run(whole, r);
        assert(fraction =~= Seq::empty());
    } else {
        let tail = fraction + r;
        let dotted = seq!['.'] + tail;
        assert(s =~= whole + dotted);
        assert(s[0] == if whole.len() > 0 {
            whole[0]
        } else {
            '.'
        });
        assert(run_len(s, CharClass::Space) == 0);
        assert(s.skip(0) =~= s);
        lemma_digit_run(whole, dotted);
        assert(dotted.skip(1) =~= tail);
        lemma_digit_run(fraction, r);
    }
}

/// The successes of a concatenation are the concatenated successes.
proof fn lemma_oks_add(a: Seq<TokenView>, b: Seq<TokenView>)
    ensures
        oks(a + b) =~= oks(a) + oks(b),
{
}

/// A concatenation consists of lexemes exactly when both parts do.
proof fn lemma_all_lexemes_add(a: Seq<TokenView>, b: Seq<TokenView>)
    ensures
        all_lexemes(a + b) <==> all_lexemes(a) && all_lexemes(b),
{
    let ab = a + b;
    if all_lexemes(ab) {
        assert forall|i: int| 0 <= i < a.len() implies is_lexeme(#[trigger] a[i]) by {
            assert(ab[i] == a[i]);
        }
        assert forall|i: int| 0 <= i < b.len() implies is_lexeme(#[trigger] b[i]) by {
            assert(ab[a.len() + i] == b[i]);
        }
    }
}

/// A quoting prefix in front of a text is lexed as its token.
proof fn lemma_lex_prefix(q: QuoteState, r: Seq<char>)
    ensures
        lex_all(prefix_text(q) + r) == oks(prefix_tokens(q)) + lex_all(r),
{
    match q {
        QuoteState::Unquoted => {
            assert(prefix_text(q) + r =~= r);
            assert(oks(prefix_tokens(q)) + lex_all(r) =~= lex_all(r));
        },
        QuoteState::Backquote => {
            lemma_lex_structural('`', r);
            assert(oks(prefix_tokens(q)) =~= seq![Ok(TokenView::BQ)]);
        },
        QuoteState::Quote => {
            lemma_lex_structural('\'', r);
            assert(oks(prefix_tokens(q)) =~= seq![Ok(TokenView::Q)]);
        },
    }
}

/// The text of a tree, in front of a text that ends a token, lexes to the
/// tokens of the tree, followed by what the rest lexes to.
pub proof fn lemma_lex_tree(ast: AstView, r: Seq<char>)
    requires
        all_lexemes(tree_tokens(ast)),
        ends_token(r),
    ensures
        lex_all(render(ast) + r) == oks(tree_tokens(ast)) + lex_all(r),
    decreases ast,
{
    match ast {
        AstView::Number { whole, fraction } => {
            let token = TokenView::Number { whole, fraction };
            assert(tree_tokens(ast)[0] == token);
            lemma_lex_number(whole, fraction, r);
            lemma_lex_all_step(render(ast) + r, Ok(token), r);
            assert(oks(tree_tokens(ast)) =~= seq![Ok(token)]);
        },
        AstView::Symbol(name) => {
            let token = TokenView::Symbol(name);
            assert(tree_tokens(ast)[0] == token);
            lemma_lex_symbol(name, r);
            lemma_lex_all_step(render(ast) + r, Ok(token), r);
            assert(oks(tree_tokens(ast)) =~= seq![Ok(token)]);
        },
        AstView::List(elements) => {
            let inner = forms_tokens(elements);
            let closing = seq![')'] + r;
            let body = render_forms(elements) + closing;
            assert(render(ast) + r =~= seq!['('] + (seq![' '] + body));
            lemma_lex_structural('(', seq![' '] + body);
            lemma_lex_space(' ', body);
            lemma_all_lexemes_add(seq![TokenView::LP] + inner, seq![TokenView::RP]);
            lemma_all_lexemes_add(seq![TokenView::LP], inner);
            lemma_lex_forms(elements, closing);
            lemma_lex_structural(')', r);
            lemma_oks_add(seq![TokenView::LP] + inner, seq![TokenView::RP]);
            lemma_oks_add(seq![TokenView::LP], inner);
            assert(oks(seq![TokenView::LP]) =~= seq![Ok(TokenView::LP)]);
            assert(oks(seq![TokenView::RP]) =~= seq![Ok(TokenView::RP)]);
            assert(lex_all(render(ast) + r) =~= seq![Ok(TokenView::LP)] + (oks(inner) + (seq![
                Ok(TokenView::RP),
            ] + lex_all(r))));
        },
    }
}

/// The text of a sequence of forms, in front of any text, lexes to the
/// tokens of the forms, followed by what the rest lexes to.
pub proof fn lemma_lex_forms(forms: Seq<FormView>, r: Seq<char>)
    requires
        all_lexemes(forms_tokens(forms)),
    ensures
        lex_all(render_forms(forms) + r) == oks(forms_tokens(forms)) + lex_all(r),
    decreases forms,
{
    if forms.len() == 0 {
        assert(render_forms(forms) + r =~= r);
        assert(oks(forms_tokens(forms)) + lex_all(r) =~= lex_all(r));
    } else {
        let init = forms.drop_last();
        let last = forms.last();
        let tail = render_form(last) + r;
        lemma_all_lexemes_add(forms_tokens(init), form_tokens(last));
        lemma_all_lexemes_add(prefix_tokens(last.1), tree_tokens(last.0));
        assert(render_forms(forms) + r =~= render_forms(init) + tail);
        lemma_lex_forms(init, tail);
        let spaced = seq![' '] + r;
        assert(tail =~= prefix_text(last.1) + (render(last.0) + spaced));
        lemma_lex_prefix(last.1, render(last.0) + spaced);
        lemma_lex_tree(last.0, spaced);
        lemma_lex_space(' ', r);
        lemma_oks_add(forms_tokens(init), form_tokens(last));
        lemma_oks_add(prefix_tokens(last.1), tree_tokens(last.0));
        assert(lex_all(render_forms(forms) + r) =~= oks(forms_tokens(init)) + (oks(
            prefix_tokens(last.1),
        ) + (oks(tree_tokens(last.0)) + lex_all(r))));
    }
}

/// The tokens that an open list has been read from: its prefix, its `(`
/// and its elements so far.
pub open spec fn frame_tokens(frame: FrameView) -> Seq<TokenView> {
    prefix_tokens(frame.1) + seq![TokenView::LP] + forms_tokens(frame.0)
}

/// The tokens that a stack of open lists has been read from.
pub open spec fn frames_tokens(frames: Seq<FrameView>) -> Seq<TokenView>
    decreases frames.len(),
{
    if frames.len() == 0 {
        Seq::empty()
    } else {
        frames_tokens(frames.drop_last()) + frame_tokens(frames.last())
    }
}

/// The tokens that lead to a parser state: those of the program, of the
/// open lists and of the pending prefix.
pub open spec fn state_tokens(st: ParserView) -> Seq<TokenView> {
    forms_tokens(st.program) + frames_tokens(st.stack) + prefix_tokens(st.pending)
}

/// Whether no token of the sequence is a comma.
pub open spec fn comma_free(tokens: Seq<TokenView>) -> bool {
    forall|i: int| 0 <= i < tokens.len() ==> #[trigger] tokens[i] != TokenView::C
}

/// The tokens of a sequence of forms with one more form at its end.
proof fn lemma_forms_tokens_push(forms: Seq<FormView>, form: FormView)
    ensures
        forms_tokens(forms.push(form)) == forms_tokens(forms) + form_tokens(form),
{
    assert(forms.push(form).drop_last() =~= forms);
}

/// The tokens of a stack with one more open list on top.
proof fn lemma_frames_tokens_push(frames: Seq<FrameView>, frame: FrameView)
    ensures
        frames_tokens(frames.push(frame)) == frames_tokens(frames) + frame_tokens(frame),
{
    assert(frames.push(frame).drop_last() =~= frames);
}

/// Completing a form adds its tokens to those of the state, once the
/// pending prefix is set aside.
proof fn lemma_with_form_tokens(st: ParserView, form: FormView)
    ensures
        state_tokens(st.with_form(form)) == forms_tokens(st.program) + frames_tokens(st.stack)
            + form_tokens(form),
{
    let next = st.with_form(form);
    let program = forms_tokens(st.program);
    let added = form_tokens(form);
    assert(prefix_tokens(next.pending) =~= Seq::empty());
    if st.stack.len() > 0 {
        let top = st.stack.last();
        let below = frames_tokens(st.stack.drop_last());
        let grown = (top.0.push(form), top.1);
        lemma_frames_tokens_push(st.stack.drop_last(), grown);
        lemma_forms_tokens_push(top.0, form);
        assert(frame_tokens(grown) =~= frame_tokens(top) + added);
        assert(frames_tokens(next.stack) =~= below + frame_tokens(top) + added);
        assert(frames_tokens(st.stack) == below + frame_tokens(top));
        assert(program + (below + frame_tokens(top) + added) + Seq::empty() =~= program + (below
            + frame_tokens(top)) + added);
    } else {
        lemma_forms_tokens_push(st.program, form);
        assert(frames_tokens(st.stack) =~= Seq::empty());
        assert((program + added) + Seq::empty() + Seq::empty() =~= program + Seq::empty() + added);
    }
}

/// A quoting prefix, accepted, extends the tokens of the state by itself.
proof fn lemma_prefix_step_tokens(st: ParserView, token: TokenView)
    requires
        token is Q || token is BQ,
        parse_step(st, token) is Ok,
    ensures
        state_tokens(parse_step(st, token)->Ok_0) == state_tokens(st).push(token),
{
    let next = parse_step(st, token)->Ok_0;
    let base = forms_tokens(st.program) + frames_tokens(st.stack);
    assert(prefix_tokens(st.pending) =~= Seq::empty());
    assert(prefix_tokens(next.pending) =~= seq![token]);
    assert(base + seq![token] =~= (base + Seq::empty()).push(token));
}

/// An opening parenthesis extends the tokens of the state by itself.
proof fn lemma_open_step_tokens(st: ParserView)
    ensures
        state_tokens(parse_step(st, TokenView::LP)->Ok_0) == state_tokens(st).push(TokenView::LP),
{
    let next = parse_step(st, TokenView::LP)->Ok_0;
    let program = forms_tokens(st.program);
    let frames = frames_tokens(st.stack);
    let mark = prefix_tokens(st.pending);
    let frame = (Seq::<FormView>::empty(), st.pending);
    lemma_frames_tokens_push(st.stack, frame);
    assert(forms_tokens(frame.0) =~= Seq::empty());
    assert(frame_tokens(frame) =~= mark.push(TokenView::LP));
    assert(prefix_tokens(next.pending) =~= Seq::empty());
    assert(program + (frames + mark.push(TokenView::LP)) + Seq::empty() =~= (program + frames
        + mark).push(TokenView::LP));
}

/// A closing parenthesis, accepted, extends the tokens of the state by
/// itself.
proof fn lemma_close_step_tokens(st: ParserView)
    requires
        parse_step(st, TokenView::RP) is Ok,
    ensures
        state_tokens(parse_step(st, TokenView::RP)->Ok_0) == state_tokens(st).push(TokenView::RP),
{
    let top = st.stack.last();
    let popped = ParserView { stack: st.stack.drop_last(), ..st };
    let form = (AstView::List(top.0), top.1);
    let program = forms_tokens(st.program);
    let below = frames_tokens(popped.stack);
    lemma_with_form_tokens(popped, form);
    assert(form_tokens(form) =~= frame_tokens(top).push(TokenView::RP));
    assert(frames_tokens(st.stack) == below + frame_tokens(top));
    assert(prefix_tokens(st.pending) =~= Seq::empty());
    assert(program + below + frame_tokens(top).push(TokenView::RP) =~= (program + (below
        + frame_tokens(top)) + Seq::empty()).push(TokenView::RP));
}

/// A number or symbol extends the tokens of the state by itself.
proof fn lemma_atom_step_tokens(st: ParserView, token: TokenView)
    requires
        token is Number || token is Symbol,
    ensures
        state_tokens(parse_step(st, token)->Ok_0) == state_tokens(st).push(token),
{
    let atom = match token {
        TokenView::Number { whole, fraction } => AstView::Number { whole, fraction },
        TokenView::Symbol(name) => AstView::Symbol(name),
        _ => arbitrary(),
    };
    let base = forms_tokens(st.program) + frames_tokens(st.stack);
    lemma_with_form_tokens(st, (atom, st.pending));
    assert(tree_tokens(atom) =~= seq![token]);
    assert(base + (prefix_tokens(st.pending) + seq![token]) =~= (base + prefix_tokens(
        st.pending,
    )).push(token));
}

/// Every token that the parser accepts, a comma apart, extends the tokens of
/// its state by itself.
pub proof fn lemma_parse_step_tokens(st: ParserView, token: TokenView)
    requires
        parse_step(st, token) is Ok,
        token != TokenView::C,
    ensures
        state_tokens(parse_step(st, token)->Ok_0) == state_tokens(st).push(token),
{
    match token {
        TokenView::Q => lemma_prefix_step_tokens(st, token),
        TokenView::BQ => lemma_prefix_step_tokens(st, token),
        TokenView::LP => lemma_open_step_tokens(st),
        TokenView::RP => lemma_close_step_tokens(st),
        TokenView::C => {},
        TokenView::Number { .. } => lemma_atom_step_tokens(st, token),
        TokenView::Symbol(_) => lemma_atom_step_tokens(st, token),
    }
}

/// The tokens of the state that the parser reaches on a comma-free input are
/// those of the state it started in, followed by the input.
pub proof fn lemma_parse_all_tokens(st: ParserView, tokens: Seq<TokenView>)
    requires
        parse_all(st, tokens) is Ok,
        comma_free(tokens),
    ensures
        state_tokens(parse_all(st, tokens)->Ok_0) == state_tokens(st) + tokens,
    decreases tokens.len(),
{
    if tokens.len() == 0 {
        assert(state_tokens(st) + tokens =~= state_tokens(st));
    } else {
        let init = tokens.drop_last();
        lemma_parse_all_tokens(st, init);
        let mid = parse_all(st, init)->Ok_0;
        lemma_parse_step_tokens(mid, tokens.last());
        assert((state_tokens(st) + init).push(tokens.last()) =~= state_tokens(st) + tokens);
    }
}

/// Writing a tree as text and lexing the text gives the tokens of the tree,
/// provided the atoms of the tree are lexemes.
pub proof fn lemma_tree_round_trip(ast: AstView)
    requires
        all_lexemes(tree_tokens(ast)),
    ensures
        lex_all(render(ast)) == oks(tree_tokens(ast)),
{
    let end = Seq::<char>::empty();
    lemma_lex_tree(ast, end);
    assert(render(ast) + end =~= render(ast));
    assert(lex_all(end) =~= Seq::empty());
    assert(oks(tree_tokens(ast)) + lex_all(end) =~= oks(tree_tokens(ast)));
}

/// Lexing, parsing and writing back a decimal literal: for digit strings
/// `whole` and `fraction`, not both empty, the literal `whole.fraction`
/// lexes to one number token with these two parts, that token parses to one
/// number atom, and the atom is written as `whole` if the fraction is empty
/// and as `whole.fraction` otherwise. Without a fraction, the literal
/// `whole` alone lexes to the same token.
pub proof fn lemma_number_round_trip(whole: Seq<char>, fraction: Seq<char>)
    requires
        is_digits(whole),
        is_digits(fraction),
        whole.len() + fraction.len() > 0,
    ensures
        lex_all(whole + seq!['.'] + fraction) == seq![
            Ok::<TokenView, Seq<char>>(TokenView::Number { whole, fraction }),
        ],
        fraction.len() == 0 ==> lex_all(whole) == seq![
            Ok::<TokenView, Seq<char>>(TokenView::Number { whole, fraction }),
        ],
        parse_step(ParserView::fresh(), TokenView::Number { whole, fraction }) == Ok::<
            ParserView,
            Seq<char>,
        >(
            ParserView {
                program: seq![(AstView::Number { whole, fraction }, QuoteState::Unquoted)],
                stack: Seq::empty(),
                pending: QuoteState::Unquoted,
            },
        ),
        render(AstView::Number { whole, fraction }) == if fraction.len() == 0 {
            whole
        } else {
            whole + seq!['.'] + fraction
        },
{
    let ast = AstView::Number { whole, fraction };
    let token = TokenView::Number { whole, fraction };
    let end = Seq::<char>::empty();
    assert(lex_all(end) =~= Seq::empty());
    assert(ParserView::fresh().with_form((ast, QuoteState::Unquoted)).program =~= seq![
        (ast, QuoteState::Unquoted),
    ]);
    if fraction.len() == 0 {
        assert(fraction =~= Seq::empty());
        // The literal `whole.`: a dot with no digits after it.
        let s = whole + seq!['.'] + fraction;
        let dotted = seq!['.'] + end;
        assert(s =~= whole + dotted);
        assert(s[0] == whole[0]);
        assert(run_len(s, CharClass::Space) == 0);
        assert(s.skip(0) =~= s);
        lemma_digit_run(whole, dotted);
        assert(dotted.skip(1) =~= end);
        assert(run_len(end, CharClass::Digit) == 0);
        assert(end.skip(0) =~= end);
        assert(end.take(0) =~= fraction);
        lemma_lex_all_step(s, Ok(token), end);
        assert(seq![Ok::<TokenView, Seq<char>>(token)] + lex_all(end) =~= seq![Ok(token)]);
        // The literal `whole`.
        lemma_tree_round_trip(ast);
        assert(oks(tree_tokens(ast)) =~= seq![Ok(token)]);
    } else {
        lemma_tree_round_trip(ast);
        assert(oks(tree_tokens(ast)) =~= seq![Ok(token)]);
    }
}

/// Re-lexing what was parsed gives back what was lexed: if a comma-free
/// sequence of lexemes is parsed from the start and leaves no list open and
/// no prefix pending, then the tokens of the resulting program are the
/// sequence itself, and the program, written as text, lexes to it. Written
/// as one list, the program lexes to the sequence between parentheses.
pub proof fn lemma_relex_reproduces_tokens(tokens: Seq<TokenView>)
    requires
        all_lexemes(tokens),
        comma_free(tokens),
        parse_all(ParserView::fresh(), tokens) is Ok,
        parse_all(ParserView::fresh(), tokens)->Ok_0.is_clean(),
    ensures
        ({
            let program = parse_all(ParserView::fresh(), tokens)->Ok_0.program;
            &&& forms_tokens(program) == tokens
            &&& lex_all(render_forms(program)) == oks(tokens)
            &&& lex_all(render(AstView::List(program))) == oks(
                seq![TokenView::LP] + tokens + seq![TokenView::RP],
            )
        }),
{
    let end = parse_all(ParserView::fresh(), tokens)->Ok_0;
    let program = end.program;
    lemma_parse_all_tokens(ParserView::fresh(), tokens);
    assert(frames_tokens(end.stack) =~= Seq::empty());
    assert(forms_tokens(Seq::<FormView>::empty()) =~= Seq::empty());
    assert(frames_tokens(Seq::<FrameView>::empty()) =~= Seq::empty());
    assert(state_tokens(ParserView::fresh()) =~= Seq::empty());
    assert(state_tokens(end) =~= forms_tokens(program));
    assert(Seq::<TokenView>::empty() + tokens =~= tokens);
    let nothing = Seq::<char>::empty();
    lemma_lex_forms(program, nothing);
    assert(render_forms(program) + nothing =~= render_forms(program));
    assert(lex_all(nothing) =~= Seq::empty());
    assert(oks(tokens) + lex_all(nothing) =~= oks(tokens));
    let list = AstView::List(program);
    lemma_all_lexemes_add(seq![TokenView::LP], tokens);
    lemma_all_lexemes_add(seq![TokenView::LP] + tokens, seq![TokenView::RP]);
    lemma_tree_round_trip(list);
}

/// Every token that the lexer yields is a lexeme, except the number without
/// digits, which a `.` between no digits lexes to.
pub proof fn lemma_lexed_token_is_lexeme(s: Seq<char>)
    requires
        lex_next(s).item is Some,
        lex_next(s).item->0 is Ok,
    ensures
        ({
            let token = lex_next(s).item->0->Ok_0;
            is_lexeme(token) || token == (TokenView::Number {
                whole: Seq::empty(),
                fraction: Seq::empty(),
            })
        }),
{
    let sp = run_len(s, CharClass::Space) as int;
    let t = s.skip(sp);
    crate::text::lemma_run_len(s, CharClass::Space);
    if is_structural(t[0]) {
    } else if is_digit(t[0]) || t[0] == '.' {
        let w = run_len(t, CharClass::Digit) as int;
        crate::text::lemma_run_len(t, CharClass::Digit);
        let after_whole = t.skip(w);
        assert(is_digits(t.take(w)));
        assert(is_digits(Seq::<char>::empty()));
        if after_whole.len() > 0 && after_whole[0] == '.' {
            let tail = after_whole.skip(1);
            let f = run_len(tail, CharClass::Digit) as int;
            crate::text::lemma_run_len(tail, CharClass::Digit);
            assert(is_digits(tail.take(f)));
            if w + f == 0 {
                assert(t.take(w) =~= Seq::empty());
                assert(tail.take(f) =~= Seq::empty());
            }
        }
    } else {
        let n = run_len(t, CharClass::Symbol) as int;
        crate::text::lemma_run_len(t, CharClass::Symbol);
        let name = t.take(n);
        assert(name[0] == t[0]);
        assert forall|i: int| 0 <= i < name.len() implies !is_delimiter(#[trigger] name[i]) by {
            assert(CharClass::Symbol.has(t[i]));
        }
    }
}

/// Parsing one token sequence after another is parsing their concatenation.
pub proof fn lemma_parse_all_add(st: ParserView, a: Seq<TokenView>, b: Seq<TokenView>)
    ensures
        parse_all(st, a + b) == match parse_all(st, a) {
            Ok(mid) => parse_all(mid, b),
            Err(reason) => Err(reason),
        },
    decreases b.len(),
{
    if b.len() == 0 {
        assert(a + b =~= a);
    } else {
        assert((a + b).drop_last() =~= a + b.drop_last());
        lemma_parse_all_add(st, a, b.drop_last());
    }
}

/// Parsing a single token is one step.
proof fn lemma_parse_all_one(st: ParserView, token: TokenView)
    ensures
        parse_all(st, seq![token]) == parse_step(st, token),
{
    assert(seq![token].drop_last() =~= Seq::<TokenView>::empty());
    assert(parse_all(st, seq![token].drop_last()) == Ok::<ParserView, Seq<char>>(st));
}

/// Parsing the tokens of a tree, in any state, completes that tree with the
/// prefix that was pending.
pub proof fn lemma_parse_tree(st: ParserView, ast: AstView)
    ensures
        parse_all(st, tree_tokens(ast)) == Ok::<ParserView, Seq<char>>(
            st.with_form((ast, st.pending)),
        ),
    decreases ast,
{
    match ast {
        AstView::Number { whole, fraction } => {
            lemma_parse_all_one(st, TokenView::Number { whole, fraction });
        },
        AstView::Symbol(name) => {
            lemma_parse_all_one(st, TokenView::Symbol(name));
        },
        AstView::List(elements) => {
            let opened = parse_step(st, TokenView::LP)->Ok_0;
            let inner = forms_tokens(elements);
            lemma_parse_all_one(st, TokenView::LP);
            lemma_parse_all_add(st, seq![TokenView::LP], inner);
            lemma_parse_forms(opened, elements);
            let filled = opened.with_forms(elements);
            assert(opened.stack.drop_last() =~= st.stack);
            assert(Seq::<FormView>::empty() + elements =~= elements);
            assert(filled.stack.last() == (elements, st.pending));
            assert(filled.stack.drop_last() =~= st.stack);
            lemma_parse_all_one(filled, TokenView::RP);
            lemma_parse_all_add(st, seq![TokenView::LP] + inner, seq![TokenView::RP]);
            let closed = ParserView { stack: filled.stack.drop_last(), ..filled };
            assert(closed.with_form((ast, st.pending)) == st.with_form((ast, st.pending)));
        },
    }
}

/// Parsing the tokens of a sequence of forms, while no prefix is pending,
/// completes these forms.
pub proof fn lemma_parse_forms(st: ParserView, forms: Seq<FormView>)
    requires
        st.pending == QuoteState::Unquoted,
    ensures
        parse_all(st, forms_tokens(forms)) == Ok::<ParserView, Seq<char>>(st.with_forms(forms)),
    decreases forms,
{
    if forms.len() == 0 {
        if st.stack.len() > 0 {
            let top = st.stack.last();
            assert(top.0 + forms =~= top.0);
            assert(st.stack.drop_last().push((top.0, top.1)) =~= st.stack);
        } else {
            assert(st.program + forms =~= st.program);
        }
    } else {
        let init = forms.drop_last();
        let last = forms.last();
        lemma_parse_forms(st, init);
        let mid = st.with_forms(init);
        lemma_parse_all_add(st, forms_tokens(init), form_tokens(last));
        // The prefix of the last form, then its tree.
        let ready = ParserView { pending: last.1, ..mid };
        if last.1 == QuoteState::Unquoted {
            assert(form_tokens(last) =~= tree_tokens(last.0));
        } else {
            let mark = prefix_tokens(last.1)[0];
            lemma_parse_all_one(mid, mark);
            lemma_parse_all_add(mid, prefix_tokens(last.1), tree_tokens(last.0));
            assert(prefix_tokens(last.1) =~= seq![mark]);
        }
        lemma_parse_tree(ready, last.0);
        assert(ready.with_form(last) == mid.with_form(last));
        if st.stack.len() > 0 {
            let top = st.stack.last();
            assert(mid.stack.drop_last() =~= st.stack.drop_last());
            assert((top.0 + init).push(last) =~= top.0 + forms);
        } else {
            assert((st.program + init).push(last) =~= st.program + forms);
        }
    }
}

/// Parsing what was written gives back what was written: the text of a
/// program whose atoms are lexemes lexes without error, and parsing the
/// tokens from the start gives that program, with no list open and no prefix
/// pending.
pub proof fn lemma_written_program_parses_back(program: Seq<FormView>)
    requires
        all_lexemes(forms_tokens(program)),
    ensures
        lex_all(render_forms(program)) == oks(forms_tokens(program)),
        parse_all(ParserView::fresh(), forms_tokens(program)) == Ok::<ParserView, Seq<char>>(
            ParserView { program, stack: Seq::empty(), pending: QuoteState::Unquoted },
        ),
{
    let nothing = Seq::<char>::empty();
    lemma_lex_forms(program, nothing);
    assert(render_forms(program) + nothing =~= render_forms(program));
    assert(lex_all(nothing) =~= Seq::empty());
    assert(oks(forms_tokens(program)) + lex_all(nothing) =~= oks(forms_tokens(program)));
    lemma_parse_forms(ParserView::fresh(), program);
    assert(Seq::<FormView>::empty() + program =~= program);
}

} // verus!
