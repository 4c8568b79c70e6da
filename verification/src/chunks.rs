//! Lexing a text that arrives in pieces: what has been confirmed on a piece
//! stays as it is when more text follows, and lexing resumes on the token in
//! flight.

use crate::lexer::{
    is_confirmed, lemma_lex_next_advances, lex_all, lex_next, lex_next_confirmed, ItemView,
};
use crate::text::{is_digit, is_space, is_structural, lemma_run_len, lemma_run_len_is, run_len, CharClass};
use vstd::prelude::*;

verus! {

/// Everything that is confirmed on the text `s`, in order.
pub open spec fn lex_confirmed(s: Seq<char>) -> Seq<ItemView>
    decreases s.len(),
{
    let step = lex_next_confirmed(s);
    if step.item is Some && step.rest.len() < s.len() {
        seq![step.item->0] + lex_confirmed(step.rest)
    } else {
        Seq::empty()
    }
}

/// What is left of the text `s` after everything confirmed has been taken:
/// the token in flight, or nothing.
pub open spec fn in_flight(s: Seq<char>) -> Seq<char>
    decreases s.len(),
{
    let step = lex_next_confirmed(s);
    if step.item is Some && step.rest.len() < s.len() {
        in_flight(step.rest)
    } else {
        step.rest
    }
}

/// A run that ends inside `s` is the same run when text follows `s`.
proof fn lemma_run_len_followed(s: Seq<char>, more: Seq<char>, class: CharClass)
    requires
        run_len(s, class) < s.len(),
    ensures
        run_len(s + more, class) == run_len(s, class),
{
    let n = run_len(s, class);
    let t = s + more;
    lemma_run_len(s, class);
    assert forall|i: int| 0 <= i < n implies class.has(#[trigger] t[i]) by {
        assert(t[i] == s[i]);
    }
    assert(t[n as int] == s[n as int]);
    lemma_run_len_is(t, class, n);
}

/// Whitespace at the start of a text does not change the step of the lexer.
proof fn lemma_lex_next_skips(s: Seq<char>, k: int)
    requires
        0 <= k <= run_len(s, CharClass::Space),
    ensures
        lex_next(s.skip(k)) == lex_next(s),
{
    let n = run_len(s, CharClass::Space);
    let t = s.skip(k);
    lemma_run_len(s, CharClass::Space);
    assert forall|i: int| 0 <= i < n - k implies CharClass::Space.has(#[trigger] t[i]) by {
        assert(t[i] == s[k + i]);
    }
    if n - k < t.len() {
        assert(t[n - k] == s[n as int]);
    }
    lemma_run_len_is(t, CharClass::Space, (n - k) as nat);
    assert(t.skip(n - k) =~= s.skip(n as int));
}

/// What is confirmed stays: if the step on `s` yields something confirmed,
/// then the step on `s` followed by any text `more` yields the same, and
/// leaves what was left followed by `more`.
pub proof fn lemma_confirmed_is_stable(s: Seq<char>, more: Seq<char>)
    requires
        is_confirmed(lex_next(s)),
    ensures
        lex_next(s + more).item == lex_next(s).item,
        lex_next(s + more).rest == lex_next(s).rest + more,
{
    let sp = run_len(s, CharClass::Space) as int;
    let t = s.skip(sp);
    let u = t + more;
    lemma_run_len(s, CharClass::Space);
    lemma_run_len_followed(s, more, CharClass::Space);
    assert((s + more).skip(sp) =~= u);
    assert(u[0] == t[0]);
    if is_structural(t[0]) {
        assert(u.skip(1) =~= t.skip(1) + more);
    } else if is_digit(t[0]) || t[0] == '.' {
        let w = run_len(t, CharClass::Digit) as int;
        lemma_run_len(t, CharClass::Digit);
        let after_whole = t.skip(w);
        lemma_run_len_followed(t, more, CharClass::Digit);
        assert(u.skip(w) =~= after_whole + more);
        assert(u.take(w) =~= t.take(w));
        if after_whole[0] == '.' {
            let tail = after_whole.skip(1);
            let f = run_len(tail, CharClass::Digit) as int;
            lemma_run_len(tail, CharClass::Digit);
            let after_fraction = tail.skip(f);
            assert((after_whole + more).skip(1) =~= tail + more);
            lemma_run_len_followed(tail, more, CharClass::Digit);
            assert((tail + more).skip(f) =~= after_fraction + more);
            assert((tail + more).take(f) =~= tail.take(f));
            if after_fraction[0] == '.' {
                assert((after_fraction + more).skip(1) =~= after_fraction.skip(1) + more);
            }
        }
    } else {
        let n = run_len(t, CharClass::Symbol) as int;
        lemma_run_len(t, CharClass::Symbol);
        lemma_run_len_followed(t, more, CharClass::Symbol);
        assert(u.skip(n) =~= t.skip(n) + more);
        assert(u.take(n) =~= t.take(n));
    }
}

/// Lexing resumes on the token in flight: what the lexer yields on `s`
/// followed by `more` is what is confirmed on `s`, followed by what the
/// lexer yields on the text in flight followed by `more`.
pub proof fn lemma_lex_resumes(s: Seq<char>, more: Seq<char>)
    ensures
        lex_all(s + more) == lex_confirmed(s) + lex_all(in_flight(s) + more),
    decreases s.len(),
{
    let step = lex_next(s);
    lemma_lex_next_advances(s);
    lemma_lex_next_advances(s + more);
    if is_confirmed(step) {
        lemma_confirmed_is_stable(s, more);
        lemma_lex_resumes(step.rest, more);
        assert(lex_all(s + more) =~= seq![step.item->0] + (lex_confirmed(step.rest) + lex_all(
            in_flight(step.rest) + more,
        )));
    } else {
        let sp = run_len(s, CharClass::Space) as int;
        let t = s.skip(sp);
        lemma_run_len(s, CharClass::Space);
        assert(in_flight(s) == t);
        assert(lex_confirmed(s) =~= Seq::empty());
        // The whitespace in front of `t` is whitespace in front of `t + more`.
        let whole = s + more;
        assert forall|i: int| 0 <= i < sp implies CharClass::Space.has(#[trigger] whole[i]) by {
            assert(whole[i] == s[i]);
        }
        lemma_leading_spaces(whole, sp);
        lemma_lex_next_skips(whole, sp);
        assert(whole.skip(sp) =~= t + more);
        lemma_lex_next_advances(t + more);
        assert(lex_all(whole) == lex_all(t + more));
        assert(Seq::<ItemView>::empty() + lex_all(t + more) =~= lex_all(t + more));
    }
}

/// A prefix of whitespace lies within the run of whitespace at the start.
proof fn lemma_leading_spaces(s: Seq<char>, k: int)
    requires
        0 <= k <= s.len(),
        forall|i: int| 0 <= i < k ==> is_space(#[trigger] s[i]),
    ensures
        k <= run_len(s, CharClass::Space),
{
    lemma_run_len(s, CharClass::Space);
    let n = run_len(s, CharClass::Space);
    if n < k {
        assert(is_space(s[n as int]));
    }
}

} // verus!
