//! Character classes of the surface syntax and the text primitives the lexer
//! is built from.

use vstd::prelude::*;
use vstd::string::StringSliceAdditionalSpecFns;
use vstd::utf8::*;

verus! {

/// Whitespace that separates tokens and is otherwise ignored.
pub open spec fn is_space(c: char) -> bool {
    c == ' ' || c == '\t' || c == '\n' || c == '\r'
}

/// The five characters that are tokens by themselves: the two parentheses
/// and the three quoting prefixes.
pub open spec fn is_structural(c: char) -> bool {
    c == '(' || c == ')' || c == '\'' || c == '`' || c == ','
}

/// A decimal digit.
pub open spec fn is_digit(c: char) -> bool {
    '0' <= c <= '9'
}

/// A character that ends a symbol: whitespace or a structural character.
pub open spec fn is_delimiter(c: char) -> bool {
    is_space(c) || is_structural(c)
}

/// A character that may begin a symbol: no delimiter, no digit, no dot.
pub open spec fn is_symbol_start(c: char) -> bool {
    !is_delimiter(c) && !is_digit(c) && c != '.'
}

/// The sets of characters of which the lexer consumes maximal runs.
#[derive(Clone, Copy, Debug)]
pub enum CharClass {
    /// Whitespace between tokens.
    Space,
    /// Decimal digits of a number.
    Digit,
    /// Everything that may continue a symbol, that is, every character that
    /// is no delimiter.
    Symbol,
}

impl CharClass {
    /// Whether `c` belongs to this class.
    pub open spec fn has(self, c: char) -> bool {
        match self {
            CharClass::Space => is_space(c),
            CharClass::Digit => is_digit(c),
            CharClass::Symbol => !is_delimiter(c),
        }
    }

    /// Tests whether `c` belongs to this class.
    pub(crate) fn contains(self, c: char) -> (r: bool)
        ensures
            r == self.has(c),
    {
        match self {
            CharClass::Space => space(c),
            CharClass::Digit => '0' <= c && c <= '9',
            CharClass::Symbol => !space(c) && !structural(c),
        }
    }
}

/// Tests whether `c` is whitespace.
pub(crate) fn space(c: char) -> (r: bool)
    ensures
        r == is_space(c),
{
    c == ' ' || c == '\t' || c == '\n' || c == '\r'
}

/// Tests whether `c` is one of the five structural characters.
pub(crate) fn structural(c: char) -> (r: bool)
    ensures
        r == is_structural(c),
{
    c == '(' || c == ')' || c == '\'' || c == '`' || c == ','
}

/// The length of the longest prefix of `s` whose characters all belong to
/// `class`.
pub open spec fn run_len(s: Seq<char>, class: CharClass) -> nat
    decreases s.len(),
{
    if s.len() > 0 && class.has(s[0]) {
        1 + run_len(s.drop_first(), class)
    } else {
        0
    }
}

/// A run is a prefix, lies wholly in the class, and is followed, if by
/// anything, by a character outside the class.
pub proof fn lemma_run_len(s: Seq<char>, class: CharClass)
    ensures
        run_len(s, class) <= s.len(),
        forall|i: int| 0 <= i < run_len(s, class) ==> class.has(#[trigger] s[i]),
        run_len(s, class) < s.len() ==> !class.has(s[run_len(s, class) as int]),
    decreases s.len(),
{
    if s.len() > 0 && class.has(s[0]) {
        let t = s.drop_first();
        lemma_run_len(t, class);
        assert forall|i: int| 0 <= i < run_len(s, class) implies class.has(#[trigger] s[i]) by {
            if i > 0 {
                assert(s[i] == t[i - 1]);
            }
        }
        if run_len(s, class) < s.len() {
            assert(s[run_len(s, class) as int] == t[run_len(t, class) as int]);
        }
    }
}

/// The run of `class` at the start of `s` has length `n` whenever the first
/// `n` characters are in the class and the next one, if any, is not.
pub proof fn lemma_run_len_is(s: Seq<char>, class: CharClass, n: nat)
    requires
        n <= s.len(),
        forall|i: int| 0 <= i < n ==> class.has(#[trigger] s[i]),
        n < s.len() ==> !class.has(s[n as int]),
    ensures
        run_len(s, class) == n,
    decreases n,
{
    if n > 0 {
        let t = s.drop_first();
        assert forall|i: int| 0 <= i < n - 1 implies class.has(#[trigger] t[i]) by {
            assert(t[i] == s[i + 1]);
        }
        if n - 1 < t.len() {
            assert(t[n - 1] == s[n as int]);
        }
        lemma_run_len_is(t, class, (n - 1) as nat);
    }
}

/// Splits `s` into its first character, as a one-character slice, and the
/// text after it. Returns `None` exactly when `s` is empty.
pub(crate) fn split_first<'a>(s: &'a str) -> (r: Option<(&'a str, &'a str)>)
    ensures
        r is None <==> s@.len() == 0,
        r matches Some((head, tail)) ==> head@ == s@.subrange(0, 1) && tail@ == s@.subrange(
            1,
            s@.len() as int,
        ),
{
    if s.is_empty() {
        return None;
    }
    let ghost bytes = s.spec_bytes();
    let ghost width = length_of_first_scalar(bytes);
    proof {
        encode_utf8_valid_utf8(s@);
        encode_utf8_first_scalar(s@);
        reveal_with_fuel(is_char_boundary, 2);
        reveal_with_fuel(valid_utf8, 2);
    }
    let mut mid: usize = 1;
    while !s.is_char_boundary(mid)
        invariant
            bytes == s.spec_bytes(),
            valid_utf8(bytes),
            valid_first_scalar(bytes),
            width == length_of_first_scalar(bytes),
            1 <= mid <= width <= 4,
            width <= bytes.len(),
        decreases width - mid,
    {
        proof {
            reveal_with_fuel(is_char_boundary, 2);
        }
        mid = mid + 1;
    }
    proof {
        reveal_with_fuel(is_char_boundary, 2);
        assert(mid == width);
    }
    let (head, tail) = s.split_at(mid);
    proof {
        lemma_first_scalar_split(s@, head@, tail@);
    }
    Some((head, tail))
}

/// If the encoding of `text` splits, after its first scalar, into the
/// encodings of `head` and `tail`, then `head` is the first character of
/// `text` and `tail` is everything after it.
proof fn lemma_first_scalar_split(text: Seq<char>, head: Seq<char>, tail: Seq<char>)
    requires
        text.len() > 0,
        encode_utf8(head) =~= take_first_scalar(encode_utf8(text)),
        encode_utf8(tail) =~= pop_first_scalar(encode_utf8(text)),
    ensures
        head == text.subrange(0, 1),
        tail == text.subrange(1, text.len() as int),
{
    let bytes = encode_utf8(text);
    encode_utf8_first_scalar(text);
    assert(encode_utf8(text.drop_first()) =~= pop_first_scalar(bytes));
    encode_utf8_decode_utf8(tail);
    encode_utf8_decode_utf8(text.drop_first());
    assert(tail == text.drop_first());
    let one = text.subrange(0, 1);
    assert(encode_utf8(one) =~= take_first_scalar(bytes)) by {
        reveal_with_fuel(encode_utf8, 2);
        assert(one.drop_first().len() == 0);
        assert(encode_utf8(one) =~= encode_scalar(one[0] as u32));
        assert(encode_utf8(text) =~= encode_scalar(text[0] as u32) + encode_utf8(
            text.drop_first(),
        ));
    }
    encode_utf8_decode_utf8(head);
    encode_utf8_decode_utf8(one);
}

} // verus!
