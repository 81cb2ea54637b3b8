//! The mathematical model of the scanner.
//!
//! The input is modelled as a `Seq<char>`. Scanning is a sequence of steps;
//! each step consumes a non-empty span of characters and emits one token.
//! [`spec_spans`] gives the consumed spans in emission order, [`classify_span`]
//! maps a span to the token it produces, and [`spec_tokenize`] gives the full
//! token sequence. The executable scanner in [`crate::lexer`] is verified
//! against this model.

use vstd::prelude::*;

verus! {

/// A token, at the specification level. Identifier and keyword tokens carry
/// their text as a character sequence; number tokens carry the unbounded
/// decimal value of their digit run, so that the model is total even where
/// the executable scanner must report an overflow.
pub enum TokenView {
    Keyword(Seq<char>),
    Identifier(Seq<char>),
    Number(int),
    Operator(char),
    Punctuation(char),
    Whitespace,
    Unknown(char),
}

/// The characters the scanner treats as whitespace.
pub open spec fn is_whitespace_char(c: char) -> bool {
    c == ' ' || c == '\n' || c == '\t' || c == '\r'
}

/// ASCII letters and decimal digits.
pub open spec fn is_ascii_alphanumeric_char(c: char) -> bool {
    ||| 48 <= c as u32 && c as u32 <= 57
    ||| 65 <= c as u32 && c as u32 <= 90
    ||| 97 <= c as u32 && c as u32 <= 122
}

/// What `char::is_alphanumeric` returns on a character outside the ASCII
/// range. Unicode leaves this to large category tables, so the result is
/// only named here, not written out; it is a function of the character alone.
pub uninterp spec fn alphanumeric_ext(c: char) -> bool;

/// Whether a character is alphanumeric, as `char::is_alphanumeric` decides
/// it: on ASCII characters exactly the letters and digits, elsewhere the
/// Unicode classification named by [`alphanumeric_ext`].
pub open spec fn is_alphanumeric_char(c: char) -> bool {
    if (c as u32) < 128 {
        is_ascii_alphanumeric_char(c)
    } else {
        alphanumeric_ext(c)
    }
}

/// Characters that may open an identifier: ASCII letters and the underscore.
pub open spec fn is_identifier_start(c: char) -> bool {
    ||| 65 <= c as u32 && c as u32 <= 90
    ||| 97 <= c as u32 && c as u32 <= 122
    ||| c == '_'
}

/// Characters that may continue an identifier: alphanumerics and underscore.
pub open spec fn is_identifier_char(c: char) -> bool {
    is_alphanumeric_char(c) || c == '_'
}

/// ASCII decimal digits.
pub open spec fn is_digit_char(c: char) -> bool {
    48 <= c as u32 && c as u32 <= 57
}

/// The operator alphabet.
pub open spec fn is_operator_char(c: char) -> bool {
    c == '+' || c == '-' || c == '*' || c == '/' || c == '='
}

/// The punctuation alphabet.
pub open spec fn is_punctuation_char(c: char) -> bool {
    c == '(' || c == ')' || c == '{' || c == '}' || c == ',' || c == ';'
}

/// The numeric value of a decimal digit character.
pub open spec fn digit_value(c: char) -> int {
    c as u32 - 48
}

/// The decimal value of a digit sequence, most significant digit first.
pub open spec fn decimal_value(digits: Seq<char>) -> int
    decreases digits.len(),
{
    if digits.len() == 0 {
        0
    } else {
        decimal_value(digits.drop_last()) * 10 + digit_value(digits.last())
    }
}

/// The fixed reserved-word set. Identifier text found in this set is emitted
/// as a keyword; extending the language with a new keyword means adding it
/// here (and in [`crate::token::text_is_reserved`]), not touching the scanner.
pub open spec fn reserved_words() -> Set<Seq<char>> {
    set!["let"@, "fn"@]
}

/// Whether identifier text is a reserved word (case-sensitive, full match).
pub open spec fn is_reserved_word(text: Seq<char>) -> bool {
    reserved_words().contains(text)
}

/// The length of the maximal identifier run at the front of `s`.
pub open spec fn identifier_run_len(s: Seq<char>) -> nat
    decreases s.len(),
{
    if s.len() == 0 || !is_identifier_char(s[0]) {
        0
    } else {
        1 + identifier_run_len(s.drop_first())
    }
}

/// The length of the maximal digit run at the front of `s`.
pub open spec fn digit_run_len(s: Seq<char>) -> nat
    decreases s.len(),
{
    if s.len() == 0 || !is_digit_char(s[0]) {
        0
    } else {
        1 + digit_run_len(s.drop_first())
    }
}

/// How many characters the scan step at the front of a non-empty `s`
/// consumes: a maximal run for identifiers and numbers, one character
/// otherwise.
pub open spec fn step_len(s: Seq<char>) -> nat
    recommends
        s.len() > 0,
{
    if s.len() == 0 {
        0
    } else if is_identifier_start(s[0]) {
        identifier_run_len(s)
    } else if is_digit_char(s[0]) {
        digit_run_len(s)
    } else {
        1
    }
}

/// The token a consumed span produces. The category is decided by the first
/// character of the span, in the same order the scanner tests it.
pub open spec fn classify_span(span: Seq<char>) -> TokenView
    recommends
        span.len() > 0,
{
    let c = span[0];
    if is_whitespace_char(c) {
        TokenView::Whitespace
    } else if is_identifier_start(c) {
        if is_reserved_word(span) {
            TokenView::Keyword(span)
        } else {
            TokenView::Identifier(span)
        }
    } else if is_digit_char(c) {
        TokenView::Number(decimal_value(span))
    } else if is_operator_char(c) {
        TokenView::Operator(c)
    } else if is_punctuation_char(c) {
        TokenView::Punctuation(c)
    } else {
        TokenView::Unknown(c)
    }
}

/// Every scan step consumes at least one character and at most the rest of
/// the input, so scanning terminates and never reads out of bounds.
pub proof fn lemma_step_len_bounds(s: Seq<char>)
    requires
        s.len() > 0,
    ensures
        1 <= step_len(s) <= s.len(),
{
    lemma_identifier_run_len(s);
    lemma_digit_run_len(s);
}

/// The spans consumed by the scan of `s`, in emission order.
pub open spec fn spec_spans(s: Seq<char>) -> Seq<Seq<char>>
    decreases s.len(),
        via spec_spans_decreases
{
    if s.len() == 0 {
        Seq::empty()
    } else {
        let n = step_len(s) as int;
        seq![s.take(n)] + spec_spans(s.skip(n))
    }
}

#[via_fn]
proof fn spec_spans_decreases(s: Seq<char>) {
    if s.len() > 0 {
        lemma_step_len_bounds(s);
    }
}

/// The tokens emitted by the scan of `s`, in emission order.
pub open spec fn spec_tokenize(s: Seq<char>) -> Seq<TokenView>
    decreases s.len(),
        via spec_tokenize_decreases
{
    if s.len() == 0 {
        Seq::empty()
    } else {
        let n = step_len(s) as int;
        seq![classify_span(s.take(n))] + spec_tokenize(s.skip(n))
    }
}

#[via_fn]
proof fn spec_tokenize_decreases(s: Seq<char>) {
    if s.len() > 0 {
        lemma_step_len_bounds(s);
    }
}

/// Whether a model token is a number too large for a signed 64-bit value.
pub open spec fn token_overflows(t: TokenView) -> bool {
    match t {
        TokenView::Number(v) => v > i64::MAX as int,
        _ => false,
    }
}

/// Whether every number token in `toks` fits in a signed 64-bit value.
pub open spec fn no_overflow(toks: Seq<TokenView>) -> bool {
    forall|i: int| 0 <= i < toks.len() ==> !token_overflows(#[trigger] toks[i])
}

/// Whether the scan of `s` overflows first at token index `i`: the token
/// there is a number too large for a signed 64-bit value, and no earlier
/// token is.
pub open spec fn is_first_overflow(s: Seq<char>, i: int) -> bool {
    &&& 0 <= i < spec_tokenize(s).len()
    &&& token_overflows(spec_tokenize(s)[i])
    &&& forall|j: int| 0 <= j < i ==> !token_overflows(#[trigger] spec_tokenize(s)[j])
}

/// The maximal identifier run: it is in bounds, consists of identifier
/// characters, stops at the first character that is not one, and is
/// non-empty when the first character qualifies.
pub proof fn lemma_identifier_run_len(s: Seq<char>)
    ensures
        identifier_run_len(s) <= s.len(),
        forall|i: int| 0 <= i < identifier_run_len(s) ==> is_identifier_char(#[trigger] s[i]),
        identifier_run_len(s) < s.len() ==> !is_identifier_char(s[identifier_run_len(s) as int]),
        s.len() > 0 && is_identifier_char(s[0]) ==> identifier_run_len(s) >= 1,
    decreases s.len(),
{
    if s.len() == 0 || !is_identifier_char(s[0]) {
    } else {
        lemma_identifier_run_len(s.drop_first());
        assert forall|i: int| 0 <= i < identifier_run_len(s) implies is_identifier_char(
            #[trigger] s[i],
        ) by {
            if i > 0 {
                assert(s.drop_first()[i - 1] == s[i]);
            }
        }
        if identifier_run_len(s) < s.len() {
            assert(s.drop_first()[identifier_run_len(s.drop_first()) as int]
                == s[identifier_run_len(s) as int]);
        }
    }
}

/// The maximal digit run: the same facts as for the identifier run.
pub proof fn lemma_digit_run_len(s: Seq<char>)
    ensures
        digit_run_len(s) <= s.len(),
        forall|i: int| 0 <= i < digit_run_len(s) ==> is_digit_char(#[trigger] s[i]),
        digit_run_len(s) < s.len() ==> !is_digit_char(s[digit_run_len(s) as int]),
        s.len() > 0 && is_digit_char(s[0]) ==> digit_run_len(s) >= 1,
    decreases s.len(),
{
    if s.len() == 0 || !is_digit_char(s[0]) {
    } else {
        lemma_digit_run_len(s.drop_first());
        assert forall|i: int| 0 <= i < digit_run_len(s) implies is_digit_char(
            #[trigger] s[i],
        ) by {
            if i > 0 {
                assert(s.drop_first()[i - 1] == s[i]);
            }
        }
        if digit_run_len(s) < s.len() {
            assert(s.drop_first()[digit_run_len(s.drop_first()) as int]
                == s[digit_run_len(s) as int]);
        }
    }
}

} // verus!
