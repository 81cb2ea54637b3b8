//! General properties of the scan, proved once and for all inputs over the
//! model in [`crate::model`]. The executable scanner's contract pins its
//! result to that model, so each property carries over to every run.

use crate::model::classify_span;
use crate::model::decimal_value;
use crate::model::digit_run_len;
use crate::model::identifier_run_len;
use crate::model::is_digit_char;
use crate::model::is_identifier_char;
use crate::model::is_identifier_start;
use crate::model::is_reserved_word;
use crate::model::is_whitespace_char;
use crate::model::lemma_digit_run_len;
use crate::model::lemma_identifier_run_len;
use crate::model::lemma_step_len_bounds;
use crate::model::spec_spans;
use crate::model::spec_tokenize;
use crate::model::step_len;
use crate::model::TokenView;
use vstd::prelude::*;

verus! {

/// The shape every scan shares: spans and tokens correspond one to one,
/// every span is non-empty, the first span starts at the first character,
/// and identifier and digit runs are maximal: the span following such a run
/// never opens with a character that could have continued it.
pub proof fn lemma_scan_structure(s: Seq<char>)
    ensures
        spec_spans(s).len() == spec_tokenize(s).len(),
        forall|i: int| 0 <= i < spec_spans(s).len() ==> #[trigger] spec_tokenize(s)[i]
            == classify_span(spec_spans(s)[i]),
        forall|i: int| 0 <= i < spec_spans(s).len() ==> (#[trigger] spec_spans(s)[i]).len() >= 1,
        s.len() > 0 ==> spec_spans(s)[0][0] == s[0],
        forall|i: int|
            0 <= i && i + 1 < spec_spans(s).len() && is_identifier_start(
                (#[trigger] spec_spans(s)[i])[0],
            ) ==> !is_identifier_char(spec_spans(s)[i + 1][0]),
        forall|i: int|
            0 <= i && i + 1 < spec_spans(s).len() && is_digit_char(
                (#[trigger] spec_spans(s)[i])[0],
            ) ==> !is_digit_char(spec_spans(s)[i + 1][0]),
        forall|i: int|
            0 <= i < spec_spans(s).len() && is_whitespace_char(
                (#[trigger] spec_spans(s)[i])[0],
            ) ==> spec_spans(s)[i].len() == 1,
    decreases s.len(), 1int,
{
    if s.len() == 0 {
    } else {
        lemma_step_len_bounds(s);
        let n = step_len(s) as int;
        let span = s.take(n);
        let rest = s.skip(n);
        lemma_scan_structure(rest);
        assert(spec_spans(s) == seq![span] + spec_spans(rest));
        assert(spec_tokenize(s) == seq![classify_span(span)] + spec_tokenize(rest));
        assert(span[0] == s[0]);
        assert forall|i: int| 0 <= i < spec_spans(s).len() implies #[trigger] spec_tokenize(s)[i]
            == classify_span(spec_spans(s)[i]) && (spec_spans(s)[i]).len() >= 1 by {
            if i > 0 {
                assert(spec_spans(s)[i] == spec_spans(rest)[i - 1]);
                assert(spec_tokenize(s)[i] == spec_tokenize(rest)[i - 1]);
            }
        }
        assert forall|i: int|
            0 <= i < spec_spans(s).len() && is_whitespace_char(
                (#[trigger] spec_spans(s)[i])[0],
            ) implies spec_spans(s)[i].len() == 1 by {
            if i == 0 {
                assert(spec_spans(s)[0] == span);
                assert(n == 1);
            } else {
                assert(spec_spans(s)[i] == spec_spans(rest)[i - 1]);
            }
        }
        assert forall|i: int|
            0 <= i && i + 1 < spec_spans(s).len() && is_identifier_start(
                (#[trigger] spec_spans(s)[i])[0],
            ) implies !is_identifier_char(spec_spans(s)[i + 1][0]) by {
            lemma_scan_boundary_transfer(s, i);
        }
        assert forall|i: int|
            0 <= i && i + 1 < spec_spans(s).len() && is_digit_char(
                (#[trigger] spec_spans(s)[i])[0],
            ) implies !is_digit_char(spec_spans(s)[i + 1][0]) by {
            lemma_scan_boundary_transfer(s, i);
        }
    }
}

/// The boundary after span `i`: when the span is an identifier or digit run,
/// the next span opens with a character that could not have continued it.
proof fn lemma_scan_boundary_transfer(s: Seq<char>, i: int)
    requires
        s.len() > 0,
        0 <= i,
        i + 1 < spec_spans(s).len(),
    ensures
        is_identifier_start(spec_spans(s)[i][0]) ==> !is_identifier_char(spec_spans(s)[i + 1][0]),
        is_digit_char(spec_spans(s)[i][0]) ==> !is_digit_char(spec_spans(s)[i + 1][0]),
    decreases s.len(), 0int,
{
    lemma_step_len_bounds(s);
    let n = step_len(s) as int;
    let span = s.take(n);
    let rest = s.skip(n);
    assert(spec_spans(s) == seq![span] + spec_spans(rest));
    if i == 0 {
        lemma_scan_structure(rest);
        assert(rest.len() > 0);
        assert(spec_spans(s)[1] == spec_spans(rest)[0]);
        assert(spec_spans(s)[1][0] == rest[0]);
        assert(rest[0] == s[n]);
        assert(span[0] == s[0]);
        if is_identifier_start(s[0]) {
            lemma_identifier_run_len(s);
            assert(n == identifier_run_len(s));
            assert(!is_identifier_char(s[n]));
        }
        if is_digit_char(s[0]) {
            lemma_digit_run_len(s);
            assert(n == digit_run_len(s));
            assert(!is_digit_char(s[n]));
        }
    } else {
        lemma_scan_boundary_transfer(rest, i - 1);
        assert(spec_spans(s)[i] == spec_spans(rest)[i - 1]);
        assert(spec_spans(s)[i + 1] == spec_spans(rest)[i]);
    }
}

/// Concatenating the consumed spans, in emission order, reconstructs the
/// scanned text exactly: no character is skipped and none is read twice.
pub proof fn lemma_spans_reconstruct_input(s: Seq<char>)
    ensures
        spec_spans(s).flatten() == s,
    decreases s.len(),
{
    if s.len() == 0 {
        assert(spec_spans(s).flatten() =~= s);
    } else {
        lemma_step_len_bounds(s);
        let n = step_len(s) as int;
        let rest = spec_spans(s.skip(n));
        lemma_spans_reconstruct_input(s.skip(n));
        let whole = seq![s.take(n)] + rest;
        assert(spec_spans(s) == whole);
        assert(whole.first() == s.take(n));
        assert(whole.drop_first() =~= rest);
        assert(whole.flatten() == whole.first() + whole.drop_first().flatten());
        assert(s.take(n) + s.skip(n) =~= s);
    }
}

/// How many of the characters of `s` are whitespace.
pub open spec fn whitespace_char_count(s: Seq<char>) -> nat
    decreases s.len(),
{
    if s.len() == 0 {
        0
    } else {
        (if is_whitespace_char(s[0]) {
            1nat
        } else {
            0nat
        }) + whitespace_char_count(s.drop_first())
    }
}

/// How many of the tokens of `toks` are whitespace markers.
pub open spec fn whitespace_token_count(toks: Seq<TokenView>) -> nat
    decreases toks.len(),
{
    if toks.len() == 0 {
        0
    } else {
        (if toks[0] is Whitespace {
            1nat
        } else {
            0nat
        }) + whitespace_token_count(toks.drop_first())
    }
}

proof fn lemma_ws_char_count_add(a: Seq<char>, b: Seq<char>)
    ensures
        whitespace_char_count(a + b) == whitespace_char_count(a) + whitespace_char_count(b),
    decreases a.len(),
{
    if a.len() == 0 {
        assert(a + b =~= b);
    } else {
        lemma_ws_char_count_add(a.drop_first(), b);
        assert((a + b).drop_first() =~= a.drop_first() + b);
        assert((a + b)[0] == a[0]);
    }
}

proof fn lemma_ws_token_count_add(a: Seq<TokenView>, b: Seq<TokenView>)
    ensures
        whitespace_token_count(a + b) == whitespace_token_count(a) + whitespace_token_count(b),
    decreases a.len(),
{
    if a.len() == 0 {
        assert(a + b =~= b);
    } else {
        lemma_ws_token_count_add(a.drop_first(), b);
        assert((a + b).drop_first() =~= a.drop_first() + b);
        assert((a + b)[0] == a[0]);
    }
}

proof fn lemma_ws_token_count_singleton(tv: TokenView)
    ensures
        whitespace_token_count(seq![tv]) == if tv is Whitespace {
            1nat
        } else {
            0nat
        },
{
    assert(seq![tv][0] == tv);
    assert(seq![tv].drop_first() =~= Seq::<TokenView>::empty());
    assert(whitespace_token_count(Seq::<TokenView>::empty()) == 0);
}

proof fn lemma_ws_char_count_zero(s: Seq<char>)
    requires
        forall|i: int| 0 <= i < s.len() ==> !is_whitespace_char(#[trigger] s[i]),
    ensures
        whitespace_char_count(s) == 0,
    decreases s.len(),
{
    if s.len() > 0 {
        assert(!is_whitespace_char(s[0]));
        assert forall|i: int| 0 <= i < s.drop_first().len() implies !is_whitespace_char(
            #[trigger] s.drop_first()[i],
        ) by {
            assert(s.drop_first()[i] == s[i + 1]);
        }
        lemma_ws_char_count_zero(s.drop_first());
    }
}

/// Whitespace is emitted one token per character: a run of N consecutive
/// whitespace characters yields exactly N `Whitespace` tokens, and no other
/// token covers a whitespace character, so over the whole input the count of
/// `Whitespace` tokens equals the count of whitespace characters.
pub proof fn lemma_whitespace_token_count(s: Seq<char>)
    ensures
        whitespace_token_count(spec_tokenize(s)) == whitespace_char_count(s),
    decreases s.len(),
{
    if s.len() == 0 {
    } else {
        lemma_step_len_bounds(s);
        let n = step_len(s) as int;
        let span = s.take(n);
        let rest = s.skip(n);
        let c = s[0];
        lemma_whitespace_token_count(rest);
        assert(spec_tokenize(s) == seq![classify_span(span)] + spec_tokenize(rest));
        lemma_ws_token_count_add(seq![classify_span(span)], spec_tokenize(rest));
        assert(span + rest =~= s);
        lemma_ws_char_count_add(span, rest);
        assert(span[0] == c);
        assert(seq![classify_span(span)].drop_first() =~= Seq::<TokenView>::empty());
        lemma_ws_token_count_singleton(classify_span(span));
        if is_whitespace_char(c) {
            assert(n == 1);
            assert(classify_span(span) == TokenView::Whitespace);
            assert(whitespace_token_count(seq![classify_span(span)]) == 1);
            assert(span.drop_first() =~= Seq::<char>::empty());
            assert(whitespace_char_count(span) == 1);
        } else {
            assert(!(classify_span(span) is Whitespace));
            assert(whitespace_token_count(seq![classify_span(span)]) == 0);
            if is_identifier_start(c) {
                lemma_identifier_run_len(s);
                assert forall|i: int| 0 <= i < span.len() implies !is_whitespace_char(
                    #[trigger] span[i],
                ) by {
                    assert(span[i] == s[i]);
                    assert(is_identifier_char(s[i]));
                }
            } else if is_digit_char(c) {
                lemma_digit_run_len(s);
                assert forall|i: int| 0 <= i < span.len() implies !is_whitespace_char(
                    #[trigger] span[i],
                ) by {
                    assert(span[i] == s[i]);
                    assert(is_digit_char(s[i]));
                }
            } else {
                assert(n == 1);
                assert forall|i: int| 0 <= i < span.len() implies !is_whitespace_char(
                    #[trigger] span[i],
                ) by {
                    assert(span[i] == c);
                }
            }
            lemma_ws_char_count_zero(span);
        }
    }
}

/// A whitespace character is never coalesced with its neighbours: a token
/// is a `Whitespace` marker exactly when its consumed span is one single
/// whitespace character, so a run of N whitespace characters yields N
/// `Whitespace` tokens, one per character.
pub proof fn lemma_whitespace_tokens_single_char(s: Seq<char>)
    ensures
        forall|i: int|
            0 <= i < spec_spans(s).len() ==> ((#[trigger] spec_tokenize(s)[i]) is Whitespace
                <==> spec_spans(s)[i].len() == 1 && is_whitespace_char(spec_spans(s)[i][0])),
{
    lemma_scan_structure(s);
    assert forall|i: int| 0 <= i < spec_spans(s).len() implies ((#[trigger] spec_tokenize(s)[i])
        is Whitespace <==> spec_spans(s)[i].len() == 1 && is_whitespace_char(
        spec_spans(s)[i][0],
    )) by {
        let span = spec_spans(s)[i];
        assert(span.len() >= 1);
        assert(spec_tokenize(s)[i] == classify_span(span));
    }
}

/// A span that opens like an identifier is emitted as a `Keyword` exactly
/// when its text is a reserved word, and as an `Identifier` carrying the
/// exact matched text otherwise.
pub proof fn lemma_keyword_classification(s: Seq<char>)
    ensures
        forall|i: int|
            0 <= i < spec_spans(s).len() && is_identifier_start(
                (#[trigger] spec_spans(s)[i])[0],
            ) ==> {
                let span = spec_spans(s)[i];
                &&& (spec_tokenize(s)[i] == TokenView::Keyword(span) <==> is_reserved_word(span))
                &&& (!is_reserved_word(span) ==> spec_tokenize(s)[i] == TokenView::Identifier(
                    span,
                ))
            },
{
    lemma_scan_structure(s);
    assert forall|i: int|
        0 <= i < spec_spans(s).len() && is_identifier_start(
            (#[trigger] spec_spans(s)[i])[0],
        ) implies {
        let span = spec_spans(s)[i];
        &&& (spec_tokenize(s)[i] == TokenView::Keyword(span) <==> is_reserved_word(span))
        &&& (!is_reserved_word(span) ==> spec_tokenize(s)[i] == TokenView::Identifier(span))
    } by {
        let span = spec_spans(s)[i];
        assert(span.len() >= 1);
        assert(!is_whitespace_char(span[0]));
        assert(spec_tokenize(s)[i] == classify_span(span));
    }
}

/// A span that opens with a digit is emitted as a `Number` token whose value
/// is the decimal value of the whole (maximal) digit run.
pub proof fn lemma_number_value(s: Seq<char>)
    ensures
        forall|i: int|
            0 <= i < spec_spans(s).len() && is_digit_char((#[trigger] spec_spans(s)[i])[0]) ==>
                spec_tokenize(s)[i] == TokenView::Number(decimal_value(spec_spans(s)[i])),
{
    lemma_scan_structure(s);
    assert forall|i: int|
        0 <= i < spec_spans(s).len() && is_digit_char((#[trigger] spec_spans(s)[i])[0]) implies
        spec_tokenize(s)[i] == TokenView::Number(decimal_value(spec_spans(s)[i])) by {
        let span = spec_spans(s)[i];
        assert(span.len() >= 1);
        assert(!is_whitespace_char(span[0]));
        assert(!is_identifier_start(span[0]));
        assert(spec_tokenize(s)[i] == classify_span(span));
    }
}

} // verus!
