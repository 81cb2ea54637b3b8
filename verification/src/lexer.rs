//! The executable scanner.
//!
//! A [`Lexer`] is bound to one immutably borrowed text buffer for its whole
//! life and owns a cursor into it, counted in characters and always on a
//! character boundary. [`Lexer::tokenize`] scans the buffer front to back,
//! classifies the character under the cursor, consumes one span per step and
//! emits one token per span, exactly as the model in [`crate::model`] says.

use crate::model::alphanumeric_ext;
use crate::model::decimal_value;
use crate::model::digit_run_len;
use crate::model::identifier_run_len;
use crate::model::is_alphanumeric_char;
use crate::model::is_digit_char;
use crate::model::is_first_overflow;
use crate::model::is_identifier_char;
use crate::model::is_identifier_start;
use crate::model::is_operator_char;
use crate::model::is_punctuation_char;
use crate::model::is_whitespace_char;
use crate::model::classify_span;
use crate::model::lemma_step_len_bounds;
use crate::model::no_overflow;
use crate::model::spec_spans;
use crate::model::spec_tokenize;
use crate::model::step_len;
use crate::model::token_overflows;
use crate::model::TokenView;
use crate::token::text_is_reserved;
use crate::token::LexError;
use crate::token::Token;
use vstd::prelude::*;
use vstd::string::StrSliceExecFns;

verus! {

/// Relies on `char::is_alphanumeric`: on an ASCII character it returns
/// exactly whether the character is an ASCII letter or decimal digit; on any
/// other character its result is a function of the character alone, named by
/// [`alphanumeric_ext`].
#[verifier::external_body]
fn char_is_alphanumeric(c: char) -> (r: bool)
    ensures
        r == is_alphanumeric_char(c),
        c as u32 >= 128 ==> r == alphanumeric_ext(c),
{
    c.is_alphanumeric()
}

/// Whether `c` is one of the whitespace characters the scanner recognizes.
fn is_whitespace(c: char) -> (r: bool)
    ensures
        r == is_whitespace_char(c),
{
    c == ' ' || c == '\n' || c == '\t' || c == '\r'
}

/// Whether `c` may open an identifier.
fn is_identifier_open(c: char) -> (r: bool)
    ensures
        r == is_identifier_start(c),
{
    let u = c as u32;
    (65 <= u && u <= 90) || (97 <= u && u <= 122) || c == '_'
}

/// Whether `c` may continue an identifier.
fn is_identifier_continue(c: char) -> (r: bool)
    ensures
        r == is_identifier_char(c),
{
    c == '_' || char_is_alphanumeric(c)
}

/// Whether `c` is an ASCII decimal digit.
fn is_digit(c: char) -> (r: bool)
    ensures
        r == is_digit_char(c),
{
    let u = c as u32;
    48 <= u && u <= 57
}

/// Whether `c` is in the operator alphabet.
fn is_operator(c: char) -> (r: bool)
    ensures
        r == is_operator_char(c),
{
    c == '+' || c == '-' || c == '*' || c == '/' || c == '='
}

/// Whether `c` is in the punctuation alphabet.
fn is_punctuation(c: char) -> (r: bool)
    ensures
        r == is_punctuation_char(c),
{
    c == '(' || c == ')' || c == '{' || c == '}' || c == ',' || c == ';'
}

/// Bookkeeping for one scan step: consuming the step's span at `pos` moves
/// it from the unscanned suffix into the finished prefix, for the spans, the
/// tokens, and the concatenation of the finished spans alike.
proof fn lemma_consume_step(
    s: Seq<char>,
    base: int,
    pos: int,
    n: int,
    done: Seq<Seq<char>>,
    toks: Seq<TokenView>,
)
    requires
        0 <= base <= pos <= s.len(),
        pos < s.len(),
        n == step_len(s.skip(pos)),
        pos + n <= s.len(),
        spec_spans(s.skip(base)) == done + spec_spans(s.skip(pos)),
        spec_tokenize(s.skip(base)) == toks + spec_tokenize(s.skip(pos)),
        done.flatten() == s.skip(base).take(pos - base),
    ensures
        1 <= n,
        spec_spans(s.skip(pos)) == seq![s.subrange(pos, pos + n)] + spec_spans(s.skip(pos + n)),
        spec_tokenize(s.skip(pos)) == seq![classify_span(s.subrange(pos, pos + n))]
            + spec_tokenize(s.skip(pos + n)),
        spec_spans(s.skip(base)) == done.push(s.subrange(pos, pos + n)) + spec_spans(
            s.skip(pos + n),
        ),
        spec_tokenize(s.skip(base)) == toks.push(classify_span(s.subrange(pos, pos + n)))
            + spec_tokenize(s.skip(pos + n)),
        done.push(s.subrange(pos, pos + n)).flatten() == s.skip(base).take(pos + n - base),
{
    let u = s.skip(pos);
    let span = s.subrange(pos, pos + n);
    lemma_step_len_bounds(u);
    assert(u.take(n) =~= span);
    assert(u.skip(n) =~= s.skip(pos + n));
    assert(spec_spans(u) == seq![span] + spec_spans(s.skip(pos + n)));
    assert(spec_tokenize(u) == seq![classify_span(span)] + spec_tokenize(s.skip(pos + n)));
    assert(done + (seq![span] + spec_spans(s.skip(pos + n))) =~= done.push(span) + spec_spans(
        s.skip(pos + n),
    ));
    assert(toks + (seq![classify_span(span)] + spec_tokenize(s.skip(pos + n))) =~= toks.push(
        classify_span(span),
    ) + spec_tokenize(s.skip(pos + n)));
    done.lemma_flatten_push(span);
    assert(s.skip(base).take(pos - base) + span =~= s.skip(base).take(pos + n - base));
}

/// Appending a token that is not an oversized number keeps the sequence free
/// of oversized numbers.
proof fn lemma_no_overflow_push(toks: Seq<TokenView>, t: TokenView)
    requires
        no_overflow(toks),
        !token_overflows(t),
    ensures
        no_overflow(toks.push(t)),
{
    assert forall|i: int| 0 <= i < toks.push(t).len() implies !token_overflows(
        #[trigger] toks.push(t)[i],
    ) by {
        if i < toks.len() {
            assert(toks.push(t)[i] == toks[i]);
        } else {
            assert(toks.push(t)[i] == t);
        }
    }
}

/// Appends a token to the emitted sequence. Tokens are immutable once
/// produced: the sequence only ever grows at its end.
fn push_token(tokens: &mut Vec<Token>, tok: Token)
    ensures
        final(tokens)@ == old(tokens)@.push(tok),
        final(tokens).deep_view() == old(tokens).deep_view().push(tok@),
{
    let ghost old_vec = tokens@;
    let ghost old_deep = tokens.deep_view();
    let ghost tok_view = tok@;
    tokens.push(tok);
    proof {
        assert(tokens.deep_view() =~= old_deep.push(tok_view));
    }
}

/// The scanner: a read-only borrow of the input text and a cursor into it.
pub struct Lexer<'a> {
    input: &'a str,
    position: usize,
}

impl<'a> Lexer<'a> {
    /// The scanned text, as a sequence of characters.
    pub closed spec fn text(self) -> Seq<char> {
        self.input@
    }

    /// The cursor, counted in characters from the start of the text.
    pub closed spec fn cursor(self) -> nat {
        self.position as nat
    }

    /// The cursor never leaves the text.
    pub open spec fn wf(self) -> bool {
        self.cursor() <= self.text().len()
    }

    /// Creates a scanner over `input`, with the cursor at the start.
    pub fn new(input: &'a str) -> (r: Lexer<'a>)
        ensures
            r.text() == input@,
            r.cursor() == 0,
            r.wf(),
    {
        Lexer { input, position: 0 }
    }

    /// The character under the cursor, without consuming it; `None` once the
    /// text is exhausted.
    fn peek(&self) -> (r: Option<char>)
        requires
            self.wf(),
        ensures
            self.text().len() <= usize::MAX,
            r matches Some(c) ==> self.cursor() < self.text().len() && c == self.text()[
                self.cursor() as int
            ],
            r is None ==> self.cursor() == self.text().len(),
    {
        if self.position < self.input.unicode_len() {
            Some(self.input.get_char(self.position))
        } else {
            None
        }
    }

    /// Consumes the character under the cursor, advancing by exactly one
    /// character; `None` once the text is exhausted.
    fn advance(&mut self) -> (r: Option<char>)
        requires
            old(self).wf(),
        ensures
            final(self).wf(),
            final(self).text() == old(self).text(),
            r matches Some(c) ==> old(self).cursor() < old(self).text().len() && c == old(
                self,
            ).text()[old(self).cursor() as int] && final(self).cursor() == old(self).cursor() + 1,
            r is None ==> old(self).cursor() == old(self).text().len() && final(self).cursor()
                == old(self).cursor(),
    {
        let result = self.peek();
        if result.is_some() {
            self.position = self.position + 1;
        }
        result
    }

    /// Consumes the maximal identifier run at the cursor and returns its
    /// text. The cursor ends on the first character that cannot continue an
    /// identifier, or at the end of the text.
    fn read_identifier(&mut self) -> (r: String)
        requires
            old(self).wf(),
        ensures
            final(self).wf(),
            final(self).text() == old(self).text(),
            final(self).cursor() == old(self).cursor() + identifier_run_len(
                old(self).text().skip(old(self).cursor() as int),
            ),
            r@ == old(self).text().subrange(
                old(self).cursor() as int,
                final(self).cursor() as int,
            ),
    {
        let start = self.position;
        let ghost s = self.text();
        let ghost start0 = self.cursor();
        loop
            invariant
                self.wf(),
                self.text() == s,
                start == start0,
                start0 <= self.cursor() <= s.len(),
                identifier_run_len(s.skip(start0 as int)) == (self.cursor() - start0)
                    + identifier_run_len(s.skip(self.cursor() as int)),
            ensures
                self.wf(),
                self.text() == s,
                start0 <= self.cursor() <= s.len(),
                self.cursor() == start0 + identifier_run_len(s.skip(start0 as int)),
            decreases s.len() - self.cursor(),
        {
            let ghost pos = self.cursor() as int;
            match self.peek() {
                Some(c) => {
                    if is_identifier_continue(c) {
                        proof {
                            assert(s.skip(pos)[0] == s[pos]);
                            assert(s.skip(pos).drop_first() =~= s.skip(pos + 1));
                        }
                        self.advance();
                    } else {
                        proof {
                            assert(s.skip(pos)[0] == s[pos]);
                        }
                        break;
                    }
                },
                None => {
                    proof {
                        assert(s.skip(pos) =~= Seq::<char>::empty());
                    }
                    break;
                },
            }
        }
        self.input.substring_char(start, self.position).to_owned()
    }

    /// Consumes the maximal digit run at the cursor and returns its value as
    /// a signed 64-bit integer, or `None` when the value does not fit. The
    /// whole run is consumed either way.
    fn read_number(&mut self) -> (r: Option<i64>)
        requires
            old(self).wf(),
        ensures
            final(self).wf(),
            final(self).text() == old(self).text(),
            final(self).cursor() == old(self).cursor() + digit_run_len(
                old(self).text().skip(old(self).cursor() as int),
            ),
            ({
                let run = old(self).text().subrange(
                    old(self).cursor() as int,
                    final(self).cursor() as int,
                );
                match r {
                    Some(v) => v as int == decimal_value(run) && v >= 0,
                    None => decimal_value(run) > i64::MAX as int,
                }
            }),
    {
        let ghost s = self.text();
        let ghost start0 = self.cursor();
        let mut value: Option<i64> = Some(0);
        proof {
            assert(s.subrange(start0 as int, start0 as int) =~= Seq::<char>::empty());
        }
        loop
            invariant
                self.wf(),
                self.text() == s,
                start0 <= self.cursor() <= s.len(),
                digit_run_len(s.skip(start0 as int)) == (self.cursor() - start0) + digit_run_len(
                    s.skip(self.cursor() as int),
                ),
                ({
                    let run = s.subrange(start0 as int, self.cursor() as int);
                    match value {
                        Some(v) => v as int == decimal_value(run) && v >= 0,
                        None => decimal_value(run) > i64::MAX as int,
                    }
                }),
            ensures
                self.wf(),
                self.text() == s,
                start0 <= self.cursor() <= s.len(),
                self.cursor() == start0 + digit_run_len(s.skip(start0 as int)),
                ({
                    let run = s.subrange(start0 as int, self.cursor() as int);
                    match value {
                        Some(v) => v as int == decimal_value(run) && v >= 0,
                        None => decimal_value(run) > i64::MAX as int,
                    }
                }),
            decreases s.len() - self.cursor(),
        {
            let ghost pos = self.cursor() as int;
            match self.peek() {
                Some(c) => {
                    if is_digit(c) {
                        proof {
                            assert(s.skip(pos)[0] == s[pos]);
                            assert(s.skip(pos).drop_first() =~= s.skip(pos + 1));
                            assert(s.subrange(start0 as int, pos + 1).drop_last() =~= s.subrange(
                                start0 as int,
                                pos,
                            ));
                            assert(s.subrange(start0 as int, pos + 1).last() == s[pos]);
                        }
                        let digit = (c as u32 - 48) as i64;
                        value = match value {
                            Some(v) => match v.checked_mul(10) {
                                Some(v10) => v10.checked_add(digit),
                                None => None,
                            },
                            None => None,
                        };
                        self.advance();
                    } else {
                        proof {
                            assert(s.skip(pos)[0] == s[pos]);
                        }
                        break;
                    }
                },
                None => {
                    proof {
                        assert(s.skip(pos) =~= Seq::<char>::empty());
                    }
                    break;
                },
            }
        }
        value
    }

    /// Scans the text from the cursor to the end, left to right, one token
    /// per step, and returns the materialized token sequence. Every
    /// character is consumed exactly once and none is skipped; unrecognized
    /// characters become `Unknown` tokens, so scanning never gets stuck. The
    /// one error is a digit run whose value exceeds the signed 64-bit range:
    /// the first such run is reported with its text and position.
    #[verifier::rlimit(60)]
    pub fn tokenize(&mut self) -> (r: Result<Vec<Token>, LexError>)
        requires
            old(self).wf(),
        ensures
            final(self).wf(),
            final(self).text() == old(self).text(),
            ({
                let t = old(self).text().skip(old(self).cursor() as int);
                match r {
                    Ok(toks) => {
                        &&& no_overflow(spec_tokenize(t))
                        &&& toks.deep_view() == spec_tokenize(t)
                        &&& final(self).cursor() == final(self).text().len()
                    },
                    Err(e) => match e {
                        LexError::NumberOverflow { text, position } => exists|i: int|
                            {
                                &&& #[trigger] is_first_overflow(t, i)
                                &&& text@ == spec_spans(t)[i]
                                &&& position == old(self).cursor() + spec_spans(t).take(
                                    i,
                                ).flatten().len()
                            },
                    },
                }
            }),
    {
        let ghost s = self.text();
        let ghost base = self.cursor() as int;
        let ghost t = s.skip(base);
        let mut tokens: Vec<Token> = Vec::new();
        let ghost mut done: Seq<Seq<char>> = Seq::empty();
        proof {
            assert(done + spec_spans(t) =~= spec_spans(t));
            assert(tokens.deep_view() =~= Seq::<TokenView>::empty());
            assert(tokens.deep_view() + spec_tokenize(t) =~= spec_tokenize(t));
            assert(done.flatten() =~= t.take(0));
        }
        loop
            invariant
                self.wf(),
                self.text() == s,
                s == old(self).text(),
                base == old(self).cursor() as int,
                0 <= base <= self.cursor() <= s.len(),
                t == s.skip(base),
                spec_spans(t) == done + spec_spans(s.skip(self.cursor() as int)),
                spec_tokenize(t) == tokens.deep_view() + spec_tokenize(
                    s.skip(self.cursor() as int),
                ),
                done.flatten() == t.take(self.cursor() - base),
                tokens.deep_view().len() == done.len(),
                no_overflow(tokens.deep_view()),
            ensures
                self.wf(),
                self.text() == s,
                self.cursor() == s.len(),
                tokens.deep_view() == spec_tokenize(t),
                no_overflow(tokens.deep_view()),
            decreases s.len() - self.cursor(),
        {
            let ghost pos = self.cursor() as int;
            let ghost u = s.skip(pos);
            match self.peek() {
                None => {
                    proof {
                        assert(u =~= Seq::<char>::empty());
                        assert(spec_spans(t) =~= done);
                        assert(spec_tokenize(t) =~= tokens.deep_view());
                    }
                    break;
                },
                Some(c) => {
                    assert(u[0] == s[pos]);
                    if is_whitespace(c) {
                        proof {
                            assert(step_len(u) == 1);
                            lemma_consume_step(s, base, pos, 1, done, tokens.deep_view());
                            let span = s.subrange(pos, pos + 1);
                            assert(span[0] == c);
                            assert(classify_span(span) == TokenView::Whitespace);
                            lemma_no_overflow_push(tokens.deep_view(), TokenView::Whitespace);
                            done = done.push(span);
                        }
                        self.advance();
                        push_token(&mut tokens, Token::Whitespace);
                    } else if is_identifier_open(c) {
                        proof {
                            assert(step_len(u) == identifier_run_len(u));
                        }
                        let ghost old_deep = tokens.deep_view();
                        let ident = self.read_identifier();
                        let ghost n = identifier_run_len(u) as int;
                        let ghost span = s.subrange(pos, pos + n);
                        proof {
                            lemma_consume_step(s, base, pos, n, done, old_deep);
                            assert(span[0] == c);
                            assert(!is_whitespace_char(c));
                            assert(ident@ == span);
                            done = done.push(span);
                        }
                        let tok = if text_is_reserved(&ident) {
                            proof {
                                assert(classify_span(span) == TokenView::Keyword(span));
                            }
                            Token::Keyword(ident)
                        } else {
                            proof {
                                assert(classify_span(span) == TokenView::Identifier(span));
                            }
                            Token::Identifier(ident)
                        };
                        proof {
                            assert(tok@ == classify_span(span));
                            lemma_no_overflow_push(old_deep, tok@);
                        }
                        push_token(&mut tokens, tok);
                    } else if is_digit(c) {
                        proof {
                            assert(step_len(u) == digit_run_len(u));
                        }
                        let start = self.position;
                        let ghost old_deep = tokens.deep_view();
                        let number = self.read_number();
                        let ghost n = digit_run_len(u) as int;
                        let ghost span = s.subrange(pos, pos + n);
                        proof {
                            lemma_consume_step(s, base, pos, n, done, old_deep);
                            assert(span[0] == c);
                            assert(!is_whitespace_char(c));
                            assert(!is_identifier_start(c));
                            assert(classify_span(span) == TokenView::Number(decimal_value(span)));
                        }
                        match number {
                            Some(value) => {
                                proof {
                                    lemma_no_overflow_push(
                                        old_deep,
                                        TokenView::Number(value as int),
                                    );
                                    done = done.push(span);
                                }
                                push_token(&mut tokens, Token::Number(value));
                            },
                            None => {
                                let text = self.input.substring_char(start, self.position)
                                    .to_owned();
                                proof {
                                    let i = old_deep.len() as int;
                                    assert(spec_tokenize(t)[i] == classify_span(span));
                                    assert forall|j: int| 0 <= j < i implies !token_overflows(
                                        #[trigger] spec_tokenize(t)[j],
                                    ) by {
                                        assert(spec_tokenize(t)[j] == old_deep[j]);
                                    }
                                    assert(is_first_overflow(t, i));
                                    assert(spec_spans(t)[i] == span);
                                    assert((done + spec_spans(s.skip(pos))).take(
                                        done.len() as int,
                                    ) =~= done);
                                    assert(spec_spans(t).take(i) == done);
                                    assert(t.take(pos - base).len() == pos - base);
                                    assert(spec_spans(t).take(i).flatten().len() == pos - base);
                                    assert(text@ == span);
                                }
                                return Err(LexError::NumberOverflow { text, position: start });
                            },
                        }
                    } else {
                        let tok = if is_operator(c) {
                            proof {
                                assert(step_len(u) == 1);
                                let span = s.subrange(pos, pos + 1);
                                assert(span[0] == c);
                                assert(classify_span(span) == TokenView::Operator(c));
                            }
                            Token::Operator(c)
                        } else if is_punctuation(c) {
                            proof {
                                assert(step_len(u) == 1);
                                let span = s.subrange(pos, pos + 1);
                                assert(span[0] == c);
                                assert(classify_span(span) == TokenView::Punctuation(c));
                            }
                            Token::Punctuation(c)
                        } else {
                            proof {
                                assert(step_len(u) == 1);
                                let span = s.subrange(pos, pos + 1);
                                assert(span[0] == c);
                                assert(classify_span(span) == TokenView::Unknown(c));
                            }
                            Token::Unknown(c)
                        };
                        proof {
                            let span = s.subrange(pos, pos + 1);
                            lemma_consume_step(s, base, pos, 1, done, tokens.deep_view());
                            assert(tok@ == classify_span(span));
                            lemma_no_overflow_push(tokens.deep_view(), tok@);
                            done = done.push(span);
                        }
                        push_token(&mut tokens, tok);
                        self.advance();
                    }
                },
            }
        }
        Ok(tokens)
    }
}

/// Tokenizes `input` in one call: the entry point of the library. It builds
/// a [`Lexer`] over the text and scans it to the end; each call is
/// independent of every other.
pub fn tokenize(input: &str) -> (r: Result<Vec<Token>, LexError>)
    ensures
        match r {
            Ok(toks) => no_overflow(spec_tokenize(input@)) && toks.deep_view() == spec_tokenize(
                input@,
            ),
            Err(e) => match e {
                LexError::NumberOverflow { text, position } => exists|i: int|
                    {
                        &&& #[trigger] is_first_overflow(input@, i)
                        &&& text@ == spec_spans(input@)[i]
                        &&& position == spec_spans(input@).take(i).flatten().len()
                    },
            },
        },
{
    let mut lexer = Lexer::new(input);
    proof {
        assert(input@.skip(0) =~= input@);
    }
    lexer.tokenize()
}

} // verus!

