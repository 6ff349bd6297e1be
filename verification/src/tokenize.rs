use vstd::prelude::*;

use crate::number::{digit_val, digits_val, is_digit, number_of_run, run_digits, run_has_dot,
    run_scale, Number};
use crate::text::{chars_of, string_from_chars};

verus! {

/// One of the possible errors that could occur while tokenizing the input string.
#[derive(Debug, PartialEq, Eq, Clone, Copy, Structural)]
pub enum TokenizeError {
    /// The input appeared to be the start of a literal keyword but a wrong
    /// character appeared before the keyword was complete.
    UnfinishedLiteralValue,
    /// A numeric literal held no digit at all, or its digits overflow the
    /// mantissa.
    ParseNumberError,
    /// A string was never closed by an unescaped quote.
    UnclosedQuotes,
    /// The input ended in the middle of a literal keyword.
    UnexpectedEof,
    /// The character cannot start any JSON token.
    CharNotRecognized(char),
}

/// An intermediate lexical unit.
#[derive(Debug)]
pub enum Token {
    /// `{`
    LeftBrace,
    /// `}`
    RightBrace,
    /// `[`
    LeftBracket,
    /// `]`
    RightBracket,
    /// `,`
    Comma,
    /// `:`
    Colon,
    /// `null`
    Null,
    /// `false`
    False,
    /// `true`
    True,
    /// Any numeric literal.
    Number(Number),
    /// Key of a key/value pair or a string value; the text is raw, still
    /// escaped, without the surrounding quotes.
    String(String),
}

/// The mathematical shape of a [`Token`].
pub enum SpecToken {
    LeftBrace,
    RightBrace,
    LeftBracket,
    RightBracket,
    Comma,
    Colon,
    Null,
    False,
    True,
    Number(Number),
    String(Seq<char>),
}

impl View for Token {
    type V = SpecToken;

    open spec fn view(&self) -> SpecToken {
        match self {
            Token::LeftBrace => SpecToken::LeftBrace,
            Token::RightBrace => SpecToken::RightBrace,
            Token::LeftBracket => SpecToken::LeftBracket,
            Token::RightBracket => SpecToken::RightBracket,
            Token::Comma => SpecToken::Comma,
            Token::Colon => SpecToken::Colon,
            Token::Null => SpecToken::Null,
            Token::False => SpecToken::False,
            Token::True => SpecToken::True,
            Token::Number(n) => SpecToken::Number(*n),
            Token::String(s) => SpecToken::String(s@),
        }
    }
}

impl PartialEq for Token {
    #[verifier::rlimit(50)]
    fn eq(&self, other: &Token) -> (r: bool) {
        match (self, other) {
            (Token::LeftBrace, Token::LeftBrace) => true,
            (Token::RightBrace, Token::RightBrace) => true,
            (Token::LeftBracket, Token::LeftBracket) => true,
            (Token::RightBracket, Token::RightBracket) => true,
            (Token::Comma, Token::Comma) => true,
            (Token::Colon, Token::Colon) => true,
            (Token::Null, Token::Null) => true,
            (Token::False, Token::False) => true,
            (Token::True, Token::True) => true,
            (Token::Number(a), Token::Number(b)) => *a == *b,
            (Token::String(a), Token::String(b)) => *a == *b,
            _ => false,
        }
    }
}

impl vstd::std_specs::cmp::PartialEqSpecImpl for Token {
    open spec fn obeys_eq_spec() -> bool {
        true
    }

    open spec fn eq_spec(&self, other: &Token) -> bool {
        self@ == other@
    }
}

/// The model of a token sequence.
pub open spec fn toks_view(ts: Seq<Token>) -> Seq<SpecToken> {
    ts.map_values(|t: Token| t@)
}

/// ASCII whitespace skipped between tokens.
pub open spec fn is_ws(c: char) -> bool {
    c == ' ' || c == '\t' || c == '\n' || c == '\r'
}

/// How much of the text remains at a cursor; the bound makes the scanning
/// recursions structural.
pub open spec fn text_rem(s: Seq<char>, i: int) -> int {
    if i <= s.len() {
        s.len() - i
    } else {
        0
    }
}

/// The length of the numeric run at a cursor: ASCII digits, with one
/// decimal point permitted.
pub open spec fn num_run_len(s: Seq<char>, i: int, seen_dot: bool) -> nat
    decreases text_rem(s, i),
{
    if i < 0 || i >= s.len() {
        0
    } else if is_digit(s[i]) {
        1 + num_run_len(s, i + 1, seen_dot)
    } else if s[i] == '.' && !seen_dot {
        1 + num_run_len(s, i + 1, true)
    } else {
        0
    }
}

/// The distance from a cursor inside a string literal to its closing
/// unescaped quote, or `None` when the input ends first. A backslash
/// escapes exactly the following character.
pub open spec fn str_run(s: Seq<char>, i: int, escaping: bool) -> Option<nat>
    decreases text_rem(s, i),
{
    if i < 0 || i >= s.len() {
        None
    } else if s[i] == '"' && !escaping {
        Some(0)
    } else {
        match str_run(s, i + 1, if s[i] == '\\' { !escaping } else { false }) {
            Some(c) => Some(c + 1),
            None => None,
        }
    }
}

pub open spec fn kw_null() -> Seq<char> {
    seq!['n', 'u', 'l', 'l']
}

pub open spec fn kw_true() -> Seq<char> {
    seq!['t', 'r', 'u', 'e']
}

pub open spec fn kw_false() -> Seq<char> {
    seq!['f', 'a', 'l', 's', 'e']
}

/// Matching a literal keyword at a cursor, position by position: a wrong
/// character is an unfinished literal, running out of input ends it early.
pub open spec fn spec_match_kw(s: Seq<char>, i: int, kw: Seq<char>, k: int) -> Result<
    (),
    TokenizeError,
>
    decreases kw.len() - k,
{
    if k >= kw.len() {
        Ok(())
    } else if i + k >= s.len() {
        Err(TokenizeError::UnexpectedEof)
    } else if s[i + k] != kw[k] {
        Err(TokenizeError::UnfinishedLiteralValue)
    } else {
        spec_match_kw(s, i, kw, k + 1)
    }
}

/// Prepends a token to a tokenizing outcome.
pub open spec fn cons_tok(t: SpecToken, r: Result<Seq<SpecToken>, TokenizeError>) -> Result<
    Seq<SpecToken>,
    TokenizeError,
> {
    match r {
        Ok(ts) => Ok(seq![t] + ts),
        Err(e) => Err(e),
    }
}

/// The token sequence of the text from a cursor on: whitespace is
/// skipped, each token is scanned greedily from its first character, and
/// the first lexical fault ends the run with its error.
pub open spec fn spec_tokenize_from(s: Seq<char>, i: int) -> Result<Seq<SpecToken>, TokenizeError>
    decreases text_rem(s, i),
{
    if i < 0 || i >= s.len() {
        Ok(Seq::empty())
    } else if is_ws(s[i]) {
        spec_tokenize_from(s, i + 1)
    } else if s[i] == '{' {
        cons_tok(SpecToken::LeftBrace, spec_tokenize_from(s, i + 1))
    } else if s[i] == '}' {
        cons_tok(SpecToken::RightBrace, spec_tokenize_from(s, i + 1))
    } else if s[i] == '[' {
        cons_tok(SpecToken::LeftBracket, spec_tokenize_from(s, i + 1))
    } else if s[i] == ']' {
        cons_tok(SpecToken::RightBracket, spec_tokenize_from(s, i + 1))
    } else if s[i] == ',' {
        cons_tok(SpecToken::Comma, spec_tokenize_from(s, i + 1))
    } else if s[i] == ':' {
        cons_tok(SpecToken::Colon, spec_tokenize_from(s, i + 1))
    } else if s[i] == 'n' {
        match spec_match_kw(s, i, kw_null(), 0) {
            Ok(u) => cons_tok(SpecToken::Null, spec_tokenize_from(s, i + 4)),
            Err(e) => Err(e),
        }
    } else if s[i] == 't' {
        match spec_match_kw(s, i, kw_true(), 0) {
            Ok(u) => cons_tok(SpecToken::True, spec_tokenize_from(s, i + 4)),
            Err(e) => Err(e),
        }
    } else if s[i] == 'f' {
        match spec_match_kw(s, i, kw_false(), 0) {
            Ok(u) => cons_tok(SpecToken::False, spec_tokenize_from(s, i + 5)),
            Err(e) => Err(e),
        }
    } else if is_digit(s[i]) || s[i] == '-' {
        let neg = s[i] == '-';
        let b: int = if neg {
            i + 1
        } else {
            i
        };
        let rl = num_run_len(s, b, false) as int;
        match number_of_run(neg, s.subrange(b, b + rl)) {
            Some(n) => cons_tok(SpecToken::Number(n), spec_tokenize_from(s, b + rl)),
            None => Err(TokenizeError::ParseNumberError),
        }
    } else if s[i] == '"' {
        match str_run(s, i + 1, false) {
            Some(c) => cons_tok(
                SpecToken::String(s.subrange(i + 1, i + 1 + c)),
                spec_tokenize_from(s, i + 2 + c),
            ),
            None => Err(TokenizeError::UnclosedQuotes),
        }
    } else {
        Err(TokenizeError::CharNotRecognized(s[i]))
    }
}

/// The token sequence of a whole text, or its first lexical error.
pub open spec fn spec_tokenize(s: Seq<char>) -> Result<Seq<SpecToken>, TokenizeError> {
    spec_tokenize_from(s, 0)
}

/// The tokens already produced, together with what tokenizing promises from
/// the cursor on, settle the outcome for the whole text.
pub open spec fn tokenized_prefix(s: Seq<char>, i: int, acc: Seq<SpecToken>) -> bool {
    &&& (spec_tokenize_from(s, i) matches Ok(rest) ==> spec_tokenize(s) == Ok::<
        Seq<SpecToken>,
        TokenizeError,
    >(acc + rest))
    &&& (spec_tokenize_from(s, i) matches Err(e) ==> spec_tokenize(s) == Err::<
        Seq<SpecToken>,
        TokenizeError,
    >(e))
}

proof fn lemma_prefix_step(s: Seq<char>, i0: int, i1: int, acc: Seq<SpecToken>, t: SpecToken)
    requires
        tokenized_prefix(s, i0, acc),
        spec_tokenize_from(s, i0) == cons_tok(t, spec_tokenize_from(s, i1)),
    ensures
        tokenized_prefix(s, i1, acc.push(t)),
{
    match spec_tokenize_from(s, i1) {
        Ok(rest) => {
            assert(spec_tokenize_from(s, i0) == Ok::<Seq<SpecToken>, TokenizeError>(
                seq![t] + rest,
            ));
            assert(acc + (seq![t] + rest) =~= acc.push(t) + rest);
        },
        Err(e) => {},
    }
}

proof fn lemma_toks_view_push(ts: Seq<Token>, t: Token)
    ensures
        toks_view(ts.push(t)) == toks_view(ts).push(t@),
{
    assert(toks_view(ts.push(t)) =~= toks_view(ts).push(t@));
}

fn ws_char(c: char) -> (r: bool)
    ensures
        r == is_ws(c),
{
    c == ' ' || c == '\t' || c == '\n' || c == '\r'
}

fn digit_char(c: char) -> (r: bool)
    ensures
        r == is_digit(c),
{
    let u = c as u32;
    48 <= u && u <= 57
}

fn tokenize_null(chars: &Vec<char>, i: usize) -> (r: Result<Token, TokenizeError>)
    ensures
        match r {
            Ok(t) => spec_match_kw(chars@, i as int, kw_null(), 0) is Ok && t == Token::Null && i
                + 4 <= chars@.len(),
            Err(e) => spec_match_kw(chars@, i as int, kw_null(), 0) == Err::<(), TokenizeError>(e),
        },
{
    proof {
        reveal_with_fuel(spec_match_kw, 6);
    }
    if i >= chars.len() {
        return Err(TokenizeError::UnexpectedEof);
    }
    if chars[i] != 'n' {
        return Err(TokenizeError::UnfinishedLiteralValue);
    }
    if chars.len() - i < 2 {
        return Err(TokenizeError::UnexpectedEof);
    }
    if chars[i + 1] != 'u' {
        return Err(TokenizeError::UnfinishedLiteralValue);
    }
    if chars.len() - i < 3 {
        return Err(TokenizeError::UnexpectedEof);
    }
    if chars[i + 2] != 'l' {
        return Err(TokenizeError::UnfinishedLiteralValue);
    }
    if chars.len() - i < 4 {
        return Err(TokenizeError::UnexpectedEof);
    }
    if chars[i + 3] != 'l' {
        return Err(TokenizeError::UnfinishedLiteralValue);
    }
    Ok(Token::Null)
}

fn tokenize_true(chars: &Vec<char>, i: usize) -> (r: Result<Token, TokenizeError>)
    ensures
        match r {
            Ok(t) => spec_match_kw(chars@, i as int, kw_true(), 0) is Ok && t == Token::True && i
                + 4 <= chars@.len(),
            Err(e) => spec_match_kw(chars@, i as int, kw_true(), 0) == Err::<(), TokenizeError>(e),
        },
{
    proof {
        reveal_with_fuel(spec_match_kw, 6);
    }
    if i >= chars.len() {
        return Err(TokenizeError::UnexpectedEof);
    }
    if chars[i] != 't' {
        return Err(TokenizeError::UnfinishedLiteralValue);
    }
    if chars.len() - i < 2 {
        return Err(TokenizeError::UnexpectedEof);
    }
    if chars[i + 1] != 'r' {
        return Err(TokenizeError::UnfinishedLiteralValue);
    }
    if chars.len() - i < 3 {
        return Err(TokenizeError::UnexpectedEof);
    }
    if chars[i + 2] != 'u' {
        return Err(TokenizeError::UnfinishedLiteralValue);
    }
    if chars.len() - i < 4 {
        return Err(TokenizeError::UnexpectedEof);
    }
    if chars[i + 3] != 'e' {
        return Err(TokenizeError::UnfinishedLiteralValue);
    }
    Ok(Token::True)
}

fn tokenize_false(chars: &Vec<char>, i: usize) -> (r: Result<Token, TokenizeError>)
    ensures
        match r {
            Ok(t) => spec_match_kw(chars@, i as int, kw_false(), 0) is Ok && t == Token::False && i
                + 5 <= chars@.len(),
            Err(e) => spec_match_kw(chars@, i as int, kw_false(), 0) == Err::<(), TokenizeError>(e),
        },
{
    proof {
        reveal_with_fuel(spec_match_kw, 7);
    }
    if i >= chars.len() {
        return Err(TokenizeError::UnexpectedEof);
    }
    if chars[i] != 'f' {
        return Err(TokenizeError::UnfinishedLiteralValue);
    }
    if chars.len() - i < 2 {
        return Err(TokenizeError::UnexpectedEof);
    }
    if chars[i + 1] != 'a' {
        return Err(TokenizeError::UnfinishedLiteralValue);
    }
    if chars.len() - i < 3 {
        return Err(TokenizeError::UnexpectedEof);
    }
    if chars[i + 2] != 'l' {
        return Err(TokenizeError::UnfinishedLiteralValue);
    }
    if chars.len() - i < 4 {
        return Err(TokenizeError::UnexpectedEof);
    }
    if chars[i + 3] != 's' {
        return Err(TokenizeError::UnfinishedLiteralValue);
    }
    if chars.len() - i < 5 {
        return Err(TokenizeError::UnexpectedEof);
    }
    if chars[i + 4] != 'e' {
        return Err(TokenizeError::UnfinishedLiteralValue);
    }
    Ok(Token::False)
}

fn tokenize_float(chars: &Vec<char>, i: usize) -> (r: Result<(Token, usize), TokenizeError>)
    requires
        i < chars@.len(),
        is_digit(chars@[i as int]) || chars@[i as int] == '-',
    ensures
        ({
            let s = chars@;
            let neg = s[i as int] == '-';
            let b: int = if neg {
                i + 1
            } else {
                i as int
            };
            let rl = num_run_len(s, b, false) as int;
            match r {
                Ok((t, j)) => j == b + rl && i < j <= s.len() && (number_of_run(
                    neg,
                    s.subrange(b, b + rl),
                ) matches Some(n) && t == Token::Number(n)),
                Err(e) => e == TokenizeError::ParseNumberError && number_of_run(
                    neg,
                    s.subrange(b, b + rl),
                ) is None,
            }
        }),
{
    let ghost s = chars@;
    let n = chars.len();
    let neg = chars[i] == '-';
    let mut j: usize = i;
    if neg {
        j = i + 1;
    }
    let ghost b = j as int;
    let mut mant: u64 = 0;
    let mut overflow = false;
    let mut scale: usize = 0;
    let mut has_dot = false;
    let mut any_digit = false;
    let mut go = true;
    while go
        invariant
            s == chars@,
            b == if s[i as int] == '-' {
                i + 1
            } else {
                i as int
            },
            i <= b <= j <= s.len(),
            go ==> num_run_len(s, b, false) == (j - b) + num_run_len(s, j as int, has_dot),
            !go ==> num_run_len(s, b, false) == j - b,
            has_dot == run_has_dot(s.subrange(b, j as int)),
            any_digit == (run_digits(s.subrange(b, j as int)).len() > 0),
            !overflow ==> mant == digits_val(run_digits(s.subrange(b, j as int))),
            overflow ==> digits_val(run_digits(s.subrange(b, j as int))) > u64::MAX,
            scale == run_scale(s.subrange(b, j as int)),
            !has_dot ==> scale == 0,
            scale <= j - b,
        decreases s.len() - j + (if go {
            1int
        } else {
            0int
        }),
    {
        if j >= chars.len() {
            go = false;
        } else {
            let c = chars[j];
            let ghost rs = s.subrange(b, j as int);
            let ghost rs2 = s.subrange(b, j + 1);
            proof {
                assert(rs2 =~= rs.push(c));
                assert(rs2.drop_last() =~= rs);
            }
            if digit_char(c) {
                let d = (c as u32 - 48) as u64;
                proof {
                    crate::number::lemma_digits_val_push_ge(run_digits(rs), c);
                }
                if overflow {
                    proof {
                        assert(digits_val(run_digits(rs2)) >= digits_val(run_digits(rs)));
                    }
                } else {
                    match mant.checked_mul(10) {
                        Some(m10) => {
                            match m10.checked_add(d) {
                                Some(m2) => {
                                    mant = m2;
                                },
                                None => {
                                    overflow = true;
                                },
                            }
                        },
                        None => {
                            overflow = true;
                        },
                    }
                }
                if has_dot {
                    scale = scale + 1;
                }
                any_digit = true;
                j = j + 1;
            } else if c == '.' && !has_dot {
                has_dot = true;
                j = j + 1;
            } else {
                go = false;
            }
        }
    }
    let ghost rl = num_run_len(s, b, false) as int;
    proof {
        assert(s.subrange(b, b + rl) =~= s.subrange(b, j as int));
    }
    if !any_digit || overflow {
        Err(TokenizeError::ParseNumberError)
    } else {
        proof {
            if j == b {
                assert(s.subrange(b, j as int) =~= Seq::<char>::empty());
            }
        }
        Ok((Token::Number(Number { negative: neg, mantissa: mant, scale }), j))
    }
}

fn tokenize_string(chars: &Vec<char>, i: usize) -> (r: Result<(Token, usize), TokenizeError>)
    requires
        i < chars@.len(),
        chars@[i as int] == '"',
    ensures
        ({
            let s = chars@;
            match r {
                Ok((t, j)) => i < j <= s.len() && (str_run(s, i + 1, false) matches Some(c) && j
                    == i + 2 + c && t@ == SpecToken::String(s.subrange(i + 1, i + 1 + c))),
                Err(e) => e == TokenizeError::UnclosedQuotes && str_run(s, i + 1, false) is None,
            }
        }),
{
    let ghost s = chars@;
    let n = chars.len();
    let mut j: usize = i + 1;
    let mut esc = false;
    let mut out: Vec<char> = Vec::new();
    let mut go = true;
    let mut closed = false;
    while go
        invariant
            s == chars@,
            i + 1 <= j <= s.len(),
            out@ == s.subrange(i + 1, j as int),
            go ==> match str_run(s, j as int, esc) {
                Some(c) => str_run(s, i + 1, false) == Some((j - i - 1 + c) as nat),
                None => str_run(s, i + 1, false) is None,
            },
            !go ==> (closed ==> j < s.len() && str_run(s, i + 1, false) == Some(
                (j - i - 1) as nat,
            )),
            !go ==> (!closed ==> str_run(s, i + 1, false) is None),
        decreases s.len() - j + (if go {
            1int
        } else {
            0int
        }),
    {
        if j >= chars.len() {
            go = false;
            closed = false;
        } else {
            let c = chars[j];
            if c == '"' && !esc {
                go = false;
                closed = true;
            } else {
                esc = if c == '\\' {
                    !esc
                } else {
                    false
                };
                out.push(c);
                proof {
                    assert(out@ =~= s.subrange(i + 1, j + 1));
                }
                j = j + 1;
            }
        }
    }
    if !closed {
        return Err(TokenizeError::UnclosedQuotes);
    }
    let raw = string_from_chars(&out);
    proof {
        assert(j < n);
    }
    Ok((Token::String(raw), j + 1))
}

/// Scans the next token at the cursor, skipping leading whitespace; `None`
/// means only whitespace remained.
fn make_token(chars: &Vec<char>, i: usize) -> (r: Result<Option<(Token, usize)>, TokenizeError>)
    requires
        i <= chars@.len(),
    ensures
        ({
            let s = chars@;
            match r {
                Ok(opt) => match opt {
                    None => spec_tokenize_from(s, i as int) == Ok::<Seq<SpecToken>, TokenizeError>(
                        Seq::empty(),
                    ),
                    Some((t, j)) => i < j <= s.len() && spec_tokenize_from(s, i as int) == cons_tok(
                        t@,
                        spec_tokenize_from(s, j as int),
                    ),
                },
                Err(e) => spec_tokenize_from(s, i as int) == Err::<Seq<SpecToken>, TokenizeError>(
                    e,
                ),
            }
        }),
{
    let ghost s = chars@;
    let mut k = i;
    while k < chars.len() && ws_char(chars[k])
        invariant
            s == chars@,
            i <= k <= s.len(),
            spec_tokenize_from(s, i as int) == spec_tokenize_from(s, k as int),
        decreases s.len() - k,
    {
        k = k + 1;
    }
    if k == chars.len() {
        return Ok(None);
    }
    let c = chars[k];
    if c == '{' {
        Ok(Some((Token::LeftBrace, k + 1)))
    } else if c == '}' {
        Ok(Some((Token::RightBrace, k + 1)))
    } else if c == '[' {
        Ok(Some((Token::LeftBracket, k + 1)))
    } else if c == ']' {
        Ok(Some((Token::RightBracket, k + 1)))
    } else if c == ',' {
        Ok(Some((Token::Comma, k + 1)))
    } else if c == ':' {
        Ok(Some((Token::Colon, k + 1)))
    } else if c == 'n' {
        match tokenize_null(chars, k) {
            Ok(t) => Ok(Some((t, k + 4))),
            Err(e) => Err(e),
        }
    } else if c == 't' {
        match tokenize_true(chars, k) {
            Ok(t) => Ok(Some((t, k + 4))),
            Err(e) => Err(e),
        }
    } else if c == 'f' {
        match tokenize_false(chars, k) {
            Ok(t) => Ok(Some((t, k + 5))),
            Err(e) => Err(e),
        }
    } else if digit_char(c) || c == '-' {
        match tokenize_float(chars, k) {
            Ok((t, j)) => Ok(Some((t, j))),
            Err(e) => Err(e),
        }
    } else if c == '"' {
        match tokenize_string(chars, k) {
            Ok((t, j)) => Ok(Some((t, j))),
            Err(e) => Err(e),
        }
    } else {
        Err(TokenizeError::CharNotRecognized(c))
    }
}

/// Turns the input text into its token sequence, or reports the first
/// lexical error; the outcome is exactly [`spec_tokenize`] of the text.
pub fn tokenize(input: String) -> (r: Result<Vec<Token>, TokenizeError>)
    ensures
        match r {
            Ok(ts) => spec_tokenize(input@) matches Ok(m) && toks_view(ts@) == m,
            Err(e) => spec_tokenize(input@) == Err::<Seq<SpecToken>, TokenizeError>(e),
        },
{
    let chars = chars_of(input.as_str());
    let mut tokens: Vec<Token> = Vec::new();
    let mut i: usize = 0;
    loop
        invariant
            chars@ == input@,
            i <= chars@.len(),
            tokenized_prefix(input@, i as int, toks_view(tokens@)),
        decreases chars@.len() - i,
    {
        match make_token(&chars, i) {
            Err(e) => {
                return Err(e);
            },
            Ok(None) => {
                proof {
                    assert(toks_view(tokens@) + Seq::<SpecToken>::empty() =~= toks_view(tokens@));
                }
                return Ok(tokens);
            },
            Ok(Some((t, j))) => {
                proof {
                    lemma_prefix_step(input@, i as int, j as int, toks_view(tokens@), t@);
                    lemma_toks_view_push(tokens@, t);
                }
                tokens.push(t);
                i = j;
            },
        }
    }
}

} // verus!
