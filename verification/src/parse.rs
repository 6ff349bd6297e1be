use vstd::prelude::*;

use crate::number::Number;
use crate::text::{char_from_u32, chars_of, string_from_chars};
use crate::tokenize::{spec_tokenize, tokenize, toks_view, SpecToken, Token, TokenizeError};
use crate::{entries_view, lemma_entries_view_props, spec_value_of, vals_view, SpecValue, Value};

verus! {

/// A failure of `parse`: either the tokenizer failed, or the token
/// sequence violated the grammar.
#[derive(Debug, PartialEq, Eq, Clone, Copy, Structural)]
pub enum ParseError {
    TokenizeError(TokenizeError),
    ParseError(TokenParseError),
}

/// A structural or escape failure while parsing the token sequence.
#[derive(Debug, PartialEq, Eq, Clone, Copy, Structural)]
pub enum TokenParseError {
    /// An escape sequence was started without 4 hexadecimal digits afterwards.
    UnfinishedEscape,
    /// A character in an escape sequence was not valid hexadecimal.
    InvalidHexValue,
    /// The escaped code is not a Unicode scalar value.
    InvalidCodePointValue,
    ExpectedComma,
    ExpectedProperty,
    ExpectedColon,
    /// A value was expected, but the token at the cursor cannot start one.
    ExpectedValue,
    /// The token sequence ended where the grammar demands more.
    UnexpectedEndOfInput,
}

impl From<TokenizeError> for ParseError {
    fn from(value: TokenizeError) -> (r: Self) {
        ParseError::TokenizeError(value)
    }
}

impl vstd::std_specs::convert::FromSpecImpl<TokenizeError> for ParseError {
    open spec fn obeys_from_spec() -> bool {
        true
    }

    open spec fn from_spec(value: TokenizeError) -> Self {
        ParseError::TokenizeError(value)
    }
}

impl From<TokenParseError> for ParseError {
    fn from(value: TokenParseError) -> (r: Self) {
        ParseError::ParseError(value)
    }
}

impl vstd::std_specs::convert::FromSpecImpl<TokenParseError> for ParseError {
    open spec fn obeys_from_spec() -> bool {
        true
    }

    open spec fn from_spec(value: TokenParseError) -> Self {
        ParseError::ParseError(value)
    }
}

/// The value of one hexadecimal digit, upper or lower case.
pub open spec fn hex_val(c: char) -> Option<u32> {
    let u = c as u32;
    if 48 <= u && u <= 57 {
        Some((u - 48) as u32)
    } else if 65 <= u && u <= 70 {
        Some((u - 55) as u32)
    } else if 97 <= u && u <= 102 {
        Some((u - 87) as u32)
    } else {
        None
    }
}

/// Reading the four hexadecimal digits of a `\u` escape, position by
/// position: a missing digit ends the escape early, a wrong character is
/// not hexadecimal.
pub open spec fn spec_hex4(s: Seq<char>, j: int, k: int, acc: nat) -> Result<nat, TokenParseError>
    decreases 4 - k,
{
    if k >= 4 {
        Ok(acc)
    } else if j + k >= s.len() {
        Err(TokenParseError::UnfinishedEscape)
    } else {
        match hex_val(s[j + k]) {
            None => Err(TokenParseError::InvalidHexValue),
            Some(d) => spec_hex4(s, j, k + 1, (acc * 16 + d) as nat),
        }
    }
}

/// A Unicode scalar value: not a surrogate, at most 0x10FFFF.
pub open spec fn is_scalar(u: nat) -> bool {
    u < 0xD800 || (0xE000 <= u && u <= 0x10FFFF)
}

/// How much of a character sequence remains at a cursor.
pub open spec fn chars_rem(s: Seq<char>, i: int) -> int {
    if i <= s.len() {
        s.len() - i
    } else {
        0
    }
}

/// Prepends a character to an unescaping outcome.
pub open spec fn cons_ch(c: char, r: Result<Seq<char>, TokenParseError>) -> Result<
    Seq<char>,
    TokenParseError,
> {
    match r {
        Ok(s) => Ok(seq![c] + s),
        Err(e) => Err(e),
    }
}

/// The unescaped text of a raw string token from a cursor on. A backslash
/// starts an escape: the short escapes map to their literal characters,
/// `\u` with four hexadecimal digits maps to the code point they encode,
/// any other escaped character passes through literally, and a trailing
/// backslash escaping nothing is dropped.
pub open spec fn spec_unescape_from(raw: Seq<char>, i: int) -> Result<Seq<char>, TokenParseError>
    decreases chars_rem(raw, i),
{
    if i < 0 || i >= raw.len() {
        Ok(Seq::empty())
    } else if raw[i] == '\\' {
        if i + 1 >= raw.len() {
            Ok(Seq::empty())
        } else {
            let c = raw[i + 1];
            if c == 'b' {
                cons_ch('\u{8}', spec_unescape_from(raw, i + 2))
            } else if c == 'f' {
                cons_ch('\u{c}', spec_unescape_from(raw, i + 2))
            } else if c == 'n' {
                cons_ch('\n', spec_unescape_from(raw, i + 2))
            } else if c == 'r' {
                cons_ch('\r', spec_unescape_from(raw, i + 2))
            } else if c == 't' {
                cons_ch('\t', spec_unescape_from(raw, i + 2))
            } else if c == 'u' {
                match spec_hex4(raw, i + 2, 0, 0) {
                    Err(e) => Err(e),
                    Ok(code) => if is_scalar(code) {
                        cons_ch((code as u32) as char, spec_unescape_from(raw, i + 6))
                    } else {
                        Err(TokenParseError::InvalidCodePointValue)
                    },
                }
            } else {
                cons_ch(c, spec_unescape_from(raw, i + 2))
            }
        }
    } else {
        cons_ch(raw[i], spec_unescape_from(raw, i + 1))
    }
}

/// The unescaped text of a whole raw string token.
pub open spec fn spec_unescape(raw: Seq<char>) -> Result<Seq<char>, TokenParseError> {
    spec_unescape_from(raw, 0)
}

/// The characters already produced, together with what unescaping promises
/// from the cursor on, settle the outcome for the whole raw text.
spec fn unescaped_prefix(raw: Seq<char>, i: int, acc: Seq<char>) -> bool {
    &&& (spec_unescape_from(raw, i) matches Ok(rest) ==> spec_unescape(raw) == Ok::<
        Seq<char>,
        TokenParseError,
    >(acc + rest))
    &&& (spec_unescape_from(raw, i) matches Err(e) ==> spec_unescape(raw) == Err::<
        Seq<char>,
        TokenParseError,
    >(e))
}

proof fn lemma_unescape_step(raw: Seq<char>, i0: int, i1: int, acc: Seq<char>, c: char)
    requires
        unescaped_prefix(raw, i0, acc),
        spec_unescape_from(raw, i0) == cons_ch(c, spec_unescape_from(raw, i1)),
    ensures
        unescaped_prefix(raw, i1, acc.push(c)),
{
    match spec_unescape_from(raw, i1) {
        Ok(rest) => {
            assert(spec_unescape_from(raw, i0) == Ok::<Seq<char>, TokenParseError>(
                seq![c] + rest,
            ));
            assert(acc + (seq![c] + rest) =~= acc.push(c) + rest);
        },
        Err(e) => {},
    }
}

fn hex_digit(c: char) -> (r: Option<u32>)
    ensures
        r == hex_val(c),
        r matches Some(d) ==> d <= 15,
{
    let u = c as u32;
    if 48 <= u && u <= 57 {
        Some(u - 48)
    } else if 65 <= u && u <= 70 {
        Some(u - 55)
    } else if 97 <= u && u <= 102 {
        Some(u - 87)
    } else {
        None
    }
}

fn read_hex4(cs: &Vec<char>, j: usize) -> (r: Result<u32, TokenParseError>)
    ensures
        match r {
            Ok(code) => spec_hex4(cs@, j as int, 0, 0) == Ok::<nat, TokenParseError>(
                code as nat,
            ) && code <= 0xFFFF && j + 4 <= cs@.len(),
            Err(e) => spec_hex4(cs@, j as int, 0, 0) == Err::<nat, TokenParseError>(e),
        },
{
    proof {
        reveal_with_fuel(spec_hex4, 6);
    }
    let n = cs.len();
    let mut code: u32 = 0;
    if j >= n {
        return Err(TokenParseError::UnfinishedEscape);
    }
    match hex_digit(cs[j]) {
        None => {
            return Err(TokenParseError::InvalidHexValue);
        },
        Some(d) => {
            code = d;
        },
    }
    if j + 1 >= n {
        return Err(TokenParseError::UnfinishedEscape);
    }
    match hex_digit(cs[j + 1]) {
        None => {
            return Err(TokenParseError::InvalidHexValue);
        },
        Some(d) => {
            code = code * 16 + d;
        },
    }
    if j + 2 >= n {
        return Err(TokenParseError::UnfinishedEscape);
    }
    match hex_digit(cs[j + 2]) {
        None => {
            return Err(TokenParseError::InvalidHexValue);
        },
        Some(d) => {
            code = code * 16 + d;
        },
    }
    if j + 3 >= n {
        return Err(TokenParseError::UnfinishedEscape);
    }
    match hex_digit(cs[j + 3]) {
        None => {
            return Err(TokenParseError::InvalidHexValue);
        },
        Some(d) => {
            code = code * 16 + d;
        },
    }
    Ok(code)
}

/// Unescapes the raw text of a string token; the outcome is exactly
/// [`spec_unescape`] of it.
fn unescape(raw: &str) -> (r: Result<String, TokenParseError>)
    ensures
        match r {
            Ok(out) => spec_unescape(raw@) == Ok::<Seq<char>, TokenParseError>(out@),
            Err(e) => spec_unescape(raw@) == Err::<Seq<char>, TokenParseError>(e),
        },
{
    let cs = chars_of(raw);
    let ghost rs = raw@;
    let n = cs.len();
    let mut out: Vec<char> = Vec::new();
    let mut i: usize = 0;
    loop
        invariant
            rs == raw@,
            cs@ == rs,
            n == rs.len(),
            i <= n,
            unescaped_prefix(rs, i as int, out@),
        decreases n - i,
    {
        if i >= n {
            proof {
                assert(out@ + Seq::<char>::empty() =~= out@);
            }
            return Ok(string_from_chars(&out));
        }
        let c = cs[i];
        if c == '\\' {
            if i + 1 >= n {
                proof {
                    assert(out@ + Seq::<char>::empty() =~= out@);
                }
                return Ok(string_from_chars(&out));
            }
            let e = cs[i + 1];
            if e == 'b' {
                proof {
                    lemma_unescape_step(rs, i as int, i + 2, out@, '\u{8}');
                }
                out.push('\u{8}');
                i = i + 2;
            } else if e == 'f' {
                proof {
                    lemma_unescape_step(rs, i as int, i + 2, out@, '\u{c}');
                }
                out.push('\u{c}');
                i = i + 2;
            } else if e == 'n' {
                proof {
                    lemma_unescape_step(rs, i as int, i + 2, out@, '\n');
                }
                out.push('\n');
                i = i + 2;
            } else if e == 'r' {
                proof {
                    lemma_unescape_step(rs, i as int, i + 2, out@, '\r');
                }
                out.push('\r');
                i = i + 2;
            } else if e == 't' {
                proof {
                    lemma_unescape_step(rs, i as int, i + 2, out@, '\t');
                }
                out.push('\t');
                i = i + 2;
            } else if e == 'u' {
                match read_hex4(&cs, i + 2) {
                    Err(er) => {
                        return Err(er);
                    },
                    Ok(code) => {
                        if code < 0xD800 || code >= 0xE000 {
                            match char_from_u32(code) {
                                Some(ch) => {
                                    proof {
                                        lemma_unescape_step(rs, i as int, i + 6, out@, ch);
                                    }
                                    out.push(ch);
                                    i = i + 6;
                                },
                                None => {
                                    proof {
                                        assert(false);
                                    }
                                    return Err(TokenParseError::InvalidCodePointValue);
                                },
                            }
                        } else {
                            return Err(TokenParseError::InvalidCodePointValue);
                        }
                    },
                }
            } else {
                proof {
                    lemma_unescape_step(rs, i as int, i + 2, out@, e);
                }
                out.push(e);
                i = i + 2;
            }
        } else {
            proof {
                lemma_unescape_step(rs, i as int, i + 1, out@, c);
            }
            out.push(c);
            i = i + 1;
        }
    }
}

/// Turns a raw string token into its string value, unescaping it.
fn parse_string(input: &str) -> (r: Result<Value, TokenParseError>)
    ensures
        match r {
            Ok(v) => spec_unescape(input@) matches Ok(out) && v@ == SpecValue::String(out),
            Err(e) => spec_unescape(input@) == Err::<Seq<char>, TokenParseError>(e),
        },
{
    match unescape(input) {
        Ok(out) => Ok(Value::String(out)),
        Err(e) => Err(e),
    }
}

/// How much of a token sequence remains at a cursor; the bound makes the
/// grammar recursions structural.
pub open spec fn toks_rem(ts: Seq<SpecToken>, i: int) -> int {
    if i <= ts.len() {
        ts.len() - i
    } else {
        0
    }
}

/// The value starting at a cursor of the token sequence, with the cursor
/// position just past it: the scalar tokens stand for themselves, a string
/// token is unescaped, brackets and braces open an array or an object, and
/// any other token cannot start a value.
pub open spec fn spec_parse_value(ts: Seq<SpecToken>, i: int) -> Result<
    (SpecValue, int),
    TokenParseError,
>
    decreases toks_rem(ts, i), 0int,
{
    if i < 0 || i >= ts.len() {
        Err(TokenParseError::UnexpectedEndOfInput)
    } else {
        match ts[i] {
            SpecToken::Null => Ok((SpecValue::Null, i + 1)),
            SpecToken::False => Ok((SpecValue::Boolean(false), i + 1)),
            SpecToken::True => Ok((SpecValue::Boolean(true), i + 1)),
            SpecToken::Number(n) => Ok((SpecValue::Number(n), i + 1)),
            SpecToken::String(raw) => match spec_unescape(raw) {
                Ok(out) => Ok((SpecValue::String(out), i + 1)),
                Err(e) => Err(e),
            },
            SpecToken::LeftBracket => spec_parse_array(ts, i + 1),
            SpecToken::LeftBrace => spec_parse_object(ts, i + 1),
            _ => Err(TokenParseError::ExpectedValue),
        }
    }
}

/// An array body, the cursor just past the opening bracket.
pub open spec fn spec_parse_array(ts: Seq<SpecToken>, i: int) -> Result<
    (SpecValue, int),
    TokenParseError,
>
    decreases toks_rem(ts, i), 2int,
{
    if 0 <= i < ts.len() && ts[i] == SpecToken::RightBracket {
        Ok((SpecValue::Array(Seq::empty()), i + 1))
    } else {
        spec_parse_array_items(ts, i, Seq::empty())
    }
}

/// The elements of a non-empty array, the cursor at the next element; each
/// element is followed by a comma to continue or a bracket to close.
pub open spec fn spec_parse_array_items(ts: Seq<SpecToken>, i: int, acc: Seq<SpecValue>) -> Result<
    (SpecValue, int),
    TokenParseError,
>
    decreases toks_rem(ts, i), 1int,
{
    match spec_parse_value(ts, i) {
        Err(e) => Err(e),
        Ok((v, j)) => {
            // the cursor only moves forward; the bound makes that structural
            let j2 = if j <= i {
                i + 1
            } else {
                j
            };
            if j2 >= ts.len() {
                Err(TokenParseError::UnexpectedEndOfInput)
            } else if ts[j2] == SpecToken::Comma {
                spec_parse_array_items(ts, j2 + 1, acc.push(v))
            } else if ts[j2] == SpecToken::RightBracket {
                Ok((SpecValue::Array(acc.push(v)), j2 + 1))
            } else {
                Err(TokenParseError::ExpectedComma)
            }
        },
    }
}

/// Binds a key in an object model: a later binding of a key overwrites the
/// earlier one in place, a new key goes to the end.
pub open spec fn obj_insert(
    es: Seq<(Seq<char>, SpecValue)>,
    k: Seq<char>,
    v: SpecValue,
) -> Seq<(Seq<char>, SpecValue)>
    decreases es.len(),
{
    if es.len() == 0 {
        seq![(k, v)]
    } else if es[0].0 == k {
        seq![(k, v)] + es.drop_first()
    } else {
        seq![es[0]] + obj_insert(es.drop_first(), k, v)
    }
}

/// An object body, the cursor just past the opening brace.
pub open spec fn spec_parse_object(ts: Seq<SpecToken>, i: int) -> Result<
    (SpecValue, int),
    TokenParseError,
>
    decreases toks_rem(ts, i), 2int,
{
    if 0 <= i < ts.len() && ts[i] == SpecToken::RightBrace {
        Ok((SpecValue::Object(Seq::empty()), i + 1))
    } else {
        spec_parse_object_items(ts, i, Seq::empty())
    }
}

/// The members of a non-empty object, the cursor at the next key: a string
/// key, unescaped, then a colon, then the value; a comma continues, a brace
/// closes.
pub open spec fn spec_parse_object_items(
    ts: Seq<SpecToken>,
    i: int,
    acc: Seq<(Seq<char>, SpecValue)>,
) -> Result<(SpecValue, int), TokenParseError>
    decreases toks_rem(ts, i), 1int,
{
    if i < 0 || i >= ts.len() {
        Err(TokenParseError::UnexpectedEndOfInput)
    } else {
        match ts[i] {
            SpecToken::String(raw) => match spec_unescape(raw) {
                Err(e) => Err(e),
                Ok(key) => {
                    if i + 1 >= ts.len() {
                        Err(TokenParseError::UnexpectedEndOfInput)
                    } else if ts[i + 1] != SpecToken::Colon {
                        Err(TokenParseError::ExpectedColon)
                    } else {
                        match spec_parse_value(ts, i + 2) {
                            Err(e) => Err(e),
                            Ok((v, j)) => {
                                // the cursor only moves forward
                                let j2 = if j <= i + 2 {
                                    i + 3
                                } else {
                                    j
                                };
                                if j2 >= ts.len() {
                                    Err(TokenParseError::UnexpectedEndOfInput)
                                } else if ts[j2] == SpecToken::Comma {
                                    spec_parse_object_items(ts, j2 + 1, obj_insert(acc, key, v))
                                } else if ts[j2] == SpecToken::RightBrace {
                                    Ok((SpecValue::Object(obj_insert(acc, key, v)), j2 + 1))
                                } else {
                                    Err(TokenParseError::ExpectedComma)
                                }
                            },
                        }
                    }
                },
            },
            _ => Err(TokenParseError::ExpectedProperty),
        }
    }
}

proof fn lemma_vals_view_push(vs: Seq<Value>, v: Value)
    ensures
        vals_view(vs.push(v)) == vals_view(vs).push(spec_value_of(v)),
{
    assert(vs.push(v).drop_last() =~= vs);
}

proof fn lemma_entries_view_push(es: Seq<(String, Value)>, p: (String, Value))
    ensures
        entries_view(es.push(p)) == entries_view(es).push((p.0@, spec_value_of(p.1))),
{
    assert(es.push(p).drop_last() =~= es);
}

/// Binding a key that is absent appends the pair.
pub proof fn lemma_obj_insert_missing(es: Seq<(Seq<char>, SpecValue)>, k: Seq<char>, v: SpecValue)
    requires
        forall|l: int| 0 <= l < es.len() ==> (#[trigger] es[l]).0 != k,
    ensures
        obj_insert(es, k, v) == es.push((k, v)),
    decreases es.len(),
{
    if es.len() == 0 {
        assert(obj_insert(es, k, v) =~= es.push((k, v)));
    } else {
        lemma_obj_insert_missing(es.drop_first(), k, v);
        assert(seq![es[0]] + es.drop_first().push((k, v)) =~= es.push((k, v)));
    }
}

/// Binding a key that is present overwrites its first binding in place.
proof fn lemma_obj_insert_found(
    es: Seq<(Seq<char>, SpecValue)>,
    k: Seq<char>,
    v: SpecValue,
    idx: int,
)
    requires
        0 <= idx < es.len(),
        es[idx].0 == k,
        forall|l: int| 0 <= l < idx ==> (#[trigger] es[l]).0 != k,
    ensures
        obj_insert(es, k, v) == es.update(idx, (k, v)),
    decreases es.len(),
{
    if idx == 0 {
        assert(seq![(k, v)] + es.drop_first() =~= es.update(0, (k, v)));
    } else {
        lemma_obj_insert_found(es.drop_first(), k, v, idx - 1);
        assert(seq![es[0]] + es.drop_first().update(idx - 1, (k, v)) =~= es.update(idx, (k, v)));
    }
}

/// Binds a key in an object under construction, as [`obj_insert`] reads.
fn insert_entry(entries: &mut Vec<(String, Value)>, key: String, value: Value)
    ensures
        entries_view(final(entries)@) == obj_insert(
            entries_view(old(entries)@),
            key@,
            spec_value_of(value),
        ),
{
    let ghost es0 = entries@;
    proof {
        lemma_entries_view_props(es0);
    }
    let n = entries.len();
    let mut idx: usize = 0;
    while idx < n
        invariant
            es0 == old(entries)@,
            es0 == entries@,
            n == entries@.len(),
            idx <= n,
            forall|l: int| 0 <= l < idx ==> (#[trigger] es0[l]).0@ != key@,
        decreases n - idx,
    {
        if entries[idx].0 == key {
            proof {
                lemma_entries_view_props(es0);
            }
            let _removed = entries.remove(idx);
            proof {
                es0.remove_ensures(idx as int);
            }
            entries.insert(idx, (key, value));
            proof {
                es0.remove(idx as int).insert_ensures(idx as int, (key, value));
                assert(entries@ =~= es0.update(idx as int, (key, value)));
                lemma_entries_view_props(entries@);
                lemma_obj_insert_found(
                    entries_view(es0),
                    key@,
                    spec_value_of(value),
                    idx as int,
                );
                assert(entries_view(entries@) =~= entries_view(es0).update(
                    idx as int,
                    (key@, spec_value_of(value)),
                ));
            }
            return ;
        }
        idx = idx + 1;
    }
    proof {
        lemma_entries_view_props(es0);
        lemma_obj_insert_missing(entries_view(es0), key@, spec_value_of(value));
        lemma_entries_view_push(es0, (key, value));
    }
    entries.push((key, value));
}

/// Parses the value starting at the cursor of the token sequence and
/// returns it with the cursor position just past it; the outcome is
/// exactly [`spec_parse_value`] at the cursor.
pub fn parse_tokens(tokens: &Vec<Token>, index: usize) -> (r: Result<
    (Value, usize),
    TokenParseError,
>)
    ensures
        match r {
            Ok((v, j)) => index < j <= tokens@.len() && spec_parse_value(
                toks_view(tokens@),
                index as int,
            ) == Ok::<(SpecValue, int), TokenParseError>((v@, j as int)),
            Err(e) => spec_parse_value(toks_view(tokens@), index as int) == Err::<
                (SpecValue, int),
                TokenParseError,
            >(e),
        },
    decreases toks_rem(toks_view(tokens@), index as int), 0int,
{
    let ghost ts = toks_view(tokens@);
    let n = tokens.len();
    if index >= n {
        return Err(TokenParseError::UnexpectedEndOfInput);
    }
    match &tokens[index] {
        Token::Null => Ok((Value::Null, index + 1)),
        Token::False => Ok((Value::Boolean(false), index + 1)),
        Token::True => Ok((Value::Boolean(true), index + 1)),
        Token::Number(num) => Ok((Value::Number(*num), index + 1)),
        Token::String(s) => match parse_string(s.as_str()) {
            Ok(v) => Ok((v, index + 1)),
            Err(e) => Err(e),
        },
        Token::LeftBracket => parse_array(tokens, index + 1),
        Token::LeftBrace => parse_object(tokens, index + 1),
        _ => Err(TokenParseError::ExpectedValue),
    }
}

/// Parses an array body, the cursor just past the opening bracket.
fn parse_array(tokens: &Vec<Token>, index: usize) -> (r: Result<(Value, usize), TokenParseError>)
    requires
        index <= tokens@.len(),
    ensures
        match r {
            Ok((v, j)) => index < j <= tokens@.len() && spec_parse_array(
                toks_view(tokens@),
                index as int,
            ) == Ok::<(SpecValue, int), TokenParseError>((v@, j as int)),
            Err(e) => spec_parse_array(toks_view(tokens@), index as int) == Err::<
                (SpecValue, int),
                TokenParseError,
            >(e),
        },
    decreases toks_rem(toks_view(tokens@), index as int), 2int,
{
    let ghost ts = toks_view(tokens@);
    let n = tokens.len();
    if index < n {
        match &tokens[index] {
            Token::RightBracket => {
                return Ok((Value::Array(Vec::new()), index + 1));
            },
            _ => {},
        }
    }
    let ghost goal = spec_parse_array_items(ts, index as int, Seq::empty());
    let mut arr: Vec<Value> = Vec::new();
    let mut i = index;
    loop
        invariant
            ts == toks_view(tokens@),
            n == tokens@.len(),
            index <= i <= n,
            spec_parse_array_items(ts, i as int, vals_view(arr@)) == goal,
            spec_parse_array(ts, index as int) == goal,
        decreases n - i,
    {
        match parse_tokens(tokens, i) {
            Err(e) => {
                return Err(e);
            },
            Ok((v, j)) => {
                proof {
                    lemma_vals_view_push(arr@, v);
                }
                if j >= n {
                    return Err(TokenParseError::UnexpectedEndOfInput);
                }
                match &tokens[j] {
                    Token::Comma => {
                        arr.push(v);
                        i = j + 1;
                    },
                    Token::RightBracket => {
                        arr.push(v);
                        return Ok((Value::Array(arr), j + 1));
                    },
                    _ => {
                        return Err(TokenParseError::ExpectedComma);
                    },
                }
            },
        }
    }
}

/// Parses an object body, the cursor just past the opening brace.
fn parse_object(tokens: &Vec<Token>, index: usize) -> (r: Result<(Value, usize), TokenParseError>)
    requires
        index <= tokens@.len(),
    ensures
        match r {
            Ok((v, j)) => index < j <= tokens@.len() && spec_parse_object(
                toks_view(tokens@),
                index as int,
            ) == Ok::<(SpecValue, int), TokenParseError>((v@, j as int)),
            Err(e) => spec_parse_object(toks_view(tokens@), index as int) == Err::<
                (SpecValue, int),
                TokenParseError,
            >(e),
        },
    decreases toks_rem(toks_view(tokens@), index as int), 2int,
{
    let ghost ts = toks_view(tokens@);
    let n = tokens.len();
    if index < n {
        match &tokens[index] {
            Token::RightBrace => {
                return Ok((Value::Object(Vec::new()), index + 1));
            },
            _ => {},
        }
    }
    let ghost goal = spec_parse_object_items(ts, index as int, Seq::empty());
    let mut entries: Vec<(String, Value)> = Vec::new();
    let mut i = index;
    loop
        invariant
            ts == toks_view(tokens@),
            n == tokens@.len(),
            index <= i <= n,
            spec_parse_object_items(ts, i as int, entries_view(entries@)) == goal,
            spec_parse_object(ts, index as int) == goal,
        decreases n - i,
    {
        if i >= n {
            return Err(TokenParseError::UnexpectedEndOfInput);
        }
        match &tokens[i] {
            Token::String(raw) => {
                let key = match unescape(raw.as_str()) {
                    Ok(k) => k,
                    Err(e) => {
                        return Err(e);
                    },
                };
                if i + 1 >= n {
                    return Err(TokenParseError::UnexpectedEndOfInput);
                }
                match &tokens[i + 1] {
                    Token::Colon => {},
                    _ => {
                        return Err(TokenParseError::ExpectedColon);
                    },
                }
                match parse_tokens(tokens, i + 2) {
                    Err(e) => {
                        return Err(e);
                    },
                    Ok((v, j)) => {
                        insert_entry(&mut entries, key, v);
                        if j >= n {
                            return Err(TokenParseError::UnexpectedEndOfInput);
                        }
                        match &tokens[j] {
                            Token::Comma => {
                                i = j + 1;
                            },
                            Token::RightBrace => {
                                return Ok((Value::Object(entries), j + 1));
                            },
                            _ => {
                                return Err(TokenParseError::ExpectedComma);
                            },
                        }
                    },
                }
            },
            _ => {
                return Err(TokenParseError::ExpectedProperty);
            },
        }
    }
}

/// The value of a whole text: its token sequence parsed as one value, or
/// the first error met on the way. Tokens past the first value are ignored.
pub open spec fn spec_parse(s: Seq<char>) -> Result<SpecValue, ParseError> {
    match spec_tokenize(s) {
        Err(e) => Err(ParseError::TokenizeError(e)),
        Ok(ts) => match spec_parse_value(ts, 0) {
            Ok(p) => Ok(p.0),
            Err(e) => Err(ParseError::ParseError(e)),
        },
    }
}

/// Parses the input text into a value tree, or reports why the input is
/// not valid JSON; the outcome is exactly [`spec_parse`] of the text.
pub fn parse(input: String) -> (r: Result<Value, ParseError>)
    ensures
        match r {
            Ok(v) => spec_parse(input@) == Ok::<SpecValue, ParseError>(v@),
            Err(e) => spec_parse(input@) == Err::<SpecValue, ParseError>(e),
        },
{
    let tokens = match tokenize(input) {
        Ok(ts) => ts,
        Err(e) => {
            return Err(ParseError::from(e));
        },
    };
    match parse_tokens(&tokens, 0) {
        Ok((value, _end)) => Ok(value),
        Err(e) => Err(ParseError::from(e)),
    }
}

} // verus!
