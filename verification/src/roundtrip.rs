use vstd::prelude::*;

use crate::number::{digit_val, digits_val, is_digit, number_of_run, run_digits, run_has_dot,
    run_scale, Number};
use crate::parse::{spec_parse, spec_parse_array_items, spec_parse_object_items, spec_parse_value,
    spec_unescape, spec_unescape_from, ParseError, TokenParseError};
use crate::tokenize::{cons_tok, kw_false, kw_null, kw_true, num_run_len, spec_match_kw,
    spec_tokenize, spec_tokenize_from, str_run, SpecToken, TokenizeError};
use crate::SpecValue;

verus! {

broadcast use vstd::seq::axiom_seq_index_decreases, vstd::seq::axiom_seq_subrange_decreases;

/// The serialized form of one string character: quote and backslash are
/// escaped, everything else stands for itself.
pub open spec fn esc_char(c: char) -> Seq<char> {
    if c == '"' || c == '\\' {
        seq!['\\', c]
    } else {
        seq![c]
    }
}

/// The serialized form of a string's characters.
pub open spec fn esc_str(s: Seq<char>) -> Seq<char>
    decreases s.len(),
{
    if s.len() == 0 {
        Seq::empty()
    } else {
        esc_char(s[0]) + esc_str(s.drop_first())
    }
}

/// No two entries bind the same key.
pub open spec fn keys_unique(es: Seq<(Seq<char>, SpecValue)>) -> bool {
    forall|i: int, j: int| 0 <= i < j < es.len() ==> (#[trigger] es[i]).0 != (#[trigger] es[j]).0
}

/// A well-formed value tree: every object's keys are unique.
pub open spec fn wf_value(v: SpecValue) -> bool
    decreases v,
{
    match v {
        SpecValue::Array(vs) => wf_items(vs),
        SpecValue::Object(es) => keys_unique(es) && wf_entries(es),
        _ => true,
    }
}

pub open spec fn wf_items(vs: Seq<SpecValue>) -> bool
    decreases vs,
{
    if vs.len() == 0 {
        true
    } else {
        wf_value(vs[0]) && wf_items(vs.drop_first())
    }
}

pub open spec fn wf_entries(es: Seq<(Seq<char>, SpecValue)>) -> bool
    decreases es,
{
    if es.len() == 0 {
        true
    } else {
        wf_value(es[0].1) && wf_entries(es.drop_first())
    }
}

/// The token sequence a correct serializer emits for a value.
pub open spec fn toks_of(v: SpecValue) -> Seq<SpecToken>
    decreases v,
{
    match v {
        SpecValue::Null => seq![SpecToken::Null],
        SpecValue::Boolean(b) => if b {
            seq![SpecToken::True]
        } else {
            seq![SpecToken::False]
        },
        SpecValue::Number(n) => seq![SpecToken::Number(n)],
        SpecValue::String(s) => seq![SpecToken::String(esc_str(s))],
        SpecValue::Array(vs) => seq![SpecToken::LeftBracket] + items_toks(vs) + seq![
            SpecToken::RightBracket,
        ],
        SpecValue::Object(es) => seq![SpecToken::LeftBrace] + entries_toks(es) + seq![
            SpecToken::RightBrace,
        ],
    }
}

/// The tokens of an array's elements, comma separated.
pub open spec fn items_toks(vs: Seq<SpecValue>) -> Seq<SpecToken>
    decreases vs,
{
    if vs.len() == 0 {
        Seq::empty()
    } else if vs.len() == 1 {
        toks_of(vs[0])
    } else {
        toks_of(vs[0]) + seq![SpecToken::Comma] + items_toks(vs.drop_first())
    }
}

/// The tokens of an object's members, comma separated.
pub open spec fn entries_toks(es: Seq<(Seq<char>, SpecValue)>) -> Seq<SpecToken>
    decreases es,
{
    if es.len() == 0 {
        Seq::empty()
    } else {
        let head = seq![SpecToken::String(esc_str(es[0].0)), SpecToken::Colon] + toks_of(es[0].1);
        if es.len() == 1 {
            head
        } else {
            head + seq![SpecToken::Comma] + entries_toks(es.drop_first())
        }
    }
}

/// Unescaping undoes escaping: the law holds for the tail of any raw text.
proof fn lemma_unescape_escape_from(s: Seq<char>, raw: Seq<char>, i: int)
    requires
        0 <= i <= raw.len(),
        raw.subrange(i, raw.len() as int) == esc_str(s),
    ensures
        spec_unescape_from(raw, i) == Ok::<Seq<char>, TokenParseError>(s),
    decreases s.len(),
{
    if s.len() == 0 {
        assert(raw.len() - i == 0);
        assert(s =~= Seq::<char>::empty());
    } else {
        let c = s[0];
        let tail = s.drop_first();
        assert(raw.len() - i == esc_str(s).len());
        if c == '"' || c == '\\' {
            assert(esc_char(c) == seq!['\\', c]);
            assert(esc_str(s) == seq!['\\', c] + esc_str(tail));
            assert(esc_str(s).len() == 2 + esc_str(tail).len());
            assert(esc_str(s)[0] == '\\');
            assert(esc_str(s)[1] == c);
            assert(raw.subrange(i, raw.len() as int)[0] == raw[i]);
            assert(raw.subrange(i, raw.len() as int)[1] == raw[i + 1]);
            assert(raw[i] == '\\');
            assert(raw[i + 1] == c);
            assert forall|l: int|
                0 <= l < raw.len() - i - 2 implies raw.subrange(i + 2, raw.len() as int)[l]
                == esc_str(tail)[l] by {
                assert(esc_str(s)[2 + l] == esc_str(tail)[l]);
                assert(raw.subrange(i, raw.len() as int)[2 + l] == raw[i + 2 + l]);
                assert(raw.subrange(i + 2, raw.len() as int)[l] == raw[i + 2 + l]);
            }
            assert(raw.subrange(i + 2, raw.len() as int) =~= esc_str(tail));
            lemma_unescape_escape_from(tail, raw, i + 2);
            assert(seq![c] + tail =~= s);
        } else {
            assert(esc_char(c) == seq![c]);
            assert(esc_str(s) == seq![c] + esc_str(tail));
            assert(esc_str(s).len() == 1 + esc_str(tail).len());
            assert(esc_str(s)[0] == c);
            assert(raw.subrange(i, raw.len() as int)[0] == raw[i]);
            assert(raw[i] == c);
            assert forall|l: int|
                0 <= l < raw.len() - i - 1 implies raw.subrange(i + 1, raw.len() as int)[l]
                == esc_str(tail)[l] by {
                assert(esc_str(s)[1 + l] == esc_str(tail)[l]);
                assert(raw.subrange(i, raw.len() as int)[1 + l] == raw[i + 1 + l]);
                assert(raw.subrange(i + 1, raw.len() as int)[l] == raw[i + 1 + l]);
            }
            assert(raw.subrange(i + 1, raw.len() as int) =~= esc_str(tail));
            lemma_unescape_escape_from(tail, raw, i + 1);
            assert(seq![c] + tail =~= s);
        }
    }
}

/// Unescaping undoes escaping.
pub proof fn lemma_unescape_escape(s: Seq<char>)
    ensures
        spec_unescape(esc_str(s)) == Ok::<Seq<char>, TokenParseError>(s),
{
    assert(esc_str(s).subrange(0, esc_str(s).len() as int) =~= esc_str(s));
    lemma_unescape_escape_from(s, esc_str(s), 0);
}

/// The indices of a slice known to stand inside a sequence.
proof fn lemma_sub_points<A>(ts: Seq<A>, i: int, tk: Seq<A>)
    requires
        0 <= i,
        i + tk.len() <= ts.len(),
        ts.subrange(i, i + tk.len()) == tk,
    ensures
        forall|k: int| 0 <= k < tk.len() ==> ts[i + k] == #[trigger] tk[k],
{
    assert forall|k: int| 0 <= k < tk.len() implies ts[i + k] == #[trigger] tk[k] by {
        assert(ts.subrange(i, i + tk.len())[k] == ts[i + k]);
    }
}

/// A part of a slice known to stand inside a sequence stands there too.
proof fn lemma_sub_slice<A>(ts: Seq<A>, i: int, tk: Seq<A>, a: int, b: int)
    requires
        0 <= i,
        i + tk.len() <= ts.len(),
        ts.subrange(i, i + tk.len()) == tk,
        0 <= a <= b <= tk.len(),
    ensures
        ts.subrange(i + a, i + b) == tk.subrange(a, b),
{
    lemma_sub_points(ts, i, tk);
    assert forall|l: int|
        0 <= l < b - a implies ts.subrange(i + a, i + b)[l] == tk.subrange(a, b)[l] by {
        assert(tk.subrange(a, b)[l] == tk[a + l]);
        assert(ts.subrange(i + a, i + b)[l] == ts[i + a + l]);
    }
    assert(ts.subrange(i + a, i + b) =~= tk.subrange(a, b));
}

/// A serialized value takes at least one token.
proof fn lemma_toks_of_nonempty(v: SpecValue)
    ensures
        toks_of(v).len() > 0,
{
}

/// Parsing the serialized tokens of a value, wherever they stand in a
/// token sequence, gives the value back and leaves the cursor just past
/// them.
proof fn lemma_parse_value_toks(v: SpecValue, ts: Seq<SpecToken>, i: int)
    requires
        wf_value(v),
        0 <= i,
        i + toks_of(v).len() <= ts.len(),
        ts.subrange(i, i + toks_of(v).len()) == toks_of(v),
    ensures
        spec_parse_value(ts, i) == Ok::<(SpecValue, int), TokenParseError>(
            (v, i + toks_of(v).len()),
        ),
    decreases v,
{
    let tk = toks_of(v);
    lemma_sub_points(ts, i, tk);
    match v {
        SpecValue::Null => {
            assert(ts[i] == tk[0]);
        },
        SpecValue::Boolean(b) => {
            assert(ts[i] == tk[0]);
        },
        SpecValue::Number(n) => {
            assert(ts[i] == tk[0]);
        },
        SpecValue::String(s) => {
            assert(ts[i] == tk[0]);
            lemma_unescape_escape(s);
        },
        SpecValue::Array(vs) => {
            let inner = items_toks(vs);
            assert(ts[i] == tk[0]);
            assert(tk[0] == SpecToken::LeftBracket);
            assert(ts[i + 1 + inner.len()] == tk[1 + inner.len() as int]);
            assert(tk[1 + inner.len() as int] == SpecToken::RightBracket);
            lemma_sub_slice(ts, i, tk, 1int, 1 + inner.len() as int);
            assert(tk.subrange(1, 1 + inner.len() as int) =~= inner);
            if vs.len() == 0 {
                assert(vs =~= Seq::<SpecValue>::empty());
            } else {
                lemma_toks_of_nonempty(vs[0]);
                assert(ts[i + 1] == tk[1]);
                assert(tk[1] == inner[0]);
                assert(inner[0] == toks_of(vs[0])[0]);
                lemma_parse_items_toks(vs, Seq::empty(), ts, i + 1);
                assert(Seq::<SpecValue>::empty() + vs =~= vs);
            }
        },
        SpecValue::Object(es) => {
            let inner = entries_toks(es);
            assert(ts[i] == tk[0]);
            assert(tk[0] == SpecToken::LeftBrace);
            assert(ts[i + 1 + inner.len()] == tk[1 + inner.len() as int]);
            assert(tk[1 + inner.len() as int] == SpecToken::RightBrace);
            lemma_sub_slice(ts, i, tk, 1int, 1 + inner.len() as int);
            assert(tk.subrange(1, 1 + inner.len() as int) =~= inner);
            if es.len() == 0 {
                assert(es =~= Seq::<(Seq<char>, SpecValue)>::empty());
            } else {
                assert(ts[i + 1] == tk[1]);
                assert(tk[1] == inner[0]);
                lemma_parse_entries_toks(es, Seq::empty(), ts, i + 1);
                assert(Seq::<(Seq<char>, SpecValue)>::empty() + es =~= es);
            }
        },
    }
}

/// Parsing the serialized tokens of a non-empty element list, followed by
/// the closing bracket, appends the elements to what is already gathered.
proof fn lemma_parse_items_toks(vs: Seq<SpecValue>, acc: Seq<SpecValue>, ts: Seq<SpecToken>, i: int)
    requires
        vs.len() > 0,
        wf_items(vs),
        0 <= i,
        i + items_toks(vs).len() + 1 <= ts.len(),
        ts.subrange(i, i + items_toks(vs).len()) == items_toks(vs),
        ts[i + items_toks(vs).len()] == SpecToken::RightBracket,
    ensures
        spec_parse_array_items(ts, i, acc) == Ok::<(SpecValue, int), TokenParseError>(
            (SpecValue::Array(acc + vs), i + items_toks(vs).len() + 1),
        ),
    decreases vs,
{
    let v0 = vs[0];
    let t0 = toks_of(v0);
    let inner = items_toks(vs);
    lemma_sub_points(ts, i, inner);
    if vs.len() == 1 {
        assert(inner == t0);
        lemma_parse_value_toks(v0, ts, i);
        let j = i + t0.len();
        assert(ts[j] == SpecToken::RightBracket);
        assert(acc.push(v0) =~= acc + vs);
    } else {
        let rest = vs.drop_first();
        assert(inner == t0 + seq![SpecToken::Comma] + items_toks(rest));
        lemma_sub_slice(ts, i, inner, 0int, t0.len() as int);
        assert(inner.subrange(0, t0.len() as int) =~= t0);
        assert(ts.subrange(i, i + t0.len()) == t0);
        lemma_parse_value_toks(v0, ts, i);
        let j = i + t0.len();
        assert(ts[j] == inner[t0.len() as int]);
        assert(inner[t0.len() as int] == SpecToken::Comma);
        let rl = items_toks(rest).len() as int;
        lemma_sub_slice(ts, i, inner, t0.len() as int + 1, inner.len() as int);
        assert(inner.subrange(t0.len() as int + 1, inner.len() as int) =~= items_toks(rest));
        assert(ts.subrange(j + 1, j + 1 + rl) == items_toks(rest));
        assert(ts[j + 1 + rl] == SpecToken::RightBracket);
        lemma_parse_items_toks(rest, acc.push(v0), ts, j + 1);
        assert(acc.push(v0) + rest =~= acc + vs);
    }
}

/// Parsing the serialized tokens of a non-empty member list, followed by
/// the closing brace, appends the members to what is already gathered,
/// provided no key is bound twice.
proof fn lemma_parse_entries_toks(
    es: Seq<(Seq<char>, SpecValue)>,
    acc: Seq<(Seq<char>, SpecValue)>,
    ts: Seq<SpecToken>,
    i: int,
)
    requires
        es.len() > 0,
        wf_entries(es),
        keys_unique(acc + es),
        0 <= i,
        i + entries_toks(es).len() + 1 <= ts.len(),
        ts.subrange(i, i + entries_toks(es).len()) == entries_toks(es),
        ts[i + entries_toks(es).len()] == SpecToken::RightBrace,
    ensures
        spec_parse_object_items(ts, i, acc) == Ok::<(SpecValue, int), TokenParseError>(
            (SpecValue::Object(acc + es), i + entries_toks(es).len() + 1),
        ),
    decreases es,
{
    let k0 = es[0].0;
    let v0 = es[0].1;
    let t0 = toks_of(v0);
    let inner = entries_toks(es);
    let head = seq![SpecToken::String(esc_str(k0)), SpecToken::Colon] + t0;
    lemma_sub_points(ts, i, inner);
    assert(ts[i] == inner[0]);
    assert(inner[0] == SpecToken::String(esc_str(k0)));
    lemma_unescape_escape(k0);
    assert(ts[i + 1] == inner[1]);
    assert(inner[1] == SpecToken::Colon);
    lemma_sub_slice(ts, i, inner, 2int, 2 + t0.len() as int);
    assert(inner.subrange(2, 2 + t0.len() as int) =~= t0);
    assert(ts.subrange(i + 2, i + 2 + t0.len()) == t0);
    lemma_parse_value_toks(v0, ts, i + 2);
    let j = i + 2 + t0.len();
    assert(forall|l: int| 0 <= l < acc.len() ==> (#[trigger] (acc + es)[l]) == acc[l]);
    assert((acc + es)[acc.len() as int].0 == k0);
    assert forall|l: int| 0 <= l < acc.len() implies (#[trigger] acc[l]).0 != k0 by {
        assert((acc + es)[l] == acc[l]);
        assert((acc + es)[l].0 != (acc + es)[acc.len() as int].0);
    }
    crate::parse::lemma_obj_insert_missing(acc, k0, v0);
    let acc2 = acc.push((k0, v0));
    if es.len() == 1 {
        assert(inner == head);
        assert(ts[j] == SpecToken::RightBrace);
        assert(acc2 =~= acc + es);
    } else {
        let rest = es.drop_first();
        assert(inner == head + seq![SpecToken::Comma] + entries_toks(rest));
        assert(ts[j] == inner[2 + t0.len() as int]);
        assert(inner[2 + t0.len() as int] == SpecToken::Comma);
        let rl = entries_toks(rest).len() as int;
        lemma_sub_slice(ts, i, inner, 3 + t0.len() as int, inner.len() as int);
        assert(inner.subrange(3 + t0.len() as int, inner.len() as int) =~= entries_toks(rest));
        assert(ts.subrange(j + 1, j + 1 + rl) == entries_toks(rest));
        assert(ts[j + 1 + rl] == SpecToken::RightBrace);
        assert(acc2 + rest =~= acc + es);
        assert forall|a: int, b: int|
            0 <= a < b < (acc2 + rest).len() implies (#[trigger] (acc2 + rest)[a]).0 != (
        #[trigger] (acc2 + rest)[b]).0 by {
            assert((acc2 + rest)[a] == (acc + es)[a]);
            assert((acc2 + rest)[b] == (acc + es)[b]);
        }
        lemma_parse_entries_toks(rest, acc2, ts, j + 1);
    }
}

/// Round trip at the token level: parsing the token sequence a correct
/// serializer emits for a well-formed value gives that value back,
/// consuming the whole sequence.
pub proof fn lemma_token_round_trip(v: SpecValue)
    requires
        wf_value(v),
    ensures
        spec_parse_value(toks_of(v), 0) == Ok::<(SpecValue, int), TokenParseError>(
            (v, toks_of(v).len() as int),
        ),
{
    assert(toks_of(v).subrange(0, toks_of(v).len() as int) =~= toks_of(v));
    lemma_parse_value_toks(v, toks_of(v), 0);
}


/// The character of one decimal digit.
pub open spec fn digit_char_of(d: nat) -> char {
    ((48 + d) as u32) as char
}

/// The decimal digits of a natural number, most significant first.
pub open spec fn digits_of(m: nat) -> Seq<char>
    decreases m,
{
    if m < 10 {
        seq![digit_char_of(m)]
    } else {
        digits_of(m / 10).push(digit_char_of(m % 10))
    }
}

/// A run of zero digits.
pub open spec fn zeros(k: nat) -> Seq<char>
    decreases k,
{
    if k == 0 {
        Seq::empty()
    } else {
        zeros((k - 1) as nat).push('0')
    }
}

/// The decimal text of a number: the mantissa's digits with the decimal
/// point inserted `scale` places from the right, padded with zeros when
/// the mantissa is short, and the sign in front.
pub open spec fn ser_number(n: Number) -> Seq<char> {
    let ds = digits_of(n.mantissa as nat);
    let sign: Seq<char> = if n.negative {
        seq!['-']
    } else {
        Seq::empty()
    };
    if n.scale == 0 {
        sign + ds
    } else {
        let padded = if ds.len() > n.scale {
            ds
        } else {
            zeros((n.scale + 1 - ds.len()) as nat) + ds
        };
        sign + padded.take(padded.len() - n.scale) + seq!['.'] + padded.skip(
            padded.len() - n.scale,
        )
    }
}

/// The text a correct serializer emits for a value.
pub open spec fn ser_value(v: SpecValue) -> Seq<char>
    decreases v,
{
    match v {
        SpecValue::Null => kw_null(),
        SpecValue::Boolean(b) => if b {
            kw_true()
        } else {
            kw_false()
        },
        SpecValue::Number(n) => ser_number(n),
        SpecValue::String(s) => seq!['"'] + esc_str(s) + seq!['"'],
        SpecValue::Array(vs) => seq!['['] + ser_items(vs) + seq![']'],
        SpecValue::Object(es) => seq!['{'] + ser_entries(es) + seq!['}'],
    }
}

/// The text of an array's elements, comma separated.
pub open spec fn ser_items(vs: Seq<SpecValue>) -> Seq<char>
    decreases vs,
{
    if vs.len() == 0 {
        Seq::empty()
    } else if vs.len() == 1 {
        ser_value(vs[0])
    } else {
        ser_value(vs[0]) + seq![','] + ser_items(vs.drop_first())
    }
}

/// The text of an object's members, comma separated.
pub open spec fn ser_entries(es: Seq<(Seq<char>, SpecValue)>) -> Seq<char>
    decreases es,
{
    if es.len() == 0 {
        Seq::empty()
    } else {
        let head = seq!['"'] + esc_str(es[0].0) + seq!['"', ':'] + ser_value(es[0].1);
        if es.len() == 1 {
            head
        } else {
            head + seq![','] + ser_entries(es.drop_first())
        }
    }
}

/// The digits of a natural number are digits and read back as it.
proof fn lemma_digits_of(m: nat)
    ensures
        digits_of(m).len() >= 1,
        forall|k: int| 0 <= k < digits_of(m).len() ==> is_digit(#[trigger] digits_of(m)[k]),
        digits_val(digits_of(m)) == m,
    decreases m,
{
    if m < 10 {
        assert(digit_val(digit_char_of(m)) == m);
        assert(digits_of(m) == seq![digit_char_of(m)]);
        assert(digits_of(m).drop_last() =~= Seq::<char>::empty());
        assert(digits_val(Seq::<char>::empty()) == 0);
        assert(digits_of(m).last() == digit_char_of(m));
    } else {
        lemma_digits_of(m / 10);
        vstd::arithmetic::div_mod::lemma_fundamental_div_mod(m as int, 10);
        let pre = digits_of(m / 10);
        let last = digit_char_of(m % 10);
        assert(digit_val(last) == m % 10);
        assert(is_digit(last));
        assert(digits_of(m) == pre.push(last));
        assert(pre.push(last).drop_last() =~= pre);
        assert(digits_val(digits_of(m)) == digits_val(pre) * 10 + digit_val(last));
    }
}

/// Prepending one zero leaves the value of a digit sequence unchanged.
proof fn lemma_digits_val_prepend_zero(ds: Seq<char>)
    ensures
        digits_val(seq!['0'] + ds) == digits_val(ds),
    decreases ds.len(),
{
    if ds.len() == 0 {
        assert(seq!['0'] + ds =~= seq!['0']);
        assert((seq!['0'] + ds).drop_last() =~= Seq::<char>::empty());
        assert((seq!['0'] + ds).last() == '0');
        assert(digits_val(Seq::<char>::empty()) == 0);
        assert(digits_val(ds) == 0);
        assert(digit_val('0') == 0);
    } else {
        lemma_digits_val_prepend_zero(ds.drop_last());
        assert((seq!['0'] + ds).drop_last() =~= seq!['0'] + ds.drop_last());
        assert((seq!['0'] + ds).last() == ds.last());
    }
}

/// Zero padding is zeros and leaves the value of a digit sequence
/// unchanged.
proof fn lemma_zeros(k: nat, ds: Seq<char>)
    ensures
        zeros(k).len() == k,
        forall|l: int| 0 <= l < k ==> #[trigger] zeros(k)[l] == '0',
        digits_val(zeros(k) + ds) == digits_val(ds),
    decreases k,
{
    if k == 0 {
        assert(zeros(k) + ds =~= ds);
    } else {
        lemma_zeros((k - 1) as nat, seq!['0'] + ds);
        lemma_digits_val_prepend_zero(ds);
        assert(zeros(k) =~= zeros((k - 1) as nat).push('0'));
        assert(forall|l: int|
            0 <= l < k ==> #[trigger] zeros(k)[l] == (if l < k - 1 {
                zeros((k - 1) as nat)[l]
            } else {
                '0'
            }));
        assert(zeros(k) + ds =~= zeros((k - 1) as nat) + (seq!['0'] + ds));
    }
}


/// The cursor after a serialized value must not stand on a character that
/// would extend a numeric literal.
pub open spec fn num_boundary(s: Seq<char>, j: int) -> bool {
    j >= s.len() || (!is_digit(s[j]) && s[j] != '.')
}

/// Prepends tokens to a tokenizing outcome.
pub open spec fn prepend_toks(
    tks: Seq<SpecToken>,
    r: Result<Seq<SpecToken>, TokenizeError>,
) -> Result<Seq<SpecToken>, TokenizeError> {
    match r {
        Ok(rest) => Ok(tks + rest),
        Err(e) => Err(e),
    }
}

proof fn lemma_cons_is_prepend(t: SpecToken, r: Result<Seq<SpecToken>, TokenizeError>)
    ensures
        cons_tok(t, r) == prepend_toks(seq![t], r),
{
}

proof fn lemma_cons_prepend(
    t: SpecToken,
    tks: Seq<SpecToken>,
    r: Result<Seq<SpecToken>, TokenizeError>,
)
    ensures
        cons_tok(t, prepend_toks(tks, r)) == prepend_toks(seq![t] + tks, r),
{
    match r {
        Ok(rest) => {
            assert(seq![t] + (tks + rest) =~= (seq![t] + tks) + rest);
        },
        Err(e) => {},
    }
}

proof fn lemma_prepend_prepend(
    t1: Seq<SpecToken>,
    t2: Seq<SpecToken>,
    r: Result<Seq<SpecToken>, TokenizeError>,
)
    ensures
        prepend_toks(t1, prepend_toks(t2, r)) == prepend_toks(t1 + t2, r),
{
    match r {
        Ok(rest) => {
            assert(t1 + (t2 + rest) =~= (t1 + t2) + rest);
        },
        Err(e) => {},
    }
}

/// A run of digits, with nothing joinable after it, scans as itself.
proof fn lemma_digits_run(s: Seq<char>, j: int, e: int, seen: bool)
    requires
        0 <= j <= e <= s.len(),
        forall|k: int| j <= k < e ==> is_digit(#[trigger] s[k]),
        e == s.len() || (!is_digit(s[e]) && (s[e] != '.' || seen)),
    ensures
        num_run_len(s, j, seen) == e - j,
    decreases e - j,
{
    if j < e {
        assert(is_digit(s[j]));
        lemma_digits_run(s, j + 1, e, seen);
    }
}

/// Digits, one decimal point, digits: the whole span scans as one run.
proof fn lemma_run_with_dot(s: Seq<char>, b: int, d: int, e: int)
    requires
        0 <= b <= d < e <= s.len(),
        forall|k: int| b <= k < d ==> is_digit(#[trigger] s[k]),
        s[d] == '.',
        forall|k: int| d < k < e ==> is_digit(#[trigger] s[k]),
        e == s.len() || !is_digit(s[e]),
    ensures
        num_run_len(s, b, false) == e - b,
    decreases d - b,
{
    if b == d {
        assert(!is_digit('.'));
        lemma_digits_run(s, d + 1, e, true);
    } else {
        assert(is_digit(s[b]));
        lemma_run_with_dot(s, b + 1, d, e);
    }
}

/// An all-digit run is its own digits and has no decimal point.
proof fn lemma_run_all_digits(ds: Seq<char>)
    requires
        forall|k: int| 0 <= k < ds.len() ==> is_digit(#[trigger] ds[k]),
    ensures
        run_digits(ds) == ds,
        !run_has_dot(ds),
        run_scale(ds) == 0,
    decreases ds.len(),
{
    if ds.len() == 0 {
        assert(run_digits(ds) =~= ds);
    } else {
        assert(is_digit(ds[ds.len() - 1]));
        assert(ds.last() != '.');
        lemma_run_all_digits(ds.drop_last());
        assert(run_digits(ds.drop_last()).push(ds.last()) =~= ds);
    }
}

/// Appending digits after a run that already holds its decimal point
/// appends them to its digits and raises its scale by their number.
proof fn lemma_run_append_digits(a: Seq<char>, bs: Seq<char>)
    requires
        forall|k: int| 0 <= k < bs.len() ==> is_digit(#[trigger] bs[k]),
        run_has_dot(a),
    ensures
        run_digits(a + bs) == run_digits(a) + bs,
        run_has_dot(a + bs),
        run_scale(a + bs) == run_scale(a) + bs.len(),
    decreases bs.len(),
{
    if bs.len() == 0 {
        assert(a + bs =~= a);
        assert(run_digits(a) + bs =~= run_digits(a));
    } else {
        let pre = bs.drop_last();
        assert(is_digit(bs[bs.len() - 1]));
        assert(bs.last() != '.');
        lemma_run_append_digits(a, pre);
        assert((a + bs).drop_last() =~= a + pre);
        assert((a + bs).last() == bs.last());
        assert(run_digits(a + pre).push(bs.last()) =~= (run_digits(a) + pre).push(bs.last()));
        assert((run_digits(a) + pre).push(bs.last()) =~= run_digits(a) + bs);
    }
}

/// A serialized number, with nothing joinable after it, scans as one
/// number token holding exactly that number.
proof fn lemma_tokenize_number(n: Number, s: Seq<char>, i: int)
    requires
        0 <= i,
        i + ser_number(n).len() <= s.len(),
        s.subrange(i, i + ser_number(n).len()) == ser_number(n),
        num_boundary(s, i + ser_number(n).len()),
    ensures
        spec_tokenize_from(s, i) == cons_tok(
            SpecToken::Number(n),
            spec_tokenize_from(s, i + ser_number(n).len()),
        ),
{
    if n.scale == 0 {
        lemma_tokenize_number_whole(n, s, i);
    } else {
        lemma_tokenize_number_frac(n, s, i);
    }
}

/// The case of a number without a fractional part.
#[verifier::rlimit(100)]
proof fn lemma_tokenize_number_whole(n: Number, s: Seq<char>, i: int)
    requires
        0 <= i,
        i + ser_number(n).len() <= s.len(),
        s.subrange(i, i + ser_number(n).len()) == ser_number(n),
        num_boundary(s, i + ser_number(n).len()),
        n.scale == 0,
    ensures
        spec_tokenize_from(s, i) == cons_tok(
            SpecToken::Number(n),
            spec_tokenize_from(s, i + ser_number(n).len()),
        ),
{
    let w = ser_number(n);
    let e = i + w.len();
    lemma_sub_points(s, i, w);
    lemma_digits_of(n.mantissa as nat);
    let ds = digits_of(n.mantissa as nat);
    let sign: Seq<char> = if n.negative {
        seq!['-']
    } else {
        Seq::<char>::empty()
    };
    let b = i + sign.len();
        assert(w == sign + ds);
        assert forall|k: int| b <= k < e implies is_digit(#[trigger] s[k]) by {
            assert(w[k - i] == ds[k - i - sign.len()]);
            assert(s[k] == w[k - i]);
        }
        lemma_digits_run(s, b, e, false);
        let rl = num_run_len(s, b, false) as int;
        assert(rl == e - b);
        let rs = s.subrange(b, b + rl);
        assert forall|l: int| 0 <= l < rl implies rs[l] == ds[l] by {
            assert(s[b + l] == w[b + l - i]);
            assert(w[b + l - i] == ds[l]);
        }
        assert(rs =~= ds);
        lemma_run_all_digits(ds);
        assert(digits_val(run_digits(rs)) == n.mantissa as nat);
        assert(number_of_run(n.negative, rs) == Some(n));
        if n.negative {
            assert(w[0] == sign[0]);
            assert(s[i] == '-');
        } else {
            assert(w[0] == ds[0]);
            assert(s[i] == ds[0]);
            assert(is_digit(s[i]));
        }
}

/// The case of a number with a fractional part.
#[verifier::rlimit(100)]
proof fn lemma_tokenize_number_frac(n: Number, s: Seq<char>, i: int)
    requires
        0 <= i,
        i + ser_number(n).len() <= s.len(),
        s.subrange(i, i + ser_number(n).len()) == ser_number(n),
        num_boundary(s, i + ser_number(n).len()),
        n.scale > 0,
    ensures
        spec_tokenize_from(s, i) == cons_tok(
            SpecToken::Number(n),
            spec_tokenize_from(s, i + ser_number(n).len()),
        ),
{
    let w = ser_number(n);
    let e = i + w.len();
    lemma_sub_points(s, i, w);
    lemma_digits_of(n.mantissa as nat);
    let ds = digits_of(n.mantissa as nat);
    let sign: Seq<char> = if n.negative {
        seq!['-']
    } else {
        Seq::<char>::empty()
    };
    let b = i + sign.len();
        let padded = if ds.len() > n.scale {
            ds
        } else {
            zeros((n.scale + 1 - ds.len()) as nat) + ds
        };
        if ds.len() > n.scale {
        } else {
            lemma_zeros((n.scale + 1 - ds.len()) as nat, ds);
        }
        assert(padded.len() > n.scale);
        assert forall|l: int| 0 <= l < padded.len() implies is_digit(#[trigger] padded[l]) by {
            if ds.len() > n.scale {
            } else {
                let z = (n.scale + 1 - ds.len()) as int;
                if l < z {
                    assert(padded[l] == zeros(z as nat)[l]);
                    assert(padded[l] == '0');
                } else {
                    assert(padded[l] == ds[l - z]);
                }
            }
        }
        assert(digits_val(padded) == n.mantissa as nat);
        let ipart = padded.take(padded.len() - n.scale);
        let fpart = padded.skip(padded.len() - n.scale);
        assert(w == sign + ipart + seq!['.'] + fpart);
        let d = b + ipart.len();
        assert forall|k: int| b <= k < d implies is_digit(#[trigger] s[k]) by {
            assert(s[k] == w[k - i]);
            assert(w[k - i] == ipart[k - b]);
            assert(ipart[k - b] == padded[k - b]);
        }
        assert(s[d] == w[d - i]);
        assert(w[d - i] == '.');
        assert forall|k: int| d < k < e implies is_digit(#[trigger] s[k]) by {
            assert(s[k] == w[k - i]);
            assert(w[k - i] == fpart[k - d - 1]);
            assert(fpart[k - d - 1] == padded[padded.len() - n.scale + k - d - 1]);
        }
        lemma_run_with_dot(s, b, d, e);
        let rl = num_run_len(s, b, false) as int;
        assert(rl == e - b);
        let rs = s.subrange(b, b + rl);
        assert forall|l: int| 0 <= l < rl implies rs[l] == (ipart + seq!['.'] + fpart)[l] by {
            assert(s[b + l] == w[b + l - i]);
        }
        assert(rs =~= ipart + seq!['.'] + fpart);
        let a = ipart + seq!['.'];
        assert forall|l: int| 0 <= l < ipart.len() implies is_digit(#[trigger] ipart[l]) by {
            assert(ipart[l] == padded[l]);
        }
        lemma_run_all_digits(ipart);
        assert(a =~= ipart.push('.'));
        assert(a.drop_last() =~= ipart);
        assert(run_digits(a) == ipart);
        assert(run_has_dot(a));
        assert(run_scale(a) == 0);
        assert forall|l: int| 0 <= l < fpart.len() implies is_digit(#[trigger] fpart[l]) by {
            assert(fpart[l] == padded[padded.len() - n.scale + l]);
        }
        lemma_run_append_digits(a, fpart);
        assert(rs =~= a + fpart);
        assert(run_digits(rs) == ipart + fpart);
        assert(ipart + fpart =~= padded);
        assert(run_scale(rs) == n.scale);
        assert(number_of_run(n.negative, rs) == Some(n));
        assert(ipart.len() > 0);
        if n.negative {
            assert(w[0] == ((sign + ipart) + seq!['.'])[0]);
            assert(((sign + ipart) + seq!['.'])[0] == (sign + ipart)[0]);
            assert((sign + ipart)[0] == sign[0]);
            assert(s[i] == '-');
        } else {
            assert(w[0] == ((sign + ipart) + seq!['.'])[0]);
            assert(((sign + ipart) + seq!['.'])[0] == (sign + ipart)[0]);
            assert((sign + ipart)[0] == ipart[0]);
            assert(s[i] == ipart[0]);
            assert(is_digit(s[i]));
        }
}

/// Scanning from just after the opening quote of a serialized string
/// finds the closing quote exactly past the escaped text.
proof fn lemma_str_scan(s0: Seq<char>, s: Seq<char>, j: int)
    requires
        0 <= j,
        j + esc_str(s0).len() < s.len(),
        s.subrange(j, j + esc_str(s0).len()) == esc_str(s0),
        s[j + esc_str(s0).len()] == '"',
    ensures
        str_run(s, j, false) == Some(esc_str(s0).len() as nat),
    decreases s0.len(),
{
    lemma_sub_points(s, j, esc_str(s0));
    if s0.len() == 0 {
        assert(s[j] == '"');
    } else {
        reveal_with_fuel(str_run, 4);
        let c = s0[0];
        let tail = s0.drop_first();
        if c == '"' || c == '\\' {
            assert(esc_char(c) == seq!['\\', c]);
            assert(esc_str(s0) == seq!['\\', c] + esc_str(tail));
            assert(esc_str(s0).len() == 2 + esc_str(tail).len());
            assert(esc_str(s0)[0] == '\\');
            assert(esc_str(s0)[1] == c);
            assert(s[j] == '\\');
            assert(s[j + 1] == c);
            assert forall|l: int|
                0 <= l < esc_str(tail).len() implies s.subrange(
                j + 2,
                j + 2 + esc_str(tail).len(),
            )[l] == esc_str(tail)[l] by {
                assert(esc_str(s0)[2 + l] == esc_str(tail)[l]);
                assert(s[j + 2 + l] == esc_str(s0)[2 + l]);
                assert(s.subrange(j + 2, j + 2 + esc_str(tail).len())[l] == s[j + 2 + l]);
            }
            assert(s.subrange(j + 2, j + 2 + esc_str(tail).len()) =~= esc_str(tail));
            lemma_str_scan(tail, s, j + 2);
        } else {
            assert(esc_char(c) == seq![c]);
            assert(esc_str(s0) == seq![c] + esc_str(tail));
            assert(esc_str(s0).len() == 1 + esc_str(tail).len());
            assert(esc_str(s0)[0] == c);
            assert(s[j] == c);
            assert forall|l: int|
                0 <= l < esc_str(tail).len() implies s.subrange(
                j + 1,
                j + 1 + esc_str(tail).len(),
            )[l] == esc_str(tail)[l] by {
                assert(esc_str(s0)[1 + l] == esc_str(tail)[l]);
                assert(s[j + 1 + l] == esc_str(s0)[1 + l]);
                assert(s.subrange(j + 1, j + 1 + esc_str(tail).len())[l] == s[j + 1 + l]);
            }
            assert(s.subrange(j + 1, j + 1 + esc_str(tail).len()) =~= esc_str(tail));
            lemma_str_scan(tail, s, j + 1);
        }
    }
}

/// A serialized string scans as one string token holding the raw escaped
/// text.
proof fn lemma_tokenize_string(s0: Seq<char>, s: Seq<char>, i: int)
    requires
        0 <= i,
        i + esc_str(s0).len() + 2 <= s.len(),
        s[i] == '"',
        s.subrange(i + 1, i + 1 + esc_str(s0).len()) == esc_str(s0),
        s[i + 1 + esc_str(s0).len()] == '"',
    ensures
        spec_tokenize_from(s, i) == cons_tok(
            SpecToken::String(esc_str(s0)),
            spec_tokenize_from(s, i + esc_str(s0).len() + 2),
        ),
{
    lemma_str_scan(s0, s, i + 1);
    assert(s.subrange(i + 1, i + 1 + esc_str(s0).len()) == esc_str(s0));
}

/// A serialized value, with nothing joinable after it, scans as exactly
/// its tokens.
#[verifier::rlimit(100)]
proof fn lemma_tokenize_value(v: SpecValue, s: Seq<char>, i: int)
    requires
        0 <= i,
        i + ser_value(v).len() <= s.len(),
        s.subrange(i, i + ser_value(v).len()) == ser_value(v),
        num_boundary(s, i + ser_value(v).len()),
    ensures
        spec_tokenize_from(s, i) == prepend_toks(
            toks_of(v),
            spec_tokenize_from(s, i + ser_value(v).len()),
        ),
    decreases v,
{
    let w = ser_value(v);
    let e = i + w.len();
    lemma_sub_points(s, i, w);
    match v {
        SpecValue::Null => {
            proof_match_kw(s, i, kw_null());
            lemma_cons_is_prepend(SpecToken::Null, spec_tokenize_from(s, e));
        },
        SpecValue::Boolean(b) => {
            if b {
                proof_match_kw(s, i, kw_true());
                lemma_cons_is_prepend(SpecToken::True, spec_tokenize_from(s, e));
            } else {
                proof_match_kw(s, i, kw_false());
                lemma_cons_is_prepend(SpecToken::False, spec_tokenize_from(s, e));
            }
        },
        SpecValue::Number(n) => {
            lemma_tokenize_number(n, s, i);
            lemma_cons_is_prepend(SpecToken::Number(n), spec_tokenize_from(s, e));
        },
        SpecValue::String(s0) => {
            assert(w == seq!['"'] + esc_str(s0) + seq!['"']);
            assert(s[i] == w[0]);
            assert(w[0] == '"');
            lemma_sub_slice(s, i, w, 1int, 1 + esc_str(s0).len() as int);
            assert(w.subrange(1, 1 + esc_str(s0).len() as int) =~= esc_str(s0));
            assert(s[i + 1 + esc_str(s0).len()] == w[1 + esc_str(s0).len() as int]);
            assert(w[1 + esc_str(s0).len() as int] == '"');
            lemma_tokenize_string(s0, s, i);
            lemma_cons_is_prepend(SpecToken::String(esc_str(s0)), spec_tokenize_from(s, e));
        },
        SpecValue::Array(vs) => {
            let inner = ser_items(vs);
            assert(w == seq!['['] + inner + seq![']']);
            assert(s[i] == w[0]);
            assert(w[0] == '[');
            assert(s[i + 1 + inner.len()] == w[1 + inner.len() as int]);
            assert(w[1 + inner.len() as int] == ']');
            if vs.len() == 0 {
                assert(inner =~= Seq::<char>::empty());
                assert(s[i + 1] == ']');
                assert(spec_tokenize_from(s, i) == cons_tok(
                    SpecToken::LeftBracket,
                    cons_tok(SpecToken::RightBracket, spec_tokenize_from(s, i + 2)),
                ));
                lemma_cons_is_prepend(SpecToken::RightBracket, spec_tokenize_from(s, i + 2));
                lemma_cons_prepend(
                    SpecToken::LeftBracket,
                    seq![SpecToken::RightBracket],
                    spec_tokenize_from(s, i + 2),
                );
                assert(toks_of(v) =~= seq![SpecToken::LeftBracket, SpecToken::RightBracket]);
            } else {
                lemma_sub_slice(s, i, w, 1int, 1 + inner.len() as int);
                assert(w.subrange(1, 1 + inner.len() as int) =~= inner);
                lemma_tokenize_items(vs, s, i + 1);
                assert(spec_tokenize_from(s, i) == cons_tok(
                    SpecToken::LeftBracket,
                    spec_tokenize_from(s, i + 1),
                ));
                assert(spec_tokenize_from(s, i + 1 + inner.len()) == cons_tok(
                    SpecToken::RightBracket,
                    spec_tokenize_from(s, e),
                ));
                lemma_cons_is_prepend(SpecToken::RightBracket, spec_tokenize_from(s, e));
                lemma_prepend_prepend(
                    items_toks(vs),
                    seq![SpecToken::RightBracket],
                    spec_tokenize_from(s, e),
                );
                lemma_cons_prepend(
                    SpecToken::LeftBracket,
                    items_toks(vs) + seq![SpecToken::RightBracket],
                    spec_tokenize_from(s, e),
                );
                assert(toks_of(v) =~= seq![SpecToken::LeftBracket] + (items_toks(vs) + seq![
                    SpecToken::RightBracket,
                ]));
            }
        },
        SpecValue::Object(es) => {
            let inner = ser_entries(es);
            assert(w == seq!['{'] + inner + seq!['}']);
            assert(s[i] == w[0]);
            assert(w[0] == '{');
            assert(s[i + 1 + inner.len()] == w[1 + inner.len() as int]);
            assert(w[1 + inner.len() as int] == '}');
            if es.len() == 0 {
                assert(inner =~= Seq::<char>::empty());
                assert(s[i + 1] == '}');
                assert(spec_tokenize_from(s, i) == cons_tok(
                    SpecToken::LeftBrace,
                    cons_tok(SpecToken::RightBrace, spec_tokenize_from(s, i + 2)),
                ));
                lemma_cons_is_prepend(SpecToken::RightBrace, spec_tokenize_from(s, i + 2));
                lemma_cons_prepend(
                    SpecToken::LeftBrace,
                    seq![SpecToken::RightBrace],
                    spec_tokenize_from(s, i + 2),
                );
                assert(toks_of(v) =~= seq![SpecToken::LeftBrace, SpecToken::RightBrace]);
            } else {
                lemma_sub_slice(s, i, w, 1int, 1 + inner.len() as int);
                assert(w.subrange(1, 1 + inner.len() as int) =~= inner);
                lemma_tokenize_entries(es, s, i + 1);
                assert(spec_tokenize_from(s, i) == cons_tok(
                    SpecToken::LeftBrace,
                    spec_tokenize_from(s, i + 1),
                ));
                assert(spec_tokenize_from(s, i + 1 + inner.len()) == cons_tok(
                    SpecToken::RightBrace,
                    spec_tokenize_from(s, e),
                ));
                lemma_cons_is_prepend(SpecToken::RightBrace, spec_tokenize_from(s, e));
                lemma_prepend_prepend(
                    entries_toks(es),
                    seq![SpecToken::RightBrace],
                    spec_tokenize_from(s, e),
                );
                lemma_cons_prepend(
                    SpecToken::LeftBrace,
                    entries_toks(es) + seq![SpecToken::RightBrace],
                    spec_tokenize_from(s, e),
                );
                assert(toks_of(v) =~= seq![SpecToken::LeftBrace] + (entries_toks(es) + seq![
                    SpecToken::RightBrace,
                ]));
            }
        },
    }
}

/// A keyword standing at the cursor matches.
proof fn proof_match_kw(s: Seq<char>, i: int, kw: Seq<char>)
    requires
        0 <= i,
        i + kw.len() <= s.len(),
        s.subrange(i, i + kw.len()) == kw,
        kw.len() <= 5,
    ensures
        spec_match_kw(s, i, kw, 0) == Ok::<(), TokenizeError>(()),
{
    reveal_with_fuel(spec_match_kw, 7);
    lemma_sub_points(s, i, kw);
    assert forall|k: int| 0 <= k < kw.len() implies s[i + k] == kw[k] by {}
}

/// The serialized elements of a non-empty array, with the closing bracket
/// after them, scan as their tokens.
#[verifier::rlimit(100)]
proof fn lemma_tokenize_items(vs: Seq<SpecValue>, s: Seq<char>, i: int)
    requires
        vs.len() > 0,
        0 <= i,
        i + ser_items(vs).len() < s.len(),
        s.subrange(i, i + ser_items(vs).len()) == ser_items(vs),
        s[i + ser_items(vs).len()] == ']',
    ensures
        spec_tokenize_from(s, i) == prepend_toks(
            items_toks(vs),
            spec_tokenize_from(s, i + ser_items(vs).len()),
        ),
    decreases vs,
{
    let v0 = vs[0];
    let w0 = ser_value(v0);
    let inner = ser_items(vs);
    lemma_sub_points(s, i, inner);
    if vs.len() == 1 {
        assert(inner == w0);
        assert(!is_digit(']') && ']' != '.');
        lemma_tokenize_value(v0, s, i);
    } else {
        let rest = vs.drop_first();
        assert(inner == w0 + seq![','] + ser_items(rest));
        lemma_sub_slice(s, i, inner, 0int, w0.len() as int);
        assert(inner.subrange(0, w0.len() as int) =~= w0);
        let j = i + w0.len();
        assert(s[j] == inner[w0.len() as int]);
        assert(inner[w0.len() as int] == ',');
        assert(!is_digit(',') && ',' != '.');
        lemma_tokenize_value(v0, s, i);
        lemma_sub_slice(s, i, inner, w0.len() as int + 1, inner.len() as int);
        assert(inner.subrange(w0.len() as int + 1, inner.len() as int) =~= ser_items(rest));
        lemma_tokenize_items(rest, s, j + 1);
        assert(spec_tokenize_from(s, j) == cons_tok(SpecToken::Comma, spec_tokenize_from(s, j + 1)));
        let fin = spec_tokenize_from(s, i + inner.len());
        lemma_cons_prepend(SpecToken::Comma, items_toks(rest), fin);
        lemma_prepend_prepend(toks_of(v0), seq![SpecToken::Comma] + items_toks(rest), fin);
        assert(items_toks(vs) =~= toks_of(v0) + (seq![SpecToken::Comma] + items_toks(rest)));
    }
}

/// The serialized members of a non-empty object, with the closing brace
/// after them, scan as their tokens.
#[verifier::rlimit(100)]
proof fn lemma_tokenize_entries(es: Seq<(Seq<char>, SpecValue)>, s: Seq<char>, i: int)
    requires
        es.len() > 0,
        0 <= i,
        i + ser_entries(es).len() < s.len(),
        s.subrange(i, i + ser_entries(es).len()) == ser_entries(es),
        s[i + ser_entries(es).len()] == '}',
    ensures
        spec_tokenize_from(s, i) == prepend_toks(
            entries_toks(es),
            spec_tokenize_from(s, i + ser_entries(es).len()),
        ),
    decreases es,
{
    let k0 = es[0].0;
    let v0 = es[0].1;
    let w0 = ser_value(v0);
    let ek = esc_str(k0);
    let inner = ser_entries(es);
    let head = seq!['"'] + ek + seq!['"', ':'] + ser_value(v0);
    lemma_sub_points(s, i, inner);
    assert(s[i] == inner[0]);
    assert(inner[0] == head[0]);
    assert(head[0] == '"');
    lemma_sub_slice(s, i, inner, 1int, 1 + ek.len() as int);
    assert(inner.subrange(1, 1 + ek.len() as int) =~= ek) by {
        assert forall|l: int| 0 <= l < ek.len() implies inner.subrange(1, 1 + ek.len() as int)[l]
            == ek[l] by {
            assert(inner[1 + l] == head[1 + l]);
            assert(head[1 + l] == ek[l]);
        }
    }
    assert(s[i + 1 + ek.len()] == inner[1 + ek.len() as int]);
    assert(inner[1 + ek.len() as int] == head[1 + ek.len() as int]);
    assert(head[1 + ek.len() as int] == '"');
    lemma_tokenize_string(k0, s, i);
    let jc = i + ek.len() + 2;
    assert(s[jc] == inner[jc - i]);
    assert(inner[jc - i] == head[jc - i]);
    assert(head[jc - i] == ':');
    let jv = jc + 1;
    lemma_sub_slice(s, i, inner, jv - i, jv - i + w0.len() as int);
    assert(inner.subrange(jv - i, jv - i + w0.len() as int) =~= w0) by {
        assert forall|l: int| 0 <= l < w0.len() implies inner.subrange(
            jv - i,
            jv - i + w0.len() as int,
        )[l] == w0[l] by {
            assert(inner[jv - i + l] == head[jv - i + l]);
            assert(head[jv - i + l] == w0[l]);
        }
    }
    let jend = jv + w0.len();
    if es.len() == 1 {
        assert(inner == head);
        assert(!is_digit('}') && '}' != '.');
        lemma_tokenize_value(v0, s, jv);
        assert(spec_tokenize_from(s, jc) == cons_tok(SpecToken::Colon, spec_tokenize_from(s, jv)));
        let fin = spec_tokenize_from(s, i + inner.len());
        lemma_cons_is_prepend(SpecToken::Colon, spec_tokenize_from(s, jv));
        lemma_cons_prepend(SpecToken::Colon, toks_of(v0), fin);
        lemma_cons_prepend(
            SpecToken::String(ek),
            seq![SpecToken::Colon] + toks_of(v0),
            fin,
        );
        assert(entries_toks(es) =~= seq![SpecToken::String(ek)] + (seq![SpecToken::Colon]
            + toks_of(v0)));
    } else {
        let rest = es.drop_first();
        assert(inner == head + seq![','] + ser_entries(rest));
        assert(s[jend] == inner[jend - i]);
        assert(inner[jend - i] == ',');
        assert(!is_digit(',') && ',' != '.');
        lemma_tokenize_value(v0, s, jv);
        lemma_sub_slice(s, i, inner, jend - i + 1, inner.len() as int);
        assert(inner.subrange(jend - i + 1, inner.len() as int) =~= ser_entries(rest));
        lemma_tokenize_entries(rest, s, jend + 1);
        assert(spec_tokenize_from(s, jend) == cons_tok(
            SpecToken::Comma,
            spec_tokenize_from(s, jend + 1),
        ));
        assert(spec_tokenize_from(s, jc) == cons_tok(SpecToken::Colon, spec_tokenize_from(s, jv)));
        let fin = spec_tokenize_from(s, i + inner.len());
        lemma_cons_prepend(SpecToken::Comma, entries_toks(rest), fin);
        lemma_prepend_prepend(
            toks_of(v0),
            seq![SpecToken::Comma] + entries_toks(rest),
            fin,
        );
        lemma_cons_prepend(
            SpecToken::Colon,
            toks_of(v0) + (seq![SpecToken::Comma] + entries_toks(rest)),
            fin,
        );
        lemma_cons_prepend(
            SpecToken::String(ek),
            seq![SpecToken::Colon] + (toks_of(v0) + (seq![SpecToken::Comma] + entries_toks(
                rest,
            ))),
            fin,
        );
        assert(entries_toks(es) =~= seq![SpecToken::String(ek)] + (seq![SpecToken::Colon] + (
        toks_of(v0) + (seq![SpecToken::Comma] + entries_toks(rest)))));
    }
}

/// Tokenizing never fails on serialized output: the text a correct
/// serializer emits for a value scans as exactly that value's tokens.
pub proof fn lemma_serialized_tokenizes(v: SpecValue)
    ensures
        spec_tokenize(ser_value(v)) == Ok::<Seq<SpecToken>, TokenizeError>(toks_of(v)),
{
    let s = ser_value(v);
    assert(s.subrange(0, s.len() as int) =~= s);
    lemma_tokenize_value(v, s, 0);
    assert(spec_tokenize_from(s, s.len() as int) == Ok::<Seq<SpecToken>, TokenizeError>(
        Seq::empty(),
    ));
    assert(toks_of(v) + Seq::<SpecToken>::empty() =~= toks_of(v));
}

/// Round trip: parsing the text a correct serializer emits for a
/// well-formed value gives that value back.
pub proof fn lemma_round_trip(v: SpecValue)
    requires
        wf_value(v),
    ensures
        spec_parse(ser_value(v)) == Ok::<SpecValue, ParseError>(v),
{
    lemma_serialized_tokenizes(v);
    lemma_token_round_trip(v);
}

} // verus!
