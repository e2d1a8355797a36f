//! The tokens of a TOON line: a key, a quoted or bare scalar, and the
//! delimited values of a row or an inline array. The document walk is in
//! `toon`; this file reads one piece of text at a time and says where it
//! stopped.

use vstd::prelude::*;
use vstd::string::StringExecFns;

use crate::text::{
    as_int, begins_with, find, find2, find2_in, is_digit, lead_ws, lemma_find2, lemma_lead_ws,
    lemma_trim_bounds, lemma_utf8_len_subrange, lemma_utf8_len_trim, push_char, starts_with,
    string_of, trim, trim_of, trim_start, trim_start_of, utf8_len, utf8_len_of,
};
use crate::toon::{Line, LineModel, Malformed, Refusal, agrees, fail, failure, fits, place, start_in};
use crate::value::{Json, Number, NumberModel, Value, lemma_values_view_push, values_view};

verus! {

broadcast use vstd::seq::group_seq_axioms, vstd::string::group_string_axioms;

// ---------------------------------------------------------------- quotes

/// The index of the first quote at or past `i` that no backslash escapes,
/// given whether the character before `i` is an escaping backslash.
pub open spec fn close_from(t: Seq<char>, i: int, escaped: bool) -> Option<int>
    decreases t.len() - i,
{
    if 0 <= i < t.len() {
        if t[i] == '\\' && !escaped {
            close_from(t, i + 1, true)
        } else if t[i] == '"' && !escaped {
            Some(i)
        } else {
            close_from(t, i + 1, false)
        }
    } else {
        None
    }
}

/// The index of the quote that closes the string that starts at `t[0]`.
pub open spec fn spec_closing_quote(t: Seq<char>) -> Option<int> {
    close_from(t, 1, false)
}

pub proof fn lemma_close_from(t: Seq<char>, i: int, escaped: bool)
    ensures
        close_from(t, i, escaped) matches Some(k) ==> i <= k < t.len() && t[k] == '"',
    decreases t.len() - i,
{
    if 0 <= i < t.len() {
        if t[i] == '\\' && !escaped {
            lemma_close_from(t, i + 1, true);
        } else if !(t[i] == '"' && !escaped) {
            lemma_close_from(t, i + 1, false);
        }
    }
}

pub proof fn lemma_closing_quote(t: Seq<char>)
    ensures
        spec_closing_quote(t) matches Some(k) ==> 1 <= k < t.len() && t[k] == '"',
{
    lemma_close_from(t, 1, false);
}

/// The index of the quote that closes the string starting at `text[0]`.
pub fn closing_quote(text: &[char]) -> (r: Option<usize>)
    ensures
        as_int(r) == spec_closing_quote(text@),
{
    let mut escaped = false;
    let mut i: usize = 1;
    while i < text.len()
        invariant
            spec_closing_quote(text@) == close_from(text@, i as int, escaped),
            1 <= i,
        decreases text@.len() - i,
    {
        let c = text[i];
        if c == '\\' && !escaped {
            escaped = true;
        } else if c == '"' && !escaped {
            return Some(i);
        } else {
            escaped = false;
        }
        i = i + 1;
    }
    None
}

/// What a backslash followed by `c` stands for.
pub open spec fn escaped_char(c: char) -> Option<char> {
    if c == '"' {
        Some('"')
    } else if c == '\\' {
        Some('\\')
    } else if c == 'n' {
        Some('\n')
    } else if c == 'r' {
        Some('\r')
    } else if c == 't' {
        Some('\t')
    } else {
        None
    }
}

pub open spec fn unknown_escape(c: char) -> Seq<char> {
    "unknown escape \\"@.push(c)
}

/// The text between the quotes, escapes resolved.
pub open spec fn unescape(s: Seq<char>) -> Result<Seq<char>, Seq<char>>
    decreases s.len(),
{
    if s.len() == 0 {
        Ok(Seq::empty())
    } else if s[0] != '\\' {
        match unescape(s.drop_first()) {
            Ok(r) => Ok(seq![s[0]] + r),
            Err(e) => Err(e),
        }
    } else if s.len() == 1 {
        Err(unknown_escape(' '))
    } else {
        match escaped_char(s[1]) {
            Some(c) => match unescape(s.skip(2)) {
                Ok(r) => Ok(seq![c] + r),
                Err(e) => Err(e),
            },
            None => Err(unknown_escape(s[1])),
        }
    }
}

/// The text of a quoted string, escapes resolved.
pub open spec fn spec_unquote(q: Seq<char>) -> Result<Seq<char>, Seq<char>> {
    if q.len() >= 2 && q[0] == '"' && q[q.len() - 1] == '"' {
        unescape(q.subrange(1, q.len() - 1))
    } else {
        Err("expected a quoted string"@)
    }
}

pub open spec fn prepend(p: Seq<char>, r: Result<Seq<char>, Seq<char>>) -> Result<Seq<char>, Seq<char>> {
    match r {
        Ok(s) => Ok(p + s),
        Err(e) => Err(e),
    }
}

fn escape_of(c: char) -> (r: Option<char>)
    ensures
        r == escaped_char(c),
{
    if c == '"' {
        Some('"')
    } else if c == '\\' {
        Some('\\')
    } else if c == 'n' {
        Some('\n')
    } else if c == 'r' {
        Some('\r')
    } else if c == 't' {
        Some('\t')
    } else {
        None
    }
}

fn unknown_escape_message(c: char) -> (r: String)
    ensures
        r@ == unknown_escape(c),
{
    let mut m = String::from_str("unknown escape \\");
    push_char(&mut m, c);
    m
}

/// The text of a quoted string, escapes resolved.
pub fn unquote(quoted: &[char]) -> (r: Result<String, String>)
    ensures
        match r {
            Ok(s) => spec_unquote(quoted@) == Ok::<Seq<char>, Seq<char>>(s@),
            Err(e) => spec_unquote(quoted@) == Err::<Seq<char>, Seq<char>>(e@),
        },
{
    let n = quoted.len();
    if !(n >= 2 && quoted[0] == '"' && quoted[n - 1] == '"') {
        return Err(String::from_str("expected a quoted string"));
    }
    let inner = vstd::slice::slice_subrange(quoted, 1, n - 1);
    assert(quoted@[0] == '"' && quoted@[quoted@.len() - 1] == '"');
    assert(spec_unquote(quoted@) == unescape(inner@));
    let mut out = String::new();
    let mut i: usize = 0;
    assert(inner@.skip(0) =~= inner@);
    while i < inner.len()
        invariant
            i <= inner@.len(),
            unescape(inner@) == prepend(out@, unescape(inner@.skip(i as int))),
            spec_unquote(quoted@) == unescape(inner@),
        decreases inner@.len() - i,
    {
        let c = inner[i];
        let ghost rest = inner@.skip(i as int);
        if c != '\\' {
            assert(rest.drop_first() =~= inner@.skip(i + 1));
            assert(out@.push(c) =~= out@ + seq![c]);
            proof {
                match unescape(inner@.skip(i + 1)) {
                    Ok(r) => {
                        assert(out@ + (seq![c] + r) =~= out@.push(c) + r);
                    },
                    Err(_) => {},
                }
            }
            push_char(&mut out, c);
            i = i + 1;
        } else {
            assert(rest[0] == c);
            if i + 1 >= inner.len() {
                assert(rest.len() == 1);
                assert(unescape(rest) == Err::<Seq<char>, Seq<char>>(unknown_escape(' ')));
                return Err(unknown_escape_message(' '));
            }
            assert(rest[1] == inner@[i + 1]);
            match escape_of(inner[i + 1]) {
                Some(e) => {
                    assert(rest.skip(2) =~= inner@.skip(i + 2));
                    proof {
                        match unescape(inner@.skip(i + 2)) {
                            Ok(r) => {
                                assert(out@ + (seq![e] + r) =~= out@.push(e) + r);
                            },
                            Err(_) => {},
                        }
                    }
                    push_char(&mut out, e);
                    i = i + 2;
                },
                None => {
                    assert(unescape(rest) == Err::<Seq<char>, Seq<char>>(unknown_escape(inner@[i + 1])));
                    return Err(unknown_escape_message(inner[i + 1]));
                },
            }
        }
    }
    proof {
        assert(inner@.skip(i as int) =~= Seq::<char>::empty());
        assert(out@ + Seq::<char>::empty() =~= out@);
    }
    Ok(out)
}

// ---------------------------------------------------------------- numbers

/// The length of the run of ASCII digits that starts at `from`.
pub open spec fn digit_run(t: Seq<char>, from: int) -> nat
    decreases t.len() - from,
{
    if 0 <= from < t.len() && is_digit(t[from]) {
        1 + digit_run(t, from + 1)
    } else {
        0
    }
}

pub proof fn lemma_digit_run(t: Seq<char>, from: int)
    requires
        0 <= from,
    ensures
        from + digit_run(t, from) <= t.len() || digit_run(t, from) == 0,
        forall|i: int| from <= i < from + digit_run(t, from) ==> is_digit(#[trigger] t[i]),
        from + digit_run(t, from) < t.len() ==> !is_digit(t[from + digit_run(t, from)]),
    decreases t.len() - from,
{
    if 0 <= from < t.len() && is_digit(t[from]) {
        lemma_digit_run(t, from + 1);
    }
}

pub fn digit_run_of(t: &[char], from: usize) -> (r: usize)
    ensures
        r == digit_run(t@, from as int),
{
    let mut i = from;
    while i < t.len() && '0' <= t[i] && t[i] <= '9'
        invariant
            from <= i,
            digit_run(t@, from as int) == (i - from) + digit_run(t@, i as int),
        decreases t@.len() - i,
    {
        i = i + 1;
    }
    i - from
}

/// What follows an exponent marker, if any, runs to the end.
pub open spec fn exponent_tail(t: Seq<char>, at: int) -> bool {
    if 0 <= at < t.len() && (t[at] == 'e' || t[at] == 'E') {
        let after_sign = if at + 1 < t.len() && (t[at + 1] == '+' || t[at + 1] == '-') {
            at + 2
        } else {
            at + 1
        };
        let e = digit_run(t, after_sign);
        e != 0 && after_sign + e == t.len()
    } else {
        at == t.len()
    }
}

/// A fraction, if any, then the exponent.
pub open spec fn fraction_tail(t: Seq<char>, at: int) -> bool {
    if 0 <= at < t.len() && t[at] == '.' {
        let f = digit_run(t, at + 1);
        f != 0 && exponent_tail(t, at + 1 + f)
    } else {
        exponent_tail(t, at)
    }
}

/// The JSON number grammar: `-?(0|[1-9][0-9]*)(\.[0-9]+)?([eE][+-]?[0-9]+)?`.
pub open spec fn spec_is_number(t: Seq<char>) -> bool {
    let at = if starts_with(t, '-') {
        1int
    } else {
        0int
    };
    if at < t.len() && t[at] == '0' {
        fraction_tail(t, at + 1)
    } else if at < t.len() && '1' <= t[at] && t[at] <= '9' {
        fraction_tail(t, at + digit_run(t, at))
    } else {
        false
    }
}

fn exponent_tail_of(t: &[char], at: usize) -> (r: bool)
    requires
        at <= t@.len(),
    ensures
        r == exponent_tail(t@, at as int),
{
    if at < t.len() && (t[at] == 'e' || t[at] == 'E') {
        let after_sign = if at + 1 < t.len() && (t[at + 1] == '+' || t[at + 1] == '-') {
            at + 2
        } else {
            at + 1
        };
        let e = digit_run_of(t, after_sign);
        proof {
            lemma_digit_run(t@, after_sign as int);
        }
        e != 0 && after_sign + e == t.len()
    } else {
        at == t.len()
    }
}

fn fraction_tail_of(t: &[char], at: usize) -> (r: bool)
    requires
        at <= t@.len(),
    ensures
        r == fraction_tail(t@, at as int),
{
    if at < t.len() && t[at] == '.' {
        let f = digit_run_of(t, at + 1);
        proof {
            lemma_digit_run(t@, at + 1);
        }
        f != 0 && exponent_tail_of(t, at + 1 + f)
    } else {
        exponent_tail_of(t, at)
    }
}

/// The JSON number grammar, which is what an unquoted number must satisfy.
pub fn is_number(text: &[char]) -> (r: bool)
    ensures
        r == spec_is_number(text@),
{
    let at: usize = if begins_with(text, '-') {
        1
    } else {
        0
    };
    if at < text.len() && text[at] == '0' {
        fraction_tail_of(text, at + 1)
    } else if at < text.len() && '1' <= text[at] && text[at] <= '9' {
        let d = digit_run_of(text, at);
        proof {
            lemma_digit_run(text@, at as int);
        }
        fraction_tail_of(text, at + d)
    } else {
        false
    }
}

/// The value of a digit character.
pub open spec fn digit_value(c: char) -> int {
    (c as int) - 48
}

/// The value of a run of decimal digits.
pub open spec fn digits_value(d: Seq<char>) -> int
    decreases d.len(),
{
    if d.len() == 0 {
        0
    } else {
        digits_value(d.drop_last()) * 10 + digit_value(d.last())
    }
}

/// The digits of an integer, past its sign.
pub open spec fn magnitude(t: Seq<char>) -> Seq<char> {
    if starts_with(t, '-') {
        t.drop_first()
    } else {
        t
    }
}

/// An optional minus and nothing but digits, which is what
/// `i64::from_str` and `u64::from_str` read when given a JSON number.
pub open spec fn is_integer_text(t: Seq<char>) -> bool {
    magnitude(t).len() > 0 && digit_run(magnitude(t), 0) == magnitude(t).len()
}

pub open spec fn integer_value(t: Seq<char>) -> int {
    if starts_with(t, '-') {
        -digits_value(magnitude(t))
    } else {
        digits_value(magnitude(t))
    }
}

/// What a JSON number reads as: an `i64` where it is an integer that fits,
/// else a `u64` where it fits that, else the text as written.
pub open spec fn number_model(t: Seq<char>) -> NumberModel {
    if is_integer_text(t) && i64::MIN <= integer_value(t) <= i64::MAX {
        NumberModel::Int(integer_value(t) as i64)
    } else if is_integer_text(t) && 0 <= integer_value(t) <= u64::MAX {
        NumberModel::UInt(integer_value(t) as u64)
    } else {
        NumberModel::Decimal(t)
    }
}

pub proof fn lemma_digits_value_nonneg(d: Seq<char>)
    requires
        forall|i: int| 0 <= i < d.len() ==> is_digit(#[trigger] d[i]),
    ensures
        digits_value(d) >= 0,
    decreases d.len(),
{
    if d.len() > 0 {
        lemma_digits_value_nonneg(d.drop_last());
        assert(is_digit(d[d.len() - 1]));
    }
}

/// The value of the digits `d`, where it fits in a `u64`.
pub fn digits_u64(d: &[char]) -> (r: Option<u64>)
    requires
        forall|i: int| 0 <= i < d@.len() ==> is_digit(#[trigger] d@[i]),
    ensures
        match r {
            Some(v) => v as int == digits_value(d@),
            None => digits_value(d@) > u64::MAX,
        },
{
    let mut acc: u64 = 0;
    let mut over = false;
    let mut i: usize = 0;
    while i < d.len()
        invariant
            i <= d@.len(),
            forall|j: int| 0 <= j < d@.len() ==> is_digit(#[trigger] d@[j]),
            !over ==> acc as int == digits_value(d@.take(i as int)),
            over ==> digits_value(d@.take(i as int)) > u64::MAX,
        decreases d@.len() - i,
    {
        let c = d[i];
        assert(is_digit(d@[i as int]));
        let v = (c as u32 - 48) as u64;
        proof {
            assert(d@.take(i + 1).drop_last() =~= d@.take(i as int));
            assert(d@.take(i + 1).last() == c);
            lemma_digits_value_nonneg(d@.take(i as int));
        }
        if !over {
            if acc > (u64::MAX - v) / 10 {
                over = true;
            } else {
                acc = acc * 10 + v;
            }
        }
        i = i + 1;
    }
    assert(d@.take(i as int) =~= d@);
    if over {
        None
    } else {
        Some(acc)
    }
}

/// What a JSON number reads as.
fn number_of(t: &[char]) -> (r: Number)
    ensures
        r@ == number_model(t@),
{
    let negative = begins_with(t, '-');
    let digits = if negative {
        vstd::slice::slice_subrange(t, 1, t.len())
    } else {
        t
    };
    assert(digits@ =~= magnitude(t@));
    let run = digit_run_of(digits, 0);
    if digits.len() == 0 || run != digits.len() {
        return Number::Decimal(string_of(t));
    }
    proof {
        lemma_digit_run(digits@, 0);
    }
    match digits_u64(digits) {
        Some(m) => {
            if negative {
                if m <= 9223372036854775808 {
                    let v: i64 = if m == 9223372036854775808 {
                        i64::MIN
                    } else {
                        -(m as i64)
                    };
                    Number::Int(v)
                } else {
                    Number::Decimal(string_of(t))
                }
            } else if m <= 9223372036854775807 {
                Number::Int(m as i64)
            } else {
                Number::UInt(m)
            }
        },
        None => Number::Decimal(string_of(t)),
    }
}

// ---------------------------------------------------------------- scalars

/// One value as written: quoted text, a keyword, a number, or bare text.
pub open spec fn spec_primitive(text: Seq<char>, line: LineModel, offset: int) -> Result<Json, Refusal> {
    if starts_with(text, '"') {
        match spec_closing_quote(text) {
            None => Err(failure(line, offset, "the quote never closes"@)),
            Some(end) => if trim(text.skip(end + 1)).len() != 0 {
                Err(
                    failure(
                        line,
                        offset + utf8_len(text.take(end + 1)),
                        "content after the closing quote"@,
                    ),
                )
            } else {
                match spec_unquote(text.take(end + 1)) {
                    Ok(s) => Ok(Json::Str(s)),
                    Err(m) => Err(failure(line, offset, m)),
                }
            },
        }
    } else if text =~= seq!['n', 'u', 'l', 'l'] {
        Ok(Json::Null)
    } else if text =~= seq!['t', 'r', 'u', 'e'] {
        Ok(Json::Bool(true))
    } else if text =~= seq!['f', 'a', 'l', 's', 'e'] {
        Ok(Json::Bool(false))
    } else if spec_is_number(text) {
        Ok(Json::Number(number_model(text)))
    } else {
        Ok(Json::Str(text))
    }
}

fn is_word4(t: &[char], a: char, b: char, c: char, d: char) -> (r: bool)
    ensures
        r == (t@ =~= seq![a, b, c, d]),
{
    t.len() == 4 && t[0] == a && t[1] == b && t[2] == c && t[3] == d
}

fn is_false(t: &[char]) -> (r: bool)
    ensures
        r == (t@ =~= seq!['f', 'a', 'l', 's', 'e']),
{
    t.len() == 5 && t[0] == 'f' && t[1] == 'a' && t[2] == 'l' && t[3] == 's' && t[4] == 'e'
}

/// One value as written: quoted text, a keyword, a number, or bare text.
pub fn primitive(text: &[char], line: &Line, offset: usize) -> (r: Result<Value, Malformed>)
    requires
        line@.column + offset + utf8_len(text@) <= usize::MAX,
    ensures
        agrees(r, spec_primitive(text@, line@, offset as int)),
{
    if begins_with(text, '"') {
        let end = match closing_quote(text) {
            Some(end) => end,
            None => {
                return Err(fail(line, offset, String::from_str("the quote never closes")));
            },
        };
        proof {
            lemma_closing_quote(text@);
            assert(text@.len() == text.len());
            lemma_utf8_len_subrange(text@, 0, end + 1);
        }
        let after = vstd::slice::slice_subrange(text, end + 1, text.len());
        let quoted = vstd::slice::slice_subrange(text, 0, end + 1);
        if trim_of(after).len() != 0 {
            let width = utf8_len_of(quoted);
            return Err(
                fail(line, offset + width, String::from_str("content after the closing quote")),
            );
        }
        return match unquote(quoted) {
            Ok(s) => Ok(Value::String(s)),
            Err(m) => Err(fail(line, offset, m)),
        };
    }
    if is_word4(text, 'n', 'u', 'l', 'l') {
        return Ok(Value::Null);
    }
    if is_word4(text, 't', 'r', 'u', 'e') {
        return Ok(Value::Bool(true));
    }
    if is_false(text) {
        return Ok(Value::Bool(false));
    }
    if is_number(text) {
        return Ok(Value::Number(number_of(text)));
    }
    Ok(Value::String(string_of(text)))
}

// ---------------------------------------------------------------- keys

/// `key` and what follows it, which starts with `:` or `[`.
pub open spec fn spec_key(text: Seq<char>, line: LineModel, offset: int) -> Result<(Seq<char>, Seq<char>), Refusal> {
    if starts_with(text, '"') {
        match spec_closing_quote(text) {
            None => Err(failure(line, offset, "the key's quote never closes"@)),
            Some(end) => match spec_unquote(text.take(end + 1)) {
                Err(m) => Err(failure(line, offset, m)),
                Ok(k) => {
                    let after = text.skip(end + 1);
                    if starts_with(after, ':') || starts_with(after, '[') {
                        Ok((k, after))
                    } else {
                        Err(
                            failure(
                                line,
                                offset + utf8_len(text.take(end + 1)),
                                "expected : or [ after the key"@,
                            ),
                        )
                    }
                },
            },
        }
    } else {
        match find2(text, ':', '[') {
            None => Err(failure(line, offset, "expected key: value"@)),
            Some(end) => {
                let k = trim(text.take(end));
                if k.len() == 0 {
                    Err(failure(line, offset, "the key is empty"@))
                } else {
                    Ok((k, text.skip(end)))
                }
            },
        }
    }
}

/// Whether `text` starts with a key and what a field puts after one.
pub open spec fn spec_is_field(text: Seq<char>) -> bool {
    if starts_with(text, '"') {
        match spec_closing_quote(text) {
            Some(end) => starts_with(text.skip(end + 1), ':') || starts_with(text.skip(end + 1), '['),
            None => false,
        }
    } else {
        match find2(text, ':', '[') {
            Some(end) => trim(text.take(end)).len() != 0,
            None => false,
        }
    }
}

/// `key` and what follows it, which starts with `:` or `[`.
pub fn key<'a>(text: &'a [char], line: &Line, offset: usize) -> (r: Result<(String, &'a [char]), Malformed>)
    requires
        line@.column + offset + utf8_len(text@) <= usize::MAX,
    ensures
        agrees(r, spec_key(text@, line@, offset as int)),
{
    if begins_with(text, '"') {
        let end = match closing_quote(text) {
            Some(end) => end,
            None => {
                let base = offset;
                return Err(fail(line, base, String::from_str("the key's quote never closes")));
            },
        };
        proof {
            lemma_closing_quote(text@);
            assert(text@.len() == text.len());
            lemma_utf8_len_subrange(text@, 0, end + 1);
        }
        let quoted = vstd::slice::slice_subrange(text, 0, end + 1);
        let k = match unquote(quoted) {
            Ok(k) => k,
            Err(m) => {
                let base = offset;
                return Err(fail(line, base, m));
            },
        };
        let after = vstd::slice::slice_subrange(text, end + 1, text.len());
        if begins_with(after, ':') || begins_with(after, '[') {
            return Ok((k, after));
        }
        let base = offset;
        let width = utf8_len_of(quoted);
        return Err(fail(line, base + width, String::from_str("expected : or [ after the key")));
    }
    let end = match find2_in(text, ':', '[') {
        Some(end) => end,
        None => {
            let base = offset;
            return Err(fail(line, base, String::from_str("expected key: value")));
        },
    };
    proof {
        lemma_find2(text@, ':', '[');
    }
    let k = trim_of(vstd::slice::slice_subrange(text, 0, end));
    if k.len() == 0 {
        let base = offset;
        return Err(fail(line, base, String::from_str("the key is empty")));
    }
    Ok((string_of(k), vstd::slice::slice_subrange(text, end, text.len())))
}

/// Whether `text` starts with a key and what a field puts after one.
pub fn is_field(text: &[char]) -> (r: bool)
    ensures
        r == spec_is_field(text@),
{
    if begins_with(text, '"') {
        return match closing_quote(text) {
            Some(end) => {
                proof {
                    lemma_closing_quote(text@);
                    assert(text@.len() == text.len());
                }
                let after = vstd::slice::slice_subrange(text, end + 1, text.len());
                begins_with(after, ':') || begins_with(after, '[')
            },
            None => false,
        };
    }
    match find2_in(text, ':', '[') {
        Some(end) => {
            proof {
                lemma_find2(text@, ':', '[');
            }
            trim_of(vstd::slice::slice_subrange(text, 0, end)).len() != 0
        },
        None => false,
    }
}

// ---------------------------------------------------------------- rows

/// Where the value that starts at `start` ends: past a quoted string and the
/// blanks after it, else at the next delimiter or the end of the text.
pub open spec fn value_end(text: Seq<char>, d: char, line: LineModel, offset: int, start: int) -> Result<int, Refusal> {
    let rest = text.skip(start);
    if starts_with(rest, '"') {
        match spec_closing_quote(rest) {
            None => Err(failure(line, offset + utf8_len(text.take(start)), "the quote never closes"@)),
            Some(close) => {
                let after = trim_start(rest.skip(close + 1));
                if !(after.len() == 0 || starts_with(after, d)) {
                    Err(
                        failure(
                            line,
                            offset + utf8_len(text.take(start)) + utf8_len(rest.take(close + 1)),
                            "content after the closing quote"@,
                        ),
                    )
                } else {
                    Ok(start + rest.len() - after.len())
                }
            },
        }
    } else {
        match find(rest, d) {
            Some(i) => Ok(start + i),
            None => Ok(text.len() as int),
        }
    }
}

pub proof fn lemma_value_end(text: Seq<char>, d: char, line: LineModel, offset: int, start: int)
    requires
        0 <= start <= text.len(),
    ensures
        value_end(text, d, line, offset, start) matches Ok(end) ==> start <= end <= text.len(),
{
    let rest = text.skip(start);
    lemma_closing_quote(rest);
    lemma_find2(rest, d, d);
    if starts_with(rest, '"') {
        if let Some(close) = spec_closing_quote(rest) {
            lemma_trim_bounds(rest.skip(close + 1));
        }
    }
}

/// The values from `at` on, after those in `acc`.
pub open spec fn split_from(text: Seq<char>, d: char, line: LineModel, offset: int, at: int, acc: Seq<Json>) -> Result<Seq<Json>, Refusal>
    decreases text.len() - at,
{
    if 0 <= at <= text.len() {
        let start = at + lead_ws(text.skip(at));
        proof {
            lemma_lead_ws(text.skip(at));
        }
        match value_end(text, d, line, offset, start) {
            Err(e) => Err(e),
            Ok(end) => {
                proof {
                    lemma_value_end(text, d, line, offset, start);
                }
                match spec_primitive(trim(text.subrange(start, end)), line, offset + utf8_len(text.take(start))) {
                    Err(e) => Err(e),
                    Ok(v) => if starts_with(text.skip(end), d) {
                        split_from(text, d, line, offset, end + 1, acc.push(v))
                    } else {
                        Ok(acc.push(v))
                    },
                }
            },
        }
    } else {
        Ok(acc)
    }
}

/// The delimited values of an inline array or a table row.
pub open spec fn spec_split(text: Seq<char>, d: char, line: LineModel, offset: int) -> Result<Seq<Json>, Refusal> {
    split_from(text, d, line, offset, 0, Seq::empty())
}

fn value_end_of(text: &[char], d: char, line: &Line, offset: usize, start: usize) -> (r: Result<usize, Malformed>)
    requires
        line@.column + offset + utf8_len(text@) <= usize::MAX,
        start <= text@.len(),
    ensures
        match r {
            Ok(end) => value_end(text@, d, line@, offset as int, start as int) == Ok::<int, Refusal>(end as int),
            Err(e) => value_end(text@, d, line@, offset as int, start as int) == Err::<int, Refusal>(e@),
        },
{
    let rest = vstd::slice::slice_subrange(text, start, text.len());
    proof {
        lemma_utf8_len_subrange(text@, 0, start as int);
        lemma_utf8_len_subrange(text@, start as int, text@.len() as int);
        assert(text@.len() == text.len());
    }
    if begins_with(rest, '"') {
        let close = match closing_quote(rest) {
            Some(close) => close,
            None => {
                let at = utf8_len_of(vstd::slice::slice_subrange(text, 0, start));
                return Err(fail(line, offset + at, String::from_str("the quote never closes")));
            },
        };
        proof {
            lemma_closing_quote(rest@);
            lemma_utf8_len_subrange(rest@, 0, close + 1);
            lemma_trim_bounds(rest@.skip(close + 1));
        }
        let after = trim_start_of(vstd::slice::slice_subrange(rest, close + 1, rest.len()));
        if !(after.len() == 0 || begins_with(after, d)) {
            let at = utf8_len_of(vstd::slice::slice_subrange(text, 0, start));
            let width = utf8_len_of(vstd::slice::slice_subrange(rest, 0, close + 1));
            return Err(fail(line, offset + at + width, String::from_str("content after the closing quote")));
        }
        return Ok(start + rest.len() - after.len());
    }
    match find2_in(rest, d, d) {
        Some(i) => {
            proof {
                lemma_find2(rest@, d, d);
            }
            Ok(start + i)
        },
        None => Ok(text.len()),
    }
}

/// The delimited values of an inline array or a table row.
pub fn split(text: &[char], delimiter: char, line: &Line, offset: usize) -> (r: Result<Vec<Value>, Malformed>)
    requires
        line@.column + offset + utf8_len(text@) <= usize::MAX,
    ensures
        match r {
            Ok(vs) => spec_split(text@, delimiter, line@, offset as int) == Ok::<Seq<Json>, Refusal>(values_view(vs@)),
            Err(e) => spec_split(text@, delimiter, line@, offset as int) == Err::<Seq<Json>, Refusal>(e@),
        },
{
    let mut values: Vec<Value> = Vec::new();
    let mut at: usize = 0;
    loop
        invariant
            line@.column + offset + utf8_len(text@) <= usize::MAX,
            at <= text@.len(),
            spec_split(text@, delimiter, line@, offset as int) == split_from(text@, delimiter, line@, offset as int, at as int, values_view(values@)),
        decreases text@.len() - at,
    {
        let rest0 = vstd::slice::slice_subrange(text, at, text.len());
        let trimmed = trim_start_of(rest0);
        proof {
            lemma_lead_ws(rest0@);
            assert(text@.len() == text.len());
        }
        let start = at + (rest0.len() - trimmed.len());
        assert(start == at + lead_ws(text@.skip(at as int)));
        let end = match value_end_of(text, delimiter, line, offset, start) {
            Ok(end) => end,
            Err(e) => {
                return Err(e);
            },
        };
        proof {
            lemma_value_end(text@, delimiter, line@, offset as int, start as int);
            lemma_utf8_len_subrange(text@, 0, start as int);
            lemma_utf8_len_subrange(text@, start as int, end as int);
            lemma_utf8_len_trim(text@.subrange(start as int, end as int));
        }
        let at_piece = offset + utf8_len_of(vstd::slice::slice_subrange(text, 0, start));
        let piece = trim_of(vstd::slice::slice_subrange(text, start, end));
        let v = match primitive(piece, line, at_piece) {
            Ok(v) => v,
            Err(e) => {
                return Err(e);
            },
        };
        let ghost before = values@;
        values.push(v);
        proof {
            lemma_values_view_push(before, v);
        }
        let tail = vstd::slice::slice_subrange(text, end, text.len());
        if begins_with(tail, delimiter) {
            at = end + 1;
        } else {
            return Ok(values);
        }
    }
}

} // verus!
