//! Token-Oriented Object Notation, read into the JSON data model.
//!
//! TOON is JSON's data model in fewer tokens: an object is `key: value`
//! lines nested by two-space indentation; a primitive array is inline,
//! `tags[3]: a,b,c`; an array of objects of one shape is a table,
//! `items[2]{id,name}:` with one row per line below it; anything else is a
//! list, `key[N]:` with one `- item` per line. A string is quoted with `"`
//! when it would otherwise read as something else; `null`, `true`, `false`
//! and numbers read as themselves. The delimiter is a comma unless the header
//! says tab or pipe, `[3|]`, and a count may carry the `#` marker, `[#3]`.
//!
//! The reader is strict: a count that does not match, a row with the wrong
//! number of values, a stray indentation or an unknown escape is refused with
//! its line and column. Columns count bytes of UTF-8 from one.

use vstd::prelude::*;
use vstd::string::StringExecFns;

use crate::token::{
    digit_run, digit_run_of, digits_u64, digits_value, lemma_closing_quote, lemma_digit_run,
    spec_closing_quote, spec_is_field, spec_key, spec_primitive, spec_split, spec_unquote, unquote,
};
use crate::token::{is_field, key, primitive, split};
use crate::value::{
    Json, Value, entries_view, extend, extend_entries, insert, insert_entry, lemma_array_view,
    lemma_entries_view, lemma_object_view, lemma_values_view, lemma_values_view_push, values_view,
};
use crate::text::{
    begins_with, chars_of, decimal, find, find2, find2_in, lemma_find2, lemma_trim_bounds,
    lemma_utf8_len_concat, lemma_utf8_len_ge, lemma_utf8_len_skip, split_on, string_of, trim_start,
    lemma_utf8_len_push, lemma_utf8_len_subrange, lemma_utf8_len_trim, push_decimal, starts_with,
    trim, trim_end, trim_end_of, trim_of, trim_start_of, utf8_len, utf8_len_of,
};
use vstd::utf8::encode_utf8;

verus! {

broadcast use vstd::seq::group_seq_axioms, vstd::string::group_string_axioms;

/// Where a document stopped being TOON, and why.
#[derive(Clone, Debug, PartialEq, Eq)]
pub struct Malformed {
    /// Counted from one.
    pub line: usize,
    /// Counted from one.
    pub column: usize,
    pub message: String,
}

/// The model of a [`Malformed`].
pub struct Refusal {
    pub line: int,
    pub column: int,
    pub message: Seq<char>,
}

impl View for Malformed {
    type V = Refusal;

    open spec fn view(&self) -> Refusal {
        Refusal { line: self.line as int, column: self.column as int, message: self.message@ }
    }
}

impl Malformed {
    /// `line L column C: message`.
    pub fn to_string(&self) -> (r: String)
        ensures
            r@ == "line "@ + decimal(self.line as nat) + " column "@ + decimal(
                self.column as nat,
            ) + ": "@ + self.message@,
    {
        let mut out = String::from_str("line ");
        push_decimal(&mut out, self.line);
        out.append(" column ");
        push_decimal(&mut out, self.column);
        out.append(": ");
        out.append(self.message.as_str());
        out
    }
}

/// One line of a document that is not blank.
pub struct Line {
    /// The line's number, counted from one.
    pub number: usize,
    /// The indentation in steps of two spaces.
    pub depth: usize,
    /// The column of the text past the indentation, counted from one.
    pub column: usize,
    /// The text past the indentation, trailing whitespace removed.
    pub text: Vec<char>,
}

/// The model of a [`Line`].
pub struct LineModel {
    pub number: int,
    pub depth: int,
    pub column: int,
    pub text: Seq<char>,
}

impl View for Line {
    type V = LineModel;

    open spec fn view(&self) -> LineModel {
        LineModel {
            number: self.number as int,
            depth: self.depth as int,
            column: self.column as int,
            text: self.text@,
        }
    }
}

/// A column past `line`'s text can still be counted in a `usize`.
pub open spec fn fits(line: LineModel) -> bool {
    line.column + 2 * utf8_len(line.text) <= usize::MAX
}

/// The refusal at byte `offset` of `line`'s text.
pub open spec fn failure(line: LineModel, offset: int, message: Seq<char>) -> Refusal {
    Refusal { line: line.number, column: line.column + offset, message }
}

/// The byte of `line`'s text at which `s` starts, `s` being what is left of
/// that text from some point on: a piece of a line is read to the line's end.
pub open spec fn place(line: LineModel, s: Seq<char>) -> int {
    utf8_len(line.text) - utf8_len(s)
}

/// The byte of `line`'s text at which `s`, its rest from some point on, starts.
pub fn start_in(line: &Line, s: &[char]) -> (r: usize)
    requires
        fits(line@),
        utf8_len(s@) <= utf8_len(line@.text),
    ensures
        r == place(line@, s@),
{
    let whole = utf8_len_of(line.text.as_slice());
    whole - utf8_len_of(s)
}

pub fn fail(line: &Line, offset: usize, message: String) -> (r: Malformed)
    requires
        line.column + offset <= usize::MAX,
    ensures
        r@ == failure(line@, offset as int, message@),
{
    Malformed { line: line.number, column: line.column + offset, message }
}

/// A result of the library and a result of its model agree.
pub open spec fn agrees<T: View>(r: Result<T, Malformed>, s: Result<T::V, Refusal>) -> bool {
    match r {
        Ok(v) => s == Ok::<T::V, Refusal>(v@),
        Err(e) => s == Err::<T::V, Refusal>(e@),
    }
}

/// A result that carries the position reached and one of the model agree.
pub open spec fn agrees_at<T: View>(
    r: Result<(T, usize), Malformed>,
    s: Result<(T::V, int), Refusal>,
) -> bool {
    match r {
        Ok((v, at)) => s == Ok::<(T::V, int), Refusal>((v@, at as int)),
        Err(e) => s == Err::<(T::V, int), Refusal>(e@),
    }
}

// ---------------------------------------------------------------- lines

/// A line without the carriage return of a `\r\n` ending.
pub open spec fn strip_cr(l: Seq<char>) -> Seq<char> {
    if l.len() > 0 && l.last() == '\r' {
        l.drop_last()
    } else {
        l
    }
}

/// The lines of `t` as `str::lines` gives them: split at `\n`, a `\r` before
/// it dropped, and no empty line after a final `\n`.
pub open spec fn raw_lines(t: Seq<char>) -> Seq<Seq<char>>
    decreases t.len(),
{
    if t.len() == 0 {
        Seq::empty()
    } else {
        match find(t, '\n') {
            Some(i) => {
                proof {
                    lemma_find2(t, '\n', '\n');
                }
                seq![strip_cr(t.take(i))] + raw_lines(t.skip(i + 1))
            },
            None => seq![t],
        }
    }
}

/// The number of spaces `s` starts with.
pub open spec fn space_run(s: Seq<char>) -> nat
    decreases s.len(),
{
    if s.len() > 0 && s[0] == ' ' {
        1 + space_run(s.drop_first())
    } else {
        0
    }
}

/// The line numbered `number` whose text is `raw`: nothing where it is
/// blank, else its depth and its text past the indentation.
pub open spec fn line_of(raw: Seq<char>, number: int) -> Result<Option<LineModel>, Refusal> {
    if trim(raw).len() == 0 {
        Ok(None)
    } else {
        let indent = space_run(raw) as int;
        let rest = trim_end(raw.skip(indent));
        if starts_with(rest, '\t') {
            Err(
                Refusal {
                    line: number,
                    column: indent + 1,
                    message: "a tab in the indentation; TOON indents with spaces"@,
                },
            )
        } else if indent % 2 != 0 {
            Err(
                Refusal {
                    line: number,
                    column: indent + 1,
                    message: "the indentation is not a multiple of two spaces"@,
                },
            )
        } else {
            Ok(Some(LineModel { number, depth: indent / 2, column: indent + 1, text: rest }))
        }
    }
}

/// The lines from the `i`th raw line on, after those in `acc`.
pub open spec fn lines_from(raws: Seq<Seq<char>>, i: int, acc: Seq<LineModel>) -> Result<Seq<LineModel>, Refusal>
    decreases raws.len() - i,
{
    if 0 <= i < raws.len() {
        match line_of(raws[i], i + 1) {
            Err(e) => Err(e),
            Ok(None) => lines_from(raws, i + 1, acc),
            Ok(Some(l)) => lines_from(raws, i + 1, acc.push(l)),
        }
    } else {
        Ok(acc)
    }
}

/// The lines of a document that are not blank.
pub open spec fn spec_lines(t: Seq<char>) -> Result<Seq<LineModel>, Refusal> {
    lines_from(raw_lines(t), 0, Seq::empty())
}

/// The models of some lines.
pub open spec fn line_models(ls: Seq<Line>) -> Seq<LineModel> {
    ls.map_values(|l: Line| l@)
}

/// The models of some character vectors.
pub open spec fn texts(v: Seq<Vec<char>>) -> Seq<Seq<char>> {
    v.map_values(|t: Vec<char>| t@)
}

pub proof fn lemma_raw_lines(t: Seq<char>)
    ensures
        raw_lines(t).len() <= t.len(),
        forall|k: int| 0 <= k < raw_lines(t).len() ==> utf8_len(#[trigger] raw_lines(t)[k]) <= utf8_len(t),
    decreases t.len(),
{
    if t.len() > 0 {
        lemma_find2(t, '\n', '\n');
        match find(t, '\n') {
            Some(i) => {
                let rest = t.skip(i + 1);
                lemma_raw_lines(rest);
                lemma_utf8_len_subrange(t, 0, i);
                lemma_utf8_len_subrange(t, i + 1, t.len() as int);
                let first = strip_cr(t.take(i));
                if t.take(i).len() > 0 && t.take(i).last() == '\r' {
                    lemma_utf8_len_subrange(t.take(i), 0, i - 1);
                    assert(first =~= t.take(i).subrange(0, i - 1));
                }
                assert forall|k: int| 0 <= k < raw_lines(t).len() implies utf8_len(
                    #[trigger] raw_lines(t)[k],
                ) <= utf8_len(t) by {
                    if k > 0 {
                        assert(raw_lines(t)[k] == raw_lines(rest)[k - 1]);
                    }
                }
            },
            None => {},
        }
    }
}

/// The characters of some lines, each counted with the newline after it.
pub open spec fn raw_total(raws: Seq<Seq<char>>) -> int
    decreases raws.len(),
{
    if raws.len() == 0 {
        0
    } else {
        raw_total(raws.drop_last()) + raws.last().len() + 1
    }
}

proof fn lemma_raw_total_prepend(a: Seq<char>, rest: Seq<Seq<char>>)
    ensures
        raw_total(seq![a] + rest) == a.len() + 1 + raw_total(rest),
    decreases rest.len(),
{
    if rest.len() > 0 {
        lemma_raw_total_prepend(a, rest.drop_last());
        assert((seq![a] + rest).drop_last() =~= seq![a] + rest.drop_last());
        assert((seq![a] + rest).last() == rest.last());
        assert(raw_total(seq![a] + rest) == raw_total(seq![a] + rest.drop_last()) + rest.last().len() + 1);
        assert(raw_total(rest) == raw_total(rest.drop_last()) + rest.last().len() + 1);
    } else {
        assert(seq![a] + rest =~= seq![a]);
        assert(seq![a].drop_last() =~= Seq::<Seq<char>>::empty());
        assert(raw_total(Seq::<Seq<char>>::empty()) == 0);
        assert(raw_total(seq![a]) == a.len() + 1);
        assert(rest =~= Seq::<Seq<char>>::empty());
    }
}

proof fn lemma_raw_total_prefix(raws: Seq<Seq<char>>, i: int)
    requires
        0 <= i <= raws.len(),
    ensures
        raw_total(raws.take(i)) <= raw_total(raws),
        raw_total(raws) >= 0,
    decreases raws.len() - i,
{
    if i < raws.len() {
        lemma_raw_total_prefix(raws, i + 1);
        assert(raws.take(i + 1).drop_last() =~= raws.take(i));
    } else {
        assert(raws.take(i) =~= raws);
        lemma_raw_total_nonneg(raws);
    }
}

proof fn lemma_raw_total_nonneg(raws: Seq<Seq<char>>)
    ensures
        raw_total(raws) >= 0,
    decreases raws.len(),
{
    if raws.len() > 0 {
        lemma_raw_total_nonneg(raws.drop_last());
    }
}

proof fn lemma_raw_lines_total(t: Seq<char>)
    ensures
        raw_total(raw_lines(t)) <= t.len() + 1,
    decreases t.len(),
{
    if t.len() > 0 {
        lemma_find2(t, '\n', '\n');
        match find(t, '\n') {
            Some(i) => {
                lemma_raw_lines_total(t.skip(i + 1));
                lemma_raw_total_prepend(strip_cr(t.take(i)), raw_lines(t.skip(i + 1)));
                assert(raw_lines(t) == seq![strip_cr(t.take(i))] + raw_lines(t.skip(i + 1)));
                assert(strip_cr(t.take(i)).len() <= i);
            },
            None => {
                assert(seq![t].drop_last() =~= Seq::<Seq<char>>::empty());
                assert(raw_total(Seq::<Seq<char>>::empty()) == 0);
                assert(raw_lines(t) == seq![t]);
                assert(raw_total(seq![t]) == t.len() + 1);
            },
        }
    }
}

fn strip_cr_of(l: &[char]) -> (r: &[char])
    ensures
        r@ == strip_cr(l@),
{
    if l.len() > 0 && l[l.len() - 1] == '\r' {
        vstd::slice::slice_subrange(l, 0, l.len() - 1)
    } else {
        l
    }
}

/// The lines of `t` as `str::lines` gives them.
pub fn split_lines(t: &[char]) -> (r: Vec<Vec<char>>)
    ensures
        texts(r@) == raw_lines(t@),
{
    let mut out: Vec<Vec<char>> = Vec::new();
    let mut pos: usize = 0;
    assert(t@.skip(0) =~= t@);
    assert(texts(out@) =~= Seq::<Seq<char>>::empty());
    while pos < t.len()
        invariant
            pos <= t@.len(),
            raw_lines(t@) == texts(out@) + raw_lines(t@.skip(pos as int)),
        decreases t@.len() - pos,
    {
        let rest = vstd::slice::slice_subrange(t, pos, t.len());
        let ghost before = out@;
        match find2_in(rest, '\n', '\n') {
            Some(i) => {
                proof {
                    lemma_find2(rest@, '\n', '\n');
                }
                let line = strip_cr_of(vstd::slice::slice_subrange(rest, 0, i));
                out.push(vstd::slice::slice_to_vec(line));
                proof {
                    assert(rest@.skip(i + 1) =~= t@.skip(pos + i + 1));
                    assert(texts(out@) =~= texts(before).push(line@));
                    assert(texts(before) + raw_lines(rest@) =~= texts(out@) + raw_lines(
                        t@.skip(pos + i + 1),
                    ));
                }
                pos = pos + i + 1;
            },
            None => {
                out.push(vstd::slice::slice_to_vec(rest));
                proof {
                    assert(texts(out@) =~= texts(before).push(rest@));
                    assert(texts(out@) + raw_lines(t@.skip(t@.len() as int)) =~= texts(out@));
                    assert(texts(before) + raw_lines(rest@) =~= texts(out@));
                }
                pos = t.len();
            },
        }
    }
    assert(t@.skip(pos as int) =~= Seq::<char>::empty());
    assert(texts(out@) + Seq::<Seq<char>>::empty() =~= texts(out@));
    out
}

fn space_run_of(s: &[char]) -> (r: usize)
    ensures
        r == space_run(s@),
        r <= s@.len(),
{
    let mut i: usize = 0;
    assert(s@.skip(0) =~= s@);
    while i < s.len() && s[i] == ' '
        invariant
            i <= s@.len(),
            space_run(s@) == i + space_run(s@.skip(i as int)),
        decreases s@.len() - i,
    {
        assert(s@.skip(i as int).drop_first() =~= s@.skip(i + 1));
        i = i + 1;
    }
    i
}

pub proof fn lemma_space_run(s: Seq<char>)
    ensures
        space_run(s) <= s.len(),
        utf8_len(s.take(space_run(s) as int)) == space_run(s),
    decreases s.len(),
{
    if s.len() > 0 && s[0] == ' ' {
        lemma_space_run(s.drop_first());
        let n = space_run(s);
        assert(s.take(n as int) =~= seq![' '] + s.drop_first().take(n - 1));
        lemma_utf8_len_concat(seq![' '], s.drop_first().take(n - 1));
        lemma_utf8_len_push(Seq::<char>::empty(), ' ');
        assert(Seq::<char>::empty().push(' ') =~= seq![' ']);
        assert(encode_utf8(Seq::<char>::empty()) =~= Seq::<u8>::empty());
    } else {
        assert(s.take(0) =~= Seq::<char>::empty());
        assert(encode_utf8(Seq::<char>::empty()) =~= Seq::<u8>::empty());
    }
}

/// The lines of a document that are not blank, each with its number, its
/// depth and the column its text starts at.
pub fn lines(text: &[char]) -> (r: Result<Vec<Line>, Malformed>)
    requires
        utf8_len(text@) <= usize::MAX / 2,
    ensures
        match r {
            Ok(ls) => spec_lines(text@) == Ok::<Seq<LineModel>, Refusal>(line_models(ls@))
                && forall|k: int| 0 <= k < ls@.len() ==> fits(#[trigger] ls@[k]@)
                && ls@.len() <= usize::MAX / 4 + 1,
            Err(e) => spec_lines(text@) == Err::<Seq<LineModel>, Refusal>(e@),
        },
{
    let raws = split_lines(text);
    proof {
        lemma_raw_lines(text@);
        lemma_raw_lines_total(text@);
        lemma_utf8_len_ge(text@);
        assert(texts(raws@).take(0) =~= Seq::<Seq<char>>::empty());
    }
    let mut out: Vec<Line> = Vec::new();
    let mut i: usize = 0;
    assert(line_models(out@) =~= Seq::<LineModel>::empty());
    assert forall|k: int| 0 <= k < raws@.len() implies utf8_len(#[trigger] raws@[k]@) <= usize::MAX / 2 by {
        assert(texts(raws@)[k] == raws@[k]@);
    }
    while i < raws.len()
        invariant
            i <= raws@.len(),
            texts(raws@) == raw_lines(text@),
            raws@.len() <= text@.len() <= usize::MAX / 2,
            forall|k: int| 0 <= k < raws@.len() ==> utf8_len(#[trigger] raws@[k]@) <= usize::MAX / 2,
            spec_lines(text@) == lines_from(texts(raws@), i as int, line_models(out@)),
            forall|k: int| 0 <= k < out@.len() ==> fits(#[trigger] out@[k]@),
            raw_total(texts(raws@)) <= text@.len() + 1,
            2 * out@.len() <= raw_total(texts(raws@).take(i as int)),
        decreases raws@.len() - i,
    {
        proof {
            assert(texts(raws@).take(i + 1).drop_last() =~= texts(raws@).take(i as int));
            assert(texts(raws@).take(i + 1).last() == raws@[i as int]@);
        }
        let raw = raws[i].as_slice();
        let number = i + 1;
        assert(texts(raws@)[i as int] == raw@);
        assert(utf8_len(raws@[i as int]@) <= usize::MAX / 2);
        let ghost before = out@;
        if trim_of(raw).len() == 0 {
            i = i + 1;
        } else {
            let indent = space_run_of(raw);
            proof {
                lemma_utf8_len_ge(raw@);
            }
            let rest = trim_end_of(vstd::slice::slice_subrange(raw, indent, raw.len()));
            if begins_with(rest, '\t') {
                return Err(
                    Malformed {
                        line: number,
                        column: indent + 1,
                        message: String::from_str(
                            "a tab in the indentation; TOON indents with spaces",
                        ),
                    },
                );
            }
            if indent % 2 != 0 {
                return Err(
                    Malformed {
                        line: number,
                        column: indent + 1,
                        message: String::from_str(
                            "the indentation is not a multiple of two spaces",
                        ),
                    },
                );
            }
            proof {
                lemma_utf8_len_trim(raw@);
                lemma_trim_bounds(raw@);
                lemma_space_run(raw@);
                lemma_utf8_len_subrange(raw@, 0, indent as int);
                lemma_utf8_len_subrange(raw@, indent as int, raw@.len() as int);
                lemma_utf8_len_trim(raw@.skip(indent as int));
            }
            let line = Line {
                number,
                depth: indent / 2,
                column: indent + 1,
                text: vstd::slice::slice_to_vec(rest),
            };
            out.push(line);
            proof {
                assert(line_models(out@) =~= line_models(before).push(line@));
            }
            i = i + 1;
        }
    }
    proof {
        assert(texts(raws@).take(i as int) =~= texts(raws@));
    }
    Ok(out)
}

// ---------------------------------------------------------------- headers

/// An array header: `[N]`, `[#N]`, `[N|]`, `[N]{f1,f2}`, followed by `:`.
pub struct Header {
    pub count: usize,
    pub delimiter: char,
    pub fields: Option<Vec<String>>,
}

/// The model of a [`Header`].
pub struct HeaderModel {
    pub count: int,
    pub delimiter: char,
    pub fields: Option<Seq<Seq<char>>>,
}

/// The models of some strings.
pub open spec fn strings(v: Seq<String>) -> Seq<Seq<char>> {
    v.map_values(|s: String| s@)
}

impl View for Header {
    type V = HeaderModel;

    open spec fn view(&self) -> HeaderModel {
        HeaderModel {
            count: self.count as int,
            delimiter: self.delimiter,
            fields: match self.fields {
                Some(f) => Some(strings(f@)),
                None => None,
            },
        }
    }
}

/// A field's name as the header writes it: quoted or bare.
pub open spec fn field_name(n: Seq<char>) -> Seq<char> {
    match spec_unquote(trim(n)) {
        Ok(u) => u,
        Err(_) => trim(n),
    }
}

/// The field names of a header, between the braces.
pub open spec fn field_names(inside: Seq<char>, d: char) -> Seq<Seq<char>> {
    split_on(inside, d).map_values(|n: Seq<char>| field_name(n))
}

/// The header at the start of `text`, at byte `offset` of `line`'s text,
/// and what follows the colon, trimmed.
pub open spec fn spec_header(text: Seq<char>, line: LineModel, offset: int) -> Result<(HeaderModel, Seq<char>), Refusal> {
    if !starts_with(text, '[') {
        Err(failure(line, offset, "expected ["@))
    } else {
        let inner0 = text.drop_first();
        let inner = if starts_with(inner0, '#') {
            inner0.drop_first()
        } else {
            inner0
        };
        let digits = digit_run(inner, 0) as int;
        if digits == 0 || digits_value(inner.take(digits)) > usize::MAX {
            Err(failure(line, offset + 1, "expected the array's length"@))
        } else {
            let count = digits_value(inner.take(digits));
            let rest0 = inner.skip(digits);
            let delimiter = if starts_with(rest0, '\t') || starts_with(rest0, '|') {
                rest0[0]
            } else {
                ','
            };
            let rest1 = if starts_with(rest0, '\t') || starts_with(rest0, '|') {
                rest0.drop_first()
            } else {
                rest0
            };
            if !starts_with(rest1, ']') {
                Err(failure(line, offset + digits + 1, "expected ] after the length"@))
            } else {
                let rest2 = rest1.drop_first();
                if starts_with(rest2, '{') {
                    let inside = rest2.drop_first();
                    match find(inside, '}') {
                        None => Err(failure(line, offset, "the field list is not closed with }"@)),
                        Some(close) => {
                            let rest3 = inside.skip(close + 1);
                            if !starts_with(rest3, ':') {
                                Err(failure(line, offset, "expected : after the array header"@))
                            } else {
                                Ok(
                                    (
                                        HeaderModel {
                                            count,
                                            delimiter,
                                            fields: Some(field_names(inside.take(close), delimiter)),
                                        },
                                        trim(rest3.drop_first()),
                                    ),
                                )
                            }
                        },
                    }
                } else if !starts_with(rest2, ':') {
                    Err(failure(line, offset, "expected : after the array header"@))
                } else {
                    Ok((HeaderModel { count, delimiter, fields: None }, trim(rest2.drop_first())))
                }
            }
        }
    }
}

/// The names between the braces of a header.
fn names_of(inside: &[char], d: char) -> (r: Vec<String>)
    ensures
        strings(r@) == field_names(inside@, d),
{
    let mut out: Vec<String> = Vec::new();
    let mut pos: usize = 0;
    assert(inside@.skip(0) =~= inside@);
    assert(strings(out@) =~= Seq::<Seq<char>>::empty());
    loop
        invariant
            pos <= inside@.len(),
            field_names(inside@, d) == strings(out@) + field_names(inside@.skip(pos as int), d),
        decreases inside@.len() - pos,
    {
        let rest = vstd::slice::slice_subrange(inside, pos, inside.len());
        let ghost before = out@;
        let found = find2_in(rest, d, d);
        proof {
            lemma_find2(rest@, d, d);
        }
        let piece = match found {
            Some(i) => vstd::slice::slice_subrange(rest, 0, i),
            None => rest,
        };
        proof {
            lemma_find2(rest@, d, d);
        }
        let trimmed = trim_of(piece);
        let name = match unquote(trimmed) {
            Ok(u) => u,
            Err(_) => string_of(trimmed),
        };
        out.push(name);
        assert(strings(out@) =~= strings(before).push(field_name(piece@)));
        match found {
            Some(i) => {
                assert(rest@.skip(i + 1) =~= inside@.skip(pos + i + 1));
                assert(field_names(rest@, d) =~= seq![field_name(piece@)] + field_names(
                    inside@.skip(pos + i + 1),
                    d,
                ));
                assert(strings(before) + field_names(rest@, d) =~= strings(out@) + field_names(
                    inside@.skip(pos + i + 1),
                    d,
                ));
                pos = pos + i + 1;
            },
            None => {
                assert(field_names(rest@, d) =~= seq![field_name(piece@)]);
                assert(strings(before) + field_names(rest@, d) =~= strings(out@));
                return out;
            },
        }
    }
}

impl Header {
    /// Read the header at the start of `text` and give back what follows the
    /// colon, trimmed.
    pub fn parse<'a>(text: &'a [char], line: &Line, offset: usize) -> (r: Result<(Header, &'a [char]), Malformed>)
        requires
            line@.column + offset + utf8_len(text@) <= usize::MAX,
        ensures
            agrees(r, spec_header(text@, line@, offset as int)),
    {
        if !begins_with(text, '[') {
            return Err(fail(line, offset, String::from_str("expected [")));
        }
        proof {
            lemma_utf8_len_ge(text@);
            assert(text@.len() == text.len());
        }
        let inner0 = vstd::slice::slice_subrange(text, 1, text.len());
        let inner = if begins_with(inner0, '#') {
            vstd::slice::slice_subrange(inner0, 1, inner0.len())
        } else {
            inner0
        };
        let digits = digit_run_of(inner, 0);
        proof {
            lemma_digit_run(inner@, 0);
        }
        let count = if digits == 0 {
            None
        } else {
            match digits_u64(vstd::slice::slice_subrange(inner, 0, digits)) {
                Some(v) => if v <= usize::MAX as u64 {
                    Some(v as usize)
                } else {
                    None
                },
                None => None,
            }
        };
        let count = match count {
            Some(c) => c,
            None => {
                return Err(fail(line, offset + 1, String::from_str("expected the array's length")));
            },
        };
        let rest0 = vstd::slice::slice_subrange(inner, digits, inner.len());
        let mut delimiter = ',';
        let mut rest1 = rest0;
        if begins_with(rest0, '\t') || begins_with(rest0, '|') {
            delimiter = rest0[0];
            rest1 = vstd::slice::slice_subrange(rest0, 1, rest0.len());
        }
        if !begins_with(rest1, ']') {
            return Err(fail(line, offset + digits + 1, String::from_str("expected ] after the length")));
        }
        let rest2 = vstd::slice::slice_subrange(rest1, 1, rest1.len());
        if begins_with(rest2, '{') {
            let inside = vstd::slice::slice_subrange(rest2, 1, rest2.len());
            let close = match find2_in(inside, '}', '}') {
                Some(close) => close,
                None => {
                    return Err(
                        fail(line, offset, String::from_str("the field list is not closed with }")),
                    );
                },
            };
            proof {
                lemma_find2(inside@, '}', '}');
            }
            let rest3 = vstd::slice::slice_subrange(inside, close + 1, inside.len());
            if !begins_with(rest3, ':') {
                return Err(fail(line, offset, String::from_str("expected : after the array header")));
            }
            let names = names_of(vstd::slice::slice_subrange(inside, 0, close), delimiter);
            let after = trim_of(vstd::slice::slice_subrange(rest3, 1, rest3.len()));
            return Ok((Header { count, delimiter, fields: Some(names) }, after));
        }
        if !begins_with(rest2, ':') {
            return Err(fail(line, offset, String::from_str("expected : after the array header")));
        }
        let after = trim_of(vstd::slice::slice_subrange(rest2, 1, rest2.len()));
        Ok((Header { count, delimiter, fields: None }, after))
    }
}

pub proof fn lemma_header_after(text: Seq<char>, line: LineModel, offset: int)
    ensures
        spec_header(text, line, offset) matches Ok((h, inline)) ==> utf8_len(inline) <= utf8_len(
            text,
        ),
{
    if let Ok((h, inline)) = spec_header(text, line, offset) {
        let inner0 = text.drop_first();
        lemma_utf8_len_skip(text, 1);
        let inner = if starts_with(inner0, '#') {
            inner0.drop_first()
        } else {
            inner0
        };
        lemma_utf8_len_skip(inner0, if starts_with(inner0, '#') { 1int } else { 0int });
        let digits = digit_run(inner, 0) as int;
        lemma_digit_run(inner, 0);
        let rest0 = inner.skip(digits);
        lemma_utf8_len_skip(inner, digits);
        let rest1 = if starts_with(rest0, '\t') || starts_with(rest0, '|') {
            rest0.drop_first()
        } else {
            rest0
        };
        lemma_utf8_len_skip(rest0, if starts_with(rest0, '\t') || starts_with(rest0, '|') { 1int } else { 0int });
        let rest2 = rest1.drop_first();
        lemma_utf8_len_skip(rest1, 1);
        if starts_with(rest2, '{') {
            let inside = rest2.drop_first();
            lemma_utf8_len_skip(rest2, 1);
            lemma_find2(inside, '}', '}');
            let close = find(inside, '}')->0;
            let rest3 = inside.skip(close + 1);
            lemma_utf8_len_skip(inside, close + 1);
            lemma_utf8_len_skip(rest3, 1);
            lemma_utf8_len_trim(rest3.drop_first());
        } else {
            lemma_utf8_len_skip(rest2, 1);
            lemma_utf8_len_trim(rest2.drop_first());
        }
    }
}

pub proof fn lemma_key_after(text: Seq<char>, line: LineModel, offset: int)
    ensures
        spec_key(text, line, offset) matches Ok((k, after)) ==> {
            &&& starts_with(after, ':') || starts_with(after, '[')
            &&& utf8_len(after) <= utf8_len(text)
        },
{
    lemma_closing_quote(text);
    lemma_find2(text, ':', '[');
    if let Ok((k, after)) = spec_key(text, line, offset) {
        if starts_with(text, '"') {
            let end = spec_closing_quote(text)->0;
            lemma_utf8_len_skip(text, end + 1);
        } else {
            let end = find2(text, ':', '[')->0;
            lemma_utf8_len_skip(text, end);
        }
    }
}

// ---------------------------------------------------------------- documents

pub open spec fn spec_peek(ls: Seq<LineModel>, at: int) -> Option<LineModel> {
    if 0 <= at < ls.len() {
        Some(ls[at])
    } else {
        None
    }
}

pub open spec fn spec_peek_at(ls: Seq<LineModel>, at: int, depth: int) -> Option<LineModel> {
    match spec_peek(ls, at) {
        Some(l) => if l.depth == depth {
            Some(l)
        } else {
            None
        },
        None => None,
    }
}

/// An array that declares `count` items and holds `found`.
pub open spec fn short(line: LineModel, count: int, found: int) -> Refusal {
    failure(
        line,
        0,
        "the array declares "@ + decimal(count as nat) + " items, "@ + decimal(found as nat)
            + " found"@,
    )
}

/// A table row whose values do not match the header's fields.
pub open spec fn ragged(row: LineModel, values: int, fields: int) -> Refusal {
    failure(
        row,
        0,
        "the row has "@ + decimal(values as nat) + " values, the header names "@ + decimal(
            fields as nat,
        ) + " fields"@,
    )
}

/// The entries `o` gains as each field is bound, in order, to its value.
pub open spec fn zip_insert(o: Seq<(Seq<char>, Json)>, fields: Seq<Seq<char>>, vs: Seq<Json>) -> Seq<(Seq<char>, Json)>
    decreases fields.len(),
{
    if fields.len() == 0 || vs.len() == 0 {
        o
    } else {
        zip_insert(insert(o, fields[0], vs[0]), fields.drop_first(), vs.drop_first())
    }
}

/// The fields at `depth` from line `at` on, until the indentation goes back
/// out, after the entries `acc`; and the line reached.
pub open spec fn spec_object(ls: Seq<LineModel>, at: int, depth: int, acc: Seq<(Seq<char>, Json)>) -> Result<(Seq<(Seq<char>, Json)>, int), Refusal>
    decreases ls.len() - at, 0int,
{
    match spec_peek(ls, at) {
        None => Ok((acc, at)),
        Some(line) => if line.depth < depth {
            Ok((acc, at))
        } else if line.depth > depth {
            Err(failure(line, 0, "unexpected indentation"@))
        } else {
            match spec_field(ls, at + 1, line.text, line, depth + 1) {
                Err(e) => Err(e),
                // The field never moves back, so the test always holds (see
                // `laws::lemma_field_facts`); it lets termination be checked
                // on the position the nested walk returns.
                Ok((kv, a)) => if at < a <= ls.len() {
                    spec_object(ls, a, depth, insert(acc, kv.0, kv.1))
                } else {
                    Ok((acc, a))
                },
            }
        },
    }
}

/// One field written as `text` on `line`, whose nested content lives at
/// `child_depth` from line `at` on.
pub open spec fn spec_field(ls: Seq<LineModel>, at: int, text: Seq<char>, line: LineModel, child_depth: int) -> Result<((Seq<char>, Json), int), Refusal>
    decreases ls.len() - at, 2int,
{
    match spec_key(text, line, place(line, text)) {
        Err(e) => Err(e),
        Ok((k, after)) => {
            let offset = place(line, after);
            if starts_with(after, '[') {
                match spec_header(after, line, offset) {
                    Err(e) => Err(e),
                    Ok((h, inline)) => match spec_array(ls, at, h, inline, line, child_depth) {
                        Err(e) => Err(e),
                        Ok((v, a)) => Ok(((k, v), a)),
                    },
                }
            } else {
                let rest = trim(after.drop_first());
                if rest.len() == 0 {
                    match spec_peek(ls, at) {
                        Some(next) => if next.depth >= child_depth {
                            match spec_object(ls, at, child_depth, Seq::empty()) {
                                Err(e) => Err(e),
                                Ok((o, a)) => Ok(((k, Json::Object(o)), a)),
                            }
                        } else {
                            Ok(((k, Json::Object(Seq::empty())), at))
                        },
                        None => Ok(((k, Json::Object(Seq::empty())), at)),
                    }
                } else {
                    match spec_primitive(rest, line, place(line, rest)) {
                        Err(e) => Err(e),
                        Ok(v) => Ok(((k, v), at)),
                    }
                }
            }
        },
    }
}

/// The array that `h` on `line` declares: a table's rows or a list's items
/// at `item_depth` from line `at` on, or the values after the header.
pub open spec fn spec_array(ls: Seq<LineModel>, at: int, h: HeaderModel, inline: Seq<char>, line: LineModel, item_depth: int) -> Result<(Json, int), Refusal>
    decreases ls.len() - at, 1int,
{
    match h.fields {
        Some(fields) => if inline.len() != 0 {
            Err(failure(line, 0, "a table's rows go below its header"@))
        } else {
            match spec_rows(ls, at, h, fields, line, item_depth, Seq::empty()) {
                Err(e) => Err(e),
                Ok((rows, a)) => spec_closed(ls, a, rows, item_depth),
            }
        },
        None => if inline.len() != 0 {
            match spec_split(inline, h.delimiter, line, place(line, inline)) {
                Err(e) => Err(e),
                Ok(vs) => if vs.len() != h.count {
                    Err(short(line, h.count, vs.len() as int))
                } else {
                    Ok((Json::Array(vs), at))
                },
            }
        } else {
            match spec_items(ls, at, h, line, item_depth, Seq::empty()) {
                Err(e) => Err(e),
                Ok((items, a)) => spec_closed(ls, a, items, item_depth),
            }
        },
    }
}

/// A table's rows from line `at` on, after those in `acc`.
pub open spec fn spec_rows(ls: Seq<LineModel>, at: int, h: HeaderModel, fields: Seq<Seq<char>>, line: LineModel, item_depth: int, acc: Seq<Json>) -> Result<(Seq<Json>, int), Refusal>
    decreases ls.len() - at,
{
    if acc.len() >= h.count {
        Ok((acc, at))
    } else {
        match spec_peek_at(ls, at, item_depth) {
            None => Err(short(line, h.count, acc.len() as int)),
            Some(row) => match spec_split(row.text, h.delimiter, row, 0) {
                Err(e) => Err(e),
                Ok(vs) => if vs.len() != fields.len() {
                    Err(ragged(row, vs.len() as int, fields.len() as int))
                } else {
                    spec_rows(
                        ls,
                        at + 1,
                        h,
                        fields,
                        line,
                        item_depth,
                        acc.push(Json::Object(zip_insert(Seq::empty(), fields, vs))),
                    )
                },
            },
        }
    }
}

/// A list's items from line `at` on, after those in `acc`.
pub open spec fn spec_items(ls: Seq<LineModel>, at: int, h: HeaderModel, line: LineModel, item_depth: int, acc: Seq<Json>) -> Result<(Seq<Json>, int), Refusal>
    decreases ls.len() - at, 0int,
{
    if acc.len() >= h.count {
        Ok((acc, at))
    } else {
        match spec_peek_at(ls, at, item_depth) {
            None => Err(short(line, h.count, acc.len() as int)),
            Some(it) => if !starts_with(it.text, '-') {
                Err(failure(it, 0, "a list item starts with -"@))
            } else {
                let body = trim_start(it.text.drop_first());
                match spec_item(ls, at + 1, body, it, utf8_len(it.text) - utf8_len(body), item_depth + 1) {
                    Err(e) => Err(e),
                    // The item never moves back, so the test always holds (see
                    // `laws::lemma_item_facts`); it lets termination be checked
                    // on the position the nested walk returns.
                    Ok((v, a)) => if at < a <= ls.len() {
                        spec_items(ls, a, h, line, item_depth, acc.push(v))
                    } else {
                        Ok((acc, a))
                    },
                }
            },
        }
    }
}

/// The array is complete; one more line at its items' depth is one too many.
pub open spec fn spec_closed(ls: Seq<LineModel>, at: int, items: Seq<Json>, item_depth: int) -> Result<(Json, int), Refusal> {
    match spec_peek_at(ls, at, item_depth) {
        Some(extra) => Err(
            failure(
                extra,
                0,
                "the array declares "@ + decimal(items.len()) + " items, more follow"@,
            ),
        ),
        None => Ok((Json::Array(items), at)),
    }
}

/// A list item written as `body` at byte `offset` of `line`'s text: a nested
/// array, an object whose first field shares the dash's line and whose others
/// sit at `fields_depth`, or a primitive.
pub open spec fn spec_item(ls: Seq<LineModel>, at: int, body: Seq<char>, line: LineModel, offset: int, fields_depth: int) -> Result<(Json, int), Refusal>
    decreases ls.len() - at, 3int,
{
    if starts_with(body, '[') {
        match spec_header(body, line, offset) {
            Err(e) => Err(e),
            Ok((h, inline)) => spec_array(ls, at, h, inline, line, fields_depth),
        }
    } else if spec_is_field(body) {
        match spec_field(ls, at, body, line, fields_depth + 1) {
            Err(e) => Err(e),
            Ok((kv, a)) => {
                let first = insert(Seq::empty(), kv.0, kv.1);
                // `at <= a <= ls.len()` always holds (see `laws::lemma_field_facts`);
                // it lets termination be checked on the position returned.
                match spec_peek(ls, a) {
                    Some(next) => if next.depth >= fields_depth && at <= a <= ls.len() {
                        match spec_object(ls, a, fields_depth, Seq::empty()) {
                            Err(e) => Err(e),
                            Ok((rest, b)) => Ok((Json::Object(extend(first, rest)), b)),
                        }
                    } else {
                        Ok((Json::Object(first), a))
                    },
                    None => Ok((Json::Object(first), a)),
                }
            },
        }
    } else {
        match spec_primitive(body, line, offset) {
            Err(e) => Err(e),
            Ok(v) => Ok((v, at)),
        }
    }
}

/// The value the lines hold, and the line reached.
pub open spec fn spec_document(ls: Seq<LineModel>) -> Result<(Json, int), Refusal> {
    match spec_peek(ls, 0) {
        None => Ok((Json::Object(Seq::empty()), 0)),
        Some(first) => if first.depth != 0 {
            Err(failure(first, 0, "the document starts indented"@))
        } else if starts_with(first.text, '[') {
            match spec_header(first.text, first, 0) {
                Err(e) => Err(e),
                Ok((h, inline)) => spec_array(ls, 1, h, inline, first, 1),
            }
        } else if spec_is_field(first.text) {
            match spec_object(ls, 0, 0, Seq::empty()) {
                Err(e) => Err(e),
                Ok((o, a)) => Ok((Json::Object(o), a)),
            }
        } else {
            match spec_peek(ls, 1) {
                Some(extra) => Err(failure(extra, 0, "a root value takes one line"@)),
                None => match spec_primitive(first.text, first, 0) {
                    Err(e) => Err(e),
                    Ok(v) => Ok((v, 1)),
                },
            }
        },
    }
}

/// What a TOON document reads as, or where it stops being TOON.
pub open spec fn spec_parse(text: Seq<char>) -> Result<Json, Refusal> {
    match spec_lines(text) {
        Err(e) => Err(e),
        Ok(ls) => match spec_document(ls) {
            Err(e) => Err(e),
            Ok((v, at)) => match spec_peek(ls, at) {
                Some(extra) => Err(failure(extra, 0, "content after the document"@)),
                None => Ok(v),
            },
        },
    }
}

/// An array that declares `count` items and holds `found`.
fn short_of(line: &Line, count: usize, found: usize) -> (r: Malformed)
    requires
        fits(line@),
    ensures
        r@ == short(line@, count as int, found as int),
{
    let mut m = String::from_str("the array declares ");
    push_decimal(&mut m, count);
    m.append(" items, ");
    push_decimal(&mut m, found);
    m.append(" found");
    fail(line, 0, m)
}

/// The entries of a table row: each field bound, in order, to its value.
fn row_of(fields: &Vec<String>, values: Vec<Value>) -> (r: Vec<(String, Value)>)
    requires
        fields@.len() == values@.len(),
    ensures
        entries_view(r@) == zip_insert(Seq::empty(), strings(fields@), values_view(values@)),
{
    let mut out: Vec<(String, Value)> = Vec::new();
    let mut rest = values;
    let mut i: usize = 0;
    let ghost goal = zip_insert(Seq::empty(), strings(fields@), values_view(rest@));
    proof {
        lemma_entries_view(out@);
        assert(entries_view(out@) =~= Seq::<(Seq<char>, Json)>::empty());
        assert(strings(fields@).skip(0) =~= strings(fields@));
    }
    while rest.len() > 0
        invariant
            i <= fields@.len(),
            fields@.len() == fields.len(),
            rest@.len() == fields@.len() - i,
            goal == zip_insert(entries_view(out@), strings(fields@).skip(i as int), values_view(rest@)),
        decreases rest@.len(),
    {
        let ghost before = rest@;
        let v = rest.remove(0);
        proof {
            lemma_values_view(before);
            lemma_values_view(rest@);
            assert(values_view(rest@) =~= values_view(before).drop_first());
            assert(strings(fields@).skip(i as int).drop_first() =~= strings(fields@).skip(i + 1));
            assert(strings(fields@).skip(i as int)[0] == fields@[i as int]@);
        }
        insert_entry(&mut out, fields[i].clone(), v);
        i = i + 1;
    }
    proof {
        lemma_values_view(rest@);
    }
    out
}

/// The walk over a document's lines.
pub struct Parser {
    pub lines: Vec<Line>,
}

impl Parser {
    pub open spec fn models(&self) -> Seq<LineModel> {
        line_models(self.lines@)
    }

    /// Every line's columns can be counted, and so can the depths the walk
    /// reaches.
    pub open spec fn wf(&self) -> bool {
        &&& forall|k: int| 0 <= k < self.lines@.len() ==> fits(#[trigger] self.lines@[k]@)
        &&& self.lines@.len() <= usize::MAX / 4 + 1
    }

    proof fn lemma_model(&self, k: int)
        requires
            0 <= k < self.lines@.len(),
        ensures
            self.models()[k] == self.lines@[k]@,
            self.models().len() == self.lines@.len(),
    {
    }

    /// The line at `at`, if there is one.
    pub fn peek(&self, at: usize) -> (r: Option<&Line>)
        ensures
            match r {
                Some(l) => spec_peek(self.models(), at as int) == Some(l@) && at < self.lines@.len()
                    && l == self.lines@[at as int],
                None => spec_peek(self.models(), at as int) is None,
            },
    {
        if at < self.lines.len() {
            Some(&self.lines[at])
        } else {
            None
        }
    }

    /// The line at `at`, if at `depth`.
    pub fn peek_at(&self, at: usize, depth: usize) -> (r: Option<&Line>)
        ensures
            match r {
                Some(l) => spec_peek_at(self.models(), at as int, depth as int) == Some(l@)
                    && at < self.lines@.len() && l == self.lines@[at as int],
                None => spec_peek_at(self.models(), at as int, depth as int) is None,
            },
    {
        match self.peek(at) {
            Some(line) => if line.depth == depth {
                Some(line)
            } else {
                None
            },
            None => None,
        }
    }

    // Each level of nesting the walk enters reads a line first, so the
    // depths below are bounded by twice the lines read; that bound is what
    // keeps `depth + 1` within a `usize` all the way down.

    /// The fields at `depth`, until the indentation goes back out.
    fn object(&self, start: usize, depth: usize) -> (r: Result<(Vec<(String, Value)>, usize), Malformed>)
        requires
            self.wf(),
            start <= self.lines@.len(),
            depth <= 2 * start + 3,
        ensures
            match r {
                Ok((o, a)) => spec_object(self.models(), start as int, depth as int, Seq::empty())
                    == Ok::<(Seq<(Seq<char>, Json)>, int), Refusal>((entries_view(o@), a as int))
                    && start <= a <= self.lines@.len(),
                Err(e) => spec_object(self.models(), start as int, depth as int, Seq::empty())
                    == Err::<(Seq<(Seq<char>, Json)>, int), Refusal>(e@),
            },
        decreases self.lines@.len() - start, 0int,
    {
        let mut object: Vec<(String, Value)> = Vec::new();
        let mut at = start;
        proof {
            lemma_entries_view(object@);
            assert(entries_view(object@) =~= Seq::<(Seq<char>, Json)>::empty());
        }
        loop
            invariant
                self.wf(),
                start <= at <= self.lines@.len(),
                depth <= 2 * start + 3,
                spec_object(self.models(), start as int, depth as int, Seq::empty())
                    == spec_object(self.models(), at as int, depth as int, entries_view(object@)),
            decreases self.lines@.len() - at,
        {
            if at >= self.lines.len() {
                return Ok((object, at));
            }
            let line = &self.lines[at];
            proof {
                self.lemma_model(at as int);
            }
            if line.depth < depth {
                return Ok((object, at));
            }
            if line.depth > depth {
                return Err(fail(line, 0, String::from_str("unexpected indentation")));
            }
            let ((k, v), a) = match self.field(at + 1, line.text.as_slice(), line, depth + 1) {
                Ok(kv) => kv,
                Err(e) => {
                    return Err(e);
                },
            };
            insert_entry(&mut object, k, v);
            at = a;
        }
    }

    /// One field, whose nested content lives at `child_depth`.
    fn field(&self, at: usize, text: &[char], line: &Line, child_depth: usize) -> (r: Result<((String, Value), usize), Malformed>)
        requires
            self.wf(),
            at <= self.lines@.len(),
            child_depth <= 2 * at + 3,
            fits(line@),
            utf8_len(text@) <= utf8_len(line@.text),
        ensures
            agrees_at(r, spec_field(self.models(), at as int, text@, line@, child_depth as int)),
            r matches Ok((_, a)) ==> at <= a <= self.lines@.len(),
        decreases self.lines@.len() - at, 2int,
    {
        let base = start_in(line, text);
        let (k, after) = match key(text, line, base) {
            Ok(ka) => ka,
            Err(e) => {
                return Err(e);
            },
        };
        proof {
            lemma_key_after(text@, line@, base as int);
        }
        let offset = start_in(line, after);
        if begins_with(after, '[') {
            let (header, inline) = match Header::parse(after, line, offset) {
                Ok(hi) => hi,
                Err(e) => {
                    return Err(e);
                },
            };
            proof {
                lemma_header_after(after@, line@, offset as int);
            }
            return match self.array(at, &header, inline, line, child_depth) {
                Ok((v, a)) => Ok(((k, v), a)),
                Err(e) => Err(e),
            };
        }
        proof {
            assert(after@.len() == after.len());
            lemma_utf8_len_skip(after@, 1);
            lemma_utf8_len_trim(after@.drop_first());
        }
        let tail = vstd::slice::slice_subrange(after, 1, after.len());
        assert(tail@ =~= after@.drop_first());
        let rest = trim_of(tail);
        if rest.len() == 0 {
            if at < self.lines.len() && self.lines[at].depth >= child_depth {
                proof {
                    self.lemma_model(at as int);
                }
                return match self.object(at, child_depth) {
                    Ok((o, a)) => {
                        proof {
                            lemma_object_view(o);
                        }
                        Ok(((k, Value::Object(o)), a))
                    },
                    Err(e) => Err(e),
                };
            }
            let empty: Vec<(String, Value)> = Vec::new();
            proof {
                lemma_object_view(empty);
                lemma_entries_view(empty@);
                assert(entries_view(empty@) =~= Seq::<(Seq<char>, Json)>::empty());
            }
            return Ok(((k, Value::Object(empty)), at));
        }
        let off = start_in(line, rest);
        match primitive(rest, line, off) {
            Ok(v) => Ok(((k, v), at)),
            Err(e) => Err(e),
        }
    }

    /// The array a header declares: a table's rows or a list's items at
    /// `item_depth`, or the inline values after the header.
    fn array(&self, at: usize, header: &Header, inline: &[char], line: &Line, item_depth: usize) -> (r: Result<(Value, usize), Malformed>)
        requires
            self.wf(),
            at <= self.lines@.len(),
            item_depth <= 2 * at + 3,
            fits(line@),
            utf8_len(inline@) <= utf8_len(line@.text),
        ensures
            agrees_at(r, spec_array(self.models(), at as int, header@, inline@, line@, item_depth as int)),
            r matches Ok((_, a)) ==> at <= a <= self.lines@.len(),
        decreases self.lines@.len() - at, 1int,
    {
        match &header.fields {
            Some(fields) => {
                if inline.len() != 0 {
                    return Err(fail(line, 0, String::from_str("a table's rows go below its header")));
                }
                let (rows, a) = match self.rows(at, header, fields, line, item_depth) {
                    Ok(ra) => ra,
                    Err(e) => {
                        return Err(e);
                    },
                };
                self.closed(rows, a, item_depth)
            },
            None => {
                if inline.len() != 0 {
                    let base = start_in(line, inline);
                    let values = match split(inline, header.delimiter, line, base) {
                        Ok(vs) => vs,
                        Err(e) => {
                            return Err(e);
                        },
                    };
                    proof {
                        lemma_values_view(values@);
                    }
                    if values.len() != header.count {
                        return Err(short_of(line, header.count, values.len()));
                    }
                    proof {
                        lemma_array_view(values);
                    }
                    return Ok((Value::Array(values), at));
                }
                let (items, a) = match self.items(at, header, line, item_depth) {
                    Ok(ia) => ia,
                    Err(e) => {
                        return Err(e);
                    },
                };
                self.closed(items, a, item_depth)
            },
        }
    }

    /// A table's rows at `item_depth`, one per line.
    fn rows(&self, start: usize, header: &Header, fields: &Vec<String>, line: &Line, item_depth: usize) -> (r: Result<(Vec<Value>, usize), Malformed>)
        requires
            self.wf(),
            start <= self.lines@.len(),
            fits(line@),
        ensures
            match r {
                Ok((rows, a)) => spec_rows(self.models(), start as int, header@, strings(fields@), line@, item_depth as int, Seq::empty())
                    == Ok::<(Seq<Json>, int), Refusal>((values_view(rows@), a as int))
                    && start <= a <= self.lines@.len(),
                Err(e) => spec_rows(self.models(), start as int, header@, strings(fields@), line@, item_depth as int, Seq::empty())
                    == Err::<(Seq<Json>, int), Refusal>(e@),
            },
    {
        let ghost fs = strings(fields@);
        let mut rows: Vec<Value> = Vec::new();
        let mut at = start;
        proof {
            lemma_values_view(rows@);
            assert(values_view(rows@) =~= Seq::<Json>::empty());
        }
        while rows.len() < header.count
            invariant
                self.wf(),
                start <= at <= self.lines@.len(),
                fits(line@),
                fs == strings(fields@),
                spec_rows(self.models(), start as int, header@, fs, line@, item_depth as int, Seq::empty())
                    == spec_rows(self.models(), at as int, header@, fs, line@, item_depth as int, values_view(rows@)),
            decreases self.lines@.len() - at,
        {
            proof {
                lemma_values_view(rows@);
            }
            let row = match self.peek_at(at, item_depth) {
                Some(row) => row,
                None => {
                    return Err(short_of(line, header.count, rows.len()));
                },
            };
            proof {
                self.lemma_model(at as int);
            }
            let values = match split(row.text.as_slice(), header.delimiter, row, 0) {
                Ok(vs) => vs,
                Err(e) => {
                    return Err(e);
                },
            };
            proof {
                lemma_values_view(values@);
            }
            if values.len() != fields.len() {
                let mut m = String::from_str("the row has ");
                push_decimal(&mut m, values.len());
                m.append(" values, the header names ");
                push_decimal(&mut m, fields.len());
                m.append(" fields");
                return Err(fail(row, 0, m));
            }
            let entries = row_of(fields, values);
            let ghost before = rows@;
            let obj = Value::Object(entries);
            proof {
                lemma_object_view(entries);
            }
            rows.push(obj);
            proof {
                lemma_values_view_push(before, obj);
            }
            at = at + 1;
        }
        proof {
            lemma_values_view(rows@);
        }
        Ok((rows, at))
    }

    /// A list's items at `item_depth`, each after a dash.
    fn items(&self, start: usize, header: &Header, line: &Line, item_depth: usize) -> (r: Result<(Vec<Value>, usize), Malformed>)
        requires
            self.wf(),
            start <= self.lines@.len(),
            item_depth <= 2 * start + 3,
            fits(line@),
        ensures
            match r {
                Ok((items, a)) => spec_items(self.models(), start as int, header@, line@, item_depth as int, Seq::empty())
                    == Ok::<(Seq<Json>, int), Refusal>((values_view(items@), a as int))
                    && start <= a <= self.lines@.len(),
                Err(e) => spec_items(self.models(), start as int, header@, line@, item_depth as int, Seq::empty())
                    == Err::<(Seq<Json>, int), Refusal>(e@),
            },
        decreases self.lines@.len() - start, 0int,
    {
        let mut items: Vec<Value> = Vec::new();
        let mut at = start;
        proof {
            lemma_values_view(items@);
            assert(values_view(items@) =~= Seq::<Json>::empty());
        }
        while items.len() < header.count
            invariant
                self.wf(),
                start <= at <= self.lines@.len(),
                item_depth <= 2 * start + 3,
                fits(line@),
                spec_items(self.models(), start as int, header@, line@, item_depth as int, Seq::empty())
                    == spec_items(self.models(), at as int, header@, line@, item_depth as int, values_view(items@)),
            decreases self.lines@.len() - at,
        {
            proof {
                lemma_values_view(items@);
            }
            let it = match self.peek_at(at, item_depth) {
                Some(it) => it,
                None => {
                    return Err(short_of(line, header.count, items.len()));
                },
            };
            proof {
                self.lemma_model(at as int);
            }
            let text = it.text.as_slice();
            if !begins_with(text, '-') {
                return Err(fail(it, 0, String::from_str("a list item starts with -")));
            }
            proof {
                assert(text@.len() == text.len());
                lemma_utf8_len_skip(text@, 1);
                lemma_utf8_len_trim(text@.drop_first());
            }
            let dashless = vstd::slice::slice_subrange(text, 1, text.len());
            assert(dashless@ =~= text@.drop_first());
            let body = trim_start_of(dashless);
            let offset = utf8_len_of(text) - utf8_len_of(body);
            let (v, a) = match self.item(at + 1, body, it, offset, item_depth + 1) {
                Ok(va) => va,
                Err(e) => {
                    return Err(e);
                },
            };
            let ghost before = items@;
            items.push(v);
            proof {
                lemma_values_view_push(before, v);
            }
            at = a;
        }
        proof {
            lemma_values_view(items@);
        }
        Ok((items, at))
    }

    /// The array is complete; one more line at its items' depth is one too
    /// many.
    fn closed(&self, items: Vec<Value>, at: usize, item_depth: usize) -> (r: Result<(Value, usize), Malformed>)
        requires
            self.wf(),
            at <= self.lines@.len(),
        ensures
            agrees_at(r, spec_closed(self.models(), at as int, values_view(items@), item_depth as int)),
            r matches Ok((_, a)) ==> a == at,
    {
        proof {
            lemma_values_view(items@);
        }
        match self.peek_at(at, item_depth) {
            Some(extra) => {
                proof {
                    self.lemma_model(at as int);
                }
                let mut m = String::from_str("the array declares ");
                push_decimal(&mut m, items.len());
                m.append(" items, more follow");
                Err(fail(extra, 0, m))
            },
            None => {
                proof {
                    lemma_array_view(items);
                }
                Ok((Value::Array(items), at))
            },
        }
    }

    /// A list item: a nested array, an object whose first field shares the
    /// dash's line and whose others sit at `fields_depth`, or a primitive.
    fn item(&self, at: usize, body: &[char], line: &Line, offset: usize, fields_depth: usize) -> (r: Result<(Value, usize), Malformed>)
        requires
            self.wf(),
            at <= self.lines@.len(),
            fields_depth <= 2 * at + 2,
            fits(line@),
            offset <= utf8_len(line@.text),
            utf8_len(body@) <= utf8_len(line@.text),
        ensures
            agrees_at(r, spec_item(self.models(), at as int, body@, line@, offset as int, fields_depth as int)),
            r matches Ok((_, a)) ==> at <= a <= self.lines@.len(),
        decreases self.lines@.len() - at, 3int,
    {
        if begins_with(body, '[') {
            let (header, inline) = match Header::parse(body, line, offset) {
                Ok(hi) => hi,
                Err(e) => {
                    return Err(e);
                },
            };
            proof {
                lemma_header_after(body@, line@, offset as int);
            }
            return self.array(at, &header, inline, line, fields_depth);
        }
        if is_field(body) {
            let ((k, v), a) = match self.field(at, body, line, fields_depth + 1) {
                Ok(kva) => kva,
                Err(e) => {
                    return Err(e);
                },
            };
            let mut object: Vec<(String, Value)> = Vec::new();
            proof {
                lemma_entries_view(object@);
                assert(entries_view(object@) =~= Seq::<(Seq<char>, Json)>::empty());
            }
            insert_entry(&mut object, k, v);
            if a < self.lines.len() && self.lines[a].depth >= fields_depth {
                proof {
                    self.lemma_model(a as int);
                }
                let (rest, b) = match self.object(a, fields_depth) {
                    Ok(ob) => ob,
                    Err(e) => {
                        return Err(e);
                    },
                };
                extend_entries(&mut object, rest);
                proof {
                    lemma_object_view(object);
                }
                return Ok((Value::Object(object), b));
            }
            proof {
                lemma_object_view(object);
            }
            return Ok((Value::Object(object), a));
        }
        match primitive(body, line, offset) {
            Ok(v) => Ok((v, at)),
            Err(e) => Err(e),
        }
    }

    /// The value the lines hold, and the line reached.
    fn document(&self) -> (r: Result<(Value, usize), Malformed>)
        requires
            self.wf(),
        ensures
            agrees_at(r, spec_document(self.models())),
            r matches Ok((_, a)) ==> a <= self.lines@.len(),
    {
        if self.lines.len() == 0 {
            let empty: Vec<(String, Value)> = Vec::new();
            proof {
                lemma_object_view(empty);
                lemma_entries_view(empty@);
                assert(entries_view(empty@) =~= Seq::<(Seq<char>, Json)>::empty());
            }
            return Ok((Value::Object(empty), 0));
        }
        let first = &self.lines[0];
        proof {
            self.lemma_model(0);
        }
        if first.depth != 0 {
            return Err(fail(first, 0, String::from_str("the document starts indented")));
        }
        let text = first.text.as_slice();
        if begins_with(text, '[') {
            let (header, inline) = match Header::parse(text, first, 0) {
                Ok(hi) => hi,
                Err(e) => {
                    return Err(e);
                },
            };
            proof {
                lemma_header_after(text@, first@, 0);
            }
            return self.array(1, &header, inline, first, 1);
        }
        if is_field(text) {
            return match self.object(0, 0) {
                Ok((o, a)) => {
                    proof {
                        lemma_object_view(o);
                    }
                    Ok((Value::Object(o), a))
                },
                Err(e) => Err(e),
            };
        }
        if self.lines.len() > 1 {
            proof {
                self.lemma_model(1);
            }
            return Err(fail(&self.lines[1], 0, String::from_str("a root value takes one line")));
        }
        match primitive(text, first, 0) {
            Ok(v) => Ok((v, 1)),
            Err(e) => Err(e),
        }
    }
}

/// Read a TOON document. An empty document is an empty object.
///
/// The error names the line and the column where the text stops being TOON.
pub fn parse(text: &str) -> (r: Result<Value, Malformed>)
    requires
        utf8_len(text@) <= usize::MAX / 2,
    ensures
        agrees(r, spec_parse(text@)),
{
    let chars = chars_of(text);
    let lines = match lines(chars.as_slice()) {
        Ok(ls) => ls,
        Err(e) => {
            return Err(e);
        },
    };
    let parser = Parser { lines };
    let (value, at) = match parser.document() {
        Ok(va) => va,
        Err(e) => {
            return Err(e);
        },
    };
    if at < parser.lines.len() {
        proof {
            parser.lemma_model(at as int);
        }
        return Err(fail(&parser.lines[at], 0, String::from_str("content after the document")));
    }
    Ok(value)
}

} // verus!
