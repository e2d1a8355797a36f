//! What holds of every document: a refusal names a line of the document
//! that is not blank and a column on it, each counted from one, and a quote
//! that never closes is refused at its own column; a line break before a document moves its
//! refusals one line down and changes nothing else; every object holds each
//! key once; an array holds as many items as its header declares, and a
//! table's rows bind its header's fields, a repeated one to its last value; a blank document is an
//! empty object; every string can be written quoted and read back; integers
//! and the keywords read as themselves, as does every text of the JSON
//! number grammar; a header declares the count its digits write and lists
//! the fields between its braces, each without the blanks around it; text
//! that reads as a key starts a field; parameters never change whether a
//! media type names TOON; and sniffing reads only the first line that is not
//! blank, claims every array header there, and does not claim a plain
//! `key: value` document.

use vstd::prelude::*;
use vstd::utf8::encode_utf8;

use crate::text::{
    split_on,
    decimal, digit_char, find, is_digit, is_whitespace, lead_ws, lemma_find2, lemma_lead_ws,
    lemma_trim_bounds, lemma_utf8_len_ge, lemma_utf8_len_skip, lemma_utf8_len_subrange,
    lemma_trail_ws, lemma_utf8_len_concat, lemma_utf8_len_trim, starts_with, trail_ws, trim, trim_end,
    trim_start, utf8_len, find2,
};
use crate::token::{
    close_from, digit_run, digit_value, digits_value, escaped_char, fraction_tail,
    integer_value, is_integer_text, lemma_closing_quote, lemma_digit_run,
    lemma_digits_value_nonneg, lemma_value_end, magnitude, number_model, unknown_escape, spec_closing_quote, spec_is_field,
    spec_is_number, spec_key, spec_primitive, spec_split, split_from, unescape, value_end,
};
use crate::toon::{
    HeaderModel, LineModel, Refusal, failure, field_name, field_names, lemma_header_after, lemma_key_after, lemma_space_run,
    line_of, lines_from, place, raw_lines, space_run, spec_array, spec_closed, spec_document, spec_field,
    spec_header, spec_item, spec_items, spec_lines, spec_object, spec_parse, spec_peek,
    spec_peek_at, spec_rows, zip_insert,
};
use crate::contract::{
    all_digits, first_nonblank, skip_leading, skip_trailing_marks, spec_is_toon_media_type,
    spec_looks_like_toon,
};
use crate::value::{Json, NumberModel, extend, insert, key_index, lemma_key_index};

verus! {

broadcast use vstd::seq::group_seq_axioms;

/// No key occurs twice among `entries`.
pub open spec fn distinct_keys(entries: Seq<(Seq<char>, Json)>) -> bool {
    forall|i: int, j: int| 0 <= i < j < entries.len() ==> entries[i].0 != entries[j].0
}

/// Every object in `v`, however deep, holds each key once.
pub open spec fn well_formed(v: Json) -> bool
    decreases v, 1nat,
{
    match v {
        Json::Array(items) => all_well_formed(items),
        Json::Object(entries) => distinct_keys(entries) && all_values_well_formed(entries),
        _ => true,
    }
}

pub open spec fn all_well_formed(items: Seq<Json>) -> bool
    decreases items, 0nat,
{
    if items.len() == 0 {
        true
    } else {
        proof {
            assert(decreases_to!(items => items[items.len() - 1]));
        }
        all_well_formed(items.drop_last()) && well_formed(items[items.len() - 1])
    }
}

pub open spec fn all_values_well_formed(entries: Seq<(Seq<char>, Json)>) -> bool
    decreases entries, 0nat,
{
    if entries.len() == 0 {
        true
    } else {
        proof {
            assert(decreases_to!(entries => entries[entries.len() - 1]));
            assert(decreases_to!(entries[entries.len() - 1] => entries[entries.len() - 1].1));
        }
        all_values_well_formed(entries.drop_last()) && well_formed(entries[entries.len() - 1].1)
    }
}

proof fn lemma_all_well_formed(items: Seq<Json>)
    ensures
        all_well_formed(items) == wf_values(items),
    decreases items.len(),
{
    if items.len() > 0 {
        let front = items.drop_last();
        lemma_all_well_formed(front);
        if all_well_formed(items) {
            assert forall|i: int| 0 <= i < items.len() implies #[trigger] well_formed(items[i]) by {
                if i < items.len() - 1 {
                    assert(front[i] == items[i]);
                    assert(well_formed(front[i]));
                }
            }
        } else if !all_well_formed(front) {
            let i = choose|i: int| 0 <= i < front.len() && !#[trigger] well_formed(front[i]);
            assert(front[i] == items[i]);
        }
        if wf_values(items) {
            assert forall|i: int| 0 <= i < front.len() implies #[trigger] well_formed(front[i]) by {
                assert(front[i] == items[i]);
            }
            assert(well_formed(items[items.len() - 1]));
        }
    }
}

proof fn lemma_all_values_well_formed(entries: Seq<(Seq<char>, Json)>)
    ensures
        all_values_well_formed(entries) == (forall|i: int| 0 <= i < entries.len() ==> #[trigger] well_formed(entries[i].1)),
    decreases entries.len(),
{
    if entries.len() > 0 {
        let front = entries.drop_last();
        lemma_all_values_well_formed(front);
        if all_values_well_formed(entries) {
            assert forall|i: int| 0 <= i < entries.len() implies #[trigger] well_formed(entries[i].1) by {
                if i < entries.len() - 1 {
                    assert(front[i] == entries[i]);
                    assert(well_formed(front[i].1));
                }
            }
        } else if !all_values_well_formed(front) {
            let i = choose|i: int| 0 <= i < front.len() && !#[trigger] well_formed(front[i].1);
            assert(front[i] == entries[i]);
        }
        if forall|i: int| 0 <= i < entries.len() ==> #[trigger] well_formed(entries[i].1) {
            assert forall|i: int| 0 <= i < front.len() implies #[trigger] well_formed(front[i].1) by {
                assert(front[i] == entries[i]);
            }
            assert(well_formed(entries[entries.len() - 1].1));
        }
    }
}

/// The entries are an object's: keys once each, values well formed.
pub open spec fn wf_entries(entries: Seq<(Seq<char>, Json)>) -> bool {
    distinct_keys(entries) && forall|i: int| 0 <= i < entries.len() ==> #[trigger] well_formed(entries[i].1)
}

pub open spec fn wf_values(values: Seq<Json>) -> bool {
    forall|i: int| 0 <= i < values.len() ==> #[trigger] well_formed(values[i])
}

proof fn lemma_wf_object(o: Seq<(Seq<char>, Json)>)
    ensures
        well_formed(Json::Object(o)) == wf_entries(o),
{
    lemma_all_values_well_formed(o);
}

proof fn lemma_wf_array(items: Seq<Json>)
    ensures
        well_formed(Json::Array(items)) == wf_values(items),
{
    lemma_all_well_formed(items);
}

proof fn lemma_insert_wf(o: Seq<(Seq<char>, Json)>, k: Seq<char>, v: Json)
    requires
        wf_entries(o),
        well_formed(v),
    ensures
        wf_entries(insert(o, k, v)),
{
    lemma_key_index(o, k);
    let r = insert(o, k, v);
    match key_index(o, k) {
        Some(i) => {
            assert forall|a: int, b: int| 0 <= a < b < r.len() implies r[a].0 != r[b].0 by {
                assert(r[a].0 == o[a].0);
                assert(r[b].0 == o[b].0);
            }
            assert forall|a: int| 0 <= a < r.len() implies #[trigger] well_formed(r[a].1) by {
                if a != i {
                    assert(r[a] == o[a]);
                }
            }
        },
        None => {
            assert forall|a: int, b: int| 0 <= a < b < r.len() implies r[a].0 != r[b].0 by {
                if b == o.len() {
                    assert(o[a].0 != k);
                } else {
                    assert(r[a] == o[a] && r[b] == o[b]);
                }
            }
            assert forall|a: int| 0 <= a < r.len() implies #[trigger] well_formed(r[a].1) by {
                if a < o.len() {
                    assert(r[a] == o[a]);
                }
            }
        },
    }
}

proof fn lemma_extend_wf(o: Seq<(Seq<char>, Json)>, extra: Seq<(Seq<char>, Json)>)
    requires
        wf_entries(o),
        forall|i: int| 0 <= i < extra.len() ==> #[trigger] well_formed(extra[i].1),
    ensures
        wf_entries(extend(o, extra)),
    decreases extra.len(),
{
    if extra.len() > 0 {
        lemma_insert_wf(o, extra[0].0, extra[0].1);
        assert forall|i: int| 0 <= i < extra.drop_first().len() implies #[trigger] well_formed(
            extra.drop_first()[i].1,
        ) by {
            assert(extra.drop_first()[i] == extra[i + 1]);
        }
        lemma_extend_wf(insert(o, extra[0].0, extra[0].1), extra.drop_first());
    }
}

proof fn lemma_zip_insert_wf(o: Seq<(Seq<char>, Json)>, fields: Seq<Seq<char>>, vs: Seq<Json>)
    requires
        wf_entries(o),
        wf_values(vs),
    ensures
        wf_entries(zip_insert(o, fields, vs)),
    decreases fields.len(),
{
    if fields.len() > 0 && vs.len() > 0 {
        lemma_insert_wf(o, fields[0], vs[0]);
        assert forall|i: int| 0 <= i < vs.drop_first().len() implies #[trigger] well_formed(
            vs.drop_first()[i],
        ) by {
            assert(vs.drop_first()[i] == vs[i + 1]);
        }
        lemma_zip_insert_wf(insert(o, fields[0], vs[0]), fields.drop_first(), vs.drop_first());
    }
}


// ---------------------------------------------------------------- located refusals

/// `s` is what is left of `t` from some point on.
pub open spec fn suffix_of(s: Seq<char>, t: Seq<char>) -> bool {
    s.len() <= t.len() && t.skip(t.len() - s.len()) == s
}

/// `t` does not end with whitespace.
pub open spec fn tidy(t: Seq<char>) -> bool {
    t.len() == 0 || !is_whitespace(t.last())
}

/// A line numbered within `raws` whose text stands in that raw line from
/// byte `column - 1` on, past an indentation of single-byte characters, and
/// ends without whitespace.
pub open spec fn line_named(l: LineModel, raws: Seq<Seq<char>>) -> bool {
    &&& 1 <= l.number <= raws.len()
    &&& 1 <= l.column
    &&& l.column - 1 + utf8_len(l.text) <= utf8_len(raws[l.number - 1])
    &&& l.column - 1 + l.text.len() <= raws[l.number - 1].len()
    &&& raws[l.number - 1].subrange(l.column - 1, l.column - 1 + l.text.len()) == l.text
    &&& utf8_len(raws[l.number - 1].take(l.column - 1)) == l.column - 1
    &&& tidy(l.text)
    &&& trim(raws[l.number - 1]).len() != 0
}

pub open spec fn lines_named(ls: Seq<LineModel>, raws: Seq<Seq<char>>) -> bool {
    forall|k: int| 0 <= k < ls.len() ==> line_named(#[trigger] ls[k], raws)
}

/// The message of a refusal for a quoted string that never closes.
pub open spec fn unclosed() -> Seq<char> {
    "the quote never closes"@
}

/// A refusal at a line of `raws` that is not blank, at a column counted
/// from one that falls within the line or just past its end.
pub open spec fn placed(e: Refusal, raws: Seq<Seq<char>>) -> bool {
    &&& 1 <= e.line <= raws.len()
    &&& 1 <= e.column <= utf8_len(raws[e.line - 1]) + 1
    &&& trim(raws[e.line - 1]).len() != 0
}

/// The refusal's column, counted in bytes from one, is that of a `"` on its
/// line.
pub open spec fn at_quote(e: Refusal, raws: Seq<Seq<char>>) -> bool {
    exists|i: int|
        #![trigger raws[e.line - 1].take(i)]
        0 <= i < raws[e.line - 1].len() && utf8_len(raws[e.line - 1].take(i)) + 1 == e.column
            && raws[e.line - 1][i] == '"'
}

/// A refusal placed in `raws`, one for a quote that never closes at that
/// quote's column.
pub open spec fn named(e: Refusal, raws: Seq<Seq<char>>) -> bool {
    placed(e, raws) && (e.message == unclosed() ==> at_quote(e, raws))
}

proof fn lemma_messages()
    ensures
        "a tab in the indentation; TOON indents with spaces"@ != unclosed(),
        "the indentation is not a multiple of two spaces"@ != unclosed(),
        "expected ["@ != unclosed(),
        "expected the array's length"@ != unclosed(),
        "expected ] after the length"@ != unclosed(),
        "the field list is not closed with }"@ != unclosed(),
        "expected : after the array header"@ != unclosed(),
        "unexpected indentation"@ != unclosed(),
        "a table's rows go below its header"@ != unclosed(),
        "a list item starts with -"@ != unclosed(),
        "the document starts indented"@ != unclosed(),
        "a root value takes one line"@ != unclosed(),
        "content after the document"@ != unclosed(),
        "expected a quoted string"@ != unclosed(),
        "content after the closing quote"@ != unclosed(),
        "the key's quote never closes"@ != unclosed(),
        "expected : or [ after the key"@ != unclosed(),
        "expected key: value"@ != unclosed(),
        "the key is empty"@ != unclosed(),
        forall|c: char| #[trigger] unknown_escape(c) != unclosed(),
        forall|x: Seq<char>| #[trigger] ("the array declares "@ + x) != unclosed() ==> true,
        forall|x: Seq<char>| (#[trigger] ("the array declares "@ + x))[4] == 'a',
        forall|x: Seq<char>| (#[trigger] ("the row has "@ + x))[4] == 'r',
        "the array declares "@.len() == 19,
        "the row has "@.len() == 12,
        unclosed()[4] == 'q',
{
    reveal_strlit("the quote never closes");
    reveal_strlit("a tab in the indentation; TOON indents with spaces");
    reveal_strlit("the indentation is not a multiple of two spaces");
    reveal_strlit("expected [");
    reveal_strlit("expected the array's length");
    reveal_strlit("expected ] after the length");
    reveal_strlit("the field list is not closed with }");
    reveal_strlit("expected : after the array header");
    reveal_strlit("unexpected indentation");
    reveal_strlit("a table's rows go below its header");
    reveal_strlit("a list item starts with -");
    reveal_strlit("the document starts indented");
    reveal_strlit("a root value takes one line");
    reveal_strlit("content after the document");
    reveal_strlit("expected a quoted string");
    reveal_strlit("content after the closing quote");
    reveal_strlit("the key's quote never closes");
    reveal_strlit("expected : or [ after the key");
    reveal_strlit("expected key: value");
    reveal_strlit("the key is empty");
    reveal_strlit("unknown escape \\");
    reveal_strlit("the array declares ");
    reveal_strlit("the row has ");
    let q = unclosed();
    assert(q[0] == 't' && q[4] == 'q' && q.len() == 22);
    assert("a tab in the indentation; TOON indents with spaces"@[0] != q[0]);
    assert("the indentation is not a multiple of two spaces"@[4] != q[4]);
    assert("expected the array's length"@[0] != q[0]);
    assert("expected ] after the length"@[0] != q[0]);
    assert("the field list is not closed with }"@[4] != q[4]);
    assert("expected : after the array header"@[0] != q[0]);
    assert("unexpected indentation"@[0] != q[0]);
    assert("a table's rows go below its header"@[0] != q[0]);
    assert("a list item starts with -"@[0] != q[0]);
    assert("the document starts indented"@[4] != q[4]);
    assert("a root value takes one line"@[0] != q[0]);
    assert("content after the document"@[0] != q[0]);
    assert("expected a quoted string"@[0] != q[0]);
    assert("content after the closing quote"@[0] != q[0]);
    assert("the key's quote never closes"@[4] != q[4]);
    assert("expected : or [ after the key"@[0] != q[0]);
    assert("expected key: value"@[0] != q[0]);
    assert("the key is empty"@[4] != q[4]);
    assert forall|c: char| #[trigger] unknown_escape(c) != unclosed() by {
        assert(unknown_escape(c).len() == 17);
    }
}

/// A quote at index `k` of `s`, the rest of `line`'s text, stands in its raw
/// line at the column a refusal there names.
proof fn lemma_quote_point(l: LineModel, raws: Seq<Seq<char>>, s: Seq<char>, k: int, m: Seq<char>)
    requires
        line_named(l, raws),
        suffix_of(s, l.text),
        0 <= k < s.len(),
        s[k] == '"',
    ensures
        at_quote(failure(l, place(l, s) + utf8_len(s.take(k)), m), raws),
{
    let raw = raws[l.number - 1];
    let c = l.column - 1;
    let p = l.text.len() - s.len();
    let i = c + p + k;
    assert(raw.take(i) =~= raw.take(c) + l.text.take(p + k)) by {
        assert forall|j: int| c <= j < i implies raw[j] == l.text[j - c] by {
            assert(raw.subrange(c, c + l.text.len())[j - c] == raw[j]);
        }
    }
    lemma_utf8_len_concat(raw.take(c), l.text.take(p + k));
    assert(l.text.take(p + k) =~= l.text.take(p) + s.take(k));
    lemma_utf8_len_concat(l.text.take(p), s.take(k));
    assert(l.text =~= l.text.take(p) + s);
    lemma_utf8_len_concat(l.text.take(p), s);
    assert(raw[i] == raw.subrange(c, c + l.text.len())[p + k]);
    assert(l.text[p + k] == s[k]);
    let e = failure(l, place(l, s) + utf8_len(s.take(k)), m);
    assert(utf8_len(raw.take(i)) == c + utf8_len(l.text.take(p)) + utf8_len(s.take(k)));
    assert(place(l, s) == utf8_len(l.text.take(p)));
    assert(e.line == l.number);
    assert(0 <= i < raw.len());
    assert(raw[i] == '"');
    assert(utf8_len(raws[e.line - 1].take(i)) + 1 == e.column);
}

proof fn lemma_suffix_skip(t: Seq<char>, j: int)
    requires
        0 <= j <= t.len(),
    ensures
        suffix_of(t.skip(j), t),
{
    assert(t.skip(t.len() - t.skip(j).len()) =~= t.skip(j));
}

proof fn lemma_suffix_trans(s: Seq<char>, m: Seq<char>, t: Seq<char>)
    requires
        suffix_of(s, m),
        suffix_of(m, t),
    ensures
        suffix_of(s, t),
        utf8_len(s) <= utf8_len(t),
{
    assert(t.skip(t.len() - s.len()) =~= m.skip(m.len() - s.len()));
    lemma_utf8_len_skip(t, t.len() - s.len());
}

proof fn lemma_suffix_len(s: Seq<char>, t: Seq<char>)
    requires
        suffix_of(s, t),
    ensures
        utf8_len(s) <= utf8_len(t),
        place(LineModel { number: 0, depth: 0, column: 0, text: t }, s) >= 0,
{
    lemma_utf8_len_skip(t, t.len() - s.len());
}

/// Trimming what is left of a text that ends without whitespace leaves
/// what is left of it from a later point.
proof fn lemma_suffix_trim(x: Seq<char>, t: Seq<char>)
    requires
        suffix_of(x, t),
        tidy(t),
    ensures
        suffix_of(trim(x), t),
        suffix_of(trim_start(x), t),
{
    lemma_trim_bounds(x);
    lemma_suffix_skip(x, lead_ws(x) as int);
    lemma_suffix_trans(trim_start(x), x, t);
    let y = trim_start(x);
    if y.len() > 0 {
        assert(y.last() == x.last());
        assert(x.last() == t.last()) by {
            assert(t.skip(t.len() - x.len())[x.len() - 1] == t[t.len() - 1]);
        }
        assert(trail_ws(y) == 0);
        assert(trim(x) =~= y);
    } else {
        assert(trim(x) =~= Seq::<char>::empty());
        assert(t.skip(t.len() - 0) =~= Seq::<char>::empty());
    }
}

/// `text` starts at byte `offset` of `line`'s text and ends within it.
pub open spec fn inside(line: LineModel, offset: int, text: Seq<char>) -> bool {
    0 <= offset && offset + utf8_len(text) <= utf8_len(line.text)
}

/// `text` is what is left of `line`'s text from byte `offset` on.
pub open spec fn rest_at(line: LineModel, offset: int, text: Seq<char>) -> bool {
    suffix_of(text, line.text) && offset == place(line, text)
}

proof fn lemma_rest_inside(line: LineModel, offset: int, text: Seq<char>)
    requires
        rest_at(line, offset, text),
    ensures
        inside(line, offset, text),
{
    lemma_suffix_len(text, line.text);
}

proof fn lemma_primitive_facts(text: Seq<char>, line: LineModel, offset: int, raws: Seq<Seq<char>>)
    ensures
        spec_primitive(text, line, offset) matches Ok(v) ==> well_formed(v),
        line_named(line, raws) && inside(line, offset, text) ==> (spec_primitive(text, line, offset)
            matches Err(e) ==> placed(e, raws)),
        spec_primitive(text, line, offset) matches Err(e) ==> (e.message == unclosed() ==> (
        starts_with(text, '"') && e == failure(line, offset, unclosed()))),
        line_named(line, raws) && rest_at(line, offset, text) ==> (spec_primitive(text, line, offset)
            matches Err(e) ==> named(e, raws)),
{
    lemma_messages();
    lemma_closing_quote(text);
    if let Some(end) = spec_closing_quote(text) {
        lemma_utf8_len_skip(text, end + 1);
    }
    if line_named(line, raws) && rest_at(line, offset, text) {
        lemma_rest_inside(line, offset, text);
        if starts_with(text, '"') {
            lemma_quote_point(line, raws, text, 0, unclosed());
            assert(text.take(0) =~= Seq::<char>::empty());
            assert(encode_utf8(Seq::<char>::empty()) =~= Seq::<u8>::empty());
        }
    }
}

proof fn lemma_unescape_errors(s: Seq<char>)
    ensures
        unescape(s) matches Err(m) ==> m != unclosed(),
    decreases s.len(),
{
    lemma_messages();
    if s.len() > 0 {
        if s[0] != '\\' {
            lemma_unescape_errors(s.drop_first());
        } else if s.len() > 1 {
            lemma_unescape_errors(s.skip(2));
        }
    }
}

proof fn lemma_key_facts(text: Seq<char>, line: LineModel, raws: Seq<Seq<char>>)
    ensures
        line_named(line, raws) && suffix_of(text, line.text) ==> (spec_key(text, line, place(line, text)) matches Err(
            e,
        ) ==> named(e, raws)),
{
    lemma_messages();
    lemma_closing_quote(text);
    if let Some(end) = spec_closing_quote(text) {
        lemma_utf8_len_skip(text, end + 1);
        let q = text.take(end + 1);
        lemma_unescape_errors(q.subrange(1, q.len() - 1));
    }
    if suffix_of(text, line.text) {
        lemma_suffix_len(text, line.text);
    }
}

/// What follows a header's colon, trimmed, is what is left of the line.
proof fn lemma_header_inline(text: Seq<char>, line: LineModel, offset: int, t: Seq<char>)
    requires
        suffix_of(text, t),
        tidy(t),
    ensures
        spec_header(text, line, offset) matches Ok((h, inline)) ==> suffix_of(inline, t),
{
    if let Ok((h, inline)) = spec_header(text, line, offset) {
        let inner0 = text.drop_first();
        let h0: int = if starts_with(inner0, '#') { 2 } else { 1 };
        let inner = text.skip(h0);
        assert(inner =~= if starts_with(inner0, '#') { inner0.drop_first() } else { inner0 });
        let digits = digit_run(inner, 0) as int;
        lemma_digit_run(inner, 0);
        let rest0 = inner.skip(digits);
        let h1: int = if starts_with(rest0, '\t') || starts_with(rest0, '|') { 1 } else { 0 };
        let rest1 = text.skip(h0 + digits + h1);
        assert(rest1 =~= if starts_with(rest0, '\t') || starts_with(rest0, '|') {
            rest0.drop_first()
        } else {
            rest0
        });
        let j2 = h0 + digits + h1 + 1;
        let rest2 = text.skip(j2);
        assert(rest2 =~= rest1.drop_first());
        let x = if starts_with(rest2, '{') {
            let inside = rest2.drop_first();
            lemma_find2(inside, '}', '}');
            let close = find(inside, '}')->0;
            let rest3 = inside.skip(close + 1);
            assert(rest3.drop_first() =~= text.skip(j2 + 1 + close + 2));
            rest3.drop_first()
        } else {
            assert(rest2.drop_first() =~= text.skip(j2 + 1));
            rest2.drop_first()
        };
        assert(inline == trim(x));
        assert(suffix_of(x, text)) by {
            assert(text.skip(text.len() - x.len()) =~= x);
        }
        lemma_suffix_trans(x, text, t);
        lemma_suffix_trim(x, t);
    }
}

proof fn lemma_header_facts(text: Seq<char>, line: LineModel, offset: int, raws: Seq<Seq<char>>)
    ensures
        spec_header(text, line, offset) matches Ok((h, inline)) ==> h.count >= 0 && utf8_len(inline)
            <= utf8_len(text),
        line_named(line, raws) && rest_at(line, offset, text) ==> (spec_header(text, line, offset)
            matches Err(e) ==> named(e, raws)),
        line_named(line, raws) && suffix_of(text, line.text) ==> (spec_header(text, line, offset)
            matches Ok((h, inline)) ==> suffix_of(inline, line.text)),
{
    lemma_messages();
    lemma_header_after(text, line, offset);
    lemma_utf8_len_ge(text);
    if rest_at(line, offset, text) {
        lemma_rest_inside(line, offset, text);
    }
    if line_named(line, raws) && suffix_of(text, line.text) {
        lemma_header_inline(text, line, offset, line.text);
    }
    let inner0 = text.drop_first();
    let inner = if starts_with(inner0, '#') {
        inner0.drop_first()
    } else {
        inner0
    };
    let digits = digit_run(inner, 0) as int;
    lemma_digit_run(inner, 0);
    if let Ok((h, inline)) = spec_header(text, line, offset) {
        let ds = inner.take(digits);
        assert forall|i: int| 0 <= i < ds.len() implies is_digit(#[trigger] ds[i]) by {
            assert(ds[i] == inner[i]);
        }
        lemma_digits_value_nonneg(ds);
    }
}

proof fn lemma_split_facts(text: Seq<char>, d: char, line: LineModel, at: int, acc: Seq<Json>, raws: Seq<Seq<char>>)
    requires
        wf_values(acc),
    ensures
        split_from(text, d, line, place(line, text), at, acc) matches Ok(vs) ==> wf_values(vs),
        line_named(line, raws) && suffix_of(text, line.text) ==> (split_from(text, d, line, place(line, text), at, acc)
            matches Err(e) ==> named(e, raws)),
    decreases text.len() - at,
{
    lemma_messages();
    if 0 <= at <= text.len() {
        let start = at + lead_ws(text.skip(at));
        lemma_lead_ws(text.skip(at));
        let rest = text.skip(start);
        lemma_utf8_len_subrange(text, start, text.len() as int);
        assert(text.subrange(start, text.len() as int) =~= rest);
        lemma_closing_quote(rest);
        if let Some(close) = spec_closing_quote(rest) {
            lemma_utf8_len_skip(rest, close + 1);
        }
        let named_here = line_named(line, raws) && suffix_of(text, line.text);
        if named_here {
            lemma_suffix_len(text, line.text);
            if starts_with(rest, '"') {
                lemma_quote_point(line, raws, text, start, unclosed());
            }
        }
        if let Ok(end) = value_end(text, d, line, place(line, text), start) {
            lemma_value_end(text, d, line, place(line, text), start);
            let offset = place(line, text) + utf8_len(text.take(start));
            let sub = text.subrange(start, end);
            let piece = trim(sub);
            lemma_utf8_len_subrange(text, start, end);
            lemma_utf8_len_trim(sub);
            lemma_primitive_facts(piece, line, offset, raws);
            if named_here && starts_with(piece, '"') {
                // The piece starts where its value does, past no blank.
                lemma_trim_bounds(sub);
                assert(sub.len() > 0);
                assert(sub[0] == text[start]);
                assert(lead_ws(sub) == 0);
                assert(piece[0] == sub[0]);
                assert(rest[0] == text[start]);
                lemma_quote_point(line, raws, text, start, unclosed());
            }
            if let Ok(v) = spec_primitive(piece, line, offset) {
                let more = acc.push(v);
                assert forall|i: int| 0 <= i < more.len() implies #[trigger] well_formed(more[i]) by {
                    if i < acc.len() {
                        assert(more[i] == acc[i]);
                    }
                }
                if starts_with(text.skip(end), d) {
                    lemma_split_facts(text, d, line, end + 1, more, raws);
                }
            }
        }
    }
}

proof fn lemma_closed_facts(ls: Seq<LineModel>, at: int, items: Seq<Json>, depth: int, raws: Seq<Seq<char>>)
    ensures
        spec_closed(ls, at, items, depth) matches Ok((v, a)) ==> v == Json::Array(items) && a
            == at,
        lines_named(ls, raws) ==> (spec_closed(ls, at, items, depth) matches Err(e) ==> named(e, raws)),
{
    lemma_messages();
}

proof fn lemma_rows_facts(ls: Seq<LineModel>, at: int, h: HeaderModel, fields: Seq<Seq<char>>, line: LineModel, depth: int, acc: Seq<Json>, raws: Seq<Seq<char>>)
    requires
        wf_values(acc),
        0 <= at <= ls.len(),
    ensures
        spec_rows(ls, at, h, fields, line, depth, acc) matches Ok((rows, a)) ==> wf_values(rows)
            && (acc.len() <= h.count ==> rows.len() == h.count) && at <= a <= ls.len(),
        lines_named(ls, raws) && line_named(line, raws) ==> (spec_rows(ls, at, h, fields, line, depth, acc)
            matches Err(e) ==> named(e, raws)),
    decreases ls.len() - at,
{
    lemma_messages();
    if acc.len() < h.count {
        if let Some(row) = spec_peek_at(ls, at, depth) {
            lemma_suffix_skip(row.text, 0);
            assert(row.text.skip(0) =~= row.text);
            lemma_split_facts(row.text, h.delimiter, row, 0, Seq::empty(), raws);
            if let Ok(vs) = spec_split(row.text, h.delimiter, row, 0) {
                if vs.len() == fields.len() {
                    lemma_zip_insert_wf(Seq::empty(), fields, vs);
                    let row_value = Json::Object(zip_insert(Seq::empty(), fields, vs));
                    lemma_wf_object(zip_insert(Seq::empty(), fields, vs));
                    assert(well_formed(row_value));
                    let more = acc.push(row_value);
                    assert forall|i: int| 0 <= i < more.len() implies #[trigger] well_formed(more[i]) by {
                        if i < acc.len() {
                            assert(more[i] == acc[i]);
                        }
                    }
                    lemma_rows_facts(ls, at + 1, h, fields, line, depth, more, raws);
                }
            }
        }
    }
}

proof fn lemma_object_facts(ls: Seq<LineModel>, at: int, depth: int, acc: Seq<(Seq<char>, Json)>, raws: Seq<Seq<char>>)
    requires
        wf_entries(acc),
        0 <= at <= ls.len(),
    ensures
        spec_object(ls, at, depth, acc) matches Ok((o, a)) ==> wf_entries(o) && at <= a <= ls.len(),
        lines_named(ls, raws) ==> (spec_object(ls, at, depth, acc) matches Err(e) ==> named(e, raws)),
    decreases ls.len() - at, 0int,
{
    lemma_messages();
    if let Some(line) = spec_peek(ls, at) {
        if line.depth == depth {
            lemma_suffix_skip(line.text, 0);
            assert(line.text.skip(0) =~= line.text);
            lemma_field_facts(ls, at + 1, line.text, line, depth + 1, raws);
            if let Ok((kv, a)) = spec_field(ls, at + 1, line.text, line, depth + 1) {
                if at < a <= ls.len() {
                    lemma_insert_wf(acc, kv.0, kv.1);
                    lemma_object_facts(ls, a, depth, insert(acc, kv.0, kv.1), raws);
                }
            }
        }
    }
}

proof fn lemma_field_facts(ls: Seq<LineModel>, at: int, text: Seq<char>, line: LineModel, child_depth: int, raws: Seq<Seq<char>>)
    requires
        0 <= at <= ls.len(),
    ensures
        spec_field(ls, at, text, line, child_depth) matches Ok((kv, a)) ==> well_formed(kv.1) && at
            <= a <= ls.len(),
        lines_named(ls, raws) && line_named(line, raws) && suffix_of(text, line.text) ==> (
        spec_field(ls, at, text, line, child_depth) matches Err(e) ==> named(e, raws)),
    decreases ls.len() - at, 2int,
{
    let good = lines_named(ls, raws) && line_named(line, raws) && suffix_of(text, line.text);
    lemma_key_facts(text, line, raws);
    lemma_key_after(text, line, place(line, text));
    lemma_closing_quote(text);
    lemma_find2(text, ':', '[');
    if let Ok((k, after)) = spec_key(text, line, place(line, text)) {
        // What follows the key is what is left of the text.
        let j: int = if starts_with(text, '"') {
            spec_closing_quote(text)->0 + 1
        } else {
            find2(text, ':', '[')->0
        };
        assert(after == text.skip(j));
        lemma_suffix_skip(text, j);
        if good {
            lemma_suffix_trans(after, text, line.text);
        }
        let offset = place(line, after);
        if starts_with(after, '[') {
            lemma_header_facts(after, line, offset, raws);
            if let Ok((h, inline)) = spec_header(after, line, offset) {
                lemma_array_facts(ls, at, h, inline, line, child_depth, raws);
            }
        } else {
            let rest = trim(after.drop_first());
            lemma_utf8_len_skip(after, 1);
            lemma_utf8_len_trim(after.drop_first());
            if good {
                assert(after.drop_first() =~= text.skip(j + 1));
                lemma_suffix_skip(text, j + 1);
                lemma_suffix_trans(after.drop_first(), text, line.text);
                lemma_suffix_trim(after.drop_first(), line.text);
            }
            if rest.len() == 0 {
                lemma_wf_object(Seq::empty());
                if let Some(next) = spec_peek(ls, at) {
                    if next.depth >= child_depth {
                        lemma_object_facts(ls, at, child_depth, Seq::empty(), raws);
                        if let Ok((o, a)) = spec_object(ls, at, child_depth, Seq::empty()) {
                            lemma_wf_object(o);
                        }
                    }
                }
            } else {
                lemma_primitive_facts(rest, line, place(line, rest), raws);
            }
        }
    }
}

proof fn lemma_array_facts(ls: Seq<LineModel>, at: int, h: HeaderModel, inline: Seq<char>, line: LineModel, depth: int, raws: Seq<Seq<char>>)
    requires
        0 <= at <= ls.len(),
    ensures
        spec_array(ls, at, h, inline, line, depth) matches Ok((v, a)) ==> well_formed(v) && (h.count
            >= 0 ==> (v matches Json::Array(items) && items.len() == h.count)) && at <= a <= ls.len(),
        lines_named(ls, raws) && line_named(line, raws) && suffix_of(inline, line.text) ==> (
        spec_array(ls, at, h, inline, line, depth) matches Err(e) ==> named(e, raws)),
    decreases ls.len() - at, 1int,
{
    lemma_messages();
    match h.fields {
        Some(fields) => {
            if inline.len() == 0 {
                lemma_rows_facts(ls, at, h, fields, line, depth, Seq::empty(), raws);
                if let Ok((rows, a)) = spec_rows(ls, at, h, fields, line, depth, Seq::empty()) {
                    lemma_closed_facts(ls, a, rows, depth, raws);
                    lemma_wf_array(rows);
                }
            }
        },
        None => {
            if inline.len() != 0 {
                lemma_split_facts(inline, h.delimiter, line, 0, Seq::empty(), raws);
                if let Ok(vs) = spec_split(inline, h.delimiter, line, place(line, inline)) {
                    lemma_wf_array(vs);
                }
            } else {
                lemma_items_facts(ls, at, h, line, depth, Seq::empty(), raws);
                if let Ok((items, a)) = spec_items(ls, at, h, line, depth, Seq::empty()) {
                    lemma_closed_facts(ls, a, items, depth, raws);
                    lemma_wf_array(items);
                }
            }
        },
    }
}

proof fn lemma_items_facts(ls: Seq<LineModel>, at: int, h: HeaderModel, line: LineModel, depth: int, acc: Seq<Json>, raws: Seq<Seq<char>>)
    requires
        wf_values(acc),
        0 <= at <= ls.len(),
    ensures
        spec_items(ls, at, h, line, depth, acc) matches Ok((items, a)) ==> wf_values(items) && (
        acc.len() <= h.count ==> items.len() == h.count) && at <= a <= ls.len(),
        lines_named(ls, raws) && line_named(line, raws) ==> (spec_items(ls, at, h, line, depth, acc)
            matches Err(e) ==> named(e, raws)),
    decreases ls.len() - at, 0int,
{
    lemma_messages();
    if acc.len() < h.count {
        if let Some(it) = spec_peek_at(ls, at, depth) {
            if starts_with(it.text, '-') {
                let body = trim_start(it.text.drop_first());
                lemma_utf8_len_skip(it.text, 1);
                lemma_utf8_len_trim(it.text.drop_first());
                let offset = utf8_len(it.text) - utf8_len(body);
                if lines_named(ls, raws) {
                    assert(line_named(ls[at], raws));
                    lemma_suffix_skip(it.text, 1);
                    assert(it.text.skip(1) =~= it.text.drop_first());
                    lemma_suffix_trim(it.text.drop_first(), it.text);
                }
                lemma_item_facts(ls, at + 1, body, it, offset, depth + 1, raws);
                if let Ok((v, a)) = spec_item(ls, at + 1, body, it, offset, depth + 1) {
                    if at < a <= ls.len() {
                        let more = acc.push(v);
                        assert forall|i: int| 0 <= i < more.len() implies #[trigger] well_formed(more[i]) by {
                            if i < acc.len() {
                                assert(more[i] == acc[i]);
                            }
                        }
                        lemma_items_facts(ls, a, h, line, depth, more, raws);
                    }
                }
            }
        }
    }
}

proof fn lemma_item_facts(ls: Seq<LineModel>, at: int, body: Seq<char>, line: LineModel, offset: int, depth: int, raws: Seq<Seq<char>>)
    requires
        0 <= at <= ls.len(),
    ensures
        spec_item(ls, at, body, line, offset, depth) matches Ok((v, a)) ==> well_formed(v) && at <= a
            <= ls.len(),
        lines_named(ls, raws) && line_named(line, raws) && rest_at(line, offset, body) ==> (spec_item(
            ls,
            at,
            body,
            line,
            offset,
            depth,
        ) matches Err(e) ==> named(e, raws)),
    decreases ls.len() - at, 3int,
{
    if starts_with(body, '[') {
        lemma_header_facts(body, line, offset, raws);
        if let Ok((h, inline)) = spec_header(body, line, offset) {
            lemma_array_facts(ls, at, h, inline, line, depth, raws);
        }
    } else if spec_is_field(body) {
        lemma_field_facts(ls, at, body, line, depth + 1, raws);
        if let Ok((kv, a)) = spec_field(ls, at, body, line, depth + 1) {
            lemma_insert_wf(Seq::empty(), kv.0, kv.1);
            let first = insert(Seq::empty(), kv.0, kv.1);
            lemma_wf_object(first);
            if let Some(next) = spec_peek(ls, a) {
                if next.depth >= depth && at <= a <= ls.len() {
                    lemma_object_facts(ls, a, depth, Seq::empty(), raws);
                    if let Ok((rest, b)) = spec_object(ls, a, depth, Seq::empty()) {
                        lemma_extend_wf(first, rest);
                        lemma_wf_object(extend(first, rest));
                    }
                }
            }
        }
    } else {
        lemma_primitive_facts(body, line, offset, raws);
    }
}

#[verifier::rlimit(40)]
proof fn lemma_document_facts(ls: Seq<LineModel>, raws: Seq<Seq<char>>)
    ensures
        spec_document(ls) matches Ok((v, a)) ==> well_formed(v) && 0 <= a <= ls.len(),
        lines_named(ls, raws) ==> (spec_document(ls) matches Err(e) ==> named(e, raws)),
{
    lemma_messages();
    lemma_wf_object(Seq::empty());
    if let Some(first) = spec_peek(ls, 0) {
        lemma_suffix_skip(first.text, 0);
        assert(first.text.skip(0) =~= first.text);
        assert(place(first, first.text) == 0);
        if first.depth == 0 {
            if starts_with(first.text, '[') {
                lemma_header_facts(first.text, first, 0, raws);
                if let Ok((h, inline)) = spec_header(first.text, first, 0) {
                    lemma_array_facts(ls, 1, h, inline, first, 1, raws);
                }
            } else if spec_is_field(first.text) {
                lemma_object_facts(ls, 0, 0, Seq::empty(), raws);
                if let Ok((o, a)) = spec_object(ls, 0, 0, Seq::empty()) {
                    lemma_wf_object(o);
                }
            } else {
                lemma_primitive_facts(first.text, first, 0, raws);
            }
        }
    }
}

proof fn lemma_line_of_facts(raws: Seq<Seq<char>>, i: int)
    requires
        0 <= i < raws.len(),
    ensures
        line_of(raws[i], i + 1) matches Ok(Some(l)) ==> line_named(l, raws),
        line_of(raws[i], i + 1) matches Err(e) ==> named(e, raws),
{
    lemma_messages();
    let raw = raws[i];
    let indent = space_run(raw) as int;
    lemma_space_run(raw);
    lemma_utf8_len_ge(raw);
    lemma_utf8_len_subrange(raw, indent, raw.len() as int);
    assert(raw.subrange(indent, raw.len() as int) =~= raw.skip(indent));
    assert(raw.take(indent) =~= raw.take(space_run(raw) as int));
    lemma_utf8_len_trim(raw.skip(indent));
    let t = trim_end(raw.skip(indent));
    lemma_trail_ws(raw.skip(indent));
    assert(raw.subrange(indent, indent + t.len()) =~= t);
}

proof fn lemma_lines_facts(raws: Seq<Seq<char>>, i: int, acc: Seq<LineModel>)
    requires
        0 <= i,
        lines_named(acc, raws),
    ensures
        lines_from(raws, i, acc) matches Ok(ls) ==> lines_named(ls, raws),
        lines_from(raws, i, acc) matches Err(e) ==> named(e, raws),
    decreases raws.len() - i,
{
    if i < raws.len() {
        lemma_line_of_facts(raws, i);
        if let Ok(Some(l)) = line_of(raws[i], i + 1) {
            let more = acc.push(l);
            assert forall|k: int| 0 <= k < more.len() implies line_named(#[trigger] more[k], raws) by {
                if k < acc.len() {
                    assert(more[k] == acc[k]);
                }
            }
            lemma_lines_facts(raws, i + 1, more);
        } else if let Ok(None) = line_of(raws[i], i + 1) {
            lemma_lines_facts(raws, i + 1, acc);
        }
    }
}

/// A document that is not TOON is refused at one of its lines that is not
/// blank, counted from one, and at a column counted from one, in bytes, that falls within that
/// line or just past its end; a quoted string that never closes is refused
/// at the column of its opening quote.
pub proof fn law_refusal_names_its_line_and_column(text: Seq<char>)
    ensures
        spec_parse(text) matches Err(e) ==> 1 <= e.line <= raw_lines(text).len() && 1 <= e.column
            <= utf8_len(raw_lines(text)[e.line - 1]) + 1 && trim(raw_lines(text)[e.line - 1]).len()
            != 0,
        spec_parse(text) matches Err(e) ==> (e.message == unclosed() ==> exists|i: int|
            #![trigger raw_lines(text)[e.line - 1].take(i)]
            0 <= i < raw_lines(text)[e.line - 1].len() && utf8_len(
                raw_lines(text)[e.line - 1].take(i),
            ) + 1 == e.column && raw_lines(text)[e.line - 1][i] == '"'),
{
    let raws = raw_lines(text);
    lemma_messages();
    lemma_lines_facts(raws, 0, Seq::empty());
    if let Ok(ls) = spec_lines(text) {
        lemma_document_facts(ls, raws);
    }
}

/// Every object that a document reads as, however deep, holds each key once.
pub proof fn law_objects_hold_each_key_once(text: Seq<char>)
    ensures
        spec_parse(text) matches Ok(v) ==> well_formed(v),
{
    if let Ok(ls) = spec_lines(text) {
        lemma_document_facts(ls, Seq::empty());
    }
}

/// An array that a header declares, listed, tabled or inline, holds exactly
/// as many items as the header's count: a count that does not match is
/// refused.
pub proof fn law_arrays_hold_their_declared_count(ls: Seq<LineModel>, at: int, h: HeaderModel, inline: Seq<char>, line: LineModel, depth: int)
    requires
        h.count >= 0,
        0 <= at <= ls.len(),
    ensures
        spec_array(ls, at, h, inline, line, depth) matches Ok((v, a)) ==> (v matches Json::Array(
            items) && items.len() == h.count),
{
    lemma_array_facts(ls, at, h, inline, line, depth, Seq::empty());
}


// ---------------------------------------------------------------- blank documents

pub open spec fn all_whitespace(s: Seq<char>) -> bool {
    forall|i: int| 0 <= i < s.len() ==> is_whitespace(#[trigger] s[i])
}

proof fn lemma_blank_trims_to_nothing(s: Seq<char>)
    requires
        all_whitespace(s),
    ensures
        trim(s).len() == 0,
    decreases s.len(),
{
    if s.len() > 0 {
        assert(is_whitespace(s[0]));
        assert forall|i: int| 0 <= i < s.drop_first().len() implies is_whitespace(
            #[trigger] s.drop_first()[i],
        ) by {
            assert(s.drop_first()[i] == s[i + 1]);
        }
        lemma_blank_trims_to_nothing(s.drop_first());
        lemma_trim_bounds(s.drop_first());
        lemma_lead_ws(s.drop_first());
    }
}

proof fn lemma_blank_lines(t: Seq<char>)
    requires
        all_whitespace(t),
    ensures
        forall|k: int| 0 <= k < raw_lines(t).len() ==> all_whitespace(#[trigger] raw_lines(t)[k]),
    decreases t.len(),
{
    if t.len() > 0 {
        lemma_find2(t, '\n', '\n');
        if let Some(i) = find(t, '\n') {
            let rest = t.skip(i + 1);
            assert forall|j: int| 0 <= j < rest.len() implies is_whitespace(#[trigger] rest[j]) by {
                assert(rest[j] == t[i + 1 + j]);
            }
            lemma_blank_lines(rest);
            let first = crate::toon::strip_cr(t.take(i));
            assert forall|j: int| 0 <= j < first.len() implies is_whitespace(#[trigger] first[j]) by {
                assert(first[j] == t[j]);
            }
            assert forall|k: int| 0 <= k < raw_lines(t).len() implies all_whitespace(
                #[trigger] raw_lines(t)[k],
            ) by {
                if k > 0 {
                    assert(raw_lines(t)[k] == raw_lines(rest)[k - 1]);
                }
            }
        }
    }
}

proof fn lemma_blank_lines_from(raws: Seq<Seq<char>>, i: int, acc: Seq<LineModel>)
    requires
        0 <= i,
        forall|k: int| 0 <= k < raws.len() ==> all_whitespace(#[trigger] raws[k]),
    ensures
        lines_from(raws, i, acc) == Ok::<Seq<LineModel>, Refusal>(acc),
    decreases raws.len() - i,
{
    if i < raws.len() {
        lemma_blank_trims_to_nothing(raws[i]);
        lemma_blank_lines_from(raws, i + 1, acc);
    }
}

/// A document with nothing but whitespace in it, the empty one among them,
/// reads as an empty object.
pub proof fn law_blank_document_is_empty_object(text: Seq<char>)
    requires
        all_whitespace(text),
    ensures
        spec_parse(text) == Ok::<Json, Refusal>(Json::Object(Seq::empty())),
{
    lemma_blank_lines(text);
    lemma_blank_lines_from(raw_lines(text), 0, Seq::empty());
}

// ---------------------------------------------------------------- quoted strings

/// How a character is written between quotes.
pub open spec fn escape_char(c: char) -> Seq<char> {
    if c == '"' {
        seq!['\\', '"']
    } else if c == '\\' {
        seq!['\\', '\\']
    } else if c == '\n' {
        seq!['\\', 'n']
    } else if c == '\r' {
        seq!['\\', 'r']
    } else if c == '\t' {
        seq!['\\', 't']
    } else {
        seq![c]
    }
}

/// How a string is written between quotes.
pub open spec fn escape(s: Seq<char>) -> Seq<char>
    decreases s.len(),
{
    if s.len() == 0 {
        Seq::empty()
    } else {
        escape_char(s[0]) + escape(s.drop_first())
    }
}

/// A string written quoted.
pub open spec fn quote(s: Seq<char>) -> Seq<char> {
    seq!['"'] + escape(s) + seq!['"']
}

proof fn lemma_close_after_escaped(u: Seq<char>, t: Seq<char>, i: int)
    requires
        0 <= i <= t.len(),
        t.skip(i) == escape(u) + seq!['"'],
    ensures
        close_from(t, i, false) == Some(t.len() - 1),
    decreases u.len(),
{
    if u.len() == 0 {
        assert(escape(u) =~= Seq::<char>::empty());
        assert(t.skip(i) =~= seq!['"']);
        assert(t[i] == t.skip(i)[0]);
    } else {
        let c = u[0];
        let w = escape_char(c).len() as int;
        let rest = u.drop_first();
        assert(escape(u) == escape_char(c) + escape(rest));
        assert(t.skip(i) == escape_char(c) + (escape(rest) + seq!['"']));
        assert(t.skip(i + w) =~= escape(rest) + seq!['"']) by {
            assert(t.skip(i + w) =~= t.skip(i).skip(w));
        }
        assert(t[i] == t.skip(i)[0]);
        assert(t[i] == escape_char(c)[0]);
        lemma_close_after_escaped(rest, t, i + w);
        if w == 2 {
            assert(t[i + 1] == t.skip(i)[1]);
            assert(t[i] == '\\');
            assert(close_from(t, i + 1, true) == close_from(t, i + 2, false));
            assert(close_from(t, i, false) == close_from(t, i + 1, true));
        } else {
            assert(c != '\\' && c != '"');
            assert(close_from(t, i, false) == close_from(t, i + 1, false));
        }
    }
}

proof fn lemma_unescape_escape(s: Seq<char>)
    ensures
        unescape(escape(s)) == Ok::<Seq<char>, Seq<char>>(s),
    decreases s.len(),
{
    if s.len() == 0 {
        assert(escape(s) =~= Seq::<char>::empty());
        assert(s =~= Seq::<char>::empty());
    } else {
        let c = s[0];
        let rest = s.drop_first();
        lemma_unescape_escape(rest);
        let e = escape(s);
        assert(e == escape_char(c) + escape(rest));
        if escape_char(c).len() == 1 {
            assert(e[0] == c);
            assert(e.drop_first() =~= escape(rest));
        } else {
            assert(e[0] == '\\');
            assert(escaped_char(e[1]) == Some(c));
            assert(e.skip(2) =~= escape(rest));
        }
        assert(seq![c] + rest =~= s);
    }
}

/// Every string can be written quoted, its quotes, backslashes and line
/// breaks escaped, and reads back as itself.
pub proof fn law_quoted_strings_read_back(s: Seq<char>, line: LineModel, offset: int)
    ensures
        spec_primitive(quote(s), line, offset) == Ok::<Json, Refusal>(Json::Str(s)),
{
    let t = quote(s);
    assert(t.skip(1) =~= escape(s) + seq!['"']);
    lemma_close_after_escaped(s, t, 1);
    assert(spec_closing_quote(t) == Some(t.len() - 1));
    assert(t.skip(t.len() as int) =~= Seq::<char>::empty());
    lemma_lead_ws(Seq::<char>::empty());
    lemma_trim_bounds(Seq::<char>::empty());
    assert(t.take(t.len() as int) =~= t);
    assert(t.subrange(1, t.len() - 1) =~= escape(s));
    lemma_unescape_escape(s);
}

// ---------------------------------------------------------------- numbers

/// An integer as JSON writes it: a minus where it is negative, then its
/// decimal digits.
pub open spec fn integer_text(n: int) -> Seq<char> {
    if n < 0 {
        seq!['-'] + decimal((-n) as nat)
    } else {
        decimal(n as nat)
    }
}

/// What an integer reads as: an `i64` where it fits, else a `u64` where it
/// fits that, else its text.
pub open spec fn integer_model(n: int) -> NumberModel {
    if i64::MIN <= n <= i64::MAX {
        NumberModel::Int(n as i64)
    } else if 0 <= n <= u64::MAX {
        NumberModel::UInt(n as u64)
    } else {
        NumberModel::Decimal(integer_text(n))
    }
}

proof fn lemma_digit_char(d: int)
    requires
        0 <= d <= 9,
    ensures
        is_digit(digit_char(d)),
        digit_value(digit_char(d)) == d,
        d > 0 ==> '1' <= digit_char(d),
{
}

proof fn lemma_decimal(n: nat)
    ensures
        decimal(n).len() >= 1,
        forall|i: int| 0 <= i < decimal(n).len() ==> is_digit(#[trigger] decimal(n)[i]),
        n > 0 ==> '1' <= decimal(n)[0],
        n == 0 ==> decimal(n) == seq!['0'],
        digits_value(decimal(n)) == n,
    decreases n,
{
    if n < 10 {
        lemma_digit_char(n as int);
        let t = decimal(n);
        assert(t.drop_last() =~= Seq::<char>::empty());
        assert(t.last() == digit_char(n as int));
        assert(digits_value(t) == digits_value(t.drop_last()) * 10 + digit_value(t.last()));
    } else {
        let q = (n / 10) as nat;
        let d = (n % 10) as int;
        lemma_decimal(q);
        lemma_digit_char(d);
        let t = decimal(n);
        assert(t == decimal(q).push(digit_char(d)));
        assert(t.drop_last() =~= decimal(q));
        assert forall|i: int| 0 <= i < t.len() implies is_digit(#[trigger] t[i]) by {
            if i < t.len() - 1 {
                assert(t[i] == decimal(q)[i]);
            }
        }
        assert(t[0] == decimal(q)[0]);
        assert(t.last() == digit_char(d));
        assert(digits_value(t) == digits_value(t.drop_last()) * 10 + digit_value(t.last()));
        assert(q * 10 + d == n);
    }
}

proof fn lemma_digit_run_all(t: Seq<char>, from: int)
    requires
        0 <= from <= t.len(),
        forall|i: int| from <= i < t.len() ==> is_digit(#[trigger] t[i]),
    ensures
        digit_run(t, from) == t.len() - from,
    decreases t.len() - from,
{
    if from < t.len() {
        assert(is_digit(t[from]));
        lemma_digit_run_all(t, from + 1);
    }
}

/// An integer written as JSON writes it reads as that integer: an `i64`
/// where it fits, else a `u64` where it fits that.
pub proof fn law_integers_read_as_themselves(n: int, line: LineModel, offset: int)
    ensures
        spec_primitive(integer_text(n), line, offset) == Ok::<Json, Refusal>(
            Json::Number(integer_model(n)),
        ),
{
    let m: nat = if n < 0 {
        (-n) as nat
    } else {
        n as nat
    };
    let d = decimal(m);
    lemma_decimal(m);
    lemma_digit_run_all(d, 0);
    let t = integer_text(n);
    let at: int = if n < 0 {
        1
    } else {
        0
    };
    if n < 0 {
        assert(t[0] == '-');
        assert(t.drop_first() =~= d);
        assert forall|i: int| 0 <= i < d.len() implies t[i + 1] == d[i] by {}
    } else {
        assert(!starts_with(t, '-'));
    }
    assert(magnitude(t) == d);
    assert(is_integer_text(t));
    assert(integer_value(t) == n);
    assert(t[at] == d[0]);
    assert(!starts_with(t, '"'));
    assert(!(t =~= seq!['n', 'u', 'l', 'l'])) by {
        if t =~= seq!['n', 'u', 'l', 'l'] {
            assert(t[at] == 'n' || t[at] == 'u');
        }
    }
    assert(!(t =~= seq!['t', 'r', 'u', 'e'])) by {
        if t =~= seq!['t', 'r', 'u', 'e'] {
            assert(t[at] == 't' || t[at] == 'r');
        }
    }
    assert(!(t =~= seq!['f', 'a', 'l', 's', 'e'])) by {
        if t =~= seq!['f', 'a', 'l', 's', 'e'] {
            assert(t[at] == 'f' || t[at] == 'a');
        }
    }
    if m == 0 {
        assert(t.len() == at + 1);
        assert(fraction_tail(t, at + 1));
    } else {
        assert forall|i: int| at <= i < t.len() implies is_digit(#[trigger] t[i]) by {
            assert(t[i] == d[i - at]);
        }
        lemma_digit_run_all(t, at);
        assert(fraction_tail(t, at + digit_run(t, at)));
    }
    assert(spec_is_number(t));
}

/// `null`, `true` and `false` read as themselves.
pub proof fn law_keywords_read_as_themselves(line: LineModel, offset: int)
    ensures
        spec_primitive(seq!['n', 'u', 'l', 'l'], line, offset) == Ok::<Json, Refusal>(Json::Null),
        spec_primitive(seq!['t', 'r', 'u', 'e'], line, offset) == Ok::<Json, Refusal>(
            Json::Bool(true),
        ),
        spec_primitive(seq!['f', 'a', 'l', 's', 'e'], line, offset) == Ok::<Json, Refusal>(
            Json::Bool(false),
        ),
{
}

// ---------------------------------------------------------------- tables

/// No name occurs twice among `fields`.
pub open spec fn distinct_fields(fields: Seq<Seq<char>>) -> bool {
    forall|i: int, j: int| 0 <= i < j < fields.len() ==> fields[i] != fields[j]
}

/// `v` is an object whose keys are `fields`, in their order.
pub open spec fn binds_fields(v: Json, fields: Seq<Seq<char>>) -> bool {
    v matches Json::Object(entries) && entries.len() == fields.len() && forall|j: int|
        0 <= j < fields.len() ==> #[trigger] entries[j].0 == fields[j]
}

proof fn lemma_zip_insert_keys(o: Seq<(Seq<char>, Json)>, fields: Seq<Seq<char>>, vs: Seq<Json>)
    requires
        distinct_fields(fields),
        vs.len() == fields.len(),
        forall|i: int, j: int| 0 <= i < o.len() && 0 <= j < fields.len() ==> o[i].0 != fields[j],
    ensures
        zip_insert(o, fields, vs).len() == o.len() + fields.len(),
        forall|i: int| 0 <= i < o.len() ==> #[trigger] zip_insert(o, fields, vs)[i] == o[i],
        forall|j: int| 0 <= j < fields.len() ==> #[trigger] zip_insert(o, fields, vs)[o.len() + j]
            == (fields[j], vs[j]),
    decreases fields.len(),
{
    if fields.len() > 0 {
        lemma_key_index(o, fields[0]);
        assert(key_index(o, fields[0]) is None) by {
            if let Some(i) = key_index(o, fields[0]) {
                assert(o[i].0 != fields[0]);
            }
        }
        let o2 = o.push((fields[0], vs[0]));
        let f2 = fields.drop_first();
        let v2 = vs.drop_first();
        assert forall|i: int, j: int| 0 <= i < o2.len() && 0 <= j < f2.len() implies o2[i].0
            != f2[j] by {
            assert(f2[j] == fields[j + 1]);
            if i < o.len() {
                assert(o2[i] == o[i]);
            }
        }
        lemma_zip_insert_keys(o2, f2, v2);
        let r = zip_insert(o, fields, vs);
        assert(r == zip_insert(o2, f2, v2));
        assert forall|j: int| 0 <= j < fields.len() implies #[trigger] r[o.len() + j] == (
            fields[j],
            vs[j],
        ) by {
            if j > 0 {
                assert(r[o2.len() + (j - 1)] == (f2[j - 1], v2[j - 1]));
            } else {
                assert(r[o.len() as int] == o2[o.len() as int]);
            }
        }
    }
}

proof fn lemma_rows_bind_fields(ls: Seq<LineModel>, at: int, h: HeaderModel, fields: Seq<Seq<char>>, line: LineModel, depth: int, acc: Seq<Json>)
    requires
        distinct_fields(fields),
        forall|i: int| 0 <= i < acc.len() ==> binds_fields(#[trigger] acc[i], fields),
    ensures
        spec_rows(ls, at, h, fields, line, depth, acc) matches Ok((rows, a)) ==> forall|i: int|
            0 <= i < rows.len() ==> binds_fields(#[trigger] rows[i], fields),
    decreases ls.len() - at,
{
    if acc.len() < h.count {
        if let Some(row) = spec_peek_at(ls, at, depth) {
            if let Ok(vs) = spec_split(row.text, h.delimiter, row, 0) {
                if vs.len() == fields.len() {
                    let e = zip_insert(Seq::empty(), fields, vs);
                    lemma_zip_insert_keys(Seq::empty(), fields, vs);
                    assert forall|j: int| 0 <= j < fields.len() implies #[trigger] e[j].0
                        == fields[j] by {
                        assert(e[0 + j] == (fields[j], vs[j]));
                    }
                    let more = acc.push(Json::Object(e));
                    assert forall|i: int| 0 <= i < more.len() implies binds_fields(
                        #[trigger] more[i],
                        fields,
                    ) by {
                        if i < acc.len() {
                            assert(more[i] == acc[i]);
                        }
                    }
                    lemma_rows_bind_fields(ls, at + 1, h, fields, line, depth, more);
                }
            }
        }
    }
}

/// A table whose header names each field once reads as one object per row,
/// whose keys are the header's fields in the header's order.
pub proof fn law_table_rows_bind_the_header_fields(ls: Seq<LineModel>, at: int, h: HeaderModel, line: LineModel, depth: int)
    requires
        h.fields matches Some(fields) && distinct_fields(fields),
    ensures
        spec_array(ls, at, h, Seq::empty(), line, depth) matches Ok((Json::Array(rows), a))
            ==> forall|i: int| 0 <= i < rows.len() ==> binds_fields(#[trigger] rows[i], h.fields->0),
{
    let fields = h.fields->0;
    lemma_rows_bind_fields(ls, at, h, fields, line, depth, Seq::empty());
}

/// The last position in `fields` that names `n`, or `-1` where none does.
pub open spec fn last_named(fields: Seq<Seq<char>>, n: Seq<char>) -> int
    decreases fields.len(),
{
    if fields.len() == 0 {
        -1
    } else if fields.last() == n {
        fields.len() - 1
    } else {
        last_named(fields.drop_last(), n)
    }
}

proof fn lemma_last_named(fields: Seq<Seq<char>>, n: Seq<char>)
    ensures
        -1 <= last_named(fields, n) < fields.len(),
        last_named(fields, n) >= 0 ==> fields[last_named(fields, n)] == n,
        forall|j: int| last_named(fields, n) < j < fields.len() ==> #[trigger] fields[j] != n,
        fields.len() > 0 ==> last_named(fields, n) == if last_named(fields.drop_first(), n) >= 0 {
            1 + last_named(fields.drop_first(), n)
        } else if fields[0] == n {
            0
        } else {
            -1
        },
    decreases fields.len(),
{
    if fields.len() > 0 {
        lemma_last_named(fields.drop_last(), n);
        assert forall|j: int| last_named(fields, n) < j < fields.len() implies #[trigger] fields[j]
            != n by {
            if j < fields.len() - 1 {
                assert(fields[j] == fields.drop_last()[j]);
            }
        }
        if fields.len() > 1 {
            lemma_last_named(fields.drop_first(), n);
            lemma_last_named(fields.drop_first().drop_last(), n);
            assert(fields.drop_last().drop_first() =~= fields.drop_first().drop_last());
            lemma_last_named(fields.drop_last().drop_first(), n);
            assert(fields.drop_first().last() == fields.last());
            if last_named(fields.drop_last(), n) >= 0 {
                assert(fields.drop_last()[0] == fields[0]);
            }
        } else {
            assert(fields.drop_first().len() == 0);
            assert(fields.drop_last().len() == 0);
            assert(fields.last() == fields[0]);
        }
    }
}

proof fn lemma_insert_entries(o: Seq<(Seq<char>, Json)>, k: Seq<char>, v: Json)
    ensures
        exists|i: int| 0 <= i < insert(o, k, v).len() && #[trigger] insert(o, k, v)[i] == (k, v),
        forall|i: int| #![trigger o[i]] 0 <= i < o.len() && o[i].0 != k ==> exists|m: int|
            0 <= m < insert(o, k, v).len() && #[trigger] insert(o, k, v)[m] == o[i],
        forall|m: int| 0 <= m < insert(o, k, v).len() ==> (#[trigger] insert(o, k, v)[m]).0 == k
            || exists|i: int| 0 <= i < o.len() && o[i].0 == insert(o, k, v)[m].0,
{
    lemma_key_index(o, k);
    let r = insert(o, k, v);
    match key_index(o, k) {
        Some(i) => {
            assert(r[i] == (k, v));
            assert forall|j: int| #![trigger o[j]] 0 <= j < o.len() && o[j].0 != k implies exists|m: int|
                0 <= m < r.len() && #[trigger] r[m] == o[j] by {
                assert(r[j] == o[j]);
            }
            assert forall|m: int| 0 <= m < r.len() implies (#[trigger] r[m]).0 == k || exists|i: int|
                0 <= i < o.len() && o[i].0 == r[m].0 by {
                if m != i {
                    assert(r[m] == o[m]);
                }
            }
        },
        None => {
            assert(r[o.len() as int] == (k, v));
            assert forall|j: int| #![trigger o[j]] 0 <= j < o.len() && o[j].0 != k implies exists|m: int|
                0 <= m < r.len() && #[trigger] r[m] == o[j] by {
                assert(r[j] == o[j]);
            }
            assert forall|m: int| 0 <= m < r.len() implies (#[trigger] r[m]).0 == k || exists|i: int|
                0 <= i < o.len() && o[i].0 == r[m].0 by {
                if m < o.len() {
                    assert(r[m] == o[m]);
                }
            }
        },
    }
}

proof fn lemma_zip_keep(o: Seq<(Seq<char>, Json)>, fields: Seq<Seq<char>>, vs: Seq<Json>)
    requires
        vs.len() == fields.len(),
    ensures
        forall|i: int| #![trigger o[i]] 0 <= i < o.len() && last_named(fields, o[i].0) < 0 ==> exists|m: int|
            0 <= m < zip_insert(o, fields, vs).len() && #[trigger] zip_insert(o, fields, vs)[m] == o[i],
    decreases fields.len(),
{
    let r = zip_insert(o, fields, vs);
    if fields.len() > 0 {
        let f0 = fields[0];
        let o2 = insert(o, f0, vs[0]);
        let f2 = fields.drop_first();
        let v2 = vs.drop_first();
        lemma_insert_entries(o, f0, vs[0]);
        lemma_zip_keep(o2, f2, v2);
        assert(r == zip_insert(o2, f2, v2));
        assert forall|i: int| #![trigger o[i]] 0 <= i < o.len() && last_named(fields, o[i].0) < 0 implies exists|m: int|
            0 <= m < r.len() && #[trigger] r[m] == o[i] by {
            lemma_last_named(fields, o[i].0);
            assert(o[i].0 != f0);
            let k = choose|k: int| 0 <= k < o2.len() && #[trigger] o2[k] == o[i];
            assert(last_named(f2, o2[k].0) < 0);
        }
    } else {
        assert forall|i: int| #![trigger o[i]] 0 <= i < o.len() && last_named(fields, o[i].0) < 0 implies exists|m: int|
            0 <= m < r.len() && #[trigger] r[m] == o[i] by {
            assert(r[i] == o[i]);
        }
    }
}

/// `n` is one of `fields`.
pub open spec fn named_in(n: Seq<char>, fields: Seq<Seq<char>>) -> bool {
    exists|j: int| 0 <= j < fields.len() && fields[j] == n
}

/// `n` is a key of `o`.
pub open spec fn key_of(n: Seq<char>, o: Seq<(Seq<char>, Json)>) -> bool {
    exists|i: int| 0 <= i < o.len() && o[i].0 == n
}

proof fn lemma_zip_keys(o: Seq<(Seq<char>, Json)>, fields: Seq<Seq<char>>, vs: Seq<Json>)
    requires
        vs.len() == fields.len(),
    ensures
        forall|m: int| 0 <= m < zip_insert(o, fields, vs).len() ==> named_in(
            (#[trigger] zip_insert(o, fields, vs)[m]).0,
            fields,
        ) || key_of(zip_insert(o, fields, vs)[m].0, o),
    decreases fields.len(),
{
    let r = zip_insert(o, fields, vs);
    if fields.len() > 0 {
        let f0 = fields[0];
        let o2 = insert(o, f0, vs[0]);
        let f2 = fields.drop_first();
        let v2 = vs.drop_first();
        lemma_insert_entries(o, f0, vs[0]);
        lemma_zip_keys(o2, f2, v2);
        assert(r == zip_insert(o2, f2, v2));
        assert forall|m: int| 0 <= m < r.len() implies named_in((#[trigger] r[m]).0, fields) || key_of(
            r[m].0,
            o,
        ) by {
            let n = r[m].0;
            if named_in(n, f2) {
                let j = choose|j: int| 0 <= j < f2.len() && f2[j] == n;
                assert(fields[j + 1] == f2[j]);
            } else {
                assert(key_of(n, o2));
                let k = choose|k: int| 0 <= k < o2.len() && o2[k].0 == n;
                assert(o2[k].0 == f0 || exists|i: int| 0 <= i < o.len() && o[i].0 == o2[k].0);
                if o2[k].0 == f0 {
                    assert(fields[0] == n);
                } else {
                    let i = choose|i: int| 0 <= i < o.len() && o[i].0 == o2[k].0;
                    assert(o[i].0 == n);
                }
            }
        }
    } else {
        assert forall|m: int| 0 <= m < r.len() implies named_in((#[trigger] r[m]).0, fields) || key_of(
            r[m].0,
            o,
        ) by {
            assert(o[m].0 == r[m].0);
        }
    }
}

proof fn lemma_zip_insert_last(o: Seq<(Seq<char>, Json)>, fields: Seq<Seq<char>>, vs: Seq<Json>)
    requires
        vs.len() == fields.len(),
    ensures
        forall|j: int| #![trigger fields[j]] 0 <= j < fields.len() ==> exists|m: int|
            0 <= m < zip_insert(o, fields, vs).len() && #[trigger] zip_insert(o, fields, vs)[m] == (
                fields[j],
                vs[last_named(fields, fields[j])],
            ),
    decreases fields.len(),
{
    if fields.len() > 0 {
        let f0 = fields[0];
        let o2 = insert(o, f0, vs[0]);
        let f2 = fields.drop_first();
        let v2 = vs.drop_first();
        lemma_insert_entries(o, f0, vs[0]);
        lemma_zip_insert_last(o2, f2, v2);
        lemma_zip_keep(o2, f2, v2);
        let r = zip_insert(o, fields, vs);
        assert(r == zip_insert(o2, f2, v2));
        assert forall|j: int| #![trigger fields[j]] 0 <= j < fields.len() implies exists|m: int|
            0 <= m < r.len() && #[trigger] r[m] == (fields[j], vs[last_named(fields, fields[j])]) by {
            let n = fields[j];
            lemma_last_named(fields, n);
            lemma_last_named(f2, n);
            if last_named(f2, n) >= 0 {
                let jj = last_named(f2, n);
                assert(f2[jj] == n);
                assert(v2[last_named(f2, f2[jj])] == vs[last_named(fields, n)]);
            } else {
                if j > 0 {
                    assert(f2[j - 1] == n);
                }
                assert(j == 0);
                let i = choose|i: int| 0 <= i < o2.len() && #[trigger] o2[i] == (f0, vs[0]);
                assert(last_named(f2, o2[i].0) < 0);
            }
        }
    }
}

/// Every row of a table reads as an object that binds each field the
/// header names to the row's value at the last place naming it, and holds
/// no other key.
pub proof fn law_a_row_binds_each_field_to_its_last_value(fields: Seq<Seq<char>>, vs: Seq<Json>)
    requires
        vs.len() == fields.len(),
    ensures
        distinct_keys(zip_insert(Seq::empty(), fields, vs)),
        forall|j: int| #![trigger fields[j]] 0 <= j < fields.len() ==> exists|m: int|
            0 <= m < zip_insert(Seq::empty(), fields, vs).len() && #[trigger] zip_insert(
                Seq::empty(),
                fields,
                vs,
            )[m] == (fields[j], vs[last_named(fields, fields[j])]),
        forall|m: int| 0 <= m < zip_insert(Seq::empty(), fields, vs).len() ==> named_in(
            (#[trigger] zip_insert(Seq::empty(), fields, vs)[m]).0,
            fields,
        ),
{
    lemma_zip_insert_last(Seq::empty(), fields, vs);
    lemma_zip_keys(Seq::empty(), fields, vs);
    lemma_zip_insert_distinct(Seq::empty(), fields, vs);
}

proof fn lemma_zip_insert_distinct(o: Seq<(Seq<char>, Json)>, fields: Seq<Seq<char>>, vs: Seq<Json>)
    requires
        distinct_keys(o),
    ensures
        distinct_keys(zip_insert(o, fields, vs)),
    decreases fields.len(),
{
    if fields.len() > 0 && vs.len() > 0 {
        let o2 = insert(o, fields[0], vs[0]);
        lemma_key_index(o, fields[0]);
        assert(distinct_keys(o2)) by {
            match key_index(o, fields[0]) {
                Some(i) => {
                    assert forall|a: int, b: int| 0 <= a < b < o2.len() implies o2[a].0 != o2[b].0 by {
                        assert(o2[a].0 == o[a].0 && o2[b].0 == o[b].0);
                    }
                },
                None => {
                    assert forall|a: int, b: int| 0 <= a < b < o2.len() implies o2[a].0 != o2[b].0 by {
                        if b == o.len() {
                            assert(o[a].0 != fields[0]);
                        } else {
                            assert(o2[a] == o[a] && o2[b] == o[b]);
                        }
                    }
                },
            }
        }
        lemma_zip_insert_distinct(o2, fields.drop_first(), vs.drop_first());
    }
}

/// Every row of a table, whatever names its header repeats, reads as the
/// object that binds the header's fields, in order, to the row's values.
pub proof fn law_table_rows_zip_the_header_fields(ls: Seq<LineModel>, at: int, h: HeaderModel, line: LineModel, depth: int)
    requires
        h.fields is Some,
    ensures
        spec_array(ls, at, h, Seq::empty(), line, depth) matches Ok((Json::Array(rows), a))
            ==> forall|i: int| 0 <= i < rows.len() ==> exists|vs: Seq<Json>|
            vs.len() == h.fields->0.len() && #[trigger] rows[i] == Json::Object(
                zip_insert(Seq::empty(), h.fields->0, vs),
            ),
{
    lemma_rows_zip(ls, at, h, h.fields->0, line, depth, Seq::empty());
}

proof fn lemma_rows_zip(ls: Seq<LineModel>, at: int, h: HeaderModel, fields: Seq<Seq<char>>, line: LineModel, depth: int, acc: Seq<Json>)
    requires
        forall|i: int| 0 <= i < acc.len() ==> exists|vs: Seq<Json>|
            vs.len() == fields.len() && #[trigger] acc[i] == Json::Object(zip_insert(Seq::empty(), fields, vs)),
    ensures
        spec_rows(ls, at, h, fields, line, depth, acc) matches Ok((rows, a)) ==> forall|i: int|
            0 <= i < rows.len() ==> exists|vs: Seq<Json>|
            vs.len() == fields.len() && #[trigger] rows[i] == Json::Object(zip_insert(Seq::empty(), fields, vs)),
    decreases ls.len() - at,
{
    if acc.len() < h.count {
        if let Some(row) = spec_peek_at(ls, at, depth) {
            if let Ok(vs) = spec_split(row.text, h.delimiter, row, 0) {
                if vs.len() == fields.len() {
                    let more = acc.push(Json::Object(zip_insert(Seq::empty(), fields, vs)));
                    assert forall|i: int| 0 <= i < more.len() implies exists|ws: Seq<Json>|
                        ws.len() == fields.len() && #[trigger] more[i] == Json::Object(
                            zip_insert(Seq::empty(), fields, ws),
                        ) by {
                        if i < acc.len() {
                            assert(more[i] == acc[i]);
                        } else {
                            assert(more[i] == Json::Object(zip_insert(Seq::empty(), fields, vs)));
                        }
                    }
                    lemma_rows_zip(ls, at + 1, h, fields, line, depth, more);
                }
            }
        }
    }
}

// ---------------------------------------------------------------- sniffing

/// A document whose first line that is not blank holds no `[` is not taken
/// for TOON by sniffing: a plain `key: value` document is YAML's shape as
/// much as TOON's.
pub proof fn law_plain_documents_are_not_claimed(text: Seq<char>)
    requires
        first_nonblank(raw_lines(text)) matches Some(line) && find(line, '[') is None,
    ensures
        !spec_looks_like_toon(text),
{
}

proof fn lemma_lead_ws_push(y: Seq<char>, c: char)
    requires
        is_whitespace(c),
    ensures
        lead_ws(y) < y.len() ==> lead_ws(y.push(c)) == lead_ws(y),
        lead_ws(y) == y.len() ==> lead_ws(y.push(c)) == y.len() + 1,
    decreases y.len(),
{
    lemma_lead_ws(y);
    if y.len() > 0 {
        assert(y.push(c).drop_first() =~= y.drop_first().push(c));
        assert(y.push(c)[0] == y[0]);
        lemma_lead_ws_push(y.drop_first(), c);
    } else {
        assert(y.push(c).drop_first() =~= Seq::<char>::empty());
        assert(lead_ws(Seq::<char>::empty()) == 0);
        assert(y.push(c)[0] == c);
    }
}

/// A blank at the end of a line changes nothing of it trimmed.
proof fn lemma_trim_push(y: Seq<char>, c: char)
    requires
        is_whitespace(c),
    ensures
        trim(y.push(c)) == trim(y),
{
    let x = y.push(c);
    lemma_lead_ws_push(y, c);
    lemma_lead_ws(y);
    if lead_ws(y) < y.len() {
        let z = trim_start(y);
        assert(trim_start(x) =~= z.push(c));
        assert(z.push(c).drop_last() =~= z);
        assert(trail_ws(z.push(c)) == 1 + trail_ws(z));
        lemma_trail_ws(z);
        assert(trim_end(z.push(c)) =~= trim_end(z));
    } else {
        assert(trim_start(x) =~= Seq::<char>::empty());
        assert(trim_start(y) =~= Seq::<char>::empty());
        assert(trim_end(Seq::<char>::empty()) =~= Seq::<char>::empty());
    }
}

proof fn lemma_trim_strip_cr(x: Seq<char>)
    ensures
        trim(crate::toon::strip_cr(x)) == trim(x),
{
    if x.len() > 0 && x.last() == '\r' {
        assert(x =~= x.drop_last().push('\r'));
        lemma_trim_push(x.drop_last(), '\r');
    }
}

/// The lines of a line, a line break and more text.
proof fn lemma_raw_lines_cons(a: Seq<char>, t: Seq<char>)
    requires
        find(a, '\n') is None,
    ensures
        raw_lines(a + seq!['\n'] + t) == seq![crate::toon::strip_cr(a)] + raw_lines(t),
{
    let u = a + seq!['\n'] + t;
    lemma_find2(a, '\n', '\n');
    lemma_find2(u, '\n', '\n');
    assert(u[a.len() as int] == '\n');
    let i = find(u, '\n')->0;
    if i < a.len() {
        assert(u[i] == a[i]);
    }
    assert(i == a.len());
    assert(u.take(i) =~= a);
    assert(u.skip(i + 1) =~= t);
}

/// Sniffing reads the first line that is not blank and nothing after it:
/// the lines after it change nothing, and neither does a blank line before it.
pub proof fn law_sniffing_reads_the_first_line_that_is_not_blank(first: Seq<char>, blank: Seq<char>, rest: Seq<char>)
    requires
        find(first, '\n') is None,
        trim(first).len() != 0,
        find(blank, '\n') is None,
        trim(blank).len() == 0,
    ensures
        spec_looks_like_toon(first + seq!['\n'] + rest) == spec_looks_like_toon(first),
        spec_looks_like_toon(blank + seq!['\n'] + rest) == spec_looks_like_toon(rest),
{
    lemma_raw_lines_cons(first, rest);
    lemma_raw_lines_cons(blank, rest);
    lemma_trim_strip_cr(first);
    lemma_trim_strip_cr(blank);
    let r1 = raw_lines(first + seq!['\n'] + rest);
    assert(r1[0] == crate::toon::strip_cr(first));
    assert(first_nonblank(r1) == Some(trim(first)));
    assert(first.len() > 0);
    lemma_find2(first, '\n', '\n');
    assert(raw_lines(first) == seq![first]) by {
        assert(first.len() > 0);
    }
    assert(first_nonblank(seq![first]) == Some(trim(first)));
    let r2 = raw_lines(blank + seq!['\n'] + rest);
    assert(r2.drop_first() =~= raw_lines(rest));
    assert(trim(r2[0]).len() == 0);
}

// ---------------------------------------------------------------- keys

/// Text that reads as a key starts a field; and unless it starts with a
/// quote, it starts a field exactly when it reads as a key.
pub proof fn law_a_key_starts_a_field(text: Seq<char>, line: LineModel, offset: int)
    ensures
        spec_key(text, line, offset) is Ok ==> spec_is_field(text),
        !starts_with(text, '"') ==> (spec_is_field(text) <==> spec_key(text, line, offset) is Ok),
{
}

// ---------------------------------------------------------------- line numbers

/// `l` one line further down.
pub open spec fn lift(l: LineModel) -> LineModel {
    LineModel { number: l.number + 1, depth: l.depth, column: l.column, text: l.text }
}

pub open spec fn lift_all(ls: Seq<LineModel>) -> Seq<LineModel> {
    ls.map_values(|l: LineModel| lift(l))
}

/// A result whose refusal, if it is one, stands one line further down.
pub open spec fn lifted<T>(r: Result<T, Refusal>) -> Result<T, Refusal> {
    match r {
        Ok(v) => Ok(v),
        Err(e) => Err(Refusal { line: e.line + 1, column: e.column, message: e.message }),
    }
}

proof fn lemma_lift_pieces(text: Seq<char>, line: LineModel, offset: int)
    ensures
        spec_primitive(text, lift(line), offset) == lifted(spec_primitive(text, line, offset)),
        spec_key(text, lift(line), offset) == lifted(spec_key(text, line, offset)),
        spec_header(text, lift(line), offset) == lifted(spec_header(text, line, offset)),
{
}

proof fn lemma_lift_split(text: Seq<char>, d: char, line: LineModel, offset: int, at: int, acc: Seq<Json>)
    ensures
        split_from(text, d, lift(line), offset, at, acc) == lifted(split_from(text, d, line, offset, at, acc)),
    decreases text.len() - at,
{
    if 0 <= at <= text.len() {
        let start = at + lead_ws(text.skip(at));
        lemma_lead_ws(text.skip(at));
        assert(value_end(text, d, lift(line), offset, start) == lifted(value_end(text, d, line, offset, start)));
        if let Ok(end) = value_end(text, d, line, offset, start) {
            lemma_value_end(text, d, line, offset, start);
            let at_piece = offset + utf8_len(text.take(start));
            lemma_lift_pieces(trim(text.subrange(start, end)), line, at_piece);
            if let Ok(v) = spec_primitive(trim(text.subrange(start, end)), line, at_piece) {
                if starts_with(text.skip(end), d) {
                    lemma_lift_split(text, d, line, offset, end + 1, acc.push(v));
                }
            }
        }
    }
}

proof fn lemma_lift_peek(ls: Seq<LineModel>, at: int, depth: int)
    ensures
        spec_peek(lift_all(ls), at) == match spec_peek(ls, at) {
            Some(l) => Some(lift(l)),
            None => None::<LineModel>,
        },
        spec_peek_at(lift_all(ls), at, depth) == match spec_peek_at(ls, at, depth) {
            Some(l) => Some(lift(l)),
            None => None::<LineModel>,
        },
{
    if 0 <= at < ls.len() {
        assert(lift_all(ls)[at] == lift(ls[at]));
    }
}

proof fn lemma_lift_object(ls: Seq<LineModel>, at: int, depth: int, acc: Seq<(Seq<char>, Json)>)
    ensures
        spec_object(lift_all(ls), at, depth, acc) == lifted(spec_object(ls, at, depth, acc)),
    decreases ls.len() - at, 0int,
{
    lemma_lift_peek(ls, at, depth);
    if let Some(line) = spec_peek(ls, at) {
        if line.depth == depth {
            lemma_lift_field(ls, at + 1, line.text, line, depth + 1);
            if let Ok((kv, a)) = spec_field(ls, at + 1, line.text, line, depth + 1) {
                if at < a <= ls.len() {
                    lemma_lift_object(ls, a, depth, insert(acc, kv.0, kv.1));
                }
            }
        }
    }
}

proof fn lemma_lift_field(ls: Seq<LineModel>, at: int, text: Seq<char>, line: LineModel, child_depth: int)
    ensures
        spec_field(lift_all(ls), at, text, lift(line), child_depth) == lifted(
            spec_field(ls, at, text, line, child_depth),
        ),
    decreases ls.len() - at, 2int,
{
    lemma_lift_pieces(text, line, 0);
    lemma_lift_peek(ls, at, child_depth);
    if let Ok((k, after)) = spec_key(text, line, place(line, text)) {
        let offset = place(line, after);
        lemma_lift_pieces(after, line, offset);
        if starts_with(after, '[') {
            if let Ok((h, inline)) = spec_header(after, line, offset) {
                lemma_lift_array(ls, at, h, inline, line, child_depth);
            }
        } else {
            let rest = trim(after.drop_first());
            lemma_lift_pieces(rest, line, place(line, rest));
            lemma_lift_object(ls, at, child_depth, Seq::empty());
        }
    }
}

proof fn lemma_lift_array(ls: Seq<LineModel>, at: int, h: HeaderModel, inline: Seq<char>, line: LineModel, depth: int)
    ensures
        spec_array(lift_all(ls), at, h, inline, lift(line), depth) == lifted(
            spec_array(ls, at, h, inline, line, depth),
        ),
    decreases ls.len() - at, 1int,
{
    lemma_lift_split(inline, h.delimiter, line, place(line, inline), 0, Seq::empty());
    match h.fields {
        Some(fields) => {
            lemma_lift_rows(ls, at, h, fields, line, depth, Seq::empty());
            if let Ok((rows, a)) = spec_rows(ls, at, h, fields, line, depth, Seq::empty()) {
                lemma_lift_peek(ls, a, depth);
            }
        },
        None => {
            lemma_lift_items(ls, at, h, line, depth, Seq::empty());
            if let Ok((items, a)) = spec_items(ls, at, h, line, depth, Seq::empty()) {
                lemma_lift_peek(ls, a, depth);
            }
        },
    }
}

proof fn lemma_lift_rows(ls: Seq<LineModel>, at: int, h: HeaderModel, fields: Seq<Seq<char>>, line: LineModel, depth: int, acc: Seq<Json>)
    ensures
        spec_rows(lift_all(ls), at, h, fields, lift(line), depth, acc) == lifted(
            spec_rows(ls, at, h, fields, line, depth, acc),
        ),
    decreases ls.len() - at,
{
    lemma_lift_peek(ls, at, depth);
    if acc.len() < h.count {
        if let Some(row) = spec_peek_at(ls, at, depth) {
            lemma_lift_split(row.text, h.delimiter, row, 0, 0, Seq::empty());
            if let Ok(vs) = spec_split(row.text, h.delimiter, row, 0) {
                if vs.len() == fields.len() {
                    lemma_lift_rows(
                        ls,
                        at + 1,
                        h,
                        fields,
                        line,
                        depth,
                        acc.push(Json::Object(zip_insert(Seq::empty(), fields, vs))),
                    );
                }
            }
        }
    }
}

proof fn lemma_lift_items(ls: Seq<LineModel>, at: int, h: HeaderModel, line: LineModel, depth: int, acc: Seq<Json>)
    ensures
        spec_items(lift_all(ls), at, h, lift(line), depth, acc) == lifted(
            spec_items(ls, at, h, line, depth, acc),
        ),
    decreases ls.len() - at, 0int,
{
    lemma_lift_peek(ls, at, depth);
    if acc.len() < h.count {
        if let Some(it) = spec_peek_at(ls, at, depth) {
            if starts_with(it.text, '-') {
                let body = trim_start(it.text.drop_first());
                let offset = utf8_len(it.text) - utf8_len(body);
                lemma_lift_item(ls, at + 1, body, it, offset, depth + 1);
                if let Ok((v, a)) = spec_item(ls, at + 1, body, it, offset, depth + 1) {
                    if at < a <= ls.len() {
                        lemma_lift_items(ls, a, h, line, depth, acc.push(v));
                    }
                }
            }
        }
    }
}

proof fn lemma_lift_item(ls: Seq<LineModel>, at: int, body: Seq<char>, line: LineModel, offset: int, depth: int)
    ensures
        spec_item(lift_all(ls), at, body, lift(line), offset, depth) == lifted(
            spec_item(ls, at, body, line, offset, depth),
        ),
    decreases ls.len() - at, 3int,
{
    lemma_lift_pieces(body, line, offset);
    if starts_with(body, '[') {
        if let Ok((h, inline)) = spec_header(body, line, offset) {
            lemma_lift_array(ls, at, h, inline, line, depth);
        }
    } else if spec_is_field(body) {
        lemma_lift_field(ls, at, body, line, depth + 1);
        if let Ok((kv, a)) = spec_field(ls, at, body, line, depth + 1) {
            lemma_lift_peek(ls, a, depth);
            if at <= a <= ls.len() {
                lemma_lift_object(ls, a, depth, Seq::empty());
            }
        }
    }
}

proof fn lemma_lift_document(ls: Seq<LineModel>)
    ensures
        spec_document(lift_all(ls)) == lifted(spec_document(ls)),
{
    lemma_lift_peek(ls, 0, 0);
    lemma_lift_peek(ls, 1, 0);
    if let Some(first) = spec_peek(ls, 0) {
        lemma_lift_pieces(first.text, first, 0);
        if let Ok((h, inline)) = spec_header(first.text, first, 0) {
            lemma_lift_array(ls, 1, h, inline, first, 1);
        }
        lemma_lift_object(ls, 0, 0, Seq::empty());
    }
}

proof fn lemma_lift_lines(x: Seq<char>, raws: Seq<Seq<char>>, i: int, acc: Seq<LineModel>)
    requires
        0 <= i,
    ensures
        lines_from(seq![x] + raws, i + 1, lift_all(acc)) == match lines_from(raws, i, acc) {
            Ok(ls) => Ok(lift_all(ls)),
            Err(e) => Err(Refusal { line: e.line + 1, column: e.column, message: e.message }),
        },
    decreases raws.len() - i,
{
    let r2 = seq![x] + raws;
    if i < raws.len() {
        assert(r2[i + 1] == raws[i]);
        if let Ok(Some(l)) = line_of(raws[i], i + 1) {
            assert(lift_all(acc).push(lift(l)) =~= lift_all(acc.push(l)));
            lemma_lift_lines(x, raws, i + 1, acc.push(l));
        } else {
            lemma_lift_lines(x, raws, i + 1, acc);
        }
    }
}

/// A line break before a document changes nothing of what it reads as, and
/// a refusal names the same place one line further down: blank lines count
/// among the lines a refusal numbers.
pub proof fn law_a_leading_line_break_moves_refusals_down(text: Seq<char>)
    ensures
        spec_parse(seq!['\n'] + text) == lifted(spec_parse(text)),
{
    lemma_raw_lines_cons(Seq::empty(), text);
    assert(Seq::<char>::empty() + seq!['\n'] + text =~= seq!['\n'] + text);
    assert(crate::toon::strip_cr(Seq::<char>::empty()) =~= Seq::<char>::empty());
    let raws = raw_lines(text);
    let r2 = raw_lines(seq!['\n'] + text);
    assert(r2 == seq![Seq::<char>::empty()] + raws);
    assert(trim(Seq::<char>::empty()) =~= Seq::<char>::empty());
    assert(line_of(Seq::<char>::empty(), 1) == Ok::<Option<LineModel>, Refusal>(None));
    assert(lift_all(Seq::<LineModel>::empty()) =~= Seq::<LineModel>::empty());
    lemma_lift_lines(Seq::empty(), raws, 0, Seq::empty());
    if let Ok(ls) = spec_lines(text) {
        lemma_lift_document(ls);
        if let Ok((v, at)) = spec_document(ls) {
            lemma_lift_peek(ls, at, 0);
        }
    }
}

// ---------------------------------------------------------------- the number grammar

/// Every character of `s` is an ASCII digit.
pub open spec fn all_digit_chars(s: Seq<char>) -> bool {
    forall|i: int| 0 <= i < s.len() ==> is_digit(#[trigger] s[i])
}

/// A number as the JSON grammar writes it: a minus where `negative`, the
/// integer part `whole` in decimal, a fraction of the digits `fraction`
/// where there are any, and an exponent of the digits `exponent` where there
/// are any, after the marker `marker` and the sign `sign`.
pub open spec fn json_number(
    negative: bool,
    whole: nat,
    fraction: Seq<char>,
    marker: char,
    sign: Seq<char>,
    exponent: Seq<char>,
) -> Seq<char> {
    (if negative { seq!['-'] } else { Seq::empty() }) + decimal(whole) + (if fraction.len() > 0 {
        seq!['.'] + fraction
    } else {
        Seq::empty()
    }) + (if exponent.len() > 0 { seq![marker] + sign + exponent } else { Seq::empty() })
}

proof fn lemma_digit_run_upto(t: Seq<char>, from: int, to: int)
    requires
        0 <= from <= to <= t.len(),
        forall|i: int| from <= i < to ==> is_digit(#[trigger] t[i]),
        to < t.len() ==> !is_digit(t[to]),
    ensures
        digit_run(t, from) == to - from,
    decreases to - from,
{
    if from < to {
        lemma_digit_run_upto(t, from + 1, to);
    }
}

/// A text laid out as the number grammar asks: a sign before `a`, integer
/// digits up to `p`, a fraction up to `q`, then an exponent whose digits
/// start at `s0`.
proof fn lemma_number_shape(t: Seq<char>, a: int, p: int, q: int, s0: int)
    requires
        a == 0 || a == 1,
        a == 1 ==> t[0] == '-',
        a < p <= q <= t.len(),
        a == 0 ==> t[0] != '-',
        forall|i: int| a <= i < p ==> is_digit(#[trigger] t[i]),
        t[a] == '0' ==> p == a + 1,
        p < t.len() ==> !is_digit(t[p]),
        q > p ==> t[p] == '.' && q > p + 1 && (forall|i: int| p + 1 <= i < q ==> is_digit(#[trigger] t[i]))
            && (q < t.len() ==> !is_digit(t[q])),
        q == p && p < t.len() ==> t[p] != '.',
        q < t.len() ==> (t[q] == 'e' || t[q] == 'E') && s0 < t.len() && (forall|i: int|
            s0 <= i < t.len() ==> is_digit(#[trigger] t[i])) && ((s0 == q + 2 && (t[q + 1] == '+'
            || t[q + 1] == '-')) || (s0 == q + 1 && !(t[q + 1] == '+' || t[q + 1] == '-'))),
    ensures
        spec_is_number(t),
{
    if t[a] != '0' {
        lemma_digit_run_upto(t, a, p);
    }
    if q > p {
        lemma_digit_run_upto(t, p + 1, q);
    }
    if q < t.len() {
        lemma_digit_run_upto(t, s0, t.len() as int);
    }
}

/// Every text of the JSON number grammar, `-?(0|[1-9][0-9]*)(\.[0-9]+)?
/// ([eE][+-]?[0-9]+)?`, reads as a number; one with a fraction or an
/// exponent, whatever the exponent's sign, as the decimal it writes.
#[verifier::rlimit(40)]
pub proof fn law_json_numbers_read_as_numbers(
    negative: bool,
    whole: nat,
    fraction: Seq<char>,
    marker: char,
    sign: Seq<char>,
    exponent: Seq<char>,
    line: LineModel,
    offset: int,
)
    requires
        all_digit_chars(fraction),
        all_digit_chars(exponent),
        marker == 'e' || marker == 'E',
        sign == Seq::<char>::empty() || sign == seq!['+'] || sign == seq!['-'],
    ensures
        spec_is_number(json_number(negative, whole, fraction, marker, sign, exponent)),
        spec_primitive(json_number(negative, whole, fraction, marker, sign, exponent), line, offset) matches Ok(
            Json::Number(_),
        ),
        fraction.len() > 0 || exponent.len() > 0 ==> spec_primitive(
            json_number(negative, whole, fraction, marker, sign, exponent),
            line,
            offset,
        ) == Ok::<Json, Refusal>(
            Json::Number(NumberModel::Decimal(json_number(negative, whole, fraction, marker, sign, exponent))),
        ),
{
    let t = json_number(negative, whole, fraction, marker, sign, exponent);
    let m: Seq<char> = if negative { seq!['-'] } else { Seq::empty() };
    let d = decimal(whole);
    let f: Seq<char> = if fraction.len() > 0 { seq!['.'] + fraction } else { Seq::empty() };
    let e: Seq<char> = if exponent.len() > 0 { seq![marker] + sign + exponent } else { Seq::empty() };
    lemma_decimal(whole);
    let a = m.len() as int;
    let p = a + d.len();
    let q = p + f.len();
    let s0 = q + 1 + sign.len();
    assert(t =~= m + d + f + e);
    let md = m + d;
    let mdf = md + f;
    assert(t =~= mdf + e);
    assert forall|i: int| 0 <= i < d.len() implies t[a + i] == d[i] by {
        assert(mdf[a + i] == md[a + i]);
    }
    assert forall|i: int| 0 <= i < f.len() implies t[p + i] == f[i] by {
        assert(mdf[p + i] == f[i]);
    }
    assert forall|i: int| 0 <= i < e.len() implies t[q + i] == e[i] by {}
    assert(t[0] == if negative { '-' } else { d[0] }) by {
        assert(mdf[0] == md[0]);
    }
    assert forall|i: int| a <= i < p implies is_digit(#[trigger] t[i]) by {
        assert(t[a + (i - a)] == d[i - a]);
    }
    if p < t.len() {
        if f.len() > 0 {
            assert(t[p] == f[0]);
        } else {
            assert(t[p] == e[0]);
        }
    }
    if f.len() > 0 {
        assert forall|i: int| p + 1 <= i < q implies is_digit(#[trigger] t[i]) by {
            assert(t[p + (i - p)] == f[i - p]);
            assert(f[i - p] == fraction[i - p - 1]);
        }
        if q < t.len() {
            assert(t[q] == e[0]);
        }
    }
    if e.len() > 0 {
        assert(t[q] == e[0]);
        assert forall|i: int| s0 <= i < t.len() implies is_digit(#[trigger] t[i]) by {
            assert(t[q + (i - q)] == e[i - q]);
            assert(e[i - q] == exponent[i - s0]);
        }
        assert(t[q + 1] == e[1]);
        if sign.len() == 0 {
            assert(e[1] == exponent[0]);
        } else {
            assert(e[1] == sign[0]);
        }
    }
    lemma_number_shape(t, a, p, q, s0);
    lemma_number_not_integer(t, a, p);
}

/// A number whose integer digits are followed by something is no integer.
proof fn lemma_number_not_integer(t: Seq<char>, a: int, p: int)
    requires
        a == 0 || a == 1,
        a == 1 ==> t[0] == '-',
        a == 0 ==> t[0] != '-' && t[0] != '"' && is_digit(t[0]),
        a < p <= t.len(),
        forall|i: int| a <= i < p ==> is_digit(#[trigger] t[i]),
        p < t.len() ==> !is_digit(t[p]),
        spec_is_number(t),
    ensures
        spec_primitive(t, LineModel { number: 0, depth: 0, column: 0, text: Seq::empty() }, 0) matches Ok(
            Json::Number(_),
        ),
        forall|line: LineModel, offset: int| #[trigger] spec_primitive(t, line, offset) == Ok::<Json, Refusal>(
            Json::Number(number_model(t)),
        ),
        p < t.len() ==> number_model(t) == NumberModel::Decimal(t),
{
    assert(!(t =~= seq!['n', 'u', 'l', 'l']));
    assert(!(t =~= seq!['t', 'r', 'u', 'e']));
    assert(!(t =~= seq!['f', 'a', 'l', 's', 'e']));
    if p < t.len() {
        let mag = magnitude(t);
        assert(mag =~= t.skip(a));
        assert forall|i: int| 0 <= i < p - a implies is_digit(#[trigger] mag[i]) by {
            assert(mag[i] == t[a + i]);
        }
        assert(mag[p - a] == t[p]);
        lemma_digit_run_upto(mag, 0, p - a);
        assert(!is_integer_text(t));
    }
}

// ---------------------------------------------------------------- header counts

/// The count a header declares is the number its digits write: a header
/// `[N]`, with or without the `#` marker and with a tab or pipe delimiter or
/// none, followed by a colon, declares `N` items for every `N` a `usize`
/// holds, however many digits it takes, and is delimited as it says.
#[verifier::rlimit(60)]
pub proof fn law_a_header_declares_the_count_it_writes(
    marker: Seq<char>,
    n: nat,
    delimiter: Seq<char>,
    rest: Seq<char>,
    line: LineModel,
    offset: int,
)
    requires
        n <= usize::MAX,
        marker == Seq::<char>::empty() || marker == seq!['#'],
        delimiter == Seq::<char>::empty() || delimiter == seq!['\t'] || delimiter == seq!['|'],
    ensures
        spec_header(seq!['['] + marker + decimal(n) + delimiter + seq![']', ':'] + rest, line, offset)
            matches Ok((h, inline)) && h.count == n && h.delimiter == (if delimiter.len() == 0 {
            ','
        } else {
            delimiter[0]
        }) && h.fields is None && inline == trim(rest),
{
    let d = decimal(n);
    lemma_decimal(n);
    let text = seq!['['] + marker + d + delimiter + seq![']', ':'] + rest;
    let inner = text.drop_first().skip(marker.len() as int);
    assert(inner =~= d + delimiter + seq![']', ':'] + rest);
    assert(text.drop_first()[0] == if marker.len() > 0 { '#' } else { d[0] });
    if marker.len() > 0 {
        assert(text.drop_first().drop_first() =~= inner);
    } else {
        assert(text.drop_first() =~= inner);
    }
    assert(inner[0] == d[0]);
    assert(inner[d.len() as int] == if delimiter.len() > 0 { delimiter[0] } else { ']' });
    assert forall|i: int| 0 <= i < d.len() implies is_digit(#[trigger] inner[i]) by {
        assert(inner[i] == d[i]);
    }
    lemma_digit_run_upto(inner, 0, d.len() as int);
    assert(inner.take(d.len() as int) =~= d);
    let rest0 = inner.skip(d.len() as int);
    assert(rest0 =~= delimiter + seq![']', ':'] + rest);
    let rest1 = rest0.skip(delimiter.len() as int);
    assert(rest1 =~= seq![']', ':'] + rest);
    if delimiter.len() > 0 {
        assert(rest0.drop_first() =~= rest1);
    } else {
        assert(rest0 =~= rest1);
    }
    assert(rest1.drop_first() =~= seq![':'] + rest);
    assert(rest1.drop_first().drop_first() =~= rest);
}

// ---------------------------------------------------------------- media types

/// Parameters never change whether a media type names TOON: what follows
/// the first `;` is not read.
pub proof fn law_media_type_parameters_change_nothing(m: Seq<char>, p: Seq<char>)
    ensures
        spec_is_toon_media_type(m + seq![';'] + p) == spec_is_toon_media_type(m),
{
    let u = m + seq![';'] + p;
    lemma_find2(m, ';', ';');
    lemma_find2(u, ';', ';');
    assert(u[m.len() as int] == ';');
    match find(m, ';') {
        Some(i) => {
            let j = find(u, ';')->0;
            assert(u[i] == m[i]);
            if j < i {
                assert(u[j] == m[j]);
            }
            assert(j == i);
            assert(u.take(i) =~= m.take(i));
        },
        None => {
            let j = find(u, ';')->0;
            if j < m.len() {
                assert(u[j] == m[j]);
            }
            assert(j == m.len());
            assert(u.take(j) =~= m);
        },
    }
}

/// `application/toon` and `text/toon` name TOON, whatever parameters follow
/// and in any mix of ASCII case, as does every `+toon` suffix.
pub proof fn law_toon_media_types_are_named(p: Seq<char>, sub: Seq<char>)
    requires
        forall|i: int| 0 <= i < sub.len() ==> #[trigger] sub[i] != ';',
    ensures
        spec_is_toon_media_type("application/toon"@ + seq![';'] + p),
        spec_is_toon_media_type("APPLICATION/TOON"@ + seq![';'] + p),
        spec_is_toon_media_type("text/toon"@ + seq![';'] + p),
        spec_is_toon_media_type("Text/Toon"@ + seq![';'] + p),
        spec_is_toon_media_type("application/"@ + sub + "+toon"@ + seq![';'] + p),
{
    reveal_strlit("application/toon");
    reveal_strlit("APPLICATION/TOON");
    reveal_strlit("text/toon");
    reveal_strlit("Text/Toon");
    reveal_strlit("application/");
    reveal_strlit("+toon");
    law_media_type_parameters_change_nothing("application/toon"@, p);
    law_media_type_parameters_change_nothing("APPLICATION/TOON"@, p);
    law_media_type_parameters_change_nothing("text/toon"@, p);
    law_media_type_parameters_change_nothing("Text/Toon"@, p);
    let s = "application/"@ + sub + "+toon"@;
    law_media_type_parameters_change_nothing(s, p);
    lemma_trim_unblanked("application/toon"@);
    lemma_trim_unblanked("APPLICATION/TOON"@);
    lemma_trim_unblanked("text/toon"@);
    lemma_trim_unblanked("Text/Toon"@);
    lemma_find2("application/toon"@, ';', ';');
    lemma_find2("APPLICATION/TOON"@, ';', ';');
    lemma_find2("text/toon"@, ';', ';');
    lemma_find2("Text/Toon"@, ';', ';');
    lemma_find2(s, ';', ';');
    assert forall|i: int| 0 <= i < s.len() implies s[i] != ';' by {
        if 12 <= i < 12 + sub.len() {
            assert(s[i] == sub[i - 12]);
        }
    }
    assert(find(s, ';') is None);
    lemma_trim_bounds(s);
    lemma_lead_ws(s);
    lemma_trail_ws(trim_start(s));
    assert(!is_whitespace(s[0]));
    assert(lead_ws(s) == 0);
    assert(trim_start(s) =~= s);
    assert(s.last() == 'n');
    assert(trail_ws(s) == 0);
    assert(trim(s) =~= s);
    assert(s.skip(s.len() - 5) =~= "+toon"@);
}

/// A text with no blank at either end trims to itself.
proof fn lemma_trim_unblanked(s: Seq<char>)
    requires
        s.len() > 0,
        !is_whitespace(s[0]),
        !is_whitespace(s.last()),
    ensures
        trim(s) == s,
{
    assert(lead_ws(s) == 0);
    assert(trim_start(s) =~= s);
    assert(trail_ws(s) == 0);
    assert(trim(s) =~= s);
}

// ---------------------------------------------------------------- field names

proof fn lemma_lead_ws_padded(w: Seq<char>, x: Seq<char>)
    requires
        all_whitespace(w),
    ensures
        lead_ws(w + x) == w.len() + lead_ws(x),
    decreases w.len(),
{
    if w.len() > 0 {
        assert((w + x)[0] == w[0]);
        assert((w + x).drop_first() =~= w.drop_first() + x);
        assert forall|i: int| 0 <= i < w.drop_first().len() implies is_whitespace(
            #[trigger] w.drop_first()[i],
        ) by {
            assert(w.drop_first()[i] == w[i + 1]);
        }
        lemma_lead_ws_padded(w.drop_first(), x);
    } else {
        assert(w + x =~= x);
    }
}

proof fn lemma_trail_ws_padded(x: Seq<char>, w: Seq<char>)
    requires
        all_whitespace(w),
    ensures
        trail_ws(x + w) == w.len() + trail_ws(x),
    decreases w.len(),
{
    if w.len() > 0 {
        assert((x + w).last() == w.last());
        assert((x + w).drop_last() =~= x + w.drop_last());
        assert forall|i: int| 0 <= i < w.drop_last().len() implies is_whitespace(
            #[trigger] w.drop_last()[i],
        ) by {
            assert(w.drop_last()[i] == w[i]);
        }
        lemma_trail_ws_padded(x, w.drop_last());
    } else {
        assert(x + w =~= x);
    }
}

/// A text with blanks around it, and none at its own ends, trims to itself.
proof fn lemma_trim_padded(w1: Seq<char>, n: Seq<char>, w2: Seq<char>)
    requires
        all_whitespace(w1),
        all_whitespace(w2),
        n.len() > 0,
        !is_whitespace(n[0]),
        !is_whitespace(n.last()),
    ensures
        trim(w1 + n + w2) == n,
{
    let x = w1 + n + w2;
    assert(x =~= w1 + (n + w2));
    lemma_lead_ws_padded(w1, n + w2);
    assert((n + w2)[0] == n[0]);
    assert(lead_ws(n + w2) == 0);
    assert(trim_start(x) =~= n + w2);
    lemma_trail_ws_padded(n, w2);
    assert(trail_ws(n) == 0);
    assert(trim(x) =~= n);
}

/// A header's field name has no blanks around it: a bare name between its
/// delimiters reads as itself, blanks around it aside, and a quoted one as
/// the string it quotes.
pub proof fn law_field_names_drop_the_blanks_around_them(w1: Seq<char>, n: Seq<char>, w2: Seq<char>, s: Seq<char>)
    requires
        all_whitespace(w1),
        all_whitespace(w2),
        n.len() > 0,
        !is_whitespace(n[0]),
        !is_whitespace(n.last()),
        n[0] != '"',
    ensures
        field_name(w1 + n + w2) == n,
        field_name(w1 + quote(s) + w2) == s,
{
    lemma_trim_padded(w1, n, w2);
    let q = quote(s);
    assert(q[0] == '"');
    assert(q.last() == '"');
    lemma_trim_padded(w1, q, w2);
    assert(q.subrange(1, q.len() - 1) =~= escape(s));
    lemma_unescape_escape(s);
}

// ---------------------------------------------------------------- sniffed headers

proof fn lemma_skip_hashes(h: Seq<char>, x: Seq<char>)
    requires
        forall|i: int| 0 <= i < h.len() ==> #[trigger] h[i] == '#',
        x.len() > 0,
        x[0] != '#',
    ensures
        skip_leading(h + x, '#') == x,
    decreases h.len(),
{
    if h.len() > 0 {
        assert((h + x).drop_first() =~= h.drop_first() + x);
        assert((h + x)[0] == '#');
        lemma_skip_hashes(h.drop_first(), x);
    } else {
        assert(h + x =~= x);
    }
}

proof fn lemma_skip_marks(x: Seq<char>, m: Seq<char>)
    requires
        forall|i: int| 0 <= i < m.len() ==> #[trigger] m[i] == '\t' || m[i] == '|',
        x.len() > 0,
        x.last() != '\t' && x.last() != '|',
    ensures
        skip_trailing_marks(x + m) == x,
    decreases m.len(),
{
    if m.len() > 0 {
        assert((x + m).drop_last() =~= x + m.drop_last());
        assert((x + m).last() == m.last());
        assert(m.last() == m[m.len() - 1]);
        lemma_skip_marks(x, m.drop_last());
    } else {
        assert(x + m =~= x);
    }
}

/// The part of a header between its count and its colon: nothing, or a
/// field list in braces.
pub open spec fn braces(fields: Seq<char>, listed: bool) -> Seq<char> {
    if listed {
        seq!['{'] + fields + seq!['}']
    } else {
        Seq::empty()
    }
}

/// A line with no line break is the first line that is not blank, trimmed
/// to a piece that keeps everything between two of its non-blank characters.
proof fn lemma_first_line(line: Seq<char>, b: int, colon: int) -> (r: (int, int))
    requires
        find(line, '\n') is None,
        0 <= b <= colon < line.len(),
        !is_whitespace(line[b]),
        !is_whitespace(line[colon]),
    ensures
        0 <= r.0 <= b,
        colon < r.1 <= line.len(),
        first_nonblank(raw_lines(line)) == Some(line.subrange(r.0, r.1)),
{
    assert(raw_lines(line) == seq![line]);
    lemma_trim_bounds(line);
    lemma_lead_ws(line);
    let lw = lead_ws(line) as int;
    assert(lw <= b) by {
        if lw > b {
            assert(is_whitespace(line[b]));
        }
    }
    let ts = trim_start(line);
    lemma_trail_ws(ts);
    let tw = trail_ws(ts) as int;
    assert(ts[colon - lw] == line[colon]);
    assert(tw <= ts.len() - (colon + 1 - lw)) by {
        if tw > ts.len() - (colon + 1 - lw) {
            assert(is_whitespace(ts[colon - lw]));
        }
    }
    let tl = trim(line);
    assert(tl == line.subrange(lw, line.len() - tw));
    assert(tl.len() > 0);
    assert(first_nonblank(seq![line]) == Some(tl));
    (lw, line.len() - tw)
}

/// A first line that is an array header is claimed.
#[verifier::rlimit(60)]
proof fn lemma_sniff_header(
    text: Seq<char>,
    tl: Seq<char>,
    pre: Seq<char>,
    hashes: Seq<char>,
    d: Seq<char>,
    marks: Seq<char>,
    fields: Seq<char>,
    listed: bool,
    post: Seq<char>,
)
    requires
        first_nonblank(raw_lines(text)) == Some(tl),
        tl == pre + seq!['['] + (hashes + d + marks) + seq![']'] + braces(fields, listed) + seq![':'] + post,
        find(pre, '[') is None,
        find(fields, '}') is None,
        d.len() > 0,
        all_digit_chars(d),
        forall|i: int| 0 <= i < hashes.len() ==> #[trigger] hashes[i] == '#',
        forall|i: int| 0 <= i < marks.len() ==> #[trigger] marks[i] == '\t' || marks[i] == '|',
    ensures
        spec_looks_like_toon(text),
{
    let count = hashes + d + marks;
    let br = braces(fields, listed);
    let open = pre.len() as int;
    let c = open + 1 + count.len();
    let colon = c + 1 + br.len();
    assert forall|i: int| 0 <= i < open implies tl[i] == pre[i] by {}
    assert forall|i: int| 0 <= i < count.len() implies tl[open + 1 + i] == count[i] by {}
    assert forall|i: int| 0 <= i < br.len() implies tl[c + 1 + i] == br[i] by {}
    assert(tl[open] == '[');
    assert(tl[c] == ']');
    assert(tl[colon] == ':');
    lemma_find2(pre, '[', '[');
    lemma_find2(tl, '[', '[');
    assert(find(tl, '[') == Some(open)) by {
        if let Some(j) = find(tl, '[') {
            if j < open {
                assert(tl[j] == pre[j]);
            }
        }
    }
    let from = tl.skip(open);
    let close: int = count.len() as int + 1;
    assert(from[close] == ']');
    lemma_find2(from, ']', ']');
    assert(find(from, ']') == Some(close)) by {
        if let Some(j) = find(from, ']') {
            if 1 <= j < close {
                let i = j - 1;
                assert(from[j] == count[i]);
                if i < hashes.len() {
                    assert(count[i] == hashes[i]);
                } else if i < hashes.len() + d.len() {
                    assert(count[i] == d[i - hashes.len()]);
                    assert(is_digit(d[i - hashes.len()]));
                } else {
                    assert(count[i] == marks[i - hashes.len() - d.len()]);
                }
            } else if j == 0 {
                assert(from[0] == '[');
            }
        }
    }
    assert(tl.subrange(open + 1, open + close) =~= count);
    assert(count =~= hashes + (d + marks));
    assert((d + marks)[0] == d[0]);
    assert(is_digit(d[0]));
    lemma_skip_hashes(hashes, d + marks);
    assert(d.last() == d[d.len() - 1]);
    assert(is_digit(d.last()));
    lemma_skip_marks(d, marks);
    let after = tl.skip(open + close + 1);
    assert forall|i: int| 0 <= i <= br.len() implies after[i] == tl[c + 1 + i] by {}
    lemma_find2(fields, '}', '}');
    if listed {
        assert(after[0] == '{');
        let inside = after.drop_first();
        assert(inside[fields.len() as int] == '}');
        lemma_find2(inside, '}', '}');
        assert(find(inside, '}') == Some(fields.len() as int)) by {
            if let Some(j) = find(inside, '}') {
                if j < fields.len() {
                    assert(inside[j] == after[j + 1]);
                    assert(br[j + 1] == fields[j]);
                }
            }
        }
        assert(inside.skip(fields.len() as int + 1)[0] == after[br.len() as int]);
        assert(starts_with(inside.skip(fields.len() as int + 1), ':'));
    } else {
        assert(after[0] == ':');
        assert(starts_with(after, ':'));
    }
}

/// Sniffing claims every document whose first line is an array header,
/// `key[N]:` and what follows, for every count `N` however many digits it
/// takes, with `#` markers before it and tab or pipe marks after it, and
/// with a field list or none.
#[verifier::rlimit(60)]
pub proof fn law_sniffing_claims_every_array_header(
    k: Seq<char>,
    hashes: Seq<char>,
    n: nat,
    marks: Seq<char>,
    fields: Seq<char>,
    listed: bool,
    v: Seq<char>,
)
    requires
        find(k, '[') is None,
        find(k, '\n') is None,
        find(v, '\n') is None,
        find(fields, '}') is None,
        find(fields, '\n') is None,
        forall|i: int| 0 <= i < hashes.len() ==> #[trigger] hashes[i] == '#',
        forall|i: int| 0 <= i < marks.len() ==> #[trigger] marks[i] == '\t' || marks[i] == '|',
    ensures
        spec_looks_like_toon(
            k + seq!['['] + hashes + decimal(n) + marks + seq![']'] + braces(fields, listed) + seq![':']
                + v,
        ),
{
    let d = decimal(n);
    lemma_decimal(n);
    let count = hashes + d + marks;
    let br = braces(fields, listed);
    let mid = seq!['['] + count + seq![']'] + br + seq![':'];
    let line = k + mid + v;
    assert(line =~= k + seq!['['] + hashes + decimal(n) + marks + seq![']'] + braces(fields, listed)
        + seq![':'] + v);
    let b = k.len() as int;
    let colon = b + mid.len() - 1;
    assert(line[b] == mid[0]);
    assert(line[colon] == mid[mid.len() - 1]);
    lemma_find2(k, '\n', '\n');
    lemma_find2(v, '\n', '\n');
    lemma_find2(fields, '\n', '\n');
    lemma_find2(k, '[', '[');
    lemma_find2(line, '\n', '\n');
    assert(find(line, '\n') is None) by {
        if let Some(j) = find(line, '\n') {
            if j < b {
                assert(line[j] == k[j]);
            } else if j > colon {
                assert(line[j] == v[j - colon - 1]);
            } else {
                let i = j - b;
                assert(line[j] == mid[i]);
                let c = 1 + count.len();
                if 1 <= i < c {
                    let x = i - 1;
                    assert(mid[i] == count[x]);
                    if x < hashes.len() {
                        assert(count[x] == hashes[x]);
                    } else if x < hashes.len() + d.len() {
                        assert(count[x] == d[x - hashes.len()]);
                    } else {
                        assert(count[x] == marks[x - hashes.len() - d.len()]);
                    }
                } else if c < i < mid.len() - 1 {
                    assert(mid[i] == br[i - c - 1]);
                    if 1 <= i - c - 1 < br.len() - 1 {
                        assert(br[i - c - 1] == fields[i - c - 2]);
                    }
                }
            }
        }
    }
    let (lw, r) = lemma_first_line(line, b, colon);
    let tl = line.subrange(lw, r);
    let pre = k.skip(lw);
    let post = v.take(r - colon - 1);
    assert(tl =~= pre + mid + post);
    assert(pre + mid + post =~= pre + seq!['['] + (hashes + d + marks) + seq![']'] + br + seq![':'] + post);
    assert(find(pre, '[') is None) by {
        lemma_find2(pre, '[', '[');
        if let Some(j) = find(pre, '[') {
            assert(pre[j] == k[lw + j]);
        }
    }
    lemma_sniff_header(line, tl, pre, hashes, d, marks, fields, listed, post);
}

// ---------------------------------------------------------------- field lists

/// Pieces written one after another, `d` between each two.
pub open spec fn joined(pieces: Seq<Seq<char>>, d: char) -> Seq<char>
    decreases pieces.len(),
{
    if pieces.len() <= 1 {
        if pieces.len() == 1 { pieces[0] } else { Seq::empty() }
    } else {
        pieces[0] + seq![d] + joined(pieces.drop_first(), d)
    }
}

/// No piece holds `c`.
pub open spec fn none_holds(pieces: Seq<Seq<char>>, c: char) -> bool {
    forall|i: int, j: int| 0 <= i < pieces.len() && 0 <= j < pieces[i].len() ==> #[trigger] pieces[i][j] != c
}

proof fn lemma_joined_free(pieces: Seq<Seq<char>>, d: char, c: char)
    requires
        none_holds(pieces, c),
        d != c,
    ensures
        forall|j: int| 0 <= j < joined(pieces, d).len() ==> #[trigger] joined(pieces, d)[j] != c,
    decreases pieces.len(),
{
    if pieces.len() > 1 {
        let rest = pieces.drop_first();
        assert forall|i: int, j: int| 0 <= i < rest.len() && 0 <= j < rest[i].len() implies #[trigger] rest[i][j] != c by {
            assert(rest[i] == pieces[i + 1]);
        }
        lemma_joined_free(rest, d, c);
        let t = joined(pieces, d);
        assert forall|j: int| 0 <= j < t.len() implies #[trigger] t[j] != c by {
            let p0 = pieces[0];
            if j < p0.len() {
                assert(t[j] == p0[j]);
            } else if j > p0.len() {
                assert(t[j] == joined(rest, d)[j - p0.len() - 1]);
            }
        }
    } else if pieces.len() == 1 {
        assert forall|j: int| 0 <= j < joined(pieces, d).len() implies #[trigger] joined(pieces, d)[j] != c by {
            assert(pieces[0][j] != c);
        }
    }
}

/// Splitting at `d` gives back the pieces that were joined with `d`, where
/// none of them holds `d`.
pub proof fn law_splitting_undoes_joining(pieces: Seq<Seq<char>>, d: char)
    requires
        pieces.len() >= 1,
        none_holds(pieces, d),
    ensures
        split_on(joined(pieces, d), d) == pieces,
    decreases pieces.len(),
{
    let t = joined(pieces, d);
    lemma_find2(t, d, d);
    if pieces.len() == 1 {
        assert(find(t, d) is None) by {
            if let Some(j) = find(t, d) {
                assert(pieces[0][j] != d);
            }
        }
        assert(split_on(t, d) =~= seq![t]);
        assert(pieces =~= seq![pieces[0]]);
    } else {
        let p0 = pieces[0];
        let rest = pieces.drop_first();
        assert forall|i: int, j: int| 0 <= i < rest.len() && 0 <= j < rest[i].len() implies #[trigger] rest[i][j] != d by {
            assert(rest[i] == pieces[i + 1]);
        }
        law_splitting_undoes_joining(rest, d);
        assert(t[p0.len() as int] == d);
        assert(find(t, d) == Some(p0.len() as int)) by {
            if let Some(j) = find(t, d) {
                if j < p0.len() {
                    assert(t[j] == p0[j]);
                    assert(pieces[0][j] != d);
                }
            }
        }
        assert(t.take(p0.len() as int) =~= p0);
        assert(t.skip(p0.len() as int + 1) =~= joined(rest, d));
        assert(split_on(t, d) =~= seq![p0] + rest);
        assert(seq![p0] + rest =~= pieces);
    }
}

/// A header's field list names, in order, the pieces between its commas,
/// each read as a field name: `[N]{a, b}` lists `a` and `b`.
#[verifier::rlimit(40)]
pub proof fn law_a_header_lists_the_fields_between_its_braces(
    n: nat,
    pieces: Seq<Seq<char>>,
    rest: Seq<char>,
    line: LineModel,
    offset: int,
)
    requires
        n <= usize::MAX,
        pieces.len() >= 1,
        none_holds(pieces, ','),
        none_holds(pieces, '}'),
    ensures
        spec_header(
            seq!['['] + decimal(n) + seq![']', '{'] + joined(pieces, ',') + seq!['}', ':'] + rest,
            line,
            offset,
        ) matches Ok((h, inline)) && h.count == n && h.fields == Some(
            pieces.map_values(|p: Seq<char>| field_name(p)),
        ) && inline == trim(rest),
{
    let d = decimal(n);
    lemma_decimal(n);
    let j = joined(pieces, ',');
    law_splitting_undoes_joining(pieces, ',');
    lemma_joined_free(pieces, ',', '}');
    let text = seq!['['] + d + seq![']', '{'] + j + seq!['}', ':'] + rest;
    let inner = text.drop_first();
    assert(inner =~= d + (seq![']', '{'] + j + seq!['}', ':'] + rest));
    assert(inner[0] == d[0]);
    assert(inner[d.len() as int] == ']');
    assert forall|i: int| 0 <= i < d.len() implies is_digit(#[trigger] inner[i]) by {
        assert(inner[i] == d[i]);
    }
    lemma_digit_run_upto(inner, 0, d.len() as int);
    assert(inner.take(d.len() as int) =~= d);
    let rest0 = inner.skip(d.len() as int);
    assert(rest0 =~= seq![']', '{'] + j + seq!['}', ':'] + rest);
    let inside = rest0.drop_first().drop_first();
    assert(inside =~= j + seq!['}', ':'] + rest);
    assert(inside[j.len() as int] == '}');
    lemma_find2(inside, '}', '}');
    assert(find(inside, '}') == Some(j.len() as int)) by {
        if let Some(k) = find(inside, '}') {
            if k < j.len() {
                assert(inside[k] == j[k]);
            }
        }
    }
    assert(inside.take(j.len() as int) =~= j);
    assert(inside.skip(j.len() as int + 1) =~= seq![':'] + rest);
    assert(inside.skip(j.len() as int + 1).drop_first() =~= rest);
    assert(field_names(j, ',') =~= pieces.map_values(|p: Seq<char>| field_name(p)));
}

} // verus!
