//! The TOON content contract: every stream is read as Token-Oriented Object
//! Notation and a failure names its line and column; a contract bound to a
//! JSON Schema also holds the value read to that schema, whose evaluation is
//! the schema contract's own work.

use vstd::prelude::*;
use vstd::string::StringExecFns;


use crate::text::{
    begins_with, chars_of, find, find2_in, is_digit, lemma_find2, push_decimal, starts_with,
    string_of, trim, trim_of, utf8_len,
};
use crate::toon::{Malformed, Refusal, parse, raw_lines, spec_parse, split_lines, texts};
use serde_json::Value as JsonValue;
use vstd::utf8::{decode_utf8, encode_utf8, valid_utf8};
use crate::value::{Json, Number, Value, key_index, lemma_entries_view, lemma_key_index, entries_view};

verus! {

broadcast use vstd::seq::group_seq_axioms, vstd::string::group_string_axioms;

/// What a contract says of itself.
#[derive(Debug)]
pub struct Descriptor {
    pub id: String,
    pub version: String,
    pub representation: String,
}

/// A contract that cannot do its work.
#[derive(Debug)]
pub struct ContractError {
    pub message: String,
}

/// One way in which a stream departs from a contract.
#[derive(Debug)]
pub struct Issue {
    pub code: String,
    pub message: String,
    pub path: Option<String>,
}

/// The TOON contract, bare or bound to a JSON Schema.
pub struct Toon {
    descriptor: Descriptor,
    schema: Option<Value>,
}

/// The model of a [`Toon`]: its descriptor and the schema it is bound to.
pub struct ToonModel {
    pub id: Seq<char>,
    pub version: Seq<char>,
    pub representation: Seq<char>,
    pub schema: Option<Json>,
}

impl View for Toon {
    type V = ToonModel;

    closed spec fn view(&self) -> ToonModel {
        ToonModel {
            id: self.descriptor.id@,
            version: self.descriptor.version@,
            representation: self.descriptor.representation@,
            schema: match self.schema {
                Some(s) => Some(s@),
                None => None,
            },
        }
    }
}

/// The model of a contract whose descriptor names `id`.
pub open spec fn contract_model(id: Seq<char>, schema: Option<Json>) -> ToonModel {
    ToonModel { id, version: "1"@, representation: "application/toon"@, schema }
}

/// A descriptor for the contract named `id`.
fn descriptor(id: String) -> (r: Descriptor)
    ensures
        r.id@ == id@,
        r.version@ == "1"@,
        r.representation@ == "application/toon"@,
{
    Descriptor {
        id,
        version: String::from_str("1"),
        representation: String::from_str("application/toon"),
    }
}

/// The name a schema gives itself: its `$id` where it has one, else its
/// `title`, where that is a string; else `bound`.
pub open spec fn schema_name(schema: Json) -> Seq<char> {
    match schema {
        Json::Object(entries) => {
            let named = match key_index(entries, "$id"@) {
                Some(i) => Some(entries[i].1),
                None => match key_index(entries, "title"@) {
                    Some(i) => Some(entries[i].1),
                    None => None,
                },
            };
            match named {
                Some(Json::Str(s)) => s,
                _ => "bound"@,
            }
        },
        _ => "bound"@,
    }
}

/// Whether a value can be a JSON Schema: an object or a boolean.
pub open spec fn is_schema(schema: Json) -> bool {
    schema is Object || schema is Bool
}

/// The value bound to `key` in `entries`.
fn lookup<'a>(entries: &'a Vec<(String, Value)>, key: &str) -> (r: Option<&'a Value>)
    ensures
        match r {
            Some(v) => key_index(entries_view(entries@), key@) matches Some(i) && entries_view(
                entries@,
            )[i].1 == v@,
            None => key_index(entries_view(entries@), key@) is None,
        },
{
    let k = String::from_str(key);
    let ghost model = entries_view(entries@);
    proof {
        lemma_entries_view(entries@);
        lemma_key_index(model, key@);
    }
    let mut i: usize = 0;
    while i < entries.len()
        invariant
            i <= entries@.len(),
            k@ == key@,
            model == entries_view(entries@),
            model.len() == entries@.len(),
            forall|j: int| 0 <= j < entries@.len() ==> #[trigger] model[j] == (entries@[j].0@, entries@[j].1@),
            forall|j: int| 0 <= j < i ==> #[trigger] model[j].0 != key@,
        decreases entries@.len() - i,
    {
        if entries[i].0 == k {
            proof {
                lemma_key_index(model, key@);
                match key_index(model, key@) {
                    Some(m) => {
                        if m < i {
                            assert(model[m].0 != key@);
                        }
                        if m > i {
                            assert(model[i as int].0 != key@);
                        }
                    },
                    None => {
                        assert(model[i as int].0 != key@);
                    },
                }
            }
            return Some(&entries[i].1);
        }
        i = i + 1;
    }
    proof {
        lemma_key_index(model, key@);
        match key_index(model, key@) {
            Some(m) => {
                assert(model[m].0 != key@);
            },
            None => {},
        }
    }
    None
}

fn name_of(schema: &Value) -> (r: String)
    ensures
        r@ == schema_name(schema@),
{
    match schema {
        Value::Object(entries) => {
            let named = match lookup(entries, "$id") {
                Some(v) => Some(v),
                None => lookup(entries, "title"),
            };
            match named {
                Some(Value::String(s)) => s.clone(),
                _ => String::from_str("bound"),
            }
        },
        _ => String::from_str("bound"),
    }
}

impl Toon {
    /// Well-formedness only.
    pub fn new() -> (r: Toon)
        ensures
            r@ == contract_model("toon"@, None),
    {
        Toon { descriptor: descriptor(String::from_str("toon")), schema: None }
    }

    /// Well-formedness and conformance to `schema`, which must itself be a
    /// JSON Schema: an object or a boolean. The contract is named for the
    /// schema: `toon:` and the schema's name.
    pub fn with_schema(schema: Value) -> (r: Result<Toon, ContractError>)
        ensures
            match r {
                Ok(t) => is_schema(schema@) && t@ == contract_model(
                    "toon:"@ + schema_name(schema@),
                    Some(schema@),
                ),
                Err(e) => !is_schema(schema@) && e.message@
                    == "a JSON Schema is an object or a boolean"@,
            },
    {
        let fits = match &schema {
            Value::Object(_) => true,
            Value::Bool(_) => true,
            _ => false,
        };
        if !fits {
            return Err(
                ContractError { message: String::from_str("a JSON Schema is an object or a boolean") },
            );
        }
        let name = name_of(&schema);
        let mut id = String::from_str("toon:");
        id.append(name.as_str());
        Ok(Toon { descriptor: descriptor(id), schema: Some(schema) })
    }

    /// Whether a schema is bound.
    pub fn is_bound(&self) -> (r: bool)
        ensures
            r == self@.schema is Some,
    {
        self.schema.is_some()
    }

    pub fn descriptor(&self) -> (r: &Descriptor)
        ensures
            r.id@ == self@.id,
            r.version@ == self@.version,
            r.representation@ == self@.representation,
    {
        &self.descriptor
    }

    /// The schema a stream's value is held to, where one is bound.
    pub fn schema(&self) -> (r: Option<&Value>)
        ensures
            match r {
                Some(s) => self@.schema == Some(s@),
                None => self@.schema is None,
            },
    {
        match &self.schema {
            Some(s) => Some(s),
            None => None,
        }
    }
}

impl Default for Toon {
    fn default() -> (r: Self)
        ensures
            r@ == contract_model("toon"@, None),
    {
        Toon::new()
    }
}

// ---------------------------------------------------------------- sniffing

/// The code of `c` once an ASCII capital is lowered.
pub open spec fn lower_code(c: char) -> int {
    if 'A' <= c && c <= 'Z' {
        (c as int) + 32
    } else {
        c as int
    }
}

/// `str::eq_ignore_ascii_case`.
pub open spec fn eq_ignore_ascii_case(a: Seq<char>, b: Seq<char>) -> bool {
    a.len() == b.len() && forall|i: int| 0 <= i < a.len() ==> lower_code(#[trigger] a[i]) == lower_code(b[i])
}

/// `str::ends_with`.
pub open spec fn ends_with(s: Seq<char>, suffix: Seq<char>) -> bool {
    s.len() >= suffix.len() && s.skip(s.len() - suffix.len()) == suffix
}

/// A media type without its parameters.
pub open spec fn essence(media_type: Seq<char>) -> Seq<char> {
    trim(
        match find(media_type, ';') {
            Some(i) => media_type.take(i),
            None => media_type,
        },
    )
}

/// `application/toon`, `text/toon` or a `+toon` suffix, parameters aside and
/// the first two in any case.
pub open spec fn spec_is_toon_media_type(media_type: Seq<char>) -> bool {
    let e = essence(media_type);
    eq_ignore_ascii_case(e, "application/toon"@) || eq_ignore_ascii_case(e, "text/toon"@)
        || ends_with(e, "+toon"@)
}

fn lower_code_of(c: char) -> (r: u32)
    ensures
        r as int == lower_code(c),
{
    if 'A' <= c && c <= 'Z' {
        c as u32 + 32
    } else {
        c as u32
    }
}

fn same_ignoring_case(a: &[char], b: &[char]) -> (r: bool)
    ensures
        r == eq_ignore_ascii_case(a@, b@),
{
    if a.len() != b.len() {
        return false;
    }
    let mut i: usize = 0;
    while i < a.len()
        invariant
            i <= a@.len(),
            a@.len() == b@.len(),
            forall|j: int| 0 <= j < i ==> lower_code(#[trigger] a@[j]) == lower_code(b@[j]),
        decreases a@.len() - i,
    {
        if lower_code_of(a[i]) != lower_code_of(b[i]) {
            return false;
        }
        i = i + 1;
    }
    true
}

fn has_suffix(s: &[char], suffix: &[char]) -> (r: bool)
    ensures
        r == ends_with(s@, suffix@),
{
    if s.len() < suffix.len() {
        return false;
    }
    let start = s.len() - suffix.len();
    let mut i: usize = 0;
    assert(s@.len() == s.len());
    while i < suffix.len()
        invariant
            i <= suffix@.len(),
            s@.len() <= usize::MAX,
            start + suffix@.len() == s@.len(),
            forall|j: int| 0 <= j < i ==> #[trigger] suffix@[j] == s@[start + j],
        decreases suffix@.len() - i,
    {
        if s[start + i] != suffix[i] {
            assert(s@.skip(start as int)[i as int] != suffix@[i as int]);
            return false;
        }
        i = i + 1;
    }
    assert(s@.skip(start as int) =~= suffix@);
    true
}

/// Whether a media type names TOON.
pub fn is_toon_media_type(media_type: &str) -> (r: bool)
    ensures
        r == spec_is_toon_media_type(media_type@),
{
    let m = chars_of(media_type);
    let head = match find2_in(m.as_slice(), ';', ';') {
        Some(i) => {
            proof {
                lemma_find2(m@, ';', ';');
            }
            vstd::slice::slice_subrange(m.as_slice(), 0, i)
        },
        None => m.as_slice(),
    };
    let e = trim_of(head);
    let application = chars_of("application/toon");
    let text = chars_of("text/toon");
    let suffix = chars_of("+toon");
    same_ignoring_case(e, application.as_slice()) || same_ignoring_case(e, text.as_slice())
        || has_suffix(e, suffix.as_slice())
}

/// The first line of `raws` that is not blank, trimmed.
pub open spec fn first_nonblank(raws: Seq<Seq<char>>) -> Option<Seq<char>>
    decreases raws.len(),
{
    if raws.len() == 0 {
        None
    } else if trim(raws[0]).len() != 0 {
        Some(trim(raws[0]))
    } else {
        first_nonblank(raws.drop_first())
    }
}

/// `s` without the `c`s it starts with.
pub open spec fn skip_leading(s: Seq<char>, c: char) -> Seq<char>
    decreases s.len(),
{
    if starts_with(s, c) {
        skip_leading(s.drop_first(), c)
    } else {
        s
    }
}

/// `s` without the tabs and pipes it ends with.
pub open spec fn skip_trailing_marks(s: Seq<char>) -> Seq<char>
    decreases s.len(),
{
    if s.len() > 0 && (s.last() == '\t' || s.last() == '|') {
        skip_trailing_marks(s.drop_last())
    } else {
        s
    }
}

pub open spec fn all_digits(s: Seq<char>) -> bool {
    forall|i: int| 0 <= i < s.len() ==> is_digit(#[trigger] s[i])
}

/// Whether the first line that is not blank is an array header, `key[N]...:`
/// or `[N]...:`, which nothing else writes. A plain `key: value` document is
/// YAML's shape as much as TOON's and is not claimed.
pub open spec fn spec_looks_like_toon(text: Seq<char>) -> bool {
    match first_nonblank(raw_lines(text)) {
        None => false,
        Some(line) => match find(line, '[') {
            None => false,
            Some(open) => match find(line.skip(open), ']') {
                None => false,
                Some(close) => {
                    let count = skip_trailing_marks(
                        skip_leading(line.subrange(open + 1, open + close), '#'),
                    );
                    if count.len() == 0 || !all_digits(count) {
                        false
                    } else {
                        let after = line.skip(open + close + 1);
                        let rest = if starts_with(after, '{') {
                            match find(after.drop_first(), '}') {
                                Some(j) => after.drop_first().skip(j + 1),
                                None => after,
                            }
                        } else {
                            after
                        };
                        starts_with(rest, ':')
                    }
                },
            },
        },
    }
}

fn first_nonblank_of(raws: &Vec<Vec<char>>) -> (r: Option<&[char]>)
    ensures
        as_seq(r) == first_nonblank(texts(raws@)),
{
    let mut i: usize = 0;
    assert(texts(raws@).skip(0) =~= texts(raws@));
    while i < raws.len()
        invariant
            i <= raws@.len(),
            first_nonblank(texts(raws@)) == first_nonblank(texts(raws@).skip(i as int)),
        decreases raws@.len() - i,
    {
        let t = trim_of(raws[i].as_slice());
        assert(texts(raws@).skip(i as int)[0] == raws@[i as int]@);
        if t.len() != 0 {
            return Some(t);
        }
        assert(texts(raws@).skip(i as int).drop_first() =~= texts(raws@).skip(i + 1));
        i = i + 1;
    }
    assert(texts(raws@).skip(i as int) =~= Seq::<Seq<char>>::empty());
    None
}

pub open spec fn as_seq(r: Option<&[char]>) -> Option<Seq<char>> {
    match r {
        Some(s) => Some(s@),
        None => None,
    }
}

fn skip_leading_of(s: &[char], c: char) -> (r: &[char])
    ensures
        r@ == skip_leading(s@, c),
{
    let mut i: usize = 0;
    assert(s@.skip(0) =~= s@);
    while i < s.len() && s[i] == c
        invariant
            i <= s@.len(),
            skip_leading(s@, c) == skip_leading(s@.skip(i as int), c),
        decreases s@.len() - i,
    {
        assert(s@.skip(i as int).drop_first() =~= s@.skip(i + 1));
        i = i + 1;
    }
    vstd::slice::slice_subrange(s, i, s.len())
}

fn skip_trailing_marks_of(s: &[char]) -> (r: &[char])
    ensures
        r@ == skip_trailing_marks(s@),
{
    let mut j: usize = s.len();
    assert(s@.take(s@.len() as int) =~= s@);
    while j > 0 && (s[j - 1] == '\t' || s[j - 1] == '|')
        invariant
            j <= s@.len(),
            skip_trailing_marks(s@) == skip_trailing_marks(s@.take(j as int)),
        decreases j,
    {
        assert(s@.take(j as int).drop_last() =~= s@.take(j - 1));
        j = j - 1;
    }
    vstd::slice::slice_subrange(s, 0, j)
}

fn digits_only(s: &[char]) -> (r: bool)
    ensures
        r == all_digits(s@),
{
    let mut i: usize = 0;
    while i < s.len()
        invariant
            i <= s@.len(),
            forall|j: int| 0 <= j < i ==> is_digit(#[trigger] s@[j]),
        decreases s@.len() - i,
    {
        if !('0' <= s[i] && s[i] <= '9') {
            return false;
        }
        i = i + 1;
    }
    true
}

/// Whether the first line that is not blank is an array header, `key[N]...:`
/// or `[N]...:`, which nothing else writes. A plain `key: value` document is
/// YAML's shape as much as TOON's and is not claimed by sniffing.
pub fn looks_like_toon(text: &str) -> (r: bool)
    ensures
        r == spec_looks_like_toon(text@),
{
    let chars = chars_of(text);
    let raws = split_lines(chars.as_slice());
    let line = match first_nonblank_of(&raws) {
        Some(line) => line,
        None => {
            return false;
        },
    };
    assert(first_nonblank(raw_lines(text@)) == Some(line@));
    let open = match find2_in(line, '[', '[') {
        Some(open) => open,
        None => {
            return false;
        },
    };
    proof {
        lemma_find2(line@, '[', '[');
    }
    let from_open = vstd::slice::slice_subrange(line, open, line.len());
    let close = match find2_in(from_open, ']', ']') {
        Some(close) => close,
        None => {
            return false;
        },
    };
    proof {
        lemma_find2(from_open@, ']', ']');
        assert(from_open@[0] == '[');
    }
    let inside = vstd::slice::slice_subrange(line, open + 1, open + close);
    let count = skip_trailing_marks_of(skip_leading_of(inside, '#'));
    if count.len() == 0 || !digits_only(count) {
        return false;
    }
    let after = vstd::slice::slice_subrange(line, open + close + 1, line.len());
    let mut rest = after;
    if begins_with(after, '{') {
        let fields = vstd::slice::slice_subrange(after, 1, after.len());
        assert(fields@ =~= after@.drop_first());
        match find2_in(fields, '}', '}') {
            Some(j) => {
                proof {
                    lemma_find2(fields@, '}', '}');
                }
                rest = vstd::slice::slice_subrange(fields, j + 1, fields.len());
            },
            None => {},
        }
    }
    begins_with(rest, ':')
}

// ---------------------------------------------------------------- streams

/// The message that the `Display` of the `std::str::Utf8Error` which
/// `std::str::from_utf8` returns for `bytes` writes: what is invalid and
/// where, a function of the bytes alone.
pub uninterp spec fn utf8_error_message(bytes: Seq<u8>) -> Seq<char>;

/// `std::str::from_utf8`: the bytes as text where they are valid UTF-8, in
/// the sense of vstd's `valid_utf8`, whose decoding the text then is; else
/// the message its error writes.
#[verifier::external_body]
fn decode(bytes: &[u8]) -> (r: Result<&str, String>)
    ensures
        r is Ok <==> valid_utf8(bytes@),
        r matches Ok(text) ==> text@ == decode_utf8(bytes@),
        r matches Err(m) ==> m@ == utf8_error_message(bytes@),
{
    match std::str::from_utf8(bytes) {
        Ok(text) => Ok(text),
        Err(error) => Err(format!("{error}")),
    }
}

/// The model of an [`Issue`].
pub struct IssueModel {
    pub code: Seq<char>,
    pub message: Seq<char>,
    pub path: Option<Seq<char>>,
}

impl View for Issue {
    type V = IssueModel;

    open spec fn view(&self) -> IssueModel {
        IssueModel {
            code: self.code@,
            message: self.message@,
            path: match self.path {
                Some(p) => Some(p@),
                None => None,
            },
        }
    }
}

/// The issue that a document which is not TOON raises: `malformed`, the
/// reason, and the line and column as its path.
pub open spec fn malformed_issue(m: Refusal) -> IssueModel {
    IssueModel {
        code: "malformed"@,
        message: "not valid TOON: "@ + m.message,
        path: Some("line "@ + decimal_of(m.line) + " column "@ + decimal_of(m.column)),
    }
}

pub open spec fn decimal_of(n: int) -> Seq<char> {
    crate::text::decimal(n as nat)
}

fn issue_of(m: Malformed) -> (r: Issue)
    ensures
        r@ == malformed_issue(m@),
{
    let mut message = String::from_str("not valid TOON: ");
    message.append(m.message.as_str());
    let mut path = String::from_str("line ");
    push_decimal(&mut path, m.line);
    path.append(" column ");
    push_decimal(&mut path, m.column);
    Issue { code: String::from_str("malformed"), message, path: Some(path) }
}

/// What a stream's bytes are found to be: not TOON, with the issue that
/// says where; or the value they read as, which a bound schema then judges.
pub enum Reading {
    Malformed(Issue),
    Instance(Value),
}

/// The prefix of the message for bytes that are not text.
pub open spec fn not_text_prefix() -> Seq<char> {
    "not UTF-8 text: "@
}

/// The error for bytes that are not text, `detail` saying why.
pub fn not_text(detail: String) -> (e: ContractError)
    ensures
        e.message@ == not_text_prefix() + detail@,
{
    let mut message = String::from_str("not UTF-8 text: ");
    message.append(detail.as_str());
    ContractError { message }
}

impl Toon {
    /// Whether a stream is TOON: by its media type where it has one, else
    /// by sniffing its text for an array header.
    pub fn identify(&self, media_type: Option<&str>, bytes: &[u8]) -> (r: bool)
        ensures
            r == match media_type {
                Some(m) => spec_is_toon_media_type(m@),
                None => valid_utf8(bytes@) && spec_looks_like_toon(decode_utf8(bytes@)),
            },
    {
        match media_type {
            Some(m) => is_toon_media_type(m),
            None => match decode(bytes) {
                Ok(text) => looks_like_toon(text),
                Err(_) => false,
            },
        }
    }

    /// Reads a stream's bytes as TOON. Bytes that are not UTF-8 are an
    /// error, not an issue; text that is not TOON is the issue `malformed`.
    pub fn validate(&self, bytes: &[u8]) -> (r: Result<Reading, ContractError>)
        requires
            bytes@.len() <= usize::MAX / 2,
        ensures
            match r {
                Err(e) => !valid_utf8(bytes@) && e.message@ == not_text_prefix() + utf8_error_message(
                    bytes@,
                ),
                Ok(Reading::Instance(v)) => valid_utf8(bytes@) && spec_parse(decode_utf8(bytes@))
                    == Ok::<Json, Refusal>(v@),
                Ok(Reading::Malformed(issue)) => valid_utf8(bytes@) && (spec_parse(
                    decode_utf8(bytes@),
                ) matches Err(m) && issue@ == malformed_issue(m)),
            },
    {
        let text = match decode(bytes) {
            Ok(text) => text,
            Err(detail) => {
                return Err(not_text(detail));
            },
        };
        proof {
            vstd::utf8::decode_utf8_encode_utf8(bytes@);
        }
        match parse(text) {
            Ok(instance) => Ok(Reading::Instance(instance)),
            Err(m) => Ok(Reading::Malformed(issue_of(m))),
        }
    }
}

// ---------------------------------------------------------------- loading

/// Where a contract that a Location names comes from.
#[derive(Debug)]
pub enum Source {
    /// `toon` or an empty reference: the bare contract.
    Bare,
    /// Anything else: the path of a JSON Schema file.
    SchemaFile(String),
}

#[verifier::external_type_specification]
#[verifier::external_body]
pub struct ExJsonValue(JsonValue);

/// What serde_json reads `bytes` as, converted to the library's values
/// (numbers that fit an `i64` or a `u64` as such, any other as serde_json
/// writes it); or the message its error writes. A function of the bytes
/// alone.
pub uninterp spec fn json_of(bytes: Seq<u8>) -> Result<Json, Seq<char>>;

/// `serde_json::from_slice` into serde_json's `Value`: the value the bytes
/// read as, converted to the library's, or the message of its error.
#[verifier::external_body]
fn read_json(bytes: &[u8]) -> (r: Result<Value, String>)
    ensures
        match r {
            Ok(v) => json_of(bytes@) == Ok::<Json, Seq<char>>(v@),
            Err(m) => json_of(bytes@) == Err::<Json, Seq<char>>(m@),
        },
{
    match serde_json::from_slice::<JsonValue>(bytes) {
        Ok(value) => Ok(from_serde(&value)),
        Err(error) => Err(format!("{error}")),
    }
}

/// serde_json's `Value` as the library's, one variant for one: a number as
/// an `i64` or a `u64` where serde_json holds it as one, else as the text
/// its `Display` writes. What `read_json` states covers it.
#[verifier::external_body]
fn from_serde(value: &JsonValue) -> Value {
    match value {
        JsonValue::Null => Value::Null,
        JsonValue::Bool(b) => Value::Bool(*b),
        JsonValue::Number(n) => Value::Number(match (n.as_i64(), n.as_u64()) {
            (Some(i), _) => Number::Int(i),
            (None, Some(u)) => Number::UInt(u),
            (None, None) => Number::Decimal(n.to_string()),
        }),
        JsonValue::String(s) => Value::String(s.clone()),
        JsonValue::Array(a) => Value::Array(a.iter().map(from_serde).collect()),
        JsonValue::Object(m) => Value::Object(
            m.iter().map(|(k, v)| (k.clone(), from_serde(v))).collect(),
        ),
    }
}

/// The message for a schema file that is not JSON: its path, and why.
pub open spec fn not_json_message(path: Seq<char>, detail: Seq<char>) -> Seq<char> {
    "schema "@ + path + " is not valid JSON: "@ + detail
}

/// The error for a schema file at `path` that is not JSON, `detail` saying
/// why.
pub fn not_json(path: &str, detail: String) -> (e: ContractError)
    ensures
        e.message@ == not_json_message(path@, detail@),
{
    let mut message = String::from_str("schema ");
    message.append(path);
    message.append(" is not valid JSON: ");
    message.append(detail.as_str());
    ContractError { message }
}

/// Loads the contract a Location names: `toon` or an empty reference is the
/// bare contract, anything else is the path of a JSON Schema file.
pub struct ToonFactory;

impl ToonFactory {
    pub fn technology(&self) -> (r: &'static str)
        ensures
            r@ == "toon"@,
    {
        "toon"
    }

    /// The contract bound to the JSON Schema held in `bytes`, the content of
    /// the file at `path`: refused where they are not JSON, or not a schema.
    pub fn load_schema(&self, path: &str, bytes: &[u8]) -> (r: Result<Toon, ContractError>)
        ensures
            match json_of(bytes@) {
                Err(m) => (r matches Err(e) && e.message@ == not_json_message(path@, m)),
                Ok(j) => match r {
                    Ok(t) => is_schema(j) && t@ == contract_model("toon:"@ + schema_name(j), Some(j)),
                    Err(e) => !is_schema(j) && e.message@ == "a JSON Schema is an object or a boolean"@,
                },
            },
    {
        match read_json(bytes) {
            Ok(schema) => Toon::with_schema(schema),
            Err(detail) => Err(not_json(path, detail)),
        }
    }

    /// What `reference` names, blanks around it aside.
    pub fn source(&self, reference: &str) -> (r: Source)
        ensures
            match r {
                Source::Bare => trim(reference@).len() == 0 || trim(reference@) == "toon"@,
                Source::SchemaFile(path) => path@ == trim(reference@) && trim(reference@).len()
                    != 0 && trim(reference@) != "toon"@,
            },
    {
        let all = chars_of(reference);
        let trimmed = trim_of(all.as_slice());
        let name = chars_of(self.technology());
        if trimmed.len() == 0 || same_chars(trimmed, name.as_slice()) {
            Source::Bare
        } else {
            Source::SchemaFile(string_of(trimmed))
        }
    }
}

fn same_chars(a: &[char], b: &[char]) -> (r: bool)
    ensures
        r == (a@ == b@),
{
    if a.len() != b.len() {
        return false;
    }
    let mut i: usize = 0;
    while i < a.len()
        invariant
            i <= a@.len(),
            a@.len() == b@.len(),
            forall|j: int| 0 <= j < i ==> #[trigger] a@[j] == b@[j],
        decreases a@.len() - i,
    {
        if a[i] != b[i] {
            return false;
        }
        i = i + 1;
    }
    assert(a@ =~= b@);
    true
}

} // verus!
