//! Characters and pieces of text: the whitespace that `trim` removes, the
//! searches that find a delimiter, the UTF-8 width that columns are counted
//! in, and the decimal numerals that messages carry.

use vstd::prelude::*;
use vstd::utf8::*;
use vstd::string::StringExecFns;

verus! {

broadcast use vstd::seq::group_seq_axioms, vstd::string::group_string_axioms;

/// Unicode's White_Space property, which `char::is_whitespace` and the
/// `trim` family of `str` test.
pub open spec fn is_whitespace(c: char) -> bool {
    ||| ('\t' <= c && c <= '\r')
    ||| c == ' '
    ||| c == '\u{85}'
    ||| c == '\u{a0}'
    ||| c == '\u{1680}'
    ||| ('\u{2000}' <= c && c <= '\u{200a}')
    ||| c == '\u{2028}'
    ||| c == '\u{2029}'
    ||| c == '\u{202f}'
    ||| c == '\u{205f}'
    ||| c == '\u{3000}'
}

pub fn whitespace(c: char) -> (r: bool)
    ensures
        r == is_whitespace(c),
{
    ('\t' <= c && c <= '\r') || c == ' ' || c == '\u{85}' || c == '\u{a0}' || c == '\u{1680}'
        || ('\u{2000}' <= c && c <= '\u{200a}') || c == '\u{2028}' || c == '\u{2029}' || c
        == '\u{202f}' || c == '\u{205f}' || c == '\u{3000}'
}

pub open spec fn is_digit(c: char) -> bool {
    '0' <= c && c <= '9'
}

pub open spec fn starts_with(s: Seq<char>, c: char) -> bool {
    s.len() > 0 && s[0] == c
}

pub fn begins_with(s: &[char], c: char) -> (r: bool)
    ensures
        r == starts_with(s@, c),
{
    s.len() > 0 && s[0] == c
}

/// The number of whitespace characters `s` starts with.
pub open spec fn lead_ws(s: Seq<char>) -> nat
    decreases s.len(),
{
    if s.len() > 0 && is_whitespace(s[0]) {
        1 + lead_ws(s.drop_first())
    } else {
        0
    }
}

/// The number of whitespace characters `s` ends with.
pub open spec fn trail_ws(s: Seq<char>) -> nat
    decreases s.len(),
{
    if s.len() > 0 && is_whitespace(s.last()) {
        1 + trail_ws(s.drop_last())
    } else {
        0
    }
}

pub proof fn lemma_lead_ws(s: Seq<char>)
    ensures
        lead_ws(s) <= s.len(),
        forall|i: int| 0 <= i < lead_ws(s) ==> is_whitespace(#[trigger] s[i]),
        lead_ws(s) < s.len() ==> !is_whitespace(s[lead_ws(s) as int]),
    decreases s.len(),
{
    if s.len() > 0 && is_whitespace(s[0]) {
        lemma_lead_ws(s.drop_first());
        assert forall|i: int| 0 <= i < lead_ws(s) implies is_whitespace(#[trigger] s[i]) by {
            if i > 0 {
                assert(s[i] == s.drop_first()[i - 1]);
            }
        }
    }
}

pub proof fn lemma_trail_ws(s: Seq<char>)
    ensures
        trail_ws(s) <= s.len(),
        forall|i: int| s.len() - trail_ws(s) <= i < s.len() ==> is_whitespace(#[trigger] s[i]),
        trail_ws(s) < s.len() ==> !is_whitespace(s[s.len() - trail_ws(s) - 1]),
    decreases s.len(),
{
    if s.len() > 0 && is_whitespace(s.last()) {
        lemma_trail_ws(s.drop_last());
        assert forall|i: int| s.len() - trail_ws(s) <= i < s.len() implies is_whitespace(
            #[trigger] s[i],
        ) by {
            if i < s.len() - 1 {
                assert(s[i] == s.drop_last()[i]);
            }
        }
    }
}

/// `str::trim_start`.
pub open spec fn trim_start(s: Seq<char>) -> Seq<char> {
    s.subrange(lead_ws(s) as int, s.len() as int)
}

/// `str::trim_end`.
pub open spec fn trim_end(s: Seq<char>) -> Seq<char> {
    s.subrange(0, s.len() - trail_ws(s))
}

/// `str::trim`.
pub open spec fn trim(s: Seq<char>) -> Seq<char> {
    trim_end(trim_start(s))
}

pub fn trim_start_of(s: &[char]) -> (r: &[char])
    ensures
        r@ == trim_start(s@),
{
    proof {
        lemma_lead_ws(s@);
    }
    let mut i: usize = 0;
    assert(s@.subrange(0, s@.len() as int) =~= s@);
    while i < s.len() && whitespace(s[i])
        invariant
            i <= s@.len(),
            lead_ws(s@) == i + lead_ws(s@.subrange(i as int, s@.len() as int)),
        decreases s@.len() - i,
    {
        let ghost rest = s@.subrange(i as int, s@.len() as int);
        assert(rest.drop_first() =~= s@.subrange(i + 1, s@.len() as int));
        i = i + 1;
    }
    proof {
        let rest = s@.subrange(i as int, s@.len() as int);
        assert(lead_ws(rest) == 0);
    }
    vstd::slice::slice_subrange(s, i, s.len())
}

pub fn trim_end_of(s: &[char]) -> (r: &[char])
    ensures
        r@ == trim_end(s@),
{
    proof {
        lemma_trail_ws(s@);
    }
    let mut j: usize = s.len();
    assert(s@.subrange(0, s@.len() as int) =~= s@);
    while j > 0 && whitespace(s[j - 1])
        invariant
            j <= s@.len(),
            trail_ws(s@) == (s@.len() - j) + trail_ws(s@.subrange(0, j as int)),
        decreases j,
    {
        let ghost rest = s@.subrange(0, j as int);
        assert(rest.drop_last() =~= s@.subrange(0, j - 1));
        j = j - 1;
    }
    vstd::slice::slice_subrange(s, 0, j)
}

pub fn trim_of(s: &[char]) -> (r: &[char])
    ensures
        r@ == trim(s@),
{
    trim_end_of(trim_start_of(s))
}

pub proof fn lemma_trim_bounds(s: Seq<char>)
    ensures
        lead_ws(s) <= s.len(),
        trim_start(s).len() == s.len() - lead_ws(s),
        trim_start(s) == s.skip(lead_ws(s) as int),
        trail_ws(trim_start(s)) <= trim_start(s).len(),
        trim(s).len() <= trim_start(s).len(),
        trim(s) == s.subrange(lead_ws(s) as int, s.len() - trail_ws(trim_start(s))),
{
    lemma_lead_ws(s);
    lemma_trail_ws(trim_start(s));
    assert(trim_start(s) =~= s.skip(lead_ws(s) as int));
    assert(trim(s) =~= s.subrange(lead_ws(s) as int, s.len() - trail_ws(trim_start(s))));
}

/// An index held as a `usize`, read as an integer.
pub open spec fn as_int(r: Option<usize>) -> Option<int> {
    match r {
        Some(i) => Some(i as int),
        None => None,
    }
}

/// The first index of `a` or of `b` in `s`.
pub open spec fn find2(s: Seq<char>, a: char, b: char) -> Option<int>
    decreases s.len(),
{
    if s.len() == 0 {
        None
    } else if s[0] == a || s[0] == b {
        Some(0)
    } else {
        match find2(s.drop_first(), a, b) {
            Some(i) => Some(i + 1),
            None => None,
        }
    }
}

/// The first index of `c` in `s`.
pub open spec fn find(s: Seq<char>, c: char) -> Option<int> {
    find2(s, c, c)
}

pub proof fn lemma_find2(s: Seq<char>, a: char, b: char)
    ensures
        match find2(s, a, b) {
            Some(i) => 0 <= i < s.len() && (s[i] == a || s[i] == b) && forall|j: int|
                0 <= j < i ==> #[trigger] s[j] != a && s[j] != b,
            None => forall|j: int| 0 <= j < s.len() ==> #[trigger] s[j] != a && s[j] != b,
        },
    decreases s.len(),
{
    if s.len() > 0 && !(s[0] == a || s[0] == b) {
        lemma_find2(s.drop_first(), a, b);
        assert forall|j: int| 0 < j < s.len() implies #[trigger] s[j] == s.drop_first()[j - 1] by {}
    }
}

/// `find2` on a slice.
pub fn find2_in(s: &[char], a: char, b: char) -> (r: Option<usize>)
    ensures
        match r {
            Some(i) => find2(s@, a, b) == Some(i as int),
            None => find2(s@, a, b) is None,
        },
{
    proof {
        lemma_find2(s@, a, b);
    }
    let mut i: usize = 0;
    while i < s.len()
        invariant
            i <= s@.len(),
            forall|j: int| 0 <= j < i ==> #[trigger] s@[j] != a && s@[j] != b,
        decreases s@.len() - i,
    {
        if s[i] == a || s[i] == b {
            proof {
                lemma_find2(s@, a, b);
                match find2(s@, a, b) {
                    Some(k) => {
                        if k < i {
                            assert(s@[k] != a && s@[k] != b);
                        }
                        if k > i {
                            assert(s@[i as int] != a && s@[i as int] != b);
                        }
                    },
                    None => {
                        assert(s@[i as int] != a && s@[i as int] != b);
                    },
                }
            }
            return Some(i);
        }
        i = i + 1;
    }
    proof {
        match find2(s@, a, b) {
            Some(k) => {
                assert(s@[k] != a && s@[k] != b);
            },
            None => {},
        }
    }
    None
}

/// `str::split` on one character: the pieces between the occurrences of `d`.
pub open spec fn split_on(s: Seq<char>, d: char) -> Seq<Seq<char>>
    decreases s.len(),
{
    match find(s, d) {
        Some(i) => {
            proof {
                lemma_find2(s, d, d);
            }
            seq![s.take(i)] + split_on(s.skip(i + 1), d)
        },
        None => seq![s],
    }
}

/// The number of bytes of the UTF-8 encoding of `s`, which is what
/// `str::len` counts.
pub open spec fn utf8_len(s: Seq<char>) -> nat {
    encode_utf8(s).len()
}

pub open spec fn char_width(c: char) -> nat {
    if (c as u32) <= 0x7f {
        1
    } else if (c as u32) <= 0x7ff {
        2
    } else if (c as u32) <= 0xffff {
        3
    } else {
        4
    }
}

pub proof fn lemma_char_width(c: char)
    ensures
        encode_scalar(c as u32).len() == char_width(c),
        1 <= char_width(c) <= 4,
{
    broadcast use vstd::utf8::char_is_scalar;

}

pub proof fn lemma_utf8_len_concat(a: Seq<char>, b: Seq<char>)
    ensures
        utf8_len(a + b) == utf8_len(a) + utf8_len(b),
    decreases a.len(),
{
    if a.len() > 0 {
        lemma_utf8_len_concat(a.drop_first(), b);
        assert((a + b).drop_first() =~= a.drop_first() + b);
        assert((a + b)[0] == a[0]);
    } else {
        assert(a + b =~= b);
    }
}

pub proof fn lemma_utf8_len_push(a: Seq<char>, c: char)
    ensures
        utf8_len(a.push(c)) == utf8_len(a) + char_width(c),
{
    lemma_utf8_len_concat(a, seq![c]);
    assert(a.push(c) =~= a + seq![c]);
    lemma_char_width(c);
    assert(seq![c].drop_first() =~= Seq::<char>::empty());
    assert(encode_utf8(Seq::<char>::empty()) =~= Seq::<u8>::empty());
}

/// Each character is at least one byte.
pub proof fn lemma_utf8_len_ge(s: Seq<char>)
    ensures
        s.len() <= utf8_len(s),
    decreases s.len(),
{
    if s.len() > 0 {
        lemma_utf8_len_ge(s.drop_last());
        assert(s =~= s.drop_last().push(s.last()));
        lemma_utf8_len_push(s.drop_last(), s.last());
    }
}

/// A piece of `s` is no longer than `s`.
pub proof fn lemma_utf8_len_subrange(s: Seq<char>, i: int, j: int)
    requires
        0 <= i <= j <= s.len(),
    ensures
        utf8_len(s.subrange(i, j)) <= utf8_len(s),
        utf8_len(s.take(i)) + utf8_len(s.subrange(i, j)) + utf8_len(s.skip(j)) == utf8_len(s),
{
    lemma_utf8_len_concat(s.take(i), s.subrange(i, j));
    lemma_utf8_len_concat(s.take(i) + s.subrange(i, j), s.skip(j));
    assert(s.take(i) + s.subrange(i, j) + s.skip(j) =~= s);
}

pub proof fn lemma_utf8_len_skip(s: Seq<char>, i: int)
    requires
        0 <= i <= s.len(),
    ensures
        utf8_len(s.skip(i)) <= utf8_len(s),
        utf8_len(s.take(i)) <= utf8_len(s),
        i >= 1 ==> utf8_len(s.drop_first()) <= utf8_len(s),
{
    lemma_utf8_len_subrange(s, 0, i);
    lemma_utf8_len_subrange(s, i, s.len() as int);
    if i >= 1 {
        lemma_utf8_len_subrange(s, 1, s.len() as int);
        assert(s.drop_first() =~= s.subrange(1, s.len() as int));
    }
}

pub proof fn lemma_utf8_len_trim(s: Seq<char>)
    ensures
        utf8_len(trim_start(s)) <= utf8_len(s),
        utf8_len(trim_end(s)) <= utf8_len(s),
        utf8_len(trim(s)) <= utf8_len(s),
{
    lemma_trim_bounds(s);
    lemma_trail_ws(s);
    lemma_utf8_len_subrange(s, lead_ws(s) as int, s.len() as int);
    lemma_utf8_len_subrange(s, 0, s.len() - trail_ws(s));
    lemma_utf8_len_subrange(s, lead_ws(s) as int, s.len() - trail_ws(trim_start(s)));
}

pub fn char_width_of(c: char) -> (r: usize)
    ensures
        r == char_width(c),
{
    let u = c as u32;
    if u <= 0x7f {
        1
    } else if u <= 0x7ff {
        2
    } else if u <= 0xffff {
        3
    } else {
        4
    }
}

/// The byte length of `s`.
pub fn utf8_len_of(s: &[char]) -> (r: usize)
    requires
        utf8_len(s@) <= usize::MAX,
    ensures
        r == utf8_len(s@),
{
    let mut n: usize = 0;
    let mut i: usize = 0;
    while i < s.len()
        invariant
            i <= s@.len(),
            n == utf8_len(s@.take(i as int)),
            utf8_len(s@) <= usize::MAX,
        decreases s@.len() - i,
    {
        proof {
            assert(s@.take(i + 1) =~= s@.take(i as int).push(s@[i as int]));
            lemma_utf8_len_push(s@.take(i as int), s@[i as int]);
            lemma_utf8_len_subrange(s@, 0, i + 1);
        }
        n = n + char_width_of(s[i]);
        i = i + 1;
    }
    assert(s@.take(i as int) =~= s@);
    n
}

pub open spec fn digit_char(d: int) -> char {
    if d <= 0 {
        '0'
    } else if d == 1 {
        '1'
    } else if d == 2 {
        '2'
    } else if d == 3 {
        '3'
    } else if d == 4 {
        '4'
    } else if d == 5 {
        '5'
    } else if d == 6 {
        '6'
    } else if d == 7 {
        '7'
    } else if d == 8 {
        '8'
    } else {
        '9'
    }
}

/// The decimal numeral of `n`, as `format!("{n}")` writes it.
pub open spec fn decimal(n: nat) -> Seq<char>
    decreases n,
{
    if n < 10 {
        seq![digit_char(n as int)]
    } else {
        decimal(n / 10).push(digit_char((n % 10) as int))
    }
}

fn digit_to_char(d: usize) -> (r: char)
    ensures
        r == digit_char(d as int),
{
    if d == 0 {
        '0'
    } else if d == 1 {
        '1'
    } else if d == 2 {
        '2'
    } else if d == 3 {
        '3'
    } else if d == 4 {
        '4'
    } else if d == 5 {
        '5'
    } else if d == 6 {
        '6'
    } else if d == 7 {
        '7'
    } else if d == 8 {
        '8'
    } else {
        '9'
    }
}

/// `String::push`: the string gains `c` at its end. Like vstd's `Vec::push`,
/// this leaves out the capacity overflow on which the call panics, a string
/// grown past `isize::MAX` bytes.
#[verifier::external_body]
pub(crate) fn push_char(s: &mut String, c: char)
    ensures
        final(s)@ == old(s)@.push(c),
{
    s.push(c);
}

/// Appends the decimal numeral of `n`.
pub fn push_decimal(s: &mut String, n: usize)
    ensures
        final(s)@ == old(s)@ + decimal(n as nat),
    decreases n,
{
    if n >= 10 {
        push_decimal(s, n / 10);
    }
    push_char(s, digit_to_char(n % 10));
    proof {
        if n < 10 {
            assert(old(s)@ + decimal(n as nat) =~= old(s)@.push(digit_char(n as int)));
        } else {
            assert(old(s)@ + decimal(n as nat) =~= (old(s)@ + decimal((n / 10) as nat)).push(
                digit_char((n % 10) as int),
            ));
        }
    }
}

/// A string holding the characters of `s`.
pub fn string_of(s: &[char]) -> (r: String)
    ensures
        r@ == s@,
{
    let mut out = String::new();
    let mut i: usize = 0;
    while i < s.len()
        invariant
            i <= s@.len(),
            out@ == s@.take(i as int),
        decreases s@.len() - i,
    {
        push_char(&mut out, s[i]);
        assert(s@.take(i + 1) =~= s@.take(i as int).push(s@[i as int]));
        i = i + 1;
    }
    assert(s@.take(i as int) =~= s@);
    out
}

/// The characters of `text`, in order.
pub fn chars_of(text: &str) -> (r: Vec<char>)
    ensures
        r@ == text@,
{
    let mut out: Vec<char> = Vec::new();
    for c in it: text.chars()
        invariant
            out@ == it.seq().take(it.index() as int),
    {
        out.push(c);
    }
    out
}

} // verus!
