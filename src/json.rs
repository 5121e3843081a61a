//! The line format of a record: `{"text":<string>,"spans":[[<start>,<end>],...]}`.
use vstd::prelude::*;
use crate::offsets::Span;
use crate::record::Record;

verus! {

/// The lower-case hexadecimal digit for `d < 16`.
pub open spec fn hex_digit(d: nat) -> char {
    if d < 10 {
        digit_char(d)
    } else {
        ((d + 87) as u32) as char
    }
}

/// How a JSON string literal written by serde_json holds the character `c`:
/// quote and backslash behind a backslash, the five control characters with
/// a short escape by it, the other control characters as `\u00XX`, and
/// everything else as itself.
pub open spec fn escaped_char(c: char) -> Seq<char> {
    if c == '"' {
        seq!['\\', '"']
    } else if c == '\\' {
        seq!['\\', '\\']
    } else if c == '\x08' {
        seq!['\\', 'b']
    } else if c == '\t' {
        seq!['\\', 't']
    } else if c == '\n' {
        seq!['\\', 'n']
    } else if c == '\x0C' {
        seq!['\\', 'f']
    } else if c == '\r' {
        seq!['\\', 'r']
    } else if (c as u32) < 0x20 {
        seq![
            '\\',
            'u',
            '0',
            '0',
            hex_digit(((c as u32) / 16) as nat),
            hex_digit(((c as u32) % 16) as nat),
        ]
    } else {
        seq![c]
    }
}

/// The characters of `s`, each escaped.
pub open spec fn escaped(s: Seq<char>) -> Seq<char>
    decreases s.len(),
{
    if s.len() == 0 {
        Seq::empty()
    } else {
        escaped_char(s[0]) + escaped(s.drop_first())
    }
}

/// The JSON string literal that serde_json writes for `s`.
pub open spec fn json_quoted(s: Seq<char>) -> Seq<char> {
    seq!['"'] + escaped(s) + seq!['"']
}

/// What serde_json reads as a string from the literal `s`, if it is one.
pub uninterp spec fn json_unquoted(s: Seq<char>) -> Option<Seq<char>>;

/// Scanning the inside of a string literal from index `i`: the index of the
/// closing quote. A backslash takes the character after it along.
pub open spec fn string_body_end(s: Seq<char>, i: int) -> Option<int>
    decreases s.len() - i,
{
    if i < 0 || i >= s.len() {
        None
    } else if s[i] == '"' {
        Some(i)
    } else if s[i] == '\\' {
        if i + 1 < s.len() {
            string_body_end(s, i + 2)
        } else {
            None
        }
    } else {
        string_body_end(s, i + 1)
    }
}

/// `q` is one string literal: a quote, a body without a bare quote, a quote.
pub open spec fn is_string_literal(q: Seq<char>) -> bool {
    q.len() >= 2 && q[0] == '"' && string_body_end(q, 1) == Some(q.len() - 1)
}

/// Relies on serde_json::to_string on a `str`: it writes the string literal
/// with the escapes of serde_json's escape table, and serde_json reads that
/// literal back as `s`. Serializing a `str` does not fail.
#[verifier::external_body]
fn quote(s: &str) -> (r: String)
    ensures
        r@ == json_quoted(s@),
        json_unquoted(r@) == Some(s@),
{
    serde_json::to_string(s).unwrap_or_default()
}

/// Relies on serde_json::from_str into a `String`: the string that the JSON
/// literal `s` denotes, or an error.
#[verifier::external_body]
pub(crate) fn unquote(s: &str) -> (r: Option<String>)
    ensures
        match json_unquoted(s@) {
            Some(t) => r matches Some(v) && v@ == t,
            None => r is None,
        },
{
    serde_json::from_str::<String>(s).ok()
}

/// Relies on String::push: appends `c`.
#[verifier::external_body]
fn push_char(s: &mut String, c: char)
    ensures
        final(s)@ == old(s)@.push(c),
{
    s.push(c)
}

/// The decimal digit character for `d < 10`.
pub open spec fn digit_char(d: nat) -> char {
    ((d + 48) as u32) as char
}

/// The decimal notation of `n`, without leading zeros.
pub open spec fn decimal(n: nat) -> Seq<char>
    decreases n,
{
    if n < 10 {
        seq![digit_char(n)]
    } else {
        decimal(n / 10) + seq![digit_char(n % 10)]
    }
}

/// `[start,end]`
pub open spec fn span_json(sp: Span) -> Seq<char> {
    seq!['['] + decimal(sp.start as nat) + seq![','] + decimal(sp.end as nat) + seq![']']
}

/// The spans' pairs joined by commas.
pub open spec fn span_items_json(spans: Seq<Span>) -> Seq<char>
    decreases spans.len(),
{
    if spans.len() == 0 {
        Seq::empty()
    } else if spans.len() == 1 {
        span_json(spans[0])
    } else {
        span_json(spans[0]) + seq![','] + span_items_json(spans.drop_first())
    }
}

proof fn lemma_span_items_push(spans: Seq<Span>, p: Span)
    requires
        spans.len() > 0,
    ensures
        span_items_json(spans.push(p)) == span_items_json(spans) + seq![','] + span_json(p),
    decreases spans.len(),
{
    let sp = spans.push(p);
    if spans.len() == 1 {
        assert(sp.drop_first() =~= seq![p]);
        assert(span_items_json(seq![p]) == span_json(p));
    } else {
        assert(sp.drop_first() =~= spans.drop_first().push(p));
        lemma_span_items_push(spans.drop_first(), p);
    }
    assert(span_items_json(sp) =~= span_items_json(spans) + seq![','] + span_json(p));
}

/// `{"text":`
pub open spec fn text_key() -> Seq<char> {
    seq!['{', '"', 't', 'e', 'x', 't', '"', ':']
}

/// `,"spans":[`
pub open spec fn spans_key() -> Seq<char> {
    seq![',', '"', 's', 'p', 'a', 'n', 's', '"', ':', '[']
}

/// The line of a record with text `text` and spans `spans`: no whitespace,
/// `text` first.
pub open spec fn record_json(text: Seq<char>, spans: Seq<Span>) -> Seq<char> {
    text_key() + json_quoted(text) + spans_key() + span_items_json(spans) + seq![']', '}']
}

/// JSON whitespace.
pub open spec fn is_ws(c: char) -> bool {
    c == ' ' || c == '\t' || c == '\n' || c == '\r'
}

/// The first index from `i` on that holds no whitespace.
pub open spec fn skip_ws(s: Seq<char>, i: int) -> int
    decreases s.len() - i,
{
    if 0 <= i < s.len() && is_ws(s[i]) {
        skip_ws(s, i + 1)
    } else {
        i
    }
}

pub open spec fn char_at(s: Seq<char>, i: int, c: char) -> bool {
    0 <= i < s.len() && s[i] == c
}

pub open spec fn is_digit(c: char) -> bool {
    '0' <= c <= '9'
}

/// The first index from `i` on that holds no decimal digit.
pub open spec fn digits_end(s: Seq<char>, i: int) -> int
    decreases s.len() - i,
{
    if 0 <= i < s.len() && is_digit(s[i]) {
        digits_end(s, i + 1)
    } else {
        i
    }
}

/// The number written by the digits `s[i..j]`.
pub open spec fn digits_value(s: Seq<char>, i: int, j: int) -> nat
    decreases j - i,
{
    if j <= i {
        0
    } else {
        digits_value(s, i, j - 1) * 10 + ((s[j - 1] as u32) - 48) as nat
    }
}

/// An unsigned integer at `i`: digits without a leading zero, within `usize`.
pub open spec fn parse_uint(s: Seq<char>, i: int) -> Option<(usize, int)> {
    let e = digits_end(s, i);
    if e == i || (s[i] == '0' && e > i + 1) || digits_value(s, i, e) > usize::MAX {
        None
    } else {
        Some((digits_value(s, i, e) as usize, e))
    }
}

/// A pair `[start, end]` at `i`.
pub open spec fn parse_pair(s: Seq<char>, i: int) -> Option<(Span, int)> {
    if !char_at(s, i, '[') {
        None
    } else {
        match parse_uint(s, skip_ws(s, i + 1)) {
            None => None,
            Some((a, j)) => {
                let j2 = skip_ws(s, j);
                if !char_at(s, j2, ',') {
                    None
                } else {
                    match parse_uint(s, skip_ws(s, j2 + 1)) {
                        None => None,
                        Some((b, k)) => {
                            let k2 = skip_ws(s, k);
                            if !char_at(s, k2, ']') {
                                None
                            } else {
                                Some((Span { start: a, end: b }, k2 + 1))
                            }
                        },
                    }
                }
            },
        }
    }
}

/// One or more pairs from `i`, separated by commas, up to the closing `]`.
pub open spec fn parse_items(s: Seq<char>, i: int) -> Option<(Seq<Span>, int)>
    decreases s.len() - i,
{
    match parse_pair(s, i) {
        None => None,
        Some((p, j)) => {
            let k = skip_ws(s, j);
            if char_at(s, k, ']') {
                Some((seq![p], k + 1))
            } else if char_at(s, k, ',') {
                let m = skip_ws(s, k + 1);
                if i < m <= s.len() {
                    match parse_items(s, m) {
                        None => None,
                        Some((rest, e)) => Some((seq![p] + rest, e)),
                    }
                } else {
                    None
                }
            } else {
                None
            }
        },
    }
}

/// A list of pairs at `i`.
pub open spec fn parse_span_list(s: Seq<char>, i: int) -> Option<(Seq<Span>, int)> {
    if !char_at(s, i, '[') {
        None
    } else {
        let j = skip_ws(s, i + 1);
        if char_at(s, j, ']') {
            Some((Seq::empty(), j + 1))
        } else {
            parse_items(s, j)
        }
    }
}

/// A string literal at `i`, and the string it denotes.
pub open spec fn parse_string(s: Seq<char>, i: int) -> Option<(Seq<char>, int)> {
    if !char_at(s, i, '"') {
        None
    } else {
        match string_body_end(s, i + 1) {
            None => None,
            Some(e) => match json_unquoted(s.subrange(i, e + 1)) {
                None => None,
                Some(t) => Some((t, e + 1)),
            },
        }
    }
}

/// `w` stands in `s` at `i`.
pub open spec fn has_lit(s: Seq<char>, i: int, w: Seq<char>) -> bool {
    0 <= i && i + w.len() <= s.len() && s.subrange(i, i + w.len()) == w
}

pub open spec fn text_name() -> Seq<char> {
    seq!['"', 't', 'e', 'x', 't', '"']
}

pub open spec fn spans_name() -> Seq<char> {
    seq!['"', 's', 'p', 'a', 'n', 's', '"']
}

/// The key `name` at `i`, then a colon: where its value starts.
pub open spec fn parse_key(s: Seq<char>, i: int, name: Seq<char>) -> Option<int> {
    if !has_lit(s, i, name) {
        None
    } else {
        let j = skip_ws(s, i + name.len());
        if char_at(s, j, ':') {
            Some(skip_ws(s, j + 1))
        } else {
            None
        }
    }
}

pub open spec fn parse_text_field(s: Seq<char>, i: int) -> Option<(Seq<char>, int)> {
    match parse_key(s, i, text_name()) {
        None => None,
        Some(j) => parse_string(s, j),
    }
}

pub open spec fn parse_spans_field(s: Seq<char>, i: int) -> Option<(Seq<Span>, int)> {
    match parse_key(s, i, spans_name()) {
        None => None,
        Some(j) => parse_span_list(s, j),
    }
}

/// From `i` on: a comma between the two fields.
pub open spec fn comma_after(s: Seq<char>, i: int) -> Option<int> {
    let j = skip_ws(s, i);
    if char_at(s, j, ',') {
        Some(skip_ws(s, j + 1))
    } else {
        None
    }
}

/// From `i` on: the closing brace, then nothing but whitespace.
pub open spec fn closes(s: Seq<char>, i: int) -> bool {
    let j = skip_ws(s, i);
    char_at(s, j, '}') && skip_ws(s, j + 1) == s.len()
}

/// The text and spans that the line `s` holds: an object with the two keys
/// `text` and `spans`, in either order, each once, and no other; JSON
/// whitespace is allowed between the tokens.
pub open spec fn parse_record(s: Seq<char>) -> Option<(Seq<char>, Seq<Span>)> {
    let i = skip_ws(s, 0);
    if !char_at(s, i, '{') {
        None
    } else {
        let j = skip_ws(s, i + 1);
        if has_lit(s, j, text_name()) {
            match parse_text_field(s, j) {
                None => None,
                Some((t, k)) => match comma_after(s, k) {
                    None => None,
                    Some(m) => match parse_spans_field(s, m) {
                        None => None,
                        Some((sp, e)) => if closes(s, e) {
                            Some((t, sp))
                        } else {
                            None
                        },
                    },
                },
            }
        } else {
            match parse_spans_field(s, j) {
                None => None,
                Some((sp, k)) => match comma_after(s, k) {
                    None => None,
                    Some(m) => match parse_text_field(s, m) {
                        None => None,
                        Some((t, e)) => if closes(s, e) {
                            Some((t, sp))
                        } else {
                            None
                        },
                    },
                },
            }
        }
    }
}

proof fn lemma_digit_char(d: nat)
    requires
        d < 10,
    ensures
        is_digit(digit_char(d)),
        !is_ws(digit_char(d)),
        (digit_char(d) as u32) - 48 == d,
        (digit_char(d) == '0') == (d == 0),
{
    vstd::utf8::char_u32_cast(digit_char(d), (d + 48) as u32);
}

proof fn lemma_sub_split(s: Seq<char>, a: int, x: Seq<char>, y: Seq<char>)
    requires
        0 <= a,
        a + x.len() + y.len() <= s.len(),
        s.subrange(a, a + x.len() + y.len()) == x + y,
    ensures
        s.subrange(a, a + x.len()) == x,
        s.subrange(a + x.len(), a + x.len() + y.len()) == y,
{
    let w = s.subrange(a, a + x.len() + y.len());
    assert forall|k: int| 0 <= k < x.len() implies s.subrange(a, a + x.len())[k] == x[k] by {
        assert(w[k] == (x + y)[k]);
    }
    assert forall|k: int| 0 <= k < y.len() implies s.subrange(a + x.len(), a + x.len() + y.len())[k]
        == y[k] by {
        assert(w[x.len() + k] == (x + y)[x.len() + k]);
    }
    assert(s.subrange(a, a + x.len()) =~= x);
    assert(s.subrange(a + x.len(), a + x.len() + y.len()) =~= y);
}

proof fn lemma_decimal_read(s: Seq<char>, a: int, n: nat)
    requires
        0 <= a,
        a + decimal(n).len() <= s.len(),
        s.subrange(a, a + decimal(n).len()) == decimal(n),
    ensures
        decimal(n).len() >= 1,
        digits_value(s, a, a + decimal(n).len()) == n,
        forall|k: int| a <= k < a + decimal(n).len() ==> is_digit(#[trigger] s[k]),
        n > 0 ==> s[a] != '0',
        n == 0 ==> decimal(n).len() == 1,
    decreases n,
{
    let d = decimal(n);
    let e = a + d.len();
    if n < 10 {
        lemma_digit_char(n);
        assert(s[a] == s.subrange(a, e)[0]);
        assert(digits_value(s, a, a) == 0);
    } else {
        let h = decimal(n / 10);
        let last = seq![digit_char(n % 10)];
        lemma_sub_split(s, a, h, last);
        lemma_decimal_read(s, a, n / 10);
        lemma_digit_char(n % 10);
        assert(s[e - 1] == s.subrange(a + h.len(), e)[0]);
        assert(s[a] == s.subrange(a, a + h.len())[0]);
        assert(n == (n / 10) * 10 + n % 10);
    }
}

proof fn lemma_digits_end(s: Seq<char>, k: int, e: int)
    requires
        0 <= k <= e <= s.len(),
        forall|m: int| k <= m < e ==> is_digit(#[trigger] s[m]),
        e == s.len() || !is_digit(s[e]),
    ensures
        digits_end(s, k) == e,
    decreases e - k,
{
    if k < e {
        lemma_digits_end(s, k + 1, e);
    }
}

/// The decimal notation of `n` at `a`, followed by a character that is
/// neither a digit nor whitespace, reads as `n`.
proof fn lemma_parse_decimal(s: Seq<char>, a: int, n: usize)
    requires
        0 <= a,
        a + decimal(n as nat).len() < s.len(),
        s.subrange(a, a + decimal(n as nat).len()) == decimal(n as nat),
        !is_digit(s[a + decimal(n as nat).len()]),
    ensures
        parse_uint(s, a) == Some((n, a + decimal(n as nat).len())),
        skip_ws(s, a) == a,
{
    lemma_decimal_read(s, a, n as nat);
    lemma_digits_end(s, a, a + decimal(n as nat).len());
}

proof fn lemma_parse_pair(s: Seq<char>, a: int, p: Span)
    requires
        0 <= a,
        a + span_json(p).len() <= s.len(),
        s.subrange(a, a + span_json(p).len()) == span_json(p),
    ensures
        parse_pair(s, a) == Some((p, a + span_json(p).len())),
{
    let d0 = decimal(p.start as nat);
    let d1 = decimal(p.end as nat);
    let e = a + span_json(p).len();
    assert(span_json(p) == seq!['['] + d0 + seq![','] + d1 + seq![']']);
    lemma_sub_split(s, a, seq!['['] + d0 + seq![','] + d1, seq![']']);
    lemma_sub_split(s, a, seq!['['] + d0 + seq![','], d1);
    lemma_sub_split(s, a, seq!['['] + d0, seq![',']);
    lemma_sub_split(s, a, seq!['['], d0);
    assert(s[a] == s.subrange(a, a + 1)[0]);
    let c = a + 1 + d0.len();
    assert(s[c] == s.subrange(c, c + 1)[0]);
    assert(s[e - 1] == s.subrange(e - 1, e)[0]);
    lemma_parse_decimal(s, a + 1, p.start);
    lemma_parse_decimal(s, c + 1, p.end);
    lemma_decimal_read(s, a + 1, p.start as nat);
    lemma_decimal_read(s, c + 1, p.end as nat);
}

proof fn lemma_parse_items(s: Seq<char>, a: int, spans: Seq<Span>)
    requires
        spans.len() > 0,
        0 <= a,
        a + span_items_json(spans).len() < s.len(),
        s.subrange(a, a + span_items_json(spans).len()) == span_items_json(spans),
        s[a + span_items_json(spans).len()] == ']',
    ensures
        parse_items(s, a) == Some((spans, a + span_items_json(spans).len() + 1)),
    decreases spans.len(),
{
    let p = spans[0];
    let j = a + span_json(p).len();
    if spans.len() == 1 {
        lemma_parse_pair(s, a, p);
        assert(seq![p] =~= spans);
    } else {
        let rest = spans.drop_first();
        lemma_sub_split(s, a, span_json(p) + seq![','], span_items_json(rest));
        lemma_sub_split(s, a, span_json(p), seq![',']);
        lemma_parse_pair(s, a, p);
        assert(s[j] == s.subrange(j, j + 1)[0]);
        let m = j + 1;
        assert(span_items_json(rest).len() > 0) by {
            if rest.len() == 1 {
                assert(span_items_json(rest) == span_json(rest[0]));
            } else {
                assert(span_items_json(rest) == span_json(rest[0]) + seq![','] + span_items_json(
                    rest.drop_first(),
                ));
            }
        }
        assert(s[m] == s.subrange(m, m + span_items_json(rest).len())[0]);
        assert(span_items_json(rest)[0] == '[') by {
            if rest.len() == 1 {
                assert(span_items_json(rest) == span_json(rest[0]));
            } else {
                assert(span_items_json(rest) == span_json(rest[0]) + seq![','] + span_items_json(
                    rest.drop_first(),
                ));
            }
        }
        lemma_parse_items(s, m, rest);
        assert(seq![p] + rest =~= spans);
    }
}

proof fn lemma_body_end_shift(s: Seq<char>, a: int, q: Seq<char>, j: int)
    requires
        0 <= a,
        a + q.len() <= s.len(),
        s.subrange(a, a + q.len()) == q,
        1 <= j,
        string_body_end(q, j) == Some(q.len() - 1),
    ensures
        string_body_end(s, a + j) == Some(a + q.len() - 1),
    decreases q.len() - j,
{
    assert(s[a + j] == s.subrange(a, a + q.len())[j]);
    if q[j] == '\\' {
        if j + 2 < q.len() {
            lemma_body_end_shift(s, a, q, j + 2);
        }
    } else if q[j] != '"' {
        lemma_body_end_shift(s, a, q, j + 1);
    }
}

proof fn lemma_text_part(l: Seq<char>, t: Seq<char>)
    requires
        is_string_literal(json_quoted(t)),
        json_unquoted(json_quoted(t)) == Some(t),
        8 + json_quoted(t).len() < l.len(),
        l.subrange(0, 8) == text_key(),
        l.subrange(8, 8 + json_quoted(t).len() as int) == json_quoted(t),
    ensures
        skip_ws(l, 0) == 0,
        char_at(l, 0, '{'),
        skip_ws(l, 1) == 1,
        has_lit(l, 1, text_name()),
        parse_text_field(l, 1) == Some((t, 8 + json_quoted(t).len() as int)),
{
    let q = json_quoted(t);
    let k = l.subrange(0, 8);
    assert(l[0] == k[0]);
    assert(l[1] == k[1]);
    assert(l[7] == k[7]);
    assert(l.subrange(1, 7) =~= text_name()) by {
        assert forall|m: int| 0 <= m < 6 implies l.subrange(1, 7)[m] == text_name()[m] by {
            assert(l[1 + m] == k[1 + m]);
        }
    }
    assert(l[8] == l.subrange(8, 8 + q.len() as int)[0]);
    lemma_body_end_shift(l, 8, q, 1);
}

proof fn lemma_spans_part(l: Seq<char>, c: int, spans: Seq<Span>)
    requires
        0 <= c,
        l.len() == c + 12 + span_items_json(spans).len(),
        l.subrange(c, c + 10) == spans_key(),
        l.subrange(c + 10, c + 10 + span_items_json(spans).len()) == span_items_json(spans),
        l.subrange(c + 10 + span_items_json(spans).len(), l.len() as int) == seq![']', '}'],
    ensures
        comma_after(l, c) == Some(c + 1),
        parse_spans_field(l, c + 1) == Some((spans, c + 11 + span_items_json(spans).len())),
        closes(l, c + 11 + span_items_json(spans).len()),
{
    let items = span_items_json(spans);
    let n: int = items.len() as int;
    let k = l.subrange(c, c + 10);
    assert(l[c] == k[0]);
    assert(l[c + 1] == k[1]);
    assert(l[c + 8] == k[8]);
    assert(l[c + 9] == k[9]);
    assert(l.subrange(c + 1, c + 8) =~= spans_name()) by {
        assert forall|m: int| 0 <= m < 7 implies l.subrange(c + 1, c + 8)[m] == spans_name()[m] by {
            assert(l[c + 1 + m] == k[1 + m]);
        }
    }
    let e = l.subrange(c + 10 + n, l.len() as int);
    assert(l[c + 10 + n] == e[0]);
    assert(l[c + 11 + n] == e[1]);
    assert(parse_key(l, c + 1, spans_name()) == Some(c + 9));
    if spans.len() == 0 {
        assert(parse_span_list(l, c + 9) == Some((spans, c + 11)));
    } else {
        assert(items[0] == '[') by {
            if spans.len() == 1 {
                assert(items == span_json(spans[0]));
            } else {
                assert(items == span_json(spans[0]) + seq![','] + span_items_json(
                    spans.drop_first(),
                ));
            }
        }
        assert(l[c + 10] == l.subrange(c + 10, c + 10 + n)[0]);
        lemma_parse_items(l, c + 10, spans);
    }
}

/// Scanning from `a` over the escaped characters of `t`, followed by a
/// quote, stops at that quote.
proof fn lemma_escaped_scan(s: Seq<char>, a: int, t: Seq<char>)
    requires
        0 <= a,
        a + escaped(t).len() < s.len(),
        s.subrange(a, a + escaped(t).len()) == escaped(t),
        s[a + escaped(t).len()] == '"',
    ensures
        string_body_end(s, a) == Some(a + escaped(t).len()),
    decreases t.len(),
{
    if t.len() > 0 {
        let c = t[0];
        let e = escaped_char(c);
        let rest = t.drop_first();
        assert(escaped(t) == e + escaped(rest));
        lemma_sub_split(s, a, e, escaped(rest));
        let b = a + e.len();
        assert forall|k: int| 0 <= k < e.len() implies s[a + k] == e[k] by {
            assert(s.subrange(a, a + e.len())[k] == e[k]);
        }
        lemma_escaped_scan(s, b, rest);
        if e.len() == 1 {
            assert(e[0] == c);
            assert(c != '"' && c != '\\');
            assert(string_body_end(s, a) == string_body_end(s, b));
        } else if e.len() == 2 {
            assert(s[a] == '\\');
            assert(string_body_end(s, a) == string_body_end(s, b));
        } else {
            let u = c as u32;
            let h1 = (u / 16) as nat;
            let h2 = (u % 16) as nat;
            lemma_hex_digit(h1);
            lemma_hex_digit(h2);
            assert(e.len() == 6);
            assert(s[a + 4] == hex_digit(h1));
            assert(s[a + 5] == hex_digit(h2));
            assert(string_body_end(s, a + 5) == string_body_end(s, b));
            assert(string_body_end(s, a + 4) == string_body_end(s, a + 5));
            assert(string_body_end(s, a + 3) == string_body_end(s, a + 4));
            assert(string_body_end(s, a + 2) == string_body_end(s, a + 3));
            assert(string_body_end(s, a) == string_body_end(s, a + 2));
        }
    }
}

proof fn lemma_hex_digit(d: nat)
    requires
        d < 16,
    ensures
        hex_digit(d) != '"',
        hex_digit(d) != '\\',
{
    if d < 10 {
        lemma_digit_char(d);
    } else {
        vstd::utf8::char_u32_cast(hex_digit(d), (d + 87) as u32);
    }
}

/// The literal that serde_json writes for `t` is one string literal.
proof fn lemma_quoted_is_literal(t: Seq<char>)
    ensures
        is_string_literal(json_quoted(t)),
{
    let q = json_quoted(t);
    let n = escaped(t).len() as int;
    assert(q.subrange(1, 1 + n) =~= escaped(t));
    lemma_escaped_scan(q, 1, t);
}

/// The line of a record reads back as that record, given that serde_json
/// reads the text's literal back as the text.
proof fn lemma_record_round_trip(t: Seq<char>, spans: Seq<Span>)
    requires
        json_unquoted(json_quoted(t)) == Some(t),
    ensures
        parse_record(record_json(t, spans)) == Some((t, spans)),
{
    lemma_quoted_is_literal(t);
    let q = json_quoted(t);
    let items = span_items_json(spans);
    let l = record_json(t, spans);
    let k1 = text_key();
    let k2 = spans_key();
    let c: int = 8 + q.len() as int;
    assert(l.subrange(0, l.len() as int) =~= l);
    lemma_sub_split(l, 0, k1 + q + k2 + items, seq![']', '}']);
    lemma_sub_split(l, 0, k1 + q + k2, items);
    lemma_sub_split(l, 0, k1 + q, k2);
    lemma_sub_split(l, 0, k1, q);
    lemma_text_part(l, t);
    lemma_spans_part(l, c, spans);
}

fn push_decimal(out: &mut String, n: usize)
    ensures
        final(out)@ == old(out)@ + decimal(n as nat),
    decreases n,
{
    if n >= 10 {
        push_decimal(out, n / 10);
    }
    let d = (n % 10) as u32;
    let c = (d + 48) as u8 as char;
    proof {
        assert(c == digit_char((n % 10) as nat));
    }
    push_char(out, c);
}

fn push_str_chars(out: &mut String, s: &str)
    ensures
        final(out)@ == old(out)@ + s@,
{
    out.append(s);
}

impl Record {
    /// The record as one line of the record format, without a line break.
    pub fn to_json(&self) -> (r: String)
        ensures
            r@ == record_json(self.text@, self.spans@),
            parse_record(r@) == Some((self.text@, self.spans@)),
    {
        let mut out = String::new();
        proof {
            reveal_strlit("{\"text\":");
            reveal_strlit(",\"spans\":[");
            reveal_strlit("]}");
        }
        push_str_chars(&mut out, "{\"text\":");
        let q = quote(self.text.as_str());
        push_str_chars(&mut out, q.as_str());
        push_str_chars(&mut out, ",\"spans\":[");
        let ghost head = out@;
        let mut j: usize = 0;
        while j < self.spans.len()
            invariant
                j <= self.spans@.len(),
                out@ == head + span_items_json(self.spans@.take(j as int)),
            decreases self.spans@.len() - j,
        {
            proof {
                reveal_strlit(",");
                reveal_strlit("[");
                reveal_strlit("]");
            }
            if j > 0 {
                push_str_chars(&mut out, ",");
            }
            push_str_chars(&mut out, "[");
            push_decimal(&mut out, self.spans[j].start);
            push_str_chars(&mut out, ",");
            push_decimal(&mut out, self.spans[j].end);
            push_str_chars(&mut out, "]");
            proof {
                let t = self.spans@.take(j as int + 1);
                assert(t.drop_last() =~= self.spans@.take(j as int));
                assert(t.last() == self.spans@[j as int]);
                if j == 0 {
                    assert(self.spans@.take(0) =~= Seq::<Span>::empty());
                    assert(span_items_json(t) == span_json(t[0]));
                    assert(out@ =~= head + span_items_json(t));
                } else {
                    assert(t =~= self.spans@.take(j as int).push(self.spans@[j as int]));
                    lemma_span_items_push(self.spans@.take(j as int), self.spans@[j as int]);
                    assert(out@ =~= head + span_items_json(t));
                }
            }
            j = j + 1;
        }
        push_str_chars(&mut out, "]}");
        proof {
            assert(self.spans@.take(j as int) =~= self.spans@);
            assert(out@ =~= record_json(self.text@, self.spans@));
            lemma_record_round_trip(self.text@, self.spans@);
        }
        out
    }
}

} // verus!
