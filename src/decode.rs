//! Reading a record back from its line.
use vstd::prelude::*;
use crate::json::{
    char_at, closes, comma_after, digits_end, digits_value, has_lit, is_digit, parse_items, parse_key,
    parse_pair, parse_record, parse_span_list, parse_spans_field, parse_string, parse_text_field,
    parse_uint, skip_ws, spans_name, string_body_end, text_name, unquote,
};
use crate::offsets::{chars_of, Span};
use crate::record::Record;

verus! {

/// A line that does not hold a record.
#[derive(Debug, PartialEq, Eq, Clone)]
pub struct ParseError {
    /// The line as it was read.
    pub line: String,
}

fn skip_ws_at(s: &Vec<char>, i: usize) -> (r: usize)
    requires
        i <= s@.len(),
    ensures
        r == skip_ws(s@, i as int),
        i <= r <= s@.len(),
{
    let mut j = i;
    while j < s.len() && (s[j] == ' ' || s[j] == '\t' || s[j] == '\n' || s[j] == '\r')
        invariant
            i <= j <= s@.len(),
            skip_ws(s@, j as int) == skip_ws(s@, i as int),
        decreases s@.len() - j,
    {
        j = j + 1;
    }
    j
}

fn char_is(s: &Vec<char>, i: usize, c: char) -> (r: bool)
    ensures
        r == char_at(s@, i as int, c),
        s@.len() <= usize::MAX,
{
    let n = s.len();
    i < n && s[i] == c
}

proof fn lemma_digits_value_mono(s: Seq<char>, i: int, k: int, e: int)
    requires
        i <= k <= e,
    ensures
        digits_value(s, i, k) <= digits_value(s, i, e),
    decreases e - k,
{
    if k < e {
        lemma_digits_value_mono(s, i, k, e - 1);
    }
}

fn parse_uint_at(s: &Vec<char>, i: usize) -> (r: Option<(usize, usize)>)
    requires
        i <= s@.len(),
    ensures
        r matches Some((_, e)) ==> e <= s@.len(),
        match parse_uint(s@, i as int) {
            Some((v, e)) => r matches Some((rv, re)) && rv == v && re == e && e <= s@.len(),
            None => r is None,
        },
{
    let mut e = i;
    while e < s.len() && '0' <= s[e] && s[e] <= '9'
        invariant
            i <= e <= s@.len(),
            digits_end(s@, e as int) == digits_end(s@, i as int),
            forall|k: int| i <= k < e ==> is_digit(#[trigger] s@[k]),
        decreases s@.len() - e,
    {
        e = e + 1;
    }
    if e == i || (s[i] == '0' && e > i + 1) {
        return None;
    }
    let mut v: usize = 0;
    let mut k = i;
    while k < e
        invariant
            i <= k <= e <= s@.len(),
            e == digits_end(s@, i as int),
            forall|m: int| i <= m < e ==> is_digit(#[trigger] s@[m]),
            v == digits_value(s@, i as int, k as int),
        decreases e - k,
    {
        let d = (s[k] as u32 - 48) as usize;
        proof {
            assert(is_digit(s@[k as int]));
            lemma_digits_value_mono(s@, i as int, k as int + 1, e as int);
        }
        match v.checked_mul(10) {
            None => {
                return None;
            },
            Some(v10) => match v10.checked_add(d) {
                None => {
                    return None;
                },
                Some(w) => {
                    v = w;
                },
            },
        }
        k = k + 1;
    }
    Some((v, e))
}

fn parse_pair_at(s: &Vec<char>, i: usize) -> (r: Option<(Span, usize)>)
    requires
        i <= s@.len(),
    ensures
        r matches Some((_, e)) ==> e <= s@.len(),
        match parse_pair(s@, i as int) {
            Some((p, e)) => r matches Some((rp, re)) && rp == p && re == e && e <= s@.len(),
            None => r is None,
        },
{
    if !char_is(s, i, '[') {
        return None;
    }
    let a = match parse_uint_at(s, skip_ws_at(s, i + 1)) {
        None => {
            return None;
        },
        Some(x) => x,
    };
    let j2 = skip_ws_at(s, a.1);
    if !char_is(s, j2, ',') {
        return None;
    }
    let b = match parse_uint_at(s, skip_ws_at(s, j2 + 1)) {
        None => {
            return None;
        },
        Some(x) => x,
    };
    let k2 = skip_ws_at(s, b.1);
    if !char_is(s, k2, ']') {
        return None;
    }
    Some((a.0..b.0, k2 + 1))
}

fn parse_items_at(s: &Vec<char>, i: usize) -> (r: Option<(Vec<Span>, usize)>)
    requires
        i <= s@.len(),
    ensures
        r matches Some((_, e)) ==> e <= s@.len(),
        match parse_items(s@, i as int) {
            Some((v, e)) => r matches Some((rv, re)) && rv@ == v && re == e && 0 <= e <= s@.len(),
            None => r is None,
        },
    decreases s@.len() - i,
{
    let (p, j) = match parse_pair_at(s, i) {
        None => {
            return None;
        },
        Some(x) => x,
    };
    let k = skip_ws_at(s, j);
    if char_is(s, k, ']') {
        return Some((vec![p], k + 1));
    }
    if !char_is(s, k, ',') {
        return None;
    }
    let m = skip_ws_at(s, k + 1);
    if m <= i {
        return None;
    }
    match parse_items_at(s, m) {
        None => None,
        Some((rest, e)) => {
            let mut v = vec![p];
            let mut rest = rest;
            v.append(&mut rest);
            Some((v, e))
        },
    }
}

fn parse_span_list_at(s: &Vec<char>, i: usize) -> (r: Option<(Vec<Span>, usize)>)
    requires
        i <= s@.len(),
    ensures
        r matches Some((_, e)) ==> e <= s@.len(),
        match parse_span_list(s@, i as int) {
            Some((v, e)) => r matches Some((rv, re)) && rv@ == v && re == e && 0 <= e <= s@.len(),
            None => r is None,
        },
{
    if !char_is(s, i, '[') {
        return None;
    }
    let j = skip_ws_at(s, i + 1);
    if char_is(s, j, ']') {
        return Some((Vec::new(), j + 1));
    }
    parse_items_at(s, j)
}

fn parse_string_at(line: &str, s: &Vec<char>, i: usize) -> (r: Option<(String, usize)>)
    requires
        i <= s@.len(),
        s@ == line@,
    ensures
        r matches Some((_, e)) ==> e <= s@.len(),
        match parse_string(s@, i as int) {
            Some((t, e)) => r matches Some((rt, re)) && rt@ == t && re == e && 0 <= e <= s@.len(),
            None => r is None,
        },
{
    if !char_is(s, i, '"') {
        return None;
    }
    let mut j = i + 1;
    while j < s.len() && s[j] != '"'
        invariant
            i < j <= s@.len(),
            string_body_end(s@, j as int) == string_body_end(s@, i as int + 1),
        decreases s@.len() - j,
    {
        if s[j] == '\\' {
            if j + 1 >= s.len() {
                return None;
            }
            j = j + 2;
        } else {
            j = j + 1;
        }
    }
    if j >= s.len() {
        return None;
    }
    let token = line.substring_char(i, j + 1);
    match unquote(token) {
        None => None,
        Some(t) => Some((t, j + 1)),
    }
}

fn has_lit_at(s: &Vec<char>, i: usize, w: &Vec<char>) -> (r: bool)
    ensures
        r == has_lit(s@, i as int, w@),
        s@.len() <= usize::MAX,
{
    let n = s.len();
    if i > s.len() || w.len() > s.len() - i {
        return false;
    }
    let mut k: usize = 0;
    while k < w.len()
        invariant
            i + w@.len() <= s@.len(),
            s@.len() == n,
            k <= w@.len(),
            forall|m: int| 0 <= m < k ==> s@[i + m] == #[trigger] w@[m],
        decreases w@.len() - k,
    {
        if s[i + k] != w[k] {
            assert(s@.subrange(i as int, i + w@.len())[k as int] != w@[k as int]);
            return false;
        }
        k = k + 1;
    }
    assert(s@.subrange(i as int, i + w@.len()) =~= w@);
    true
}

fn parse_key_at(s: &Vec<char>, i: usize, name: &Vec<char>) -> (r: Option<usize>)
    requires
        i <= s@.len(),
    ensures
        r matches Some(j) ==> j <= s@.len(),
        match parse_key(s@, i as int, name@) {
            Some(j) => r matches Some(rj) && rj == j && j <= s@.len(),
            None => r is None,
        },
{
    if !has_lit_at(s, i, name) {
        return None;
    }
    let j = skip_ws_at(s, i + name.len());
    if char_is(s, j, ':') {
        Some(skip_ws_at(s, j + 1))
    } else {
        None
    }
}

fn text_name_chars() -> (r: Vec<char>)
    ensures
        r@ == text_name(),
{
    let r = vec!['"', 't', 'e', 'x', 't', '"'];
    assert(r@ =~= text_name());
    r
}

fn spans_name_chars() -> (r: Vec<char>)
    ensures
        r@ == spans_name(),
{
    let r = vec!['"', 's', 'p', 'a', 'n', 's', '"'];
    assert(r@ =~= spans_name());
    r
}

fn parse_text_field_at(line: &str, s: &Vec<char>, i: usize) -> (r: Option<(String, usize)>)
    requires
        i <= s@.len(),
        s@ == line@,
    ensures
        r matches Some((_, e)) ==> e <= s@.len(),
        match parse_text_field(s@, i as int) {
            Some((t, e)) => r matches Some((rt, re)) && rt@ == t && re == e && 0 <= e <= s@.len(),
            None => r is None,
        },
{
    let name = text_name_chars();
    match parse_key_at(s, i, &name) {
        None => None,
        Some(j) => parse_string_at(line, s, j),
    }
}

fn parse_spans_field_at(s: &Vec<char>, i: usize) -> (r: Option<(Vec<Span>, usize)>)
    requires
        i <= s@.len(),
    ensures
        r matches Some((_, e)) ==> e <= s@.len(),
        match parse_spans_field(s@, i as int) {
            Some((v, e)) => r matches Some((rv, re)) && rv@ == v && re == e && 0 <= e <= s@.len(),
            None => r is None,
        },
{
    let name = spans_name_chars();
    match parse_key_at(s, i, &name) {
        None => None,
        Some(j) => parse_span_list_at(s, j),
    }
}

fn comma_after_at(s: &Vec<char>, i: usize) -> (r: Option<usize>)
    requires
        i <= s@.len(),
    ensures
        r matches Some(j) ==> j <= s@.len(),
        match comma_after(s@, i as int) {
            Some(j) => r matches Some(rj) && rj == j && j <= s@.len(),
            None => r is None,
        },
{
    let j = skip_ws_at(s, i);
    if char_is(s, j, ',') {
        Some(skip_ws_at(s, j + 1))
    } else {
        None
    }
}

fn closes_at(s: &Vec<char>, i: usize) -> (r: bool)
    requires
        i <= s@.len(),
    ensures
        r == closes(s@, i as int),
{
    let j = skip_ws_at(s, i);
    char_is(s, j, '}') && skip_ws_at(s, j + 1) == s.len()
}

impl Record {
    /// Reads a record from one line of the record format (without its line
    /// break); an error where the line does not hold one.
    pub fn from_json(line: &str) -> (r: Result<Record, ParseError>)
        ensures
            match parse_record(line@) {
                Some((t, sp)) => r matches Ok(rec) && rec.text@ == t && rec.spans@ == sp,
                None => r matches Err(e) && e.line@ == line@,
            },
    {
        let s = chars_of(line);
        let fail = Err(ParseError { line: line.to_owned() });
        let i = skip_ws_at(&s, 0);
        if !char_is(&s, i, '{') {
            return fail;
        }
        let j = skip_ws_at(&s, i + 1);
        if has_lit_at(&s, j, &text_name_chars()) {
            let (text, k) = match parse_text_field_at(line, &s, j) {
                None => {
                    return fail;
                },
                Some(x) => x,
            };
            let m = match comma_after_at(&s, k) {
                None => {
                    return fail;
                },
                Some(x) => x,
            };
            let (spans, e) = match parse_spans_field_at(&s, m) {
                None => {
                    return fail;
                },
                Some(x) => x,
            };
            if !closes_at(&s, e) {
                return fail;
            }
            Ok(Record { text, spans })
        } else {
            let (spans, k) = match parse_spans_field_at(&s, j) {
                None => {
                    return fail;
                },
                Some(x) => x,
            };
            let m = match comma_after_at(&s, k) {
                None => {
                    return fail;
                },
                Some(x) => x,
            };
            let (text, e) = match parse_text_field_at(line, &s, m) {
                None => {
                    return fail;
                },
                Some(x) => x,
            };
            if !closes_at(&s, e) {
                return fail;
            }
            Ok(Record { text, spans })
        }
    }
}

} // verus!
