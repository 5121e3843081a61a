//! Conversion between byte offsets (in the UTF-8 encoding of a text) and
//! character offsets (counted in Unicode scalar values).
use vstd::prelude::*;
use vstd::utf8::{encode_scalar, encode_utf8};

verus! {

/// Number of bytes that the UTF-8 encoding of `c` takes.
pub open spec fn utf8_width(c: char) -> nat {
    if (c as u32) < 0x80 {
        1
    } else if (c as u32) < 0x800 {
        2
    } else if (c as u32) < 0x10000 {
        3
    } else {
        4
    }
}

/// Number of bytes of the UTF-8 encoding of `s`.
pub open spec fn byte_len(s: Seq<char>) -> nat
    decreases s.len(),
{
    if s.len() == 0 {
        0
    } else {
        utf8_width(s[0]) + byte_len(s.drop_first())
    }
}

/// Byte offset at which the character with index `i` of `s` starts
/// (the byte length of `s` for `i == s.len()`).
pub open spec fn byte_pos(s: Seq<char>, i: int) -> nat {
    byte_len(s.take(i))
}

/// `b` is the byte offset of some character of `s`, or its byte length.
pub open spec fn is_boundary(s: Seq<char>, b: int) -> bool {
    exists|i: int| 0 <= i <= s.len() && byte_pos(s, i) == b
}

/// The index of the character that starts at byte offset `b` of `s`
/// (`s.len()` where `b` is the byte length of `s`).
pub open spec fn char_index_of(s: Seq<char>, b: int) -> int {
    choose|i: int| 0 <= i <= s.len() && byte_pos(s, i) == b
}

/// A character span, `start..end`, or a byte span, by context.
pub type Span = std::ops::Range<usize>;

/// Why a character index could not be converted.
#[derive(Debug, PartialEq, Eq, Clone)]
pub struct OffsetError {
    /// The offending character index.
    pub index: usize,
    /// The number of characters of the text it was meant for.
    pub char_len: usize,
    /// The text it was meant for.
    pub text: String,
}

pub proof fn lemma_byte_len_concat(a: Seq<char>, b: Seq<char>)
    ensures
        byte_len(a + b) == byte_len(a) + byte_len(b),
    decreases a.len(),
{
    if a.len() == 0 {
        assert(a + b =~= b);
    } else {
        assert((a + b).drop_first() =~= a.drop_first() + b);
        lemma_byte_len_concat(a.drop_first(), b);
    }
}

pub proof fn lemma_byte_pos_step(s: Seq<char>, i: int)
    requires
        0 <= i < s.len(),
    ensures
        byte_pos(s, i + 1) == byte_pos(s, i) + utf8_width(s[i]),
{
    assert(s.take(i + 1) =~= s.take(i) + seq![s[i]]);
    lemma_byte_len_concat(s.take(i), seq![s[i]]);
    assert(seq![s[i]].drop_first() =~= Seq::<char>::empty());
    assert(byte_len(seq![s[i]]) == utf8_width(s[i]) + byte_len(Seq::<char>::empty()));
}

/// Byte positions grow strictly with the character index.
pub proof fn lemma_byte_pos_strict(s: Seq<char>, i: int, j: int)
    requires
        0 <= i < j <= s.len(),
    ensures
        byte_pos(s, i) < byte_pos(s, j),
    decreases j - i,
{
    lemma_byte_pos_step(s, j - 1);
    if i < j - 1 {
        lemma_byte_pos_strict(s, i, j - 1);
    }
}

pub proof fn lemma_byte_pos_injective(s: Seq<char>, i: int, j: int)
    requires
        0 <= i <= s.len(),
        0 <= j <= s.len(),
        byte_pos(s, i) == byte_pos(s, j),
    ensures
        i == j,
{
    if i < j {
        lemma_byte_pos_strict(s, i, j);
    } else if j < i {
        lemma_byte_pos_strict(s, j, i);
    }
}

pub proof fn lemma_byte_pos_mono(s: Seq<char>, i: int, j: int)
    requires
        0 <= i <= j <= s.len(),
    ensures
        byte_pos(s, i) <= byte_pos(s, j),
{
    if i < j {
        lemma_byte_pos_strict(s, i, j);
    }
}

/// Converting a byte offset on a character boundary to a character index and
/// back gives the byte offset again; for a byte span, its two ends keep
/// their order.
pub proof fn lemma_char_span_inverse(s: Seq<char>, b0: int, b1: int)
    requires
        is_boundary(s, b0),
        is_boundary(s, b1),
        b0 <= b1,
    ensures
        0 <= char_index_of(s, b0) <= char_index_of(s, b1) <= s.len(),
        byte_pos(s, char_index_of(s, b0)) == b0,
        byte_pos(s, char_index_of(s, b1)) == b1,
{
    let i = char_index_of(s, b0);
    let j = char_index_of(s, b1);
    if j < i {
        lemma_byte_pos_strict(s, j, i);
    }
}

/// The character index just past the end of a text is at its byte length.
pub proof fn lemma_end_offset(s: Seq<char>)
    ensures
        byte_pos(s, s.len() as int) == byte_len(s),
{
    assert(s.take(s.len() as int) =~= s);
}

proof fn lemma_encode_len(s: Seq<char>)
    ensures
        encode_utf8(s).len() == byte_len(s),
    decreases s.len(),
{
    if s.len() > 0 {
        let v = s[0] as u32;
        vstd::utf8::char_is_scalar(s[0]);
        assert(encode_scalar(v).len() == utf8_width(s[0]));
        lemma_encode_len(s.drop_first());
    }
}

/// The byte length of `text`, which is that of its UTF-8 encoding.
pub fn text_byte_len(text: &str) -> (n: usize)
    ensures
        n == byte_len(text@),
{
    proof {
        lemma_encode_len(text@);
    }
    let bytes = text.as_bytes();
    bytes.len()
}

fn char_width(c: char) -> (w: usize)
    ensures
        w == utf8_width(c),
{
    let u = c as u32;
    if u < 0x80 {
        1
    } else if u < 0x800 {
        2
    } else if u < 0x10000 {
        3
    } else {
        4
    }
}

/// The characters of `text`, one per element.
pub fn chars_of(text: &str) -> (r: Vec<char>)
    ensures
        r@ == text@,
{
    let mut r: Vec<char> = Vec::new();
    for c in it: text.chars()
        invariant
            it.seq() == text@,
            r@ == it.seq().take(it.index() as int),
    {
        r.push(c);
        assert(r@ =~= it.seq().take(it.index() as int + 1));
    }
    r
}

/// Starting from character `i` at byte offset `b`, walks forward to the
/// character at byte offset `target`.
pub(crate) fn advance_to(chars: &Vec<char>, i: usize, b: usize, target: usize) -> (r: (usize, usize))
    requires
        i <= chars@.len(),
        b == byte_pos(chars@, i as int),
        b <= target,
        is_boundary(chars@, target as int),
    ensures
        i <= r.0 <= chars@.len(),
        r.1 == target,
        byte_pos(chars@, r.0 as int) == target,
        r.0 as int == char_index_of(chars@, target as int),
{
    let ghost s = chars@;
    let ghost k = char_index_of(s, target as int);
    proof {
        if k < i {
            lemma_byte_pos_strict(s, k, i as int);
        }
    }
    let n = chars.len();
    let mut i = i;
    let mut b = b;
    while b < target
        invariant
            i <= k <= s.len(),
            s.len() == n,
            0 <= k,
            byte_pos(s, k) == target,
            b == byte_pos(s, i as int),
            b <= target,
            s == chars@,
        decreases k - i,
    {
        proof {
            if i == k {
                assert(false);
            }
            lemma_byte_pos_step(s, i as int);
            lemma_byte_pos_mono(s, i as int + 1, k);
        }
        b = b + char_width(chars[i]);
        i = i + 1;
    }
    proof {
        lemma_byte_pos_mono(s, i as int, k);
        lemma_byte_pos_injective(s, i as int, k);
    }
    (i, b)
}

/// Converts the byte span `span` of `string` to the span of the same
/// characters, counted in characters.
pub fn char_span(string: &str, span: Span) -> (r: Span)
    requires
        span.start <= span.end,
        is_boundary(string@, span.start as int),
        is_boundary(string@, span.end as int),
    ensures
        r.start <= r.end <= string@.len(),
        r.start as int == char_index_of(string@, span.start as int),
        r.end as int == char_index_of(string@, span.end as int),
        byte_pos(string@, r.start as int) == span.start,
        byte_pos(string@, r.end as int) == span.end,
{
    let chars = chars_of(string);
    proof {
        assert(chars@.take(0) =~= Seq::<char>::empty());
    }
    let (start, b) = advance_to(&chars, 0, 0, span.start);
    let (end, _b) = advance_to(&chars, start, b, span.end);
    start..end
}

/// The byte offset at which the character with index `char_no` of `text`
/// starts; the byte length of `text` for the index just past its end.
pub fn byte_offset(text: &str, char_no: usize) -> (r: Result<usize, OffsetError>)
    ensures
        char_no <= text@.len() ==> r == Ok::<usize, OffsetError>(byte_pos(text@, char_no as int) as usize),
        char_no == text@.len() ==> r == Ok::<usize, OffsetError>(byte_len(text@) as usize),
        char_no > text@.len() ==> (r matches Err(e) && e.index == char_no && e.char_len
            == text@.len() && e.text@ == text@),
{
    let chars = chars_of(text);
    let n = chars.len();
    if char_no > n {
        return Err(OffsetError { index: char_no, char_len: n, text: text.to_owned() });
    }
    let total = text_byte_len(text);
    let mut i: usize = 0;
    let mut b: usize = 0;
    proof {
        assert(chars@.take(0) =~= Seq::<char>::empty());
    }
    while i < char_no
        invariant
            i <= char_no <= chars@.len(),
            chars@ == text@,
            b == byte_pos(chars@, i as int),
            total == byte_len(chars@),
        decreases char_no - i,
    {
        proof {
            lemma_byte_pos_step(chars@, i as int);
            lemma_byte_pos_mono(chars@, i as int + 1, chars@.len() as int);
            lemma_end_offset(chars@);
        }
        b = b + char_width(chars[i]);
        i = i + 1;
    }
    proof {
        lemma_end_offset(chars@);
    }
    Ok(b)
}

} // verus!
