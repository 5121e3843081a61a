//! A text together with the character spans found in it, and the rendering
//! of masked views of it.
use vstd::prelude::*;
use regex::Regex;
use crate::offsets::{
    advance_to, byte_pos, char_index_of, chars_of, is_boundary, Span,
};

verus! {

#[verifier::external_type_specification]
#[verifier::external_body]
pub struct ExRegex(Regex);

/// Every span lies within a text of `len` characters.
pub open spec fn spans_valid(len: nat, spans: Seq<Span>) -> bool {
    forall|j: int| #![trigger spans[j]] 0 <= j < spans.len() ==> spans[j].start <= spans[j].end <= len
}

/// Every span ends no later than the next one starts.
pub open spec fn spans_ordered(spans: Seq<Span>) -> bool {
    forall|j: int| 0 < j < spans.len() ==> spans[j - 1].end <= #[trigger] spans[j].start
}

/// What a search over the UTF-8 encoding of `text` may report: byte spans
/// that start and end on character boundaries, left to right, without overlap.
pub open spec fn byte_spans_ok(text: Seq<char>, found: Seq<Span>) -> bool {
    &&& forall|j: int|
        0 <= j < found.len() ==> #[trigger] found[j].start <= found[j].end && is_boundary(
            text,
            found[j].start as int,
        ) && is_boundary(text, found[j].end as int)
    &&& spans_ordered(found)
}

/// `spans` are the byte spans `found` of `text` converted to character spans.
pub open spec fn converted(text: Seq<char>, found: Seq<Span>, spans: Seq<Span>) -> bool {
    &&& spans.len() == found.len()
    &&& forall|j: int|
        0 <= j < found.len() ==> #[trigger] spans[j].start == char_index_of(text, found[j].start as int)
            && spans[j].end == char_index_of(text, found[j].end as int)
}

/// The byte spans of the matches that `re` finds in `text`, in order.
pub uninterp spec fn regex_spans(re: Regex, text: Seq<char>) -> Seq<Span>;

/// Whether the pattern `p` compiles.
pub uninterp spec fn pattern_compiles(p: Seq<char>) -> bool;

/// The regex that the pattern `p` compiles to.
pub uninterp spec fn compiled(p: Seq<char>) -> Regex;

/// Relies on regex::Regex::find_iter and Match::range: the matches come
/// left to right without overlap, each with start <= end, both on character
/// boundaries of the haystack; they depend on the regex and the text alone.
#[verifier::external_body]
fn find_byte_spans(re: &Regex, text: &str) -> (r: Vec<Span>)
    ensures
        r@ == regex_spans(*re, text@),
        byte_spans_ok(text@, r@),
{
    re.find_iter(text).map(|m| m.range()).collect()
}

/// Relies on regex::Regex::new: compiles a pattern, or says why it cannot;
/// which of the two depends on the pattern alone.
#[verifier::external_body]
fn compile(pattern: &str) -> (r: Result<Regex, String>)
    ensures
        r is Ok <==> pattern_compiles(pattern@),
        r matches Ok(re) ==> re == compiled(pattern@),
{
    Regex::new(pattern).map_err(|e| e.to_string())
}

/// A pattern that does not compile, with the reason.
#[derive(Debug, PartialEq, Eq, Clone)]
pub struct PatternError {
    pub message: String,
}

/// A text and the character spans recorded in it, in the order they were found.
#[derive(Debug, PartialEq)]
pub struct Record {
    pub text: String,
    pub spans: Vec<Span>,
}

/// The text of `text` between character `from` and character `to`, empty
/// where `to` is not past `from`.
pub open spec fn gap(text: Seq<char>, from: int, to: int) -> Seq<char> {
    if from < to {
        text.subrange(from, to)
    } else {
        Seq::empty()
    }
}

/// Where the `n`-th span processed by a mask resumes copying text.
pub open spec fn end_before(spans: Seq<Span>, n: int) -> int {
    if n <= 0 {
        0
    } else {
        spans[n - 1].end as int
    }
}

/// The masked rendering up to and including the label of the `n`-th span.
pub open spec fn masked_prefix(text: Seq<char>, spans: Seq<Span>, label: Seq<char>, n: nat) -> Seq<
    char,
>
    decreases n,
{
    if n == 0 {
        Seq::empty()
    } else {
        masked_prefix(text, spans, label, (n - 1) as nat) + gap(
            text,
            end_before(spans, n - 1),
            spans[n - 1].start as int,
        ) + label
    }
}

/// `text` with each span, in stored order, replaced by `label`: before each
/// span, the text from where the previous span ended; after the last, the
/// whole rest of the text.
pub open spec fn masked(text: Seq<char>, spans: Seq<Span>, label: Seq<char>) -> Seq<char> {
    masked_prefix(text, spans, label, spans.len()) + gap(
        text,
        end_before(spans, spans.len() as int),
        text.len() as int,
    )
}

/// How many characters the first `n` spans cover together.
pub open spec fn covered(spans: Seq<Span>, n: nat) -> int
    decreases n,
{
    if n == 0 {
        0
    } else {
        covered(spans, (n - 1) as nat) + (spans[n - 1].end - spans[n - 1].start)
    }
}

proof fn lemma_masked_prefix_len(text: Seq<char>, spans: Seq<Span>, label: Seq<char>, n: nat)
    requires
        spans_valid(text.len(), spans),
        spans_ordered(spans),
        n <= spans.len(),
    ensures
        masked_prefix(text, spans, label, n).len() == end_before(spans, n as int) - covered(
            spans,
            n,
        ) + n * label.len(),
    decreases n,
{
    if n > 0 {
        lemma_masked_prefix_len(text, spans, label, (n - 1) as nat);
        let k: int = n - 1;
        assert(spans[k].start <= spans[k].end <= text.len());
        if k > 0 {
            assert(spans[k - 1].end <= spans[k].start);
        }
        let g = gap(text, end_before(spans, k), spans[k].start as int);
        assert(g.len() == spans[k].start - end_before(spans, k));
        assert(masked_prefix(text, spans, label, n) == masked_prefix(text, spans, label, k as nat) + g
            + label);
        assert(covered(spans, n) == covered(spans, k as nat) + (spans[k].end - spans[k].start));
        assert(end_before(spans, n as int) == spans[k].end);
        assert(n * label.len() == k * label.len() + label.len()) by (nonlinear_arith)
            requires
                n == k + 1,
        ;
    } else {
        assert(n * label.len() == 0) by (nonlinear_arith)
            requires
                n == 0,
        ;
    }
}

/// With spans within the text and in position order, masking drops exactly
/// the characters inside the spans and puts one label for each span: the
/// result is as long as the text, less the characters covered, plus one
/// label per span; and it ends with all of the text after the last span.
pub proof fn lemma_mask_length(text: Seq<char>, spans: Seq<Span>, label: Seq<char>)
    requires
        spans_valid(text.len(), spans),
        spans_ordered(spans),
    ensures
        masked(text, spans, label).len() == text.len() - covered(spans, spans.len()) + spans.len()
            * label.len(),
        masked(text, spans, label) == masked_prefix(text, spans, label, spans.len()) + text.subrange(
            end_before(spans, spans.len() as int),
            text.len() as int,
        ),
{
    lemma_masked_prefix_len(text, spans, label, spans.len());
    let e = end_before(spans, spans.len() as int);
    if spans.len() > 0 {
        assert(spans[spans.len() - 1].start <= spans[spans.len() - 1].end <= text.len());
    }
    if e == text.len() {
        assert(text.subrange(e, text.len() as int) =~= Seq::<char>::empty());
    }
}

impl Record {
    /// The spans are valid for the text.
    pub open spec fn wf(&self) -> bool {
        spans_valid(self.text@.len(), self.spans@)
    }

    /// A record of `text` with no spans.
    pub fn new(text: &str) -> (r: Record)
        ensures
            r.text@ == text@,
            r.spans@.len() == 0,
            r.wf(),
    {
        Record { text: text.to_owned(), spans: Vec::new() }
    }

    /// Whether every span lies within the text.
    pub fn spans_are_valid(&self) -> (r: bool)
        ensures
            r == self.wf(),
    {
        let n = self.text.as_str().unicode_len();
        let mut j: usize = 0;
        while j < self.spans.len()
            invariant
                j <= self.spans@.len(),
                n == self.text@.len(),
                spans_valid(n as nat, self.spans@.take(j as int)),
            decreases self.spans@.len() - j,
        {
            let s = &self.spans[j];
            if !(s.start <= s.end && s.end <= n) {
                assert(!spans_valid(n as nat, self.spans@));
                return false;
            }
            j = j + 1;
            assert(spans_valid(n as nat, self.spans@.take(j as int)));
        }
        assert(self.spans@.take(j as int) =~= self.spans@);
        true
    }

    /// Renders the text with each span replaced by `label`. Spans are taken
    /// in stored order: before each label comes the text from the end of the
    /// previous span (or from the start) up to the start of this one, if any;
    /// after the last label, the whole rest of the text.
    pub fn mask(&self, label: &str) -> (r: String)
        requires
            self.wf(),
        ensures
            r@ == masked(self.text@, self.spans@, label@),
    {
        let text = self.text.as_str();
        let n = text.unicode_len();
        let mut result = String::new();
        let mut prev_end: usize = 0;
        let mut j: usize = 0;
        while j < self.spans.len()
            invariant
                j <= self.spans@.len(),
                n == self.text@.len(),
                text@ == self.text@,
                self.wf(),
                prev_end == end_before(self.spans@, j as int),
                prev_end <= n,
                result@ == masked_prefix(self.text@, self.spans@, label@, j as nat),
            decreases self.spans@.len() - j,
        {
            let start = self.spans[j].start;
            assert(self.spans@[j as int].start <= self.spans@[j as int].end <= n);
            if start > prev_end {
                result.append(text.substring_char(prev_end, start));
            }
            result.append(label);
            prev_end = self.spans[j].end;
            j = j + 1;
        }
        if prev_end < n {
            result.append(text.substring_char(prev_end, n));
        }
        result
    }

    /// Appends the character spans of the byte spans `found` of the text, in
    /// the order given, and returns how many there were.
    pub fn add_byte_spans(&mut self, found: &Vec<Span>) -> (r: usize)
        requires
            byte_spans_ok(old(self).text@, found@),
        ensures
            final(self).text@ == old(self).text@,
            r == found@.len(),
            final(self).spans@.len() == old(self).spans@.len() + r,
            final(self).spans@.take(old(self).spans@.len() as int) == old(self).spans@,
            converted(final(self).text@, found@, final(self).spans@.skip(old(self).spans@.len() as int)),
            spans_valid(final(self).text@.len(), final(self).spans@.skip(old(self).spans@.len() as int)),
            spans_ordered(final(self).spans@.skip(old(self).spans@.len() as int)),
            old(self).wf() ==> final(self).wf(),
    {
        let ghost text = self.text@;
        let ghost before = self.spans@;
        let chars = chars_of(self.text.as_str());
        let mut i: usize = 0;
        let mut b: usize = 0;
        let mut k: usize = 0;
        proof {
            assert(chars@.take(0) =~= Seq::<char>::empty());
        }
        while k < found.len()
            invariant
                chars@ == text,
                self.text@ == text,
                byte_spans_ok(text, found@),
                k <= found@.len(),
                i <= text.len(),
                b == byte_pos(text, i as int),
                k > 0 ==> b == found@[k - 1].end,
                k == 0 ==> i == 0 && b == 0,
                k > 0 ==> i as int == char_index_of(text, b as int),
                self.spans@.len() == before.len() + k,
                self.spans@.take(before.len() as int) == before,
                converted(text, found@.take(k as int), self.spans@.skip(before.len() as int)),
                spans_valid(text.len(), self.spans@.skip(before.len() as int)),
                spans_ordered(self.spans@.skip(before.len() as int)),
                k > 0 ==> self.spans@.last().end == i,
                spans_valid(text.len(), before) ==> spans_valid(text.len(), self.spans@),
            decreases found@.len() - k,
        {
            let f = &found[k];
            assert(found@[k as int].start <= found@[k as int].end);
            if k > 0 {
                assert(found@[k - 1].end <= found@[k as int].start);
            }
            let (ci0, b0) = advance_to(&chars, i, b, f.start);
            let (ci1, b1) = advance_to(&chars, ci0, b0, f.end);
            let ghost prev = self.spans@;
            self.spans.push(ci0..ci1);
            proof {
                let added = self.spans@.skip(before.len() as int);
                assert(added =~= prev.skip(before.len() as int).push(ci0..ci1));
                assert(self.spans@.take(before.len() as int) =~= before);
                let ft = found@.take(k + 1);
                assert(ft =~= found@.take(k as int).push(found@[k as int]));
                assert forall|j: int| 0 <= j < ft.len() implies #[trigger] added[j].start
                    == char_index_of(text, ft[j].start as int) && added[j].end == char_index_of(
                    text,
                    ft[j].end as int,
                ) by {
                    if j < ft.len() - 1 {
                        assert(added[j] == prev.skip(before.len() as int)[j]);
                        assert(ft[j] == found@.take(k as int)[j]);
                    }
                }
                assert forall|j: int| 0 <= j < added.len() implies #[trigger] added[j].start
                    <= added[j].end <= text.len() by {
                    if j < added.len() - 1 {
                        assert(added[j] == prev.skip(before.len() as int)[j]);
                    }
                }
                assert forall|j: int| 0 < j < added.len() implies added[j - 1].end
                    <= #[trigger] added[j].start by {
                    if j < added.len() - 1 {
                        assert(added[j] == prev.skip(before.len() as int)[j]);
                        assert(added[j - 1] == prev.skip(before.len() as int)[j - 1]);
                    } else {
                        assert(added[j - 1] == prev.last());
                    }
                }
                if spans_valid(text.len(), before) {
                    assert forall|j: int| 0 <= j < self.spans@.len() implies #[trigger] self.spans@[j].start
                        <= self.spans@[j].end <= text.len() by {
                        if j < before.len() {
                            assert(self.spans@[j] == prev[j]);
                            assert(prev.take(before.len() as int)[j] == prev[j]);
                            assert(before[j].start <= before[j].end <= text.len());
                        } else {
                            assert(self.spans@[j] == added[j - before.len()]);
                        }
                    }
                }
            }
            i = ci1;
            b = b1;
            k = k + 1;
        }
        proof {
            assert(found@.take(k as int) =~= found@);
        }
        k
    }

    /// Appends the spans of the matches of `re` in the text, left to right,
    /// and returns how many there were. Whatever the matches, the spans
    /// appended lie within the text and each ends before the next starts.
    pub fn add_match(&mut self, re: &Regex) -> (r: usize)
        ensures
            final(self).text@ == old(self).text@,
            r == regex_spans(*re, old(self).text@).len(),
            converted(
                old(self).text@,
                regex_spans(*re, old(self).text@),
                final(self).spans@.skip(old(self).spans@.len() as int),
            ),
            final(self).spans@.len() == old(self).spans@.len() + r,
            final(self).spans@.take(old(self).spans@.len() as int) == old(self).spans@,
            spans_valid(final(self).text@.len(), final(self).spans@.skip(old(self).spans@.len() as int)),
            spans_ordered(final(self).spans@.skip(old(self).spans@.len() as int)),
            old(self).wf() ==> final(self).wf(),
    {
        let found = find_byte_spans(re, self.text.as_str());
        self.add_byte_spans(&found)
    }

    /// Compiles `re` and appends the spans of its matches as `add_match`
    /// does; a pattern that does not compile leaves the record as it was.
    pub fn add_match_str(&mut self, re: &str) -> (r: Result<usize, PatternError>)
        ensures
            final(self).text@ == old(self).text@,
            r is Ok <==> pattern_compiles(re@),
            r is Err ==> final(self).spans@ == old(self).spans@,
            r matches Ok(n) ==> final(self).spans@.len() == old(self).spans@.len() + n
                && n == regex_spans(compiled(re@), old(self).text@).len() && converted(
                old(self).text@,
                regex_spans(compiled(re@), old(self).text@),
                final(self).spans@.skip(old(self).spans@.len() as int),
            ),
            final(self).spans@.take(old(self).spans@.len() as int) == old(self).spans@,
            spans_valid(final(self).text@.len(), final(self).spans@.skip(old(self).spans@.len() as int)),
            spans_ordered(final(self).spans@.skip(old(self).spans@.len() as int)),
            old(self).wf() ==> final(self).wf(),
    {
        match compile(re) {
            Ok(regex) => Ok(self.add_match(&regex)),
            Err(message) => {
                proof {
                    assert(self.spans@.take(self.spans@.len() as int) =~= self.spans@);
                    assert(self.spans@.skip(self.spans@.len() as int) =~= Seq::<Span>::empty());
                }
                Err(PatternError { message })
            },
        }
    }
}

} // verus!
