//! Spans of source text, as byte offsets into its UTF-8 encoding.

use vstd::prelude::*;
use vstd::string::StringSliceAdditionalSpecFns;
use vstd::utf8::{
    decode_utf8, encode_scalar, encode_utf8, encode_utf8_decode_utf8, encode_utf8_first_scalar,
    encode_utf8_valid_utf8, is_char_boundary, length_of_first_scalar, pop_first_scalar,
};

verus! {

/// A non-empty half-open interval `lo..hi` of byte offsets into a text.
#[derive(Clone, Copy, Debug, PartialEq, Eq, Structural)]
pub struct Range {
    lo: u32,
    hi: u32,
}

impl Range {
    /// The offset of the first byte of the span.
    pub closed spec fn spec_lo(&self) -> u32 {
        self.lo
    }

    /// The offset behind the last byte of the span.
    pub closed spec fn spec_hi(&self) -> u32 {
        self.hi
    }

    /// The span from byte `lo` to byte `hi`.
    pub closed spec fn spec_from_to(lo: u32, hi: u32) -> Range {
        Range { lo, hi }
    }

    /// The ends of the span from `lo` to `hi` are `lo` and `hi`.
    pub proof fn lemma_from_to(lo: u32, hi: u32)
        ensures
            Range::spec_from_to(lo, hi).spec_lo() == lo,
            Range::spec_from_to(lo, hi).spec_hi() == hi,
    {
    }

    /// A span is never empty.
    pub open spec fn wf(self) -> bool {
        self.spec_lo() < self.spec_hi()
    }

    /// The offset of the first byte of the span.
    #[verifier::when_used_as_spec(spec_lo)]
    pub fn lo(&self) -> (lo: u32)
        ensures
            lo == self.spec_lo(),
    {
        self.lo
    }

    /// The offset behind the last byte of the span.
    #[verifier::when_used_as_spec(spec_hi)]
    pub fn hi(&self) -> (hi: u32)
        ensures
            hi == self.spec_hi(),
    {
        self.hi
    }

    /// The span from byte `lo` to byte `hi`, which is not empty.
    pub fn from_to(lo: u32, hi: u32) -> (range: Range)
        requires
            lo < hi,
        ensures
            range == Range::spec_from_to(lo, hi),
            range.spec_lo() == lo,
            range.spec_hi() == hi,
            range.wf(),
    {
        vstd::pervasive::runtime_assert(lo < hi);
        Range { lo, hi }
    }

    /// Two spans with the same ends are the same span.
    pub proof fn lemma_ext(self, other: Range)
        requires
            self.spec_lo() == other.spec_lo(),
            self.spec_hi() == other.spec_hi(),
        ensures
            self == other,
    {
    }
}

/// The byte offset at which character number `k` of `text` starts; for
/// `k == text.len()` the length of the whole encoding.
pub open spec fn byte_offset(text: Seq<char>, k: int) -> nat {
    encode_utf8(text.take(k)).len()
}

/// The number of bytes that the UTF-8 encoding of `text` takes.
pub open spec fn byte_len(text: Seq<char>) -> nat {
    encode_utf8(text).len()
}

/// True when `offset` is where some character of `text` starts, or the end of
/// the text.
pub open spec fn is_boundary(text: Seq<char>, offset: int) -> bool {
    exists|k: int| 0 <= k <= text.len() && #[trigger] byte_offset(text, k) == offset
}

/// The characters that the bytes `lo..hi` of the encoded text spell.
pub open spec fn text_between(text: Seq<char>, lo: int, hi: int) -> Seq<char> {
    decode_utf8(encode_utf8(text).subrange(lo, hi))
}

/// The characters that `range` covers in `text`.
pub open spec fn text_of(text: Seq<char>, range: Range) -> Seq<char> {
    text_between(text, range.spec_lo() as int, range.spec_hi() as int)
}

/// The number of bytes in the encoding of one character.
pub open spec fn char_width(c: char) -> nat {
    encode_scalar(c as u32).len()
}

/// Encoding distributes over concatenation.
pub proof fn lemma_encode_concat(a: Seq<char>, b: Seq<char>)
    ensures
        encode_utf8(a + b) == encode_utf8(a) + encode_utf8(b),
    decreases a.len(),
{
    if a.len() == 0 {
        assert(a + b =~= b);
        assert(encode_utf8(a) + encode_utf8(b) =~= encode_utf8(b));
    } else {
        assert((a + b).drop_first() =~= a.drop_first() + b);
        lemma_encode_concat(a.drop_first(), b);
        assert((a + b)[0] == a[0]);
        assert(encode_utf8(a + b) =~= encode_utf8(a) + encode_utf8(b));
    }
}

/// Every character takes between one and four bytes.
pub proof fn lemma_char_width(c: char)
    ensures
        1 <= char_width(c) <= 4,
{
}

/// The encoding of a single character.
pub proof fn lemma_encode_single(c: char)
    ensures
        encode_utf8(seq![c]) == encode_scalar(c as u32),
{
    let s = seq![c];
    assert(s.drop_first() =~= Seq::<char>::empty());
    assert(encode_utf8(s.drop_first()) =~= Seq::<u8>::empty());
    assert(encode_utf8(s) =~= encode_scalar(c as u32));
}

/// Taking one more character moves the offset by that character's width.
pub proof fn lemma_offset_step(text: Seq<char>, k: int)
    requires
        0 <= k < text.len(),
    ensures
        byte_offset(text, k + 1) == byte_offset(text, k) + char_width(text[k]),
        byte_offset(text, k) < byte_offset(text, k + 1),
{
    assert(text.take(k + 1) =~= text.take(k) + seq![text[k]]);
    lemma_encode_concat(text.take(k), seq![text[k]]);
    lemma_encode_single(text[k]);
    lemma_char_width(text[k]);
}

/// Offsets start at zero and end at the length of the encoding.
pub proof fn lemma_offset_ends(text: Seq<char>)
    ensures
        byte_offset(text, 0) == 0,
        byte_offset(text, text.len() as int) == byte_len(text),
{
    assert(text.take(0) =~= Seq::<char>::empty());
    assert(text.take(text.len() as int) =~= text);
}

/// Later characters start at larger offsets.
pub proof fn lemma_offset_increases(text: Seq<char>, i: int, j: int)
    requires
        0 <= i <= j <= text.len(),
    ensures
        byte_offset(text, i) <= byte_offset(text, j),
        i < j ==> byte_offset(text, i) < byte_offset(text, j),
        byte_offset(text, j) <= byte_len(text),
    decreases j - i,
{
    lemma_offset_to_end(text, j);
    if i < j {
        lemma_offset_step(text, j - 1);
        lemma_offset_increases(text, i, j - 1);
    }
}

proof fn lemma_offset_to_end(text: Seq<char>, j: int)
    requires
        0 <= j <= text.len(),
    ensures
        byte_offset(text, j) <= byte_len(text),
    decreases text.len() - j,
{
    if j < text.len() {
        lemma_offset_step(text, j);
        lemma_offset_to_end(text, j + 1);
    } else {
        lemma_offset_ends(text);
    }
}

/// An offset determines the character that starts there.
pub proof fn lemma_offset_injective(text: Seq<char>, i: int, j: int)
    requires
        0 <= i <= text.len(),
        0 <= j <= text.len(),
        byte_offset(text, i) == byte_offset(text, j),
    ensures
        i == j,
{
    if i < j {
        lemma_offset_increases(text, i, j);
    } else if j < i {
        lemma_offset_increases(text, j, i);
    }
}

/// The bytes between the starts of two characters spell the characters
/// between them.
pub proof fn lemma_bytes_between(text: Seq<char>, i: int, j: int)
    requires
        0 <= i <= j <= text.len(),
    ensures
        encode_utf8(text).subrange(byte_offset(text, i) as int, byte_offset(text, j) as int)
            == encode_utf8(text.subrange(i, j)),
        text_between(text, byte_offset(text, i) as int, byte_offset(text, j) as int)
            == text.subrange(i, j),
{
    let a = text.take(i);
    let b = text.subrange(i, j);
    let c = text.skip(j);
    assert(text.take(j) =~= a + b);
    assert(text =~= (a + b) + c);
    lemma_encode_concat(a, b);
    lemma_encode_concat(a + b, c);
    let bytes = encode_utf8(text);
    assert(bytes == (encode_utf8(a) + encode_utf8(b)) + encode_utf8(c));
    assert(bytes.subrange(encode_utf8(a).len() as int, encode_utf8(a + b).len() as int)
        =~= encode_utf8(b));
    encode_utf8_decode_utf8(b);
}

/// Adjacent stretches of text join.
pub proof fn lemma_text_between_joins(text: Seq<char>, lo: int, mid: int, hi: int)
    requires
        lo <= mid <= hi,
        is_boundary(text, lo),
        is_boundary(text, mid),
        is_boundary(text, hi),
    ensures
        text_between(text, lo, hi) == text_between(text, lo, mid) + text_between(text, mid, hi),
{
    let i = choose|k: int| 0 <= k <= text.len() && #[trigger] byte_offset(text, k) == lo;
    let m = choose|k: int| 0 <= k <= text.len() && #[trigger] byte_offset(text, k) == mid;
    let j = choose|k: int| 0 <= k <= text.len() && #[trigger] byte_offset(text, k) == hi;
    if m < i {
        lemma_offset_increases(text, m, i);
    }
    if j < m {
        lemma_offset_increases(text, j, m);
    }
    if lo == mid {
        lemma_offset_injective(text, i, m);
    }
    if mid == hi {
        lemma_offset_injective(text, m, j);
    }
    lemma_bytes_between(text, i, j);
    lemma_bytes_between(text, i, m);
    lemma_bytes_between(text, m, j);
    assert(text.subrange(i, j) =~= text.subrange(i, m) + text.subrange(m, j));
}

/// The start of a character is a character boundary of the encoding.
pub proof fn lemma_offset_is_char_boundary(text: Seq<char>, k: int)
    requires
        0 <= k <= text.len(),
    ensures
        is_char_boundary(encode_utf8(text), byte_offset(text, k) as int),
    decreases k,
{
    let bytes = encode_utf8(text);
    encode_utf8_valid_utf8(text);
    if k == 0 {
        lemma_offset_ends(text);
    } else {
        let rest = text.drop_first();
        encode_utf8_first_scalar(text);
        assert(pop_first_scalar(bytes) =~= encode_utf8(rest));
        assert(text.take(k) =~= seq![text[0]] + rest.take(k - 1));
        lemma_encode_concat(seq![text[0]], rest.take(k - 1));
        lemma_encode_single(text[0]);
        lemma_char_width(text[0]);
        lemma_offset_is_char_boundary(rest, k - 1);
        lemma_offset_increases(text, k, text.len() as int);
        assert(byte_offset(text, k) - length_of_first_scalar(bytes) == byte_offset(rest, k - 1));
    }
}

/// The span of the characters `i..j` of `text`.
pub open spec fn char_span(text: Seq<char>, i: int, j: int) -> Range {
    Range::spec_from_to(byte_offset(text, i) as u32, byte_offset(text, j) as u32)
}

/// The spans follow one another without a gap from byte `start` to byte
/// `end`, and each of them begins and ends where a character of `text` does.
pub open spec fn tiles(text: Seq<char>, spans: Seq<Range>, start: int, end: int) -> bool {
    &&& forall|k: int|
        0 <= k < spans.len() ==> (#[trigger] spans[k]).wf() && is_boundary(
            text,
            spans[k].spec_lo() as int,
        ) && is_boundary(text, spans[k].spec_hi() as int)
    &&& forall|k: int|
        0 <= k < spans.len() - 1 ==> (#[trigger] spans[k]).spec_hi() == spans[k + 1].spec_lo()
    &&& if spans.len() == 0 {
        start == end
    } else {
        spans[0].spec_lo() == start && spans.last().spec_hi() == end
    }
}

/// The texts that the spans cover, one after the other.
pub open spec fn joined(text: Seq<char>, spans: Seq<Range>) -> Seq<char>
    decreases spans.len(),
{
    if spans.len() == 0 {
        Seq::empty()
    } else {
        joined(text, spans.drop_last()) + text_of(text, spans.last())
    }
}

/// A tiling may grow by a span that begins where it ends.
pub proof fn lemma_tiles_push(text: Seq<char>, spans: Seq<Range>, start: int, end: int, r: Range)
    requires
        tiles(text, spans, start, end),
        r.wf(),
        r.spec_lo() == end,
        is_boundary(text, r.spec_lo() as int),
        is_boundary(text, r.spec_hi() as int),
    ensures
        tiles(text, spans.push(r), start, r.spec_hi() as int),
{
    let more = spans.push(r);
    assert forall|k: int| 0 <= k < more.len() - 1 implies (#[trigger] more[k]).spec_hi() == more[k
        + 1].spec_lo() by {
        if k < spans.len() - 1 {
            assert(more[k] == spans[k]);
            assert(more[k + 1] == spans[k + 1]);
        }
    }
}

/// All but the last span of a tiling tile what comes before the last span.
pub proof fn lemma_tiles_drop_last(text: Seq<char>, spans: Seq<Range>, start: int, end: int)
    requires
        tiles(text, spans, start, end),
        spans.len() > 0,
    ensures
        tiles(text, spans.drop_last(), start, spans.last().spec_lo() as int),
        start <= spans.last().spec_lo(),
    decreases spans.len(),
{
    let front = spans.drop_last();
    assert forall|k: int| 0 <= k < front.len() - 1 implies (#[trigger] front[k]).spec_hi()
        == front[k + 1].spec_lo() by {
        assert(front[k] == spans[k]);
        assert(front[k + 1] == spans[k + 1]);
    }
    if front.len() > 0 {
        assert(front.last() == spans[spans.len() - 2]);
        assert(front[0] == spans[0]);
        lemma_tiles_drop_last(text, front, start, front.last().spec_hi() as int);
    }
}

/// What the spans of a tiling cover, joined, is the text between its ends.
pub proof fn lemma_tiles_join(text: Seq<char>, spans: Seq<Range>, start: int, end: int)
    requires
        tiles(text, spans, start, end),
        is_boundary(text, start),
    ensures
        start <= end,
        joined(text, spans) == text_between(text, start, end),
    decreases spans.len(),
{
    if spans.len() == 0 {
        let i = choose|k: int| 0 <= k <= text.len() && #[trigger] byte_offset(text, k) == start;
        lemma_bytes_between(text, i, i);
        assert(text.subrange(i, i) =~= Seq::<char>::empty());
    } else {
        let last = spans.last();
        lemma_tiles_drop_last(text, spans, start, end);
        lemma_tiles_join(text, spans.drop_last(), start, last.spec_lo() as int);
        lemma_text_between_joins(text, start, last.spec_lo() as int, end);
    }
}

/// Spans that tile a whole text cover, joined, exactly that text.
pub proof fn lemma_total_coverage(text: Seq<char>, spans: Seq<Range>)
    requires
        tiles(text, spans, 0, byte_len(text) as int),
    ensures
        joined(text, spans) == text,
{
    lemma_offset_ends(text);
    assert(is_boundary(text, 0)) by {
        assert(byte_offset(text, 0) == 0);
    }
    lemma_tiles_join(text, spans, 0, byte_len(text) as int);
    lemma_bytes_between(text, 0, text.len() as int);
    assert(text.subrange(0, text.len() as int) =~= text);
}

/// The number of bytes that the UTF-8 encoding of `c` takes.
pub fn utf8_width(c: char) -> (width: u32)
    ensures
        width == char_width(c),
        1 <= width <= 4,
{
    let code: u32 = c as u32;
    if code < 0x80 {
        1
    } else if code < 0x800 {
        2
    } else if code < 0x10000 {
        3
    } else {
        4
    }
}

/// Calls `str::len`, which returns the length of a text in bytes; the
/// bytes of a text are those of its UTF-8 encoding.
#[verifier::external_body]
fn byte_count(text: &str) -> (count: usize)
    ensures
        count == byte_len(text@),
{
    text.len()
}

/// Whether every byte offset into `text` can be the end of a span.
pub fn fits_spans(text: &str) -> (yes: bool)
    ensures
        yes == (byte_len(text@) <= u32::MAX),
{
    byte_count(text) <= u32::MAX as usize
}

/// A stretch of a text takes no more bytes than the text.
pub proof fn lemma_part_is_shorter(text: Seq<char>, i: int, j: int)
    requires
        0 <= i <= j <= text.len(),
    ensures
        byte_len(text.subrange(i, j)) <= byte_len(text),
{
    lemma_bytes_between(text, i, j);
    lemma_offset_increases(text, i, j);
}

/// The part of `text` between the byte offsets `lo` and `hi`.
pub fn slice_between<'a>(text: &'a str, lo: usize, hi: usize) -> (part: &'a str)
    requires
        is_boundary(text@, lo as int),
        is_boundary(text@, hi as int),
        lo <= hi,
    ensures
        part@ == text_between(text@, lo as int, hi as int),
        byte_len(part@) == hi - lo,
{
    let ghost i = choose|k: int| 0 <= k <= text@.len() && #[trigger] byte_offset(text@, k) == lo;
    let ghost j = choose|k: int| 0 <= k <= text@.len() && #[trigger] byte_offset(text@, k) == hi;
    proof {
        if j < i {
            lemma_offset_increases(text@, j, i);
            lemma_offset_injective(text@, i, j);
        }
        lemma_offset_is_char_boundary(text@, j);
        lemma_offset_increases(text@, j, text@.len() as int);
    }
    let (head, _) = text.split_at(hi);
    proof {
        lemma_bytes_between(text@, 0, j);
        lemma_offset_ends(text@);
        encode_utf8_decode_utf8(head@);
        encode_utf8_decode_utf8(text@.subrange(0, j));
        assert(head@ == text@.subrange(0, j));
        assert(head@.take(i) =~= text@.take(i));
        lemma_offset_is_char_boundary(head@, i);
    }
    let (_, part) = head.split_at(lo);
    proof {
        lemma_bytes_between(text@, i, j);
        assert(part.spec_bytes() =~= encode_utf8(text@).subrange(lo as int, hi as int));
        encode_utf8_decode_utf8(part@);
    }
    part
}

/// The part of `text` that `range` covers.
pub fn slice_text<'a>(text: &'a str, range: Range) -> (part: &'a str)
    requires
        is_boundary(text@, range.spec_lo() as int),
        is_boundary(text@, range.spec_hi() as int),
        range.spec_lo() <= range.spec_hi(),
    ensures
        part@ == text_of(text@, range),
        byte_len(part@) == range.spec_hi() - range.spec_lo(),
{
    slice_between(text, range.lo as usize, range.hi as usize)
}

} // verus!
