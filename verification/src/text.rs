//! White space, tokens and spans.
//!
//! A text is a sequence of bytes. A token is a maximal run of bytes that holds
//! no white-space character; it is known by its byte range in the text, so
//! nothing is ever copied. White space is the Unicode `White_Space` set, read
//! off the bytes of its UTF-8 encodings.

use vstd::prelude::*;
use smallvec::SmallVec;
use vstd::slice::slice_subrange;

verus! {

/// A half-open byte range `start..end` of a text.
pub struct Span {
    pub start: int,
    pub end: int,
}

/// A token of a text, held as the byte range it covers.
#[derive(Clone, Copy, Debug)]
pub struct Token {
    pub start: usize,
    pub end: usize,
}

impl View for Token {
    type V = Span;

    open spec fn view(&self) -> Span {
        Span { start: self.start as int, end: self.end as int }
    }
}

/// The one-byte white-space characters: U+0009 to U+000D and U+0020.
pub open spec fn is_ascii_space(b: u8) -> bool {
    (0x09 <= b && b <= 0x0D) || b == 0x20
}

/// The two-byte white-space characters: U+0085 and U+00A0.
pub open spec fn is_two_byte_space(b0: u8, b1: u8) -> bool {
    b0 == 0xC2 && (b1 == 0x85 || b1 == 0xA0)
}

/// The three-byte white-space characters: U+1680, U+2000 to U+200A, U+2028,
/// U+2029, U+202F, U+205F and U+3000.
pub open spec fn is_three_byte_space(b0: u8, b1: u8, b2: u8) -> bool {
    ||| (b0 == 0xE1 && b1 == 0x9A && b2 == 0x80)
    ||| (b0 == 0xE2 && b1 == 0x80 && ((0x80 <= b2 && b2 <= 0x8A) || b2 == 0xA8 || b2 == 0xA9
        || b2 == 0xAF))
    ||| (b0 == 0xE2 && b1 == 0x81 && b2 == 0x9F)
    ||| (b0 == 0xE3 && b1 == 0x80 && b2 == 0x80)
}

/// The number of bytes of the white-space character that starts at byte `i`
/// of `s`, or 0 where none starts there.
pub open spec fn space_len(s: Seq<u8>, i: int) -> int {
    if i < 0 || i >= s.len() {
        0
    } else if is_ascii_space(s[i]) {
        1
    } else if i + 1 < s.len() && is_two_byte_space(s[i], s[i + 1]) {
        2
    } else if i + 2 < s.len() && is_three_byte_space(s[i], s[i + 1], s[i + 2]) {
        3
    } else {
        0
    }
}

/// The first position at or after `i` where a white-space character starts,
/// or the end of the text.
pub open spec fn word_end(s: Seq<u8>, i: int) -> int
    decreases s.len() - i,
{
    if i < 0 || i >= s.len() || space_len(s, i) > 0 {
        i
    } else {
        word_end(s, i + 1)
    }
}

/// The tokens of `s` that start at or after byte `i`, in order. `i` is the
/// start of a character: white space is stepped over whole.
pub open spec fn spans_from(s: Seq<u8>, i: int) -> Seq<Span>
    decreases s.len() - i,
    via spans_from_decreases
{
    if i < 0 || i >= s.len() {
        Seq::empty()
    } else if space_len(s, i) > 0 {
        spans_from(s, i + space_len(s, i))
    } else {
        seq![Span { start: i, end: word_end(s, i + 1) }] + spans_from(s, word_end(s, i + 1))
    }
}

#[via_fn]
proof fn spans_from_decreases(s: Seq<u8>, i: int) {
    if 0 <= i {
        lemma_word_end_bounds(s, i + 1);
    }
}

/// The tokens of a text, in order.
pub open spec fn token_spans(s: Seq<u8>) -> Seq<Span> {
    spans_from(s, 0)
}

/// The bytes that a run of tokens covers: from the start of the first to the
/// end of the last. No tokens cover nothing.
pub open spec fn span_text(s: Seq<u8>, spans: Seq<Span>) -> Seq<u8> {
    if spans.len() == 0 {
        Seq::empty()
    } else {
        s.subrange(spans.first().start, spans.last().end)
    }
}

/// The bytes of each token of a text, in order.
pub open spec fn token_texts(s: Seq<u8>) -> Seq<Seq<u8>> {
    Seq::new(token_spans(s).len(), |k: int| s.subrange(token_spans(s)[k].start, token_spans(s)[k].end))
}

/// The byte ranges of a sequence of tokens.
pub open spec fn spans_of(toks: Seq<Token>) -> Seq<Span> {
    Seq::new(toks.len(), |k: int| toks[k]@)
}

/// Whether a run of spans lies inside a text of `len` bytes, each span
/// non-empty and none starting before the one before it ends.
pub open spec fn spans_in_order(spans: Seq<Span>, len: int) -> bool {
    &&& forall|k: int| 0 <= k < spans.len() ==> 0 <= (#[trigger] spans[k]).start < spans[k].end <= len
    &&& forall|j: int, k: int|
        0 <= j < k < spans.len() ==> (#[trigger] spans[j]).end <= (#[trigger] spans[k]).start
}

/// A run of bytes without white space ends at or after its start and inside
/// the text, no white-space character starts in it, and one starts where it
/// ends unless the text ends there.
pub proof fn lemma_word_end_bounds(s: Seq<u8>, i: int)
    requires
        0 <= i,
    ensures
        i <= word_end(s, i),
        i <= s.len() ==> word_end(s, i) <= s.len(),
        word_end(s, i) < s.len() ==> space_len(s, word_end(s, i)) > 0,
        forall|j: int| i <= j < word_end(s, i) ==> space_len(s, j) == 0,
    decreases s.len() - i,
{
    if i < s.len() && space_len(s, i) == 0 {
        lemma_word_end_bounds(s, i + 1);
    }
}

/// The tokens found from byte `i` on lie in `i..s.len()`, in order, each
/// non-empty, and there are no more of them than bytes.
pub proof fn lemma_spans_from_in_order(s: Seq<u8>, i: int)
    requires
        0 <= i,
    ensures
        spans_in_order(spans_from(s, i), s.len() as int),
        forall|k: int| 0 <= k < spans_from(s, i).len() ==> i <= (#[trigger] spans_from(s, i)[k]).start,
        i <= s.len() ==> spans_from(s, i).len() <= s.len() - i,
        i > s.len() ==> spans_from(s, i).len() == 0,
    decreases s.len() - i,
{
    if i >= s.len() {
    } else if space_len(s, i) > 0 {
        lemma_spans_from_in_order(s, i + space_len(s, i));
    } else {
        let e = word_end(s, i + 1);
        lemma_word_end_bounds(s, i + 1);
        lemma_spans_from_in_order(s, e);
        let first = Span { start: i, end: e };
        let rest = spans_from(s, e);
        let all = spans_from(s, i);
        assert(all == seq![first] + rest);
        assert forall|k: int| 0 <= k < all.len() implies 0 <= (#[trigger] all[k]).start < all[k].end
            <= s.len() && i <= all[k].start by {
            if k > 0 {
                assert(all[k] == rest[k - 1]);
            }
        }
        assert forall|j: int, k: int| 0 <= j < k < all.len() implies (#[trigger] all[j]).end <= (
        #[trigger] all[k]).start by {
            assert(all[k] == rest[k - 1]);
            if j > 0 {
                assert(all[j] == rest[j - 1]);
            }
        }
    }
}

/// The tokens of a text lie inside it, in order, each non-empty, and there
/// are no more of them than bytes.
pub proof fn lemma_token_spans_in_order(s: Seq<u8>)
    ensures
        spans_in_order(token_spans(s), s.len() as int),
        token_spans(s).len() <= s.len(),
{
    lemma_spans_from_in_order(s, 0);
}

/// No white-space character starts inside a token found from byte `i` on,
/// and each such token ends where one starts or where the text ends.
pub proof fn lemma_spans_from_hold_no_space(s: Seq<u8>, i: int)
    requires
        0 <= i,
    ensures
        forall|k: int, j: int|
            0 <= k < spans_from(s, i).len() && (#[trigger] spans_from(s, i)[k]).start <= j
                < spans_from(s, i)[k].end ==> #[trigger] space_len(s, j) == 0,
        forall|k: int|
            0 <= k < spans_from(s, i).len() ==> (#[trigger] spans_from(s, i)[k]).end == s.len()
                || space_len(s, spans_from(s, i)[k].end) > 0,
    decreases s.len() - i,
{
    if i >= s.len() {
    } else if space_len(s, i) > 0 {
        let next = i + space_len(s, i);
        lemma_spans_from_hold_no_space(s, next);
        assert(spans_from(s, i) == spans_from(s, next));
    } else {
        let e = word_end(s, i + 1);
        lemma_word_end_bounds(s, i + 1);
        lemma_spans_from_hold_no_space(s, e);
        let first = Span { start: i, end: e };
        let rest = spans_from(s, e);
        let all = spans_from(s, i);
        assert(all == seq![first] + rest);
        assert forall|k: int, j: int|
            0 <= k < all.len() && (#[trigger] all[k]).start <= j < all[k].end implies #[trigger] space_len(
            s,
            j,
        ) == 0 by {
            if k > 0 {
                assert(all[k] == rest[k - 1]);
            }
        }
        assert forall|k: int| 0 <= k < all.len() implies (#[trigger] all[k]).end == s.len()
            || space_len(s, all[k].end) > 0 by {
            if k > 0 {
                assert(all[k] == rest[k - 1]);
            }
        }
    }
}

/// What a token is: a non-empty run of bytes in which no white-space
/// character starts, closed by white space or by the end of the text.
pub proof fn lemma_tokens_hold_no_space(s: Seq<u8>)
    ensures
        forall|k: int, j: int|
            0 <= k < token_spans(s).len() && (#[trigger] token_spans(s)[k]).start <= j
                < token_spans(s)[k].end ==> #[trigger] space_len(s, j) == 0,
        forall|k: int|
            0 <= k < token_spans(s).len() ==> (#[trigger] token_spans(s)[k]).end == s.len()
                || space_len(s, token_spans(s)[k].end) > 0,
{
    lemma_spans_from_hold_no_space(s, 0);
}

/// Whether byte `i` of `s` lies in a white-space character that starts at or
/// after byte `p`.
pub open spec fn in_white_space(s: Seq<u8>, p: int, i: int) -> bool {
    exists|j: int| p <= j <= i && i < j + #[trigger] space_len(s, j)
}

/// Whether a text is white space and nothing else: every byte of it lies in
/// a white-space character. The empty text is.
pub open spec fn is_blank(s: Seq<u8>) -> bool {
    forall|i: int| 0 <= i < s.len() ==> in_white_space(s, 0, i)
}

/// No white-space character starts inside another.
proof fn lemma_spaces_do_not_nest(s: Seq<u8>, i: int, k: int)
    requires
        0 < k < space_len(s, i),
    ensures
        space_len(s, i + k) == 0,
{
}

/// From byte `p` on no token is found exactly where every byte from `p` on
/// lies in a white-space character that starts at or after `p`.
proof fn lemma_no_span_iff_blank_from(s: Seq<u8>, p: int)
    requires
        0 <= p,
    ensures
        spans_from(s, p).len() == 0 <==> (forall|i: int|
            p <= i < s.len() ==> in_white_space(s, p, i)),
    decreases s.len() - p,
{
    if p >= s.len() {
    } else if space_len(s, p) > 0 {
        let next = p + space_len(s, p);
        lemma_no_span_iff_blank_from(s, next);
        assert(spans_from(s, p) == spans_from(s, next));
        if spans_from(s, p).len() == 0 {
            assert forall|i: int| p <= i < s.len() implies in_white_space(s, p, i) by {
                if i < next {
                    assert(p <= p <= i && i < p + space_len(s, p));
                } else {
                    assert(in_white_space(s, next, i));
                    let j = choose|j: int| next <= j <= i && i < j + #[trigger] space_len(s, j);
                    assert(p <= j <= i && i < j + space_len(s, j));
                }
            }
        }
        if forall|i: int| p <= i < s.len() ==> in_white_space(s, p, i) {
            assert forall|i: int| next <= i < s.len() implies in_white_space(s, next, i) by {
                assert(in_white_space(s, p, i));
                let j = choose|j: int| p <= j <= i && i < j + #[trigger] space_len(s, j);
                if p < j < next {
                    lemma_spaces_do_not_nest(s, p, j - p);
                }
                assert(next <= j <= i && i < j + space_len(s, j));
            }
        }
    } else {
        lemma_word_end_bounds(s, p + 1);
        assert(spans_from(s, p).len() > 0);
        assert(!in_white_space(s, p, p));
    }
}

/// A text has no token exactly when it is empty or white space and nothing
/// else.
pub proof fn lemma_no_token_iff_blank(s: Seq<u8>)
    ensures
        token_spans(s).len() == 0 <==> is_blank(s),
        s.len() == 0 ==> is_blank(s),
{
    lemma_no_span_iff_blank_from(s, 0);
}

/// A run of spans moved `by` bytes towards the start.
pub open spec fn shifted(spans: Seq<Span>, by: int) -> Seq<Span> {
    Seq::new(spans.len(), |k: int| Span { start: spans[k].start - by, end: spans[k].end - by })
}

/// Inside a part of a text, a white-space character that the part holds
/// whole is found as in the text, and none is found where the text has none.
proof fn lemma_space_len_in_part(t: Seq<u8>, lo: int, hi: int, p: int)
    requires
        0 <= lo <= p,
        p + space_len(t, p) <= hi <= t.len(),
    ensures
        space_len(t.subrange(lo, hi), p - lo) == space_len(t, p),
{
    let u = t.subrange(lo, hi);
    let i = p - lo;
    if i < u.len() {
        assert(u[i] == t[p]);
        if i + 1 < u.len() {
            assert(u[i + 1] == t[p + 1]);
        }
        if i + 2 < u.len() {
            assert(u[i + 2] == t[p + 2]);
        }
    }
}

/// Inside a part of a text, a run of bytes without white space ends where
/// it ends in the text, if the part ends there or holds the white-space
/// character that follows.
proof fn lemma_word_end_in_part(t: Seq<u8>, lo: int, hi: int, j: int, e: int)
    requires
        0 <= lo <= j <= e <= hi <= t.len(),
        forall|i: int| j <= i < e ==> space_len(t, i) == 0,
        e == hi || (space_len(t, e) > 0 && e + space_len(t, e) <= hi),
    ensures
        word_end(t.subrange(lo, hi), j - lo) == e - lo,
    decreases e - j,
{
    if j < e {
        lemma_space_len_in_part(t, lo, hi, j);
        lemma_word_end_in_part(t, lo, hi, j + 1, e);
    } else if e < hi {
        lemma_space_len_in_part(t, lo, hi, e);
    }
}

/// The tokens found from the start of a token on are that token and those
/// after it.
pub proof fn lemma_spans_from_token_start(t: Seq<u8>, i: int, k: int)
    requires
        0 <= i,
        0 <= k < spans_from(t, i).len(),
    ensures
        spans_from(t, spans_from(t, i)[k].start) == spans_from(t, i).subrange(
            k,
            spans_from(t, i).len() as int,
        ),
    decreases t.len() - i,
{
    let all = spans_from(t, i);
    if i >= t.len() {
    } else if space_len(t, i) > 0 {
        let next = i + space_len(t, i);
        assert(all == spans_from(t, next));
        lemma_spans_from_token_start(t, next, k);
    } else {
        let e = word_end(t, i + 1);
        lemma_word_end_bounds(t, i + 1);
        let rest = spans_from(t, e);
        assert(all == seq![Span { start: i, end: e }] + rest);
        if k == 0 {
            assert(all.subrange(0, all.len() as int) =~= all);
        } else {
            assert(all[k] == rest[k - 1]);
            lemma_spans_from_token_start(t, e, k - 1);
            assert(rest.subrange(k - 1, rest.len() as int) =~= all.subrange(k, all.len() as int));
        }
    }
}

/// Scanning the part of a text between the start of its token `x` and the
/// end of its token `y - 1`, from a position `p` at which the scan of the
/// whole text has the tokens from `kidx` on before it, finds the tokens
/// `kidx` to `y - 1`, moved by the start of the part.
proof fn lemma_spans_in_part(t: Seq<u8>, x: int, y: int, p: int, kidx: int)
    requires
        0 <= x < y <= token_spans(t).len(),
        x <= kidx <= y,
        token_spans(t)[x].start <= p <= token_spans(t)[y - 1].end,
        spans_from(t, p) == token_spans(t).subrange(kidx, token_spans(t).len() as int),
        kidx == y ==> p == token_spans(t)[y - 1].end,
    ensures
        spans_from(t.subrange(token_spans(t)[x].start, token_spans(t)[y - 1].end), p - token_spans(
            t,
        )[x].start) == shifted(token_spans(t).subrange(kidx, y), token_spans(t)[x].start),
    decreases token_spans(t)[y - 1].end - p,
{
    let spans = token_spans(t);
    let m = spans.len() as int;
    let lo = spans[x].start;
    let hi = spans[y - 1].end;
    let u = t.subrange(lo, hi);
    let tail = spans.subrange(kidx, m);
    lemma_token_spans_in_order(t);
    lemma_spans_from_in_order(t, p);
    if kidx < m {
        assert(tail[0] == spans[kidx]);
    }
    if p == hi {
        assert(kidx == y);
        assert(spans_from(u, p - lo) =~= shifted(spans.subrange(kidx, y), lo));
    } else if space_len(t, p) > 0 {
        let next = p + space_len(t, p);
        assert(spans_from(t, p) == spans_from(t, next));
        lemma_spans_from_in_order(t, next);
        assert(next <= spans[kidx].start);
        lemma_space_len_in_part(t, lo, hi, p);
        assert(spans_from(u, p - lo) == spans_from(u, next - lo));
        lemma_spans_in_part(t, x, y, next, kidx);
    } else {
        let e = word_end(t, p + 1);
        lemma_word_end_bounds(t, p + 1);
        let rest = spans_from(t, e);
        assert(spans_from(t, p) == seq![Span { start: p, end: e }] + rest);
        assert(spans[kidx] == Span { start: p, end: e });
        assert(rest =~= spans.subrange(kidx + 1, m)) by {
            assert forall|j: int| 0 <= j < rest.len() implies rest[j] == spans.subrange(kidx + 1, m)[j] by {
                assert(rest[j] == tail[j + 1]);
            }
        }
        assert(e <= hi);
        if e < hi {
            assert(kidx + 1 < y);
            let after = e + space_len(t, e);
            assert(rest == spans_from(t, after));
            lemma_spans_from_in_order(t, after);
            assert(rest[0] == spans[kidx + 1]);
            assert(after <= spans[kidx + 1].start);
        }
        lemma_space_len_in_part(t, lo, hi, p);
        lemma_word_end_in_part(t, lo, hi, p + 1, e);
        assert(spans_from(u, p - lo) == seq![Span { start: p - lo, end: e - lo }] + spans_from(
            u,
            e - lo,
        ));
        lemma_spans_in_part(t, x, y, e, kidx + 1);
        assert(spans_from(u, p - lo) =~= shifted(spans.subrange(kidx, y), lo));
    }
}

/// The tokens of the text that a run of tokens covers are the tokens of the
/// run, counted from the start of that text.
pub proof fn lemma_tokens_of_span(t: Seq<u8>, x: int, y: int)
    requires
        0 <= x < y <= token_spans(t).len(),
    ensures
        token_spans(span_text(t, token_spans(t).subrange(x, y))) == shifted(
            token_spans(t).subrange(x, y),
            token_spans(t)[x].start,
        ),
{
    let spans = token_spans(t);
    let run = spans.subrange(x, y);
    assert(run.first() == spans[x]);
    assert(run.last() == spans[y - 1]);
    lemma_token_spans_in_order(t);
    lemma_spans_from_token_start(t, 0, x);
    lemma_spans_in_part(t, x, y, spans[x].start, x);
}

/// The tokens of a text as a `smallvec::SmallVec` with room for 32 of them
/// before it allocates.
#[verifier::external_body]
pub struct TokenVec {
    inner: SmallVec<[Token; 32]>,
}

/// The tokens that a `TokenVec` holds, in the order in which they were pushed.
pub uninterp spec fn token_vec_items(v: TokenVec) -> Seq<Token>;

impl View for TokenVec {
    type V = Seq<Token>;

    open spec fn view(&self) -> Seq<Token> {
        token_vec_items(*self)
    }
}

/// `SmallVec::new`: the new vector holds nothing.
#[verifier::external_body]
fn token_vec_new() -> (v: TokenVec)
    ensures
        token_vec_items(v) == Seq::<Token>::empty(),
{
    TokenVec { inner: SmallVec::new() }
}

/// `SmallVec::push`: the item is appended and the others stay as they were.
#[verifier::external_body]
fn token_vec_push(v: &mut TokenVec, t: Token)
    ensures
        token_vec_items(*final(v)) == token_vec_items(*old(v)).push(t),
{
    v.inner.push(t)
}

/// `SmallVec::as_slice`: the slice holds the vector's items in order.
#[verifier::external_body]
fn token_vec_as_slice(v: &TokenVec) -> (s: &[Token])
    ensures
        s@ == token_vec_items(*v),
{
    v.inner.as_slice()
}

impl TokenVec {
    /// The tokens as a slice.
    pub fn as_slice(&self) -> (s: &[Token])
        ensures
            s@ == self@,
    {
        token_vec_as_slice(self)
    }

    /// The number of tokens.
    pub fn len(&self) -> (n: usize)
        ensures
            n == self@.len(),
    {
        token_vec_as_slice(self).len()
    }

    /// Whether there is no token.
    pub fn is_empty(&self) -> (b: bool)
        ensures
            b == (self@.len() == 0),
    {
        token_vec_as_slice(self).len() == 0
    }
}

/// The width of the white-space character that starts at byte `i`, or 0.
pub fn space_width(s: &[u8], i: usize) -> (w: usize)
    requires
        i < s@.len(),
    ensures
        w == space_len(s@, i as int),
{
    let n = s.len();
    let b0 = s[i];
    if (b0 >= 0x09 && b0 <= 0x0D) || b0 == 0x20 {
        1
    } else if b0 == 0xC2 {
        if n - i > 1 && (s[i + 1] == 0x85 || s[i + 1] == 0xA0) {
            2
        } else {
            0
        }
    } else if b0 == 0xE1 {
        if n - i > 2 && s[i + 1] == 0x9A && s[i + 2] == 0x80 {
            3
        } else {
            0
        }
    } else if b0 == 0xE2 {
        if n - i > 2 {
            let b1 = s[i + 1];
            let b2 = s[i + 2];
            if b1 == 0x80 && ((b2 >= 0x80 && b2 <= 0x8A) || b2 == 0xA8 || b2 == 0xA9 || b2 == 0xAF) {
                3
            } else if b1 == 0x81 && b2 == 0x9F {
                3
            } else {
                0
            }
        } else {
            0
        }
    } else if b0 == 0xE3 {
        if n - i > 2 && s[i + 1] == 0x80 && s[i + 2] == 0x80 {
            3
        } else {
            0
        }
    } else {
        0
    }
}

/// Splits a text at white space. The result holds the byte range of each
/// token, in order; a text that is empty or all white space gives none.
pub fn tokenize(s: &[u8]) -> (v: TokenVec)
    ensures
        spans_of(v@) == token_spans(s@),
{
    let n = s.len();
    let mut v = token_vec_new();
    let mut i: usize = 0;
    assert(spans_of(v@) + spans_from(s@, 0) =~= token_spans(s@));
    while i < n
        invariant
            n == s@.len(),
            i <= n,
            spans_of(v@) + spans_from(s@, i as int) == token_spans(s@),
        decreases n - i,
    {
        let w = space_width(s, i);
        if w > 0 {
            i = i + w;
        } else {
            let start = i;
            let mut j: usize = i + 1;
            while j < n && space_width(s, j) == 0
                invariant
                    n == s@.len(),
                    start < j <= n,
                    word_end(s@, start + 1) == word_end(s@, j as int),
                decreases n - j,
            {
                j = j + 1;
            }
            let ghost before = v@;
            let t = Token { start, end: j };
            token_vec_push(&mut v, t);
            proof {
                assert(spans_of(v@) =~= spans_of(before) + seq![t@]);
                assert(spans_from(s@, start as int) == seq![t@] + spans_from(s@, j as int));
                assert(spans_of(v@) + spans_from(s@, j as int) =~= spans_of(before) + spans_from(
                    s@,
                    start as int,
                ));
            }
            i = j;
        }
    }
    assert(spans_of(v@) + spans_from(s@, i as int) =~= spans_of(v@));
    v
}

/// The slice of `haystack` that a run of its tokens covers: from the first
/// token's start to the last token's end.
pub fn span_from_tokens<'a>(haystack: &'a [u8], toks: &[Token]) -> (out: &'a [u8])
    requires
        toks@.len() > 0 ==> toks@.first().start <= toks@.last().end <= haystack@.len(),
    ensures
        out@ == span_text(haystack@, spans_of(toks@)),
{
    let n = toks.len();
    if n == 0 {
        return slice_subrange(haystack, 0, 0);
    }
    let first = toks[0];
    let last = toks[n - 1];
    assert(spans_of(toks@).first() == first@);
    assert(spans_of(toks@).last() == last@);
    slice_subrange(haystack, first.start, last.end)
}

/// A text with its tokens, found once and used by every later step.
pub struct Prepared<'a> {
    pub raw: &'a [u8],
    pub tokens: TokenVec,
}

impl<'a> Prepared<'a> {
    /// Whether `tokens` holds the tokens of `raw`.
    pub open spec fn wf(&self) -> bool {
        spans_of(self.tokens@) == token_spans(self.raw@)
    }

    /// Tokenizes `s`.
    pub fn new(s: &'a [u8]) -> (p: Self)
        ensures
            p.wf(),
            p.raw@ == s@,
    {
        Prepared { raw: s, tokens: tokenize(s) }
    }
}

} // verus!
