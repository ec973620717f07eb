//! What holds of every comparison.

use vstd::prelude::*;
use crate::bag::has_space_byte;
use crate::blend::blend_score;
use crate::blend::lemma_blend_score_bounds;
use crate::blend::lemma_blend_score_empty;
use crate::blend::lemma_blend_score_self;
use crate::chunk::aggregate_score;
use crate::chunk::chunk_end;
use crate::chunk::chunk_len;
use crate::chunk::chunk_sum;
use crate::chunk::chunk_text;
use crate::chunk::lemma_aggregate_score_bounds;
use crate::chunk::lemma_chunk_sum_bounds;
use crate::chunk::lemma_chunk_text_len;
use crate::ratio::hundredths;
use crate::ratio::lemma_hundredths_bounds;
use crate::ratio::SCALE;
use crate::scorer::best_score;
use crate::scorer::lemma_best_score_bounds;
use crate::scorer::query_of;
use crate::scorer::similarity;
use crate::scorer::target_of;
use crate::text::lemma_token_spans_in_order;
use crate::text::lemma_tokens_of_span;
use crate::text::span_text;
use crate::text::token_spans;
use crate::text::Span;
use crate::window::is_window;
use crate::window::lemma_best_window;
use crate::window::lemma_partial_score_bounds;
use crate::window::lemma_window_text_len;
use crate::window::window_max;
use crate::window::window_min;
use crate::window::window_score;
use crate::window::window_text;
use crate::window::MAX_QUERY_TOKENS;
use crate::window::partial_score;

verus! {

/// Bounds: the similarity of two texts lies between 0 and 100 hundredths.
pub proof fn lemma_similarity_bounds(a: Seq<u8>, b: Seq<u8>)
    ensures
        0 <= similarity(a, b) <= 100,
{
    lemma_best_score_bounds(query_of(a, b), target_of(a, b));
    lemma_hundredths_bounds(best_score(query_of(a, b), target_of(a, b)));
}

/// Identity: a text is wholly like itself, unless it holds a plain space and
/// no token.
pub proof fn lemma_identity(s: Seq<u8>)
    requires
        token_spans(s).len() > 0 || !has_space_byte(s),
    ensures
        similarity(s, s) == 100,
{
    lemma_blend_score_self(s);
    lemma_aggregate_score_bounds(s, s);
    lemma_hundredths_bounds(best_score(s, s));
}

/// Two empty texts are wholly alike.
pub proof fn lemma_empty_pair()
    ensures
        similarity(Seq::<u8>::empty(), Seq::<u8>::empty()) == 100,
{
    lemma_identity(Seq::<u8>::empty());
}

/// Against the empty query every chunk of a target scores zero.
pub proof fn lemma_chunk_sum_of_empty_query(t: Seq<u8>, c: int, start: int)
    ensures
        chunk_sum(Seq::<u8>::empty(), t, c, start) == 0,
    decreases token_spans(t).len() - start,
{
    let e = Seq::<u8>::empty();
    if 0 < c && 0 <= start < token_spans(t).len() {
        lemma_token_spans_in_order(e);
        lemma_chunk_text_len(t, start, c);
        lemma_blend_score_empty(chunk_text(t, start, c));
        lemma_chunk_sum_of_empty_query(t, c, chunk_end(start, c, token_spans(t).len() as int));
    }
}

/// The empty text is not at all like a text that is not empty, whichever
/// comes first.
pub proof fn lemma_empty_against_text(s: Seq<u8>)
    requires
        0 < s.len(),
    ensures
        similarity(Seq::<u8>::empty(), s) == 0,
        similarity(s, Seq::<u8>::empty()) == 0,
{
    let e = Seq::<u8>::empty();
    lemma_token_spans_in_order(e);
    lemma_blend_score_empty(s);
    let n = token_spans(e).len() as int;
    let m = token_spans(s).len() as int;
    lemma_chunk_sum_of_empty_query(s, chunk_len(n, m), 0);
    assert(best_score(e, s) == 0);
    assert(best_score(s, e) == 0);
}

/// Orientation: where two texts differ in their number of tokens, the
/// similarity does not depend on which comes first.
pub proof fn lemma_order_is_free(a: Seq<u8>, b: Seq<u8>)
    requires
        token_spans(a).len() != token_spans(b).len(),
    ensures
        similarity(a, b) == similarity(b, a),
{
}

/// A sum of chunk scores is no less than the score of any one chunk that it
/// takes in: the `k`-th after the chunk that starts at token `start`.
pub proof fn lemma_chunk_sum_covers(q: Seq<u8>, t: Seq<u8>, c: int, start: int, k: int)
    requires
        0 < c,
        0 <= start,
        0 <= k,
        start + k * c < token_spans(t).len(),
    ensures
        partial_score(q, chunk_text(t, start + k * c, c)) <= chunk_sum(q, t, c, start),
    decreases k,
{
    let m = token_spans(t).len() as int;
    assert(k * c >= 0) by (nonlinear_arith)
        requires
            k >= 0,
            c > 0,
    ;
    lemma_chunk_sum_bounds(q, t, c, chunk_end(start, c, m));
    lemma_chunk_text_len(t, start, c);
    lemma_partial_score_bounds(q, chunk_text(t, start, c));
    if k > 0 {
        assert(start + c + (k - 1) * c == start + k * c) by (nonlinear_arith);
        assert((k - 1) * c >= 0) by (nonlinear_arith)
            requires
                k >= 1,
                c > 0,
        ;
        lemma_chunk_sum_covers(q, t, c, start + c, k - 1);
    } else {
        assert(k * c == 0) by (nonlinear_arith)
            requires
                k == 0,
        ;
    }
}

/// A sum of chunk scores is no less than the scores of any two of its chunks
/// together.
pub proof fn lemma_chunk_sum_covers_pair(q: Seq<u8>, t: Seq<u8>, c: int, start: int, i: int, j: int)
    requires
        0 < c,
        0 <= start,
        0 <= i < j,
        start + j * c < token_spans(t).len(),
    ensures
        partial_score(q, chunk_text(t, start + i * c, c)) + partial_score(
            q,
            chunk_text(t, start + j * c, c),
        ) <= chunk_sum(q, t, c, start),
    decreases i,
{
    let m = token_spans(t).len() as int;
    assert(start + c + (j - 1) * c == start + j * c) by (nonlinear_arith);
    assert(start + c + (i - 1) * c == start + i * c) by (nonlinear_arith);
    assert((j - 1) * c >= 0 && i * c >= 0) by (nonlinear_arith)
        requires
            j >= 1,
            i >= 0,
            c > 0,
    ;
    lemma_chunk_text_len(t, start, c);
    lemma_partial_score_bounds(q, chunk_text(t, start, c));
    if i == 0 {
        assert(i * c == 0) by (nonlinear_arith)
            requires
                i == 0,
        ;
        lemma_chunk_sum_covers(q, t, c, start + c, j - 1);
    } else {
        lemma_chunk_sum_covers_pair(q, t, c, start + c, i - 1, j - 1);
    }
}

/// Chunking credit: the aggregated score is no less than what two different
/// chunks of the target score together, as far as that is not more than
/// `SCALE`, and it is `SCALE` where they score that much together. So it is
/// no less than what either alone scores, and more where both score
/// something.
pub proof fn lemma_aggregate_adds_chunks(q: Seq<u8>, t: Seq<u8>, i: int, j: int)
    requires
        0 <= i < j,
        j * chunk_len(token_spans(q).len() as int, token_spans(t).len() as int) < token_spans(t).len(),
    ensures
        ({
            let c = chunk_len(token_spans(q).len() as int, token_spans(t).len() as int);
            let one = partial_score(q, chunk_text(t, i * c, c));
            let other = partial_score(q, chunk_text(t, j * c, c));
            &&& 0 <= one <= SCALE
            &&& 0 <= other <= SCALE
            &&& aggregate_score(q, t) >= one
            &&& aggregate_score(q, t) >= other
            &&& aggregate_score(q, t) >= if one + other <= SCALE {
                one + other
            } else {
                SCALE as int
            }
            &&& one + other >= SCALE ==> aggregate_score(q, t) == SCALE
            &&& one > 0 && other > 0 && one < SCALE && other < SCALE ==> aggregate_score(q, t) > one
                && aggregate_score(q, t) > other
        }),
{
    let m = token_spans(t).len() as int;
    let c = chunk_len(token_spans(q).len() as int, m);
    assert(c > 0) by {
        if m <= 0 {
            assert(j * c < 0);
            assert(j * c == 0) by (nonlinear_arith)
                requires
                    c == 0 || m == 0,
                    c == m || m > 0,
            ;
        }
    }
    assert(0 <= i * c < j * c) by (nonlinear_arith)
        requires
            0 <= i < j,
            c > 0,
    ;
    lemma_chunk_sum_covers_pair(q, t, c, 0, i, j);
    lemma_chunk_text_len(t, i * c, c);
    lemma_chunk_text_len(t, j * c, c);
    lemma_partial_score_bounds(q, chunk_text(t, i * c, c));
    lemma_partial_score_bounds(q, chunk_text(t, j * c, c));
}

/// Containment: a query of 2 to `MAX_QUERY_TOKENS` tokens that is the text
/// of a run of tokens of the target, the run lying in one chunk (the `k`-th),
/// scores 100; so no other target scores more against it, the same target
/// without the run neither.
pub proof fn lemma_contained_query(q: Seq<u8>, t: Seq<u8>, x: int, k: int)
    requires
        2 <= token_spans(q).len() <= MAX_QUERY_TOKENS,
        0 <= x,
        x + token_spans(q).len() <= token_spans(t).len(),
        q == span_text(t, token_spans(t).subrange(x, x + token_spans(q).len())),
        0 <= k,
        k * chunk_len(token_spans(q).len() as int, token_spans(t).len() as int) <= x,
        x + token_spans(q).len() <= (k + 1) * chunk_len(
            token_spans(q).len() as int,
            token_spans(t).len() as int,
        ),
    ensures
        similarity(q, t) == 100,
        forall|other: Seq<u8>| similarity(q, other) <= similarity(q, t),
{
    let spans = token_spans(t);
    let n = token_spans(q).len() as int;
    let m = spans.len() as int;
    let c = chunk_len(n, m);
    let s = k * c;
    assert(s >= 0 && (k + 1) * c == s + c) by (nonlinear_arith)
        requires
            s == k * c,
            k >= 0,
            c >= 0,
    ;
    let e = chunk_end(s, c, m);
    let chunk = chunk_text(t, s, c);
    let i = x - s;
    lemma_token_spans_in_order(t);
    lemma_chunk_text_len(t, s, c);
    lemma_tokens_of_span(t, s, e);
    let lo = spans[s].start;
    let inner = token_spans(chunk);
    assert(inner.len() == e - s);
    assert(is_window(chunk, i, n));
    lemma_window_text_len(chunk, i, n);
    assert(inner[i] == Span { start: spans[x].start - lo, end: spans[x].end - lo });
    assert(inner[i + n - 1] == Span { start: spans[x + n - 1].start - lo, end: spans[x + n - 1].end - lo });
    let run = spans.subrange(x, x + n);
    assert(run.first() == spans[x]);
    assert(run.last() == spans[x + n - 1]);
    assert(window_text(chunk, i, n) =~= q);
    lemma_blend_score_self(q);
    assert(window_score(q, chunk, i, n) == SCALE);
    let least = window_min(n);
    let most = window_max(n, e - s);
    assert(1 <= least <= n <= most <= e - s);
    lemma_best_window(q, chunk, least, most);
    assert(partial_score(q, chunk) == SCALE);
    lemma_chunk_sum_covers(q, t, c, 0, k);
    lemma_blend_score_bounds(q, t);
    lemma_hundredths_bounds(best_score(q, t));
    assert forall|other: Seq<u8>| similarity(q, other) <= similarity(q, t) by {
        lemma_similarity_bounds(q, other);
    }
}

} // verus!
