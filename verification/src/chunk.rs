//! The chunked aggregator: the target is cut into runs of tokens, the query
//! is scored against each by windows, and the scores are added up to one at
//! most.

use vstd::prelude::*;
use vstd::slice::slice_subrange;
use crate::chars::MAX_TEXT_LEN;
use crate::ratio::SCALE;
use crate::text::lemma_token_spans_in_order;
use crate::text::span_from_tokens;
use crate::text::span_text;
use crate::text::spans_in_order;
use crate::text::spans_of;
use crate::text::token_spans;
use crate::text::Prepared;
use crate::window::lemma_partial_score_bounds;
use crate::window::partial_score;
use crate::window::partial_similarity;

verus! {

/// The least number of tokens in a chunk, the target allowing.
pub const CHUNK_MIN: usize = 50;

/// The greatest number of tokens in a chunk.
pub const CHUNK_MAX: usize = 100;

/// The number of tokens in a chunk, for a query of `n` tokens and a target
/// of `m`: three times `n`, held between `CHUNK_MIN` and `CHUNK_MAX`, and no
/// more than the target has.
pub open spec fn chunk_len(n: int, m: int) -> int {
    let wanted = if 3 * n < CHUNK_MIN {
        CHUNK_MIN as int
    } else if 3 * n > CHUNK_MAX {
        CHUNK_MAX as int
    } else {
        3 * n
    };
    if wanted <= m {
        wanted
    } else {
        m
    }
}

/// Where the chunk of `c` tokens that starts at token `start` ends, in a
/// target of `m` tokens.
pub open spec fn chunk_end(start: int, c: int, m: int) -> int {
    if start + c <= m {
        start + c
    } else {
        m
    }
}

/// The text of the chunk of `c` tokens that starts at token `start` of `t`.
pub open spec fn chunk_text(t: Seq<u8>, start: int, c: int) -> Seq<u8> {
    span_text(t, token_spans(t).subrange(start, chunk_end(start, c, token_spans(t).len() as int)))
}

/// The sum of the window scores of the chunks of `c` tokens from token
/// `start` on.
pub open spec fn chunk_sum(q: Seq<u8>, t: Seq<u8>, c: int, start: int) -> int
    decreases token_spans(t).len() - start,
{
    if 0 < c && 0 <= start < token_spans(t).len() {
        partial_score(q, chunk_text(t, start, c)) + chunk_sum(
            q,
            t,
            c,
            chunk_end(start, c, token_spans(t).len() as int),
        )
    } else {
        0
    }
}

/// The aggregated score of a query against a target: the sum of the window
/// scores of the target's chunks, and `SCALE` at most. A target without a
/// token scores zero.
pub open spec fn aggregate_score(q: Seq<u8>, t: Seq<u8>) -> int {
    let n = token_spans(q).len() as int;
    let m = token_spans(t).len() as int;
    if m == 0 {
        0
    } else if chunk_sum(q, t, chunk_len(n, m), 0) >= SCALE {
        SCALE as int
    } else {
        chunk_sum(q, t, chunk_len(n, m), 0)
    }
}

/// The text of a chunk lies inside the target and is not empty.
pub proof fn lemma_chunk_text_len(t: Seq<u8>, start: int, c: int)
    requires
        0 < c,
        0 <= start < token_spans(t).len(),
    ensures
        0 < chunk_text(t, start, c).len() <= t.len(),
        chunk_text(t, start, c) == t.subrange(
            token_spans(t)[start].start,
            token_spans(t)[chunk_end(start, c, token_spans(t).len() as int) - 1].end,
        ),
{
    lemma_token_spans_in_order(t);
    let spans = token_spans(t);
    let end = chunk_end(start, c, spans.len() as int);
    let run = spans.subrange(start, end);
    assert(run.first() == spans[start]);
    assert(run.last() == spans[end - 1]);
}

/// A sum of chunk scores is not negative.
pub proof fn lemma_chunk_sum_bounds(q: Seq<u8>, t: Seq<u8>, c: int, start: int)
    ensures
        0 <= chunk_sum(q, t, c, start),
    decreases token_spans(t).len() - start,
{
    if 0 < c && 0 <= start < token_spans(t).len() {
        lemma_chunk_text_len(t, start, c);
        lemma_partial_score_bounds(q, chunk_text(t, start, c));
        lemma_chunk_sum_bounds(q, t, c, chunk_end(start, c, token_spans(t).len() as int));
    }
}

/// An aggregated score lies between zero and `SCALE`.
pub proof fn lemma_aggregate_score_bounds(q: Seq<u8>, t: Seq<u8>)
    ensures
        0 <= aggregate_score(q, t) <= SCALE,
{
    let n = token_spans(q).len() as int;
    let m = token_spans(t).len() as int;
    lemma_chunk_sum_bounds(q, t, chunk_len(n, m), 0);
}

/// The aggregated score of a prepared query against a prepared target.
pub fn aggregated_partial_similarity(query: &Prepared<'_>, target: &Prepared<'_>) -> (score: u64)
    requires
        query.wf(),
        target.wf(),
        query.raw@.len() <= MAX_TEXT_LEN,
        target.raw@.len() <= MAX_TEXT_LEN,
    ensures
        score == aggregate_score(query.raw@, target.raw@),
        score <= SCALE,
{
    let toks = target.tokens.as_slice();
    let m = toks.len();
    if m == 0 {
        return 0;
    }
    let n = query.tokens.len();
    let wanted = if n > CHUNK_MAX / 3 {
        CHUNK_MAX
    } else if 3 * n < CHUNK_MIN {
        CHUNK_MIN
    } else {
        3 * n
    };
    let c = if wanted <= m {
        wanted
    } else {
        m
    };
    assert(c == chunk_len(n as int, m as int));
    proof {
        lemma_token_spans_in_order(target.raw@);
    }
    let mut total: u64 = 0;
    let mut start: usize = 0;
    while start < m
        invariant
            query.raw@.len() <= MAX_TEXT_LEN,
            target.raw@.len() <= MAX_TEXT_LEN,
            m == toks@.len(),
            0 < c <= m,
            start <= m,
            spans_of(toks@) == token_spans(target.raw@),
            spans_in_order(token_spans(target.raw@), target.raw@.len() as int),
            total < SCALE,
            total + chunk_sum(query.raw@, target.raw@, c as int, start as int) == chunk_sum(
                query.raw@,
                target.raw@,
                c as int,
                0,
            ),
            aggregate_score(query.raw@, target.raw@) == if chunk_sum(
                query.raw@,
                target.raw@,
                c as int,
                0,
            ) >= SCALE {
                SCALE as int
            } else {
                chunk_sum(query.raw@, target.raw@, c as int, 0)
            },
        decreases m - start,
    {
        let end = if m - start > c {
            start + c
        } else {
            m
        };
        let chunk = slice_subrange(toks, start, end);
        proof {
            lemma_chunk_text_len(target.raw@, start as int, c as int);
            assert(spans_of(chunk@) =~= token_spans(target.raw@).subrange(start as int, end as int));
            assert(chunk@.first()@ == token_spans(target.raw@)[start as int]);
            assert(chunk@.last()@ == token_spans(target.raw@)[end - 1]);
            lemma_chunk_sum_bounds(query.raw@, target.raw@, c as int, end as int);
        }
        let span = span_from_tokens(target.raw, chunk);
        total = total + partial_similarity(query.raw, span);
        if total >= SCALE {
            return SCALE;
        }
        start = end;
    }
    total
}

} // verus!
