//! The sliding-window matcher: the best blend of a short query with a run of
//! consecutive tokens of the target.

use vstd::prelude::*;
use vstd::slice::slice_subrange;
use crate::blend::blend_score;
use crate::blend::blend_token_char_raw;
use crate::blend::lemma_blend_score_bounds;
use crate::chars::MAX_TEXT_LEN;
use crate::ratio::SCALE;
use crate::text::lemma_token_spans_in_order;
use crate::text::span_from_tokens;
use crate::text::span_text;
use crate::text::spans_in_order;
use crate::text::spans_of;
use crate::text::token_spans;
use crate::text::tokenize;

verus! {

/// The most tokens that a query may have for windows to be tried.
pub const MAX_QUERY_TOKENS: usize = 20;

/// The most tokens in a window.
pub const MAX_WINDOW: usize = 30;

/// How far the size of a window may lie from the size of the query, in
/// tenths of the latter.
pub const WINDOW_PAD_TENTHS: usize = 3;

/// The padding for a query of `n` tokens: three tenths of `n`, rounded up.
pub open spec fn window_pad(n: int) -> int {
    (WINDOW_PAD_TENTHS * n + 9) / 10
}

/// The least window size for a query of `n` tokens.
pub open spec fn window_min(n: int) -> int {
    if n - window_pad(n) >= 1 {
        n - window_pad(n)
    } else {
        1
    }
}

/// The greatest window size for a query of `n` tokens and a target of `m`:
/// no more than `MAX_WINDOW` and no more than the target has.
pub open spec fn window_max(n: int, m: int) -> int {
    let padded = if n + window_pad(n) <= MAX_WINDOW {
        n + window_pad(n)
    } else {
        MAX_WINDOW as int
    };
    if padded <= m {
        padded
    } else {
        m
    }
}

/// Whether `w` tokens from the `i`-th on are a window of `t`.
pub open spec fn is_window(t: Seq<u8>, i: int, w: int) -> bool {
    0 <= i && 1 <= w && i + w <= token_spans(t).len()
}

/// The text of the window of `w` tokens that starts at the `i`-th token of
/// `t`: from the start of its first token to the end of its last.
pub open spec fn window_text(t: Seq<u8>, i: int, w: int) -> Seq<u8> {
    span_text(t, token_spans(t).subrange(i, i + w))
}

/// The blend of the query with one window of the target.
pub open spec fn window_score(q: Seq<u8>, t: Seq<u8>, i: int, w: int) -> int {
    blend_score(q, window_text(t, i, w))
}

/// The best score among the first `count` windows of `w` tokens, and zero
/// where there is none.
pub open spec fn best_at_size(q: Seq<u8>, t: Seq<u8>, w: int, count: int) -> int
    decreases count,
{
    if count <= 0 {
        0
    } else {
        let before = best_at_size(q, t, w, count - 1);
        let here = window_score(q, t, count - 1, w);
        if here > before {
            here
        } else {
            before
        }
    }
}

/// The best score among all windows of `lo` to `hi` tokens, and zero where
/// there is none.
pub open spec fn best_window(q: Seq<u8>, t: Seq<u8>, lo: int, hi: int) -> int
    decreases hi - lo + 1,
{
    if hi < lo {
        0
    } else {
        let before = best_window(q, t, lo, hi - 1);
        let here = best_at_size(q, t, hi, token_spans(t).len() - hi + 1);
        if here > before {
            here
        } else {
            before
        }
    }
}

/// The score of a query against a target by windows.
///
/// A query of one token or none, or of more than `MAX_QUERY_TOKENS`, is
/// blended with the whole target. Otherwise a target without a token scores
/// zero, and any other the best blend of the query with a window of the
/// target whose size lies within the padding of the query's.
pub open spec fn partial_score(q: Seq<u8>, t: Seq<u8>) -> int {
    let n = token_spans(q).len() as int;
    let m = token_spans(t).len() as int;
    if n <= 1 || n > MAX_QUERY_TOKENS {
        blend_score(q, t)
    } else if m == 0 {
        0
    } else {
        best_window(q, t, window_min(n), window_max(n, m))
    }
}

/// The text of a window lies inside the target.
pub proof fn lemma_window_text_len(t: Seq<u8>, i: int, w: int)
    requires
        is_window(t, i, w),
    ensures
        window_text(t, i, w).len() <= t.len(),
        window_text(t, i, w) == t.subrange(token_spans(t)[i].start, token_spans(t)[i + w - 1].end),
        0 <= token_spans(t)[i].start <= token_spans(t)[i + w - 1].end <= t.len(),
{
    lemma_token_spans_in_order(t);
    let spans = token_spans(t);
    let run = spans.subrange(i, i + w);
    assert(run.first() == spans[i]);
    assert(run.last() == spans[i + w - 1]);
}

/// The best score among windows of one size lies between zero and `SCALE`,
/// is no less than the score of any of them, and is the score of one of them
/// unless it is zero.
pub proof fn lemma_best_at_size(q: Seq<u8>, t: Seq<u8>, w: int, count: int)
    requires
        1 <= w,
        count <= token_spans(t).len() - w + 1,
    ensures
        0 <= best_at_size(q, t, w, count) <= SCALE,
        forall|i: int| 0 <= i < count ==> #[trigger] window_score(q, t, i, w) <= best_at_size(q, t, w, count),
        best_at_size(q, t, w, count) == 0 || exists|i: int|
            0 <= i < count && #[trigger] window_score(q, t, i, w) == best_at_size(q, t, w, count),
    decreases count,
{
    if count > 0 {
        lemma_best_at_size(q, t, w, count - 1);
        lemma_window_text_len(t, count - 1, w);
        lemma_blend_score_bounds(q, window_text(t, count - 1, w));
        let best = best_at_size(q, t, w, count);
        if best != 0 {
            if best == window_score(q, t, count - 1, w) {
            } else {
                let i = choose|i: int|
                    0 <= i < count - 1 && #[trigger] window_score(q, t, i, w) == best_at_size(
                        q,
                        t,
                        w,
                        count - 1,
                    );
                assert(window_score(q, t, i, w) == best);
            }
        }
    }
}

/// The best score among windows of several sizes lies between zero and
/// `SCALE`, is no less than the score of any of them, and is the score of
/// one of them unless it is zero.
pub proof fn lemma_best_window(q: Seq<u8>, t: Seq<u8>, lo: int, hi: int)
    requires
        1 <= lo,
        hi <= token_spans(t).len(),
    ensures
        0 <= best_window(q, t, lo, hi) <= SCALE,
        forall|w: int, i: int|
            lo <= w <= hi && is_window(t, i, w) ==> #[trigger] window_score(q, t, i, w) <= best_window(
                q,
                t,
                lo,
                hi,
            ),
        best_window(q, t, lo, hi) == 0 || exists|w: int, i: int|
            lo <= w <= hi && is_window(t, i, w) && #[trigger] window_score(q, t, i, w) == best_window(
                q,
                t,
                lo,
                hi,
            ),
    decreases hi - lo + 1,
{
    if hi >= lo {
        let count = token_spans(t).len() - hi + 1;
        lemma_best_window(q, t, lo, hi - 1);
        lemma_best_at_size(q, t, hi, count);
        let best = best_window(q, t, lo, hi);
        if best != 0 {
            if best == best_at_size(q, t, hi, count) {
                let i = choose|i: int|
                    0 <= i < count && #[trigger] window_score(q, t, i, hi) == best_at_size(
                        q,
                        t,
                        hi,
                        count,
                    );
                assert(is_window(t, i, hi) && window_score(q, t, i, hi) == best);
            } else {
                let (w, i) = choose|w: int, i: int|
                    lo <= w <= hi - 1 && is_window(t, i, w) && #[trigger] window_score(q, t, i, w)
                        == best_window(q, t, lo, hi - 1);
                assert(lo <= w <= hi && is_window(t, i, w) && window_score(q, t, i, w) == best);
            }
        }
    }
}

/// A score by windows lies between zero and `SCALE`.
pub proof fn lemma_partial_score_bounds(q: Seq<u8>, t: Seq<u8>)
    ensures
        0 <= partial_score(q, t) <= SCALE,
{
    let n = token_spans(q).len() as int;
    let m = token_spans(t).len() as int;
    lemma_blend_score_bounds(q, t);
    if !(n <= 1 || n > MAX_QUERY_TOKENS) && m != 0 {
        lemma_best_window(q, t, window_min(n), window_max(n, m));
    }
}

/// The score of a query against a target by windows.
pub fn partial_similarity(query: &[u8], target: &[u8]) -> (score: u64)
    requires
        query@.len() <= MAX_TEXT_LEN,
        target@.len() <= MAX_TEXT_LEN,
    ensures
        score == partial_score(query@, target@),
        score <= SCALE,
{
    let q_tokens = tokenize(query);
    let len_q = q_tokens.len();
    if len_q <= 1 || len_q > MAX_QUERY_TOKENS {
        return blend_token_char_raw(query, target);
    }
    let t_tokens = tokenize(target);
    let toks = t_tokens.as_slice();
    let m = toks.len();
    if m == 0 {
        return 0;
    }
    let pad = (WINDOW_PAD_TENTHS * len_q + 9) / 10;
    let win_min = if len_q > pad {
        len_q - pad
    } else {
        1
    };
    let padded = if len_q + pad <= MAX_WINDOW {
        len_q + pad
    } else {
        MAX_WINDOW
    };
    let win_max = if padded <= m {
        padded
    } else {
        m
    };
    proof {
        lemma_token_spans_in_order(target@);
        lemma_best_window(query@, target@, win_min as int, win_max as int);
    }
    let mut best: u64 = 0;
    let mut w = win_min;
    while w <= win_max
        invariant
            query@.len() <= MAX_TEXT_LEN,
            target@.len() <= MAX_TEXT_LEN,
            m == toks@.len(),
            spans_of(toks@) == token_spans(target@),
            spans_in_order(token_spans(target@), target@.len() as int),
            1 <= win_min <= w,
            w <= win_max + 1 || w == win_min,
            win_max <= m,
            win_max <= MAX_WINDOW,
            partial_score(query@, target@) == best_window(
                query@,
                target@,
                win_min as int,
                win_max as int,
            ),
            best == best_window(query@, target@, win_min as int, w - 1),
            best < SCALE,
            forall|x: int, i: int|
                win_min <= x <= win_max && is_window(target@, i, x) ==> #[trigger] window_score(
                    query@,
                    target@,
                    i,
                    x,
                ) <= best_window(query@, target@, win_min as int, win_max as int),
            best_window(query@, target@, win_min as int, win_max as int) <= SCALE,
        decreases win_max + 1 - w,
    {
        let mut i: usize = 0;
        let ghost before = best;
        while i <= m - w
            invariant
                query@.len() <= MAX_TEXT_LEN,
                target@.len() <= MAX_TEXT_LEN,
                m == toks@.len(),
                spans_of(toks@) == token_spans(target@),
                spans_in_order(token_spans(target@), target@.len() as int),
                1 <= win_min <= w <= win_max <= m,
                win_max <= MAX_WINDOW,
                i <= m - w + 1,
                partial_score(query@, target@) == best_window(
                    query@,
                    target@,
                    win_min as int,
                    win_max as int,
                ),
                before == best_window(query@, target@, win_min as int, w - 1),
                best == if best_at_size(query@, target@, w as int, i as int) > before {
                    best_at_size(query@, target@, w as int, i as int)
                } else {
                    before as int
                },
                best < SCALE,
                forall|x: int, i: int|
                    win_min <= x <= win_max && is_window(target@, i, x) ==> #[trigger] window_score(
                        query@,
                        target@,
                        i,
                        x,
                    ) <= best_window(query@, target@, win_min as int, win_max as int),
                best_window(query@, target@, win_min as int, win_max as int) <= SCALE,
            decreases m - w + 1 - i,
        {
            let slice = slice_subrange(toks, i, i + w);
            proof {
                lemma_window_text_len(target@, i as int, w as int);
                assert(spans_of(slice@) =~= token_spans(target@).subrange(i as int, i + w));
                assert(slice@.first()@ == token_spans(target@)[i as int]);
                assert(slice@.last()@ == token_spans(target@)[i + w - 1]);
            }
            let span = span_from_tokens(target, slice);
            let cand = blend_token_char_raw(query, span);
            assert(cand == window_score(query@, target@, i as int, w as int));
            if cand > best {
                best = cand;
                if best >= SCALE {
                    assert(is_window(target@, i as int, w as int));
                    return SCALE;
                }
            }
            i = i + 1;
        }
        w = w + 1;
    }
    best
}

} // verus!
