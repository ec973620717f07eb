//! The scorer: the similarity of two texts in hundredths.

use vstd::prelude::*;
use vstd::string::StringSliceAdditionalSpecFns;
use crate::blend::blend_score;
use crate::blend::blend_token_char;
use crate::blend::lemma_blend_score_bounds;
use crate::chars::MAX_TEXT_LEN;
use crate::chunk::aggregate_score;
use crate::chunk::aggregated_partial_similarity;
use crate::chunk::lemma_aggregate_score_bounds;
use crate::laws::lemma_empty_against_text;
use crate::laws::lemma_empty_pair;
use crate::ratio::hundredths;
use crate::ratio::lemma_hundredths_bounds;
use crate::ratio::round_hundredths;
use crate::ratio::SCALE;
use crate::text::token_spans;
use crate::text::Prepared;

verus! {

/// Of two texts, the one that is taken as the query: the one with fewer
/// tokens, and the first where both have as many.
pub open spec fn query_of(a: Seq<u8>, b: Seq<u8>) -> Seq<u8> {
    if token_spans(a).len() <= token_spans(b).len() {
        a
    } else {
        b
    }
}

/// Of two texts, the one that is taken as the target: the other one.
pub open spec fn target_of(a: Seq<u8>, b: Seq<u8>) -> Seq<u8> {
    if token_spans(a).len() <= token_spans(b).len() {
        b
    } else {
        a
    }
}

/// The score of a query against a target before rounding: the greater of
/// the aggregated score and the blend of the two texts taken whole.
pub open spec fn best_score(q: Seq<u8>, t: Seq<u8>) -> int {
    if aggregate_score(q, t) >= blend_score(q, t) {
        aggregate_score(q, t)
    } else {
        blend_score(q, t)
    }
}

/// The similarity of two texts, in hundredths.
pub open spec fn similarity(a: Seq<u8>, b: Seq<u8>) -> int {
    hundredths(best_score(query_of(a, b), target_of(a, b)))
}

/// The score before rounding lies between zero and `SCALE`.
pub proof fn lemma_best_score_bounds(q: Seq<u8>, t: Seq<u8>)
    ensures
        0 <= best_score(q, t) <= SCALE,
{
    lemma_aggregate_score_bounds(q, t);
    lemma_blend_score_bounds(q, t);
}

/// The similarity of two byte strings, in hundredths from 0 to 100.
pub fn similarity_of_bytes(a: &[u8], b: &[u8]) -> (h: u8)
    requires
        a@.len() <= MAX_TEXT_LEN,
        b@.len() <= MAX_TEXT_LEN,
    ensures
        h == similarity(a@, b@),
        h <= 100,
        a@.len() == 0 && b@.len() == 0 ==> h == 100,
        (a@.len() == 0) != (b@.len() == 0) ==> h == 0,
        token_spans(a@).len() != token_spans(b@).len() ==> h == similarity(b@, a@),
{
    proof {
        if a@.len() == 0 {
            assert(a@ =~= Seq::<u8>::empty());
        }
        if b@.len() == 0 {
            assert(b@ =~= Seq::<u8>::empty());
        }
        lemma_empty_pair();
        if a@.len() > 0 {
            lemma_empty_against_text(a@);
        }
        if b@.len() > 0 {
            lemma_empty_against_text(b@);
        }
    }
    let a_p = Prepared::new(a);
    let b_p = Prepared::new(b);
    let (prep_q, prep_t) = if a_p.tokens.len() <= b_p.tokens.len() {
        (a_p, b_p)
    } else {
        (b_p, a_p)
    };
    assert(prep_q.raw@ == query_of(a@, b@));
    assert(prep_t.raw@ == target_of(a@, b@));
    let partial = aggregated_partial_similarity(&prep_q, &prep_t);
    let blended = blend_token_char(&prep_q, &prep_t);
    let score = if partial >= blended {
        partial
    } else {
        blended
    };
    round_hundredths(score)
}

/// The similarity of two texts, in hundredths from 0 to 100.
///
/// The text with fewer tokens is the query and the other the target. The
/// result is the greater of the aggregated score of the query against the
/// target and the blend of the two texts taken whole, rounded to the nearest
/// hundredth.
pub fn similarity_score(a: &str, b: &str) -> (h: u8)
    requires
        a.spec_bytes().len() <= MAX_TEXT_LEN,
        b.spec_bytes().len() <= MAX_TEXT_LEN,
    ensures
        h == similarity(a.spec_bytes(), b.spec_bytes()),
        h <= 100,
        a.spec_bytes().len() == 0 && b.spec_bytes().len() == 0 ==> h == 100,
        (a.spec_bytes().len() == 0) != (b.spec_bytes().len() == 0) ==> h == 0,
        token_spans(a.spec_bytes()).len() != token_spans(b.spec_bytes()).len() ==> h == similarity(
            b.spec_bytes(),
            a.spec_bytes(),
        ),
{
    similarity_of_bytes(a.as_bytes(), b.as_bytes())
}

/// The similarity of two texts, where both are short enough to be compared,
/// and nothing where one is longer than `MAX_TEXT_LEN`.
pub fn checked_similarity_score(a: &str, b: &str) -> (r: Option<u8>)
    ensures
        r == if a.spec_bytes().len() <= MAX_TEXT_LEN && b.spec_bytes().len() <= MAX_TEXT_LEN {
            Some(similarity(a.spec_bytes(), b.spec_bytes()) as u8)
        } else {
            None
        },
        r matches Some(h) ==> h <= 100,
{
    if a.as_bytes().len() <= MAX_TEXT_LEN && b.as_bytes().len() <= MAX_TEXT_LEN {
        Some(similarity_score(a, b))
    } else {
        None
    }
}

} // verus!
