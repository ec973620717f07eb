//! The blend of the token metric and the character metric of two texts.

use vstd::prelude::*;
use vstd::multiset::Multiset;
use crate::bag::has_space_byte;
use crate::bag::lemma_token_counts;
use crate::bag::shared_tokens;
use crate::bag::token_bag;
use crate::bag::lemma_token_fraction_self;
use crate::bag::lemma_token_fraction_symmetric;
use crate::bag::lemma_token_fraction_wf;
use crate::bag::token_fraction;
use crate::bag::token_jaccard_multiset;
use crate::chars::char_fraction;
use crate::chars::char_similarity;
use crate::chars::lemma_char_fraction_self;
use crate::chars::lemma_char_fraction_symmetric;
use crate::chars::lemma_char_fraction_wf;
use crate::chars::MAX_TEXT_LEN;
use crate::ratio::blend;
use crate::ratio::blend_of;
use crate::ratio::lemma_blend_bounds;
use crate::ratio::lemma_fixed_one;
use crate::ratio::lemma_fixed_zero;
use crate::ratio::lemma_weighted_one;
use crate::ratio::lemma_weighted_zero;
use crate::ratio::SCALE;
use crate::text::lemma_token_spans_in_order;
use crate::text::token_spans;
use crate::text::Prepared;

verus! {

/// The blended score of two texts: seven tenths of the token metric and
/// three tenths of the character metric, or the character metric alone where
/// the token metric does not apply.
pub open spec fn blend_score(a: Seq<u8>, b: Seq<u8>) -> int {
    blend_of(token_fraction(a, b), char_fraction(a, b))
}

/// A blended score lies between zero and `SCALE`.
pub proof fn lemma_blend_score_bounds(a: Seq<u8>, b: Seq<u8>)
    ensures
        0 <= blend_score(a, b) <= SCALE,
{
    lemma_token_fraction_wf(a, b);
    lemma_char_fraction_wf(a, b);
    lemma_blend_bounds(token_fraction(a, b), char_fraction(a, b));
}

/// A text blends with itself to `SCALE`, unless it holds a plain space and
/// no token.
pub proof fn lemma_blend_score_self(s: Seq<u8>)
    requires
        token_spans(s).len() > 0 || !has_space_byte(s),
    ensures
        blend_score(s, s) == SCALE,
{
    lemma_char_fraction_wf(s, s);
    lemma_char_fraction_self(s);
    lemma_token_fraction_wf(s, s);
    match token_fraction(s, s) {
        Some(t) => {
            lemma_token_counts(s, s);
            lemma_token_fraction_self(s);
            lemma_weighted_one(t, char_fraction(s, s));
        },
        None => {
            lemma_fixed_one(char_fraction(s, s));
        },
    }
}

/// The blended score does not depend on which text comes first.
pub proof fn lemma_blend_score_symmetric(a: Seq<u8>, b: Seq<u8>)
    ensures
        blend_score(a, b) == blend_score(b, a),
{
    lemma_token_fraction_symmetric(a, b);
    lemma_char_fraction_symmetric(a, b);
}

/// The empty text blends to zero with any text that is not empty.
pub proof fn lemma_blend_score_empty(s: Seq<u8>)
    requires
        0 < s.len(),
    ensures
        blend_score(Seq::<u8>::empty(), s) == 0,
        blend_score(s, Seq::<u8>::empty()) == 0,
{
    broadcast use vstd::multiset::group_multiset_axioms;

    let e = Seq::<u8>::empty();
    lemma_blend_score_symmetric(s, e);
    lemma_char_fraction_wf(e, s);
    lemma_token_fraction_wf(e, s);
    lemma_token_counts(e, s);
    lemma_token_spans_in_order(e);
    assert forall|x: Seq<u8>| shared_tokens(e, s).count(x) == 0 by {
        assert(token_bag(e).count(x) <= token_bag(e).len());
    }
    assert(shared_tokens(e, s) =~= Multiset::<Seq<u8>>::empty());
    match token_fraction(e, s) {
        Some(t) => {
            lemma_weighted_zero(t, char_fraction(e, s));
        },
        None => {
            lemma_fixed_zero(char_fraction(e, s));
        },
    }
}

/// The blended score of two texts.
pub fn blend_token_char_raw(a: &[u8], b: &[u8]) -> (score: u64)
    requires
        a@.len() <= MAX_TEXT_LEN,
        b@.len() <= MAX_TEXT_LEN,
    ensures
        score == blend_score(a@, b@),
        score <= SCALE,
{
    let token = token_jaccard_multiset(a, b);
    let chars = char_similarity(a, b);
    blend(token, chars)
}

/// The blended score of two prepared texts, each taken whole.
pub fn blend_token_char(a: &Prepared<'_>, b: &Prepared<'_>) -> (score: u64)
    requires
        a.raw@.len() <= MAX_TEXT_LEN,
        b.raw@.len() <= MAX_TEXT_LEN,
    ensures
        score == blend_score(a.raw@, b.raw@),
        score <= SCALE,
{
    blend_token_char_raw(a.raw, b.raw)
}

} // verus!
