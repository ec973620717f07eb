//! The character metric: how alike two texts are byte by byte.
//!
//! Texts of nearly the same length are compared position by position; others
//! by their edit distance. Both counts come from `triple_accel`.

use vstd::prelude::*;
use vstd::slice::slice_subrange;
use crate::ratio::Fraction;
use crate::ratio::Ratio;

verus! {

/// The greatest difference in length at which two texts are still compared
/// position by position.
pub const HAMMING_WINDOW: usize = 2;

/// The least band of the edit distance: texts up to this length are given
/// this many edits.
pub const SHORT_STRING: usize = 64;

/// The longest text that is compared: the distance routines count in 32 bits
/// and double the shorter length.
pub const MAX_TEXT_LEN: usize = 0x7FFF_FFFF;

/// The number of positions at which two texts of one length differ.
pub open spec fn mismatches(a: Seq<u8>, b: Seq<u8>) -> nat
    recommends
        a.len() == b.len(),
    decreases a.len(),
{
    if a.len() == 0 || b.len() == 0 {
        0
    } else {
        mismatches(a.drop_last(), b.drop_last()) + if a.last() != b.last() {
            1nat
        } else {
            0nat
        }
    }
}

/// The least of three numbers.
pub open spec fn min3(x: nat, y: nat, z: nat) -> nat {
    if x <= y && x <= z {
        x
    } else if y <= z {
        y
    } else {
        z
    }
}

/// The Levenshtein distance of two texts: the least number of bytes to
/// insert, delete or replace that turns one into the other.
pub open spec fn edit_distance(a: Seq<u8>, b: Seq<u8>) -> nat
    decreases a.len() + b.len(),
{
    if a.len() == 0 {
        b.len()
    } else if b.len() == 0 {
        a.len()
    } else {
        min3(
            edit_distance(a.drop_last(), b) + 1,
            edit_distance(a, b.drop_last()) + 1,
            edit_distance(a.drop_last(), b.drop_last()) + if a.last() != b.last() {
                1nat
            } else {
                0nat
            },
        )
    }
}

/// The edit distance where it is at most `k`, and nothing where it is more.
pub open spec fn bounded_distance(a: Seq<u8>, b: Seq<u8>, k: int) -> Option<int> {
    if edit_distance(a, b) <= k {
        Some(edit_distance(a, b) as int)
    } else {
        None
    }
}

/// The band that the edit distance of two texts is sought in: the length of
/// the longer, and `SHORT_STRING` at least.
pub open spec fn band(a: Seq<u8>, b: Seq<u8>) -> int {
    let long = if a.len() >= b.len() {
        a.len()
    } else {
        b.len()
    };
    if long <= SHORT_STRING {
        SHORT_STRING as int
    } else {
        long as int
    }
}

/// How alike two texts are byte by byte, as a fraction.
///
/// Two empty texts are alike; an empty text and another are not at all.
/// Where the lengths differ by at most `HAMMING_WINDOW`, the front of the
/// longer is compared with the shorter position by position, and what the
/// longer has beyond that is left out. Otherwise the edit distance within
/// the band is set against the length of the longer; no distance within the
/// band gives zero.
pub open spec fn char_fraction(a: Seq<u8>, b: Seq<u8>) -> Fraction {
    let short = if a.len() <= b.len() {
        a.len() as int
    } else {
        b.len() as int
    };
    let long = if a.len() >= b.len() {
        a.len() as int
    } else {
        b.len() as int
    };
    if long == 0 {
        Fraction { num: 1, den: 1 }
    } else if short == 0 {
        Fraction { num: 0, den: 1 }
    } else if long - short <= HAMMING_WINDOW {
        Fraction { num: short - mismatches(a.take(short), b.take(short)), den: short }
    } else {
        match bounded_distance(a, b, band(a, b)) {
            Some(d) => Fraction { num: long - d, den: long },
            None => Fraction { num: 0, den: 1 },
        }
    }
}

/// Two texts differ at no more positions than they have.
pub proof fn lemma_mismatches_bound(a: Seq<u8>, b: Seq<u8>)
    requires
        a.len() == b.len(),
    ensures
        mismatches(a, b) <= a.len(),
    decreases a.len(),
{
    if a.len() > 0 {
        lemma_mismatches_bound(a.drop_last(), b.drop_last());
    }
}

/// A text differs from itself at no position.
pub proof fn lemma_mismatches_self(a: Seq<u8>)
    ensures
        mismatches(a, a) == 0,
    decreases a.len(),
{
    if a.len() > 0 {
        lemma_mismatches_self(a.drop_last());
    }
}

/// The number of differing positions does not depend on which text comes
/// first.
pub proof fn lemma_mismatches_symmetric(a: Seq<u8>, b: Seq<u8>)
    ensures
        mismatches(a, b) == mismatches(b, a),
    decreases a.len(),
{
    if a.len() > 0 && b.len() > 0 {
        lemma_mismatches_symmetric(a.drop_last(), b.drop_last());
    }
}

/// The edit distance is at most the length of the longer text.
pub proof fn lemma_edit_distance_bound(a: Seq<u8>, b: Seq<u8>)
    ensures
        edit_distance(a, b) <= a.len() || edit_distance(a, b) <= b.len(),
    decreases a.len() + b.len(),
{
    if a.len() > 0 && b.len() > 0 {
        lemma_edit_distance_bound(a.drop_last(), b.drop_last());
    }
}

/// The edit distance does not depend on which text comes first.
pub proof fn lemma_edit_distance_symmetric(a: Seq<u8>, b: Seq<u8>)
    ensures
        edit_distance(a, b) == edit_distance(b, a),
    decreases a.len() + b.len(),
{
    if a.len() > 0 && b.len() > 0 {
        lemma_edit_distance_symmetric(a.drop_last(), b);
        lemma_edit_distance_symmetric(a, b.drop_last());
        lemma_edit_distance_symmetric(a.drop_last(), b.drop_last());
    }
}

/// The band always holds the edit distance: the search in it never fails.
pub proof fn lemma_band_holds_distance(a: Seq<u8>, b: Seq<u8>)
    ensures
        bounded_distance(a, b, band(a, b)) == Some(edit_distance(a, b) as int),
{
    lemma_edit_distance_bound(a, b);
}

/// The character metric lies between zero and one.
pub proof fn lemma_char_fraction_wf(a: Seq<u8>, b: Seq<u8>)
    ensures
        char_fraction(a, b).wf(),
{
    let short = if a.len() <= b.len() {
        a.len() as int
    } else {
        b.len() as int
    };
    lemma_mismatches_bound(a.take(short), b.take(short));
    lemma_band_holds_distance(a, b);
    lemma_edit_distance_bound(a, b);
}

/// A text that is not empty is wholly like itself.
pub proof fn lemma_char_fraction_self(a: Seq<u8>)
    ensures
        char_fraction(a, a).num == char_fraction(a, a).den,
{
    assert(a.take(a.len() as int) =~= a);
    lemma_mismatches_self(a);
}

/// The character metric does not depend on which text comes first.
pub proof fn lemma_char_fraction_symmetric(a: Seq<u8>, b: Seq<u8>)
    ensures
        char_fraction(a, b) == char_fraction(b, a),
{
    let short = if a.len() <= b.len() {
        a.len() as int
    } else {
        b.len() as int
    };
    lemma_mismatches_symmetric(a.take(short), b.take(short));
    lemma_edit_distance_symmetric(a, b);
}

/// `triple_accel::hamming::hamming`: the number of positions at which two
/// byte strings of one length differ. It panics on two lengths, and counts in
/// 32 bits.
#[verifier::external_body]
fn hamming_count(a: &[u8], b: &[u8]) -> (d: u32)
    requires
        a@.len() == b@.len(),
        a@.len() <= u32::MAX,
    ensures
        d == mismatches(a@, b@),
{
    triple_accel::hamming::hamming(a, b)
}

/// `triple_accel::levenshtein::levenshtein_simd_k`: the Levenshtein
/// distance of two byte strings where it is at most `k`, and `None` where it
/// is more. The lengths are held under 2^31, within which the routine's own
/// 32-bit bound on the number of edits is exact.
#[verifier::external_body]
fn levenshtein_within(a: &[u8], b: &[u8], k: u32) -> (r: Option<u32>)
    requires
        a@.len() <= MAX_TEXT_LEN,
        b@.len() <= MAX_TEXT_LEN,
    ensures
        r matches Some(d) ==> bounded_distance(a@, b@, k as int) == Some(d as int),
        r is None ==> bounded_distance(a@, b@, k as int) is None,
{
    triple_accel::levenshtein::levenshtein_simd_k(a, b, k)
}

/// The character metric of two texts.
pub fn char_similarity(a: &[u8], b: &[u8]) -> (r: Ratio)
    requires
        a@.len() <= MAX_TEXT_LEN,
        b@.len() <= MAX_TEXT_LEN,
    ensures
        r@ == char_fraction(a@, b@),
        r.wf(),
{
    proof {
        lemma_char_fraction_wf(a@, b@);
    }
    let a_len = a.len();
    let b_len = b.len();
    let short = if a_len <= b_len {
        a_len
    } else {
        b_len
    };
    let long = if a_len >= b_len {
        a_len
    } else {
        b_len
    };
    if long == 0 {
        return Ratio { num: 1, den: 1 };
    }
    if short == 0 {
        return Ratio { num: 0, den: 1 };
    }
    if long - short <= HAMMING_WINDOW {
        let a_front = slice_subrange(a, 0, short);
        let b_front = slice_subrange(b, 0, short);
        let differing = hamming_count(a_front, b_front);
        proof {
            lemma_mismatches_bound(a_front@, b_front@);
        }
        return Ratio { num: short as u32 - differing, den: short as u32 };
    }
    let k: u32 = if long <= SHORT_STRING {
        SHORT_STRING as u32
    } else {
        long as u32
    };
    proof {
        lemma_band_holds_distance(a@, b@);
        lemma_edit_distance_bound(a@, b@);
    }
    match levenshtein_within(a, b, k) {
        Some(d) => Ratio { num: long as u32 - d, den: long as u32 },
        None => Ratio { num: 0, den: 1 },
    }
}

} // verus!
