//! Exact fractions and fixed-point scores.
//!
//! The two metrics give exact fractions. A score is a fraction of one written
//! in fixed point: a whole number of billionths, rounded down. The result of a
//! comparison is a whole number of hundredths, rounded to the nearest.

use vstd::prelude::*;
use vstd::arithmetic::div_mod::lemma_div_is_ordered;
use vstd::arithmetic::div_mod::lemma_div_multiples_vanish;
use vstd::arithmetic::div_mod::lemma_div_pos_is_pos;

verus! {

/// The score that stands for one: scores count billionths.
pub const SCALE: u64 = 1_000_000_000;

/// The number of steps between zero and one in a result: hundredths.
pub const ROUND_TO: u64 = 100;

/// The share of the token metric in a blend, in tenths.
pub const TOKEN_WEIGHT: u64 = 7;

/// The share of the character metric in a blend, in tenths.
pub const CHAR_WEIGHT: u64 = 3;

/// A fraction of two integers.
pub struct Fraction {
    pub num: int,
    pub den: int,
}

impl Fraction {
    /// Whether the fraction lies between zero and one.
    pub open spec fn wf(self) -> bool {
        0 <= self.num <= self.den && 0 < self.den
    }
}

/// A fraction between zero and one, as a metric returns it.
#[derive(Clone, Copy, Debug)]
pub struct Ratio {
    pub num: u32,
    pub den: u32,
}

impl View for Ratio {
    type V = Fraction;

    open spec fn view(&self) -> Fraction {
        Fraction { num: self.num as int, den: self.den as int }
    }
}

impl Ratio {
    /// Whether the ratio lies between zero and one.
    pub open spec fn wf(&self) -> bool {
        self@.wf()
    }
}

/// A fraction as a score: `SCALE * num / den`, rounded down.
pub open spec fn fixed(f: Fraction) -> int {
    (SCALE * f.num) / f.den
}

/// Seven tenths of `t` and three tenths of `c` as a score: the exact sum,
/// rounded down once.
pub open spec fn weighted(t: Fraction, c: Fraction) -> int {
    (SCALE * (TOKEN_WEIGHT * t.num * c.den + CHAR_WEIGHT * c.num * t.den)) / (10 * t.den * c.den)
}

/// The blend of the two metrics: the weighted sum where the token metric
/// applies, the character metric alone where it does not.
pub open spec fn blend_of(token: Option<Fraction>, chars: Fraction) -> int {
    match token {
        Some(t) => weighted(t, chars),
        None => fixed(chars),
    }
}

/// A score in hundredths, rounded to the nearest, a half upwards.
pub open spec fn hundredths(score: int) -> int {
    (score * ROUND_TO + SCALE / 2) / (SCALE as int)
}

/// A fraction between zero and one gives a score between zero and `SCALE`.
pub proof fn lemma_fixed_bounds(f: Fraction)
    requires
        f.wf(),
    ensures
        0 <= fixed(f) <= SCALE,
{
    let s = SCALE as int;
    assert(0 <= s * f.num <= s * f.den) by (nonlinear_arith)
        requires
            0 <= f.num <= f.den,
            s == 1_000_000_000,
    ;
    lemma_div_is_ordered(s * f.num, s * f.den, f.den);
    lemma_div_multiples_vanish(s, f.den);
    lemma_div_pos_is_pos(s * f.num, f.den);
}

/// A fraction equal to one gives the score `SCALE`.
pub proof fn lemma_fixed_one(f: Fraction)
    requires
        f.wf(),
        f.num == f.den,
    ensures
        fixed(f) == SCALE,
{
    lemma_div_multiples_vanish(SCALE as int, f.den);
}

/// A fraction equal to zero gives the score zero.
pub proof fn lemma_fixed_zero(f: Fraction)
    requires
        f.wf(),
        f.num == 0,
    ensures
        fixed(f) == 0,
{
    assert(SCALE * f.num == 0);
    assert(0int / f.den == 0) by (nonlinear_arith)
        requires
            f.den > 0,
    ;
}

/// The numerator and the denominator of a weighted sum.
pub proof fn lemma_weighted_parts(t: Fraction, c: Fraction)
    requires
        t.wf(),
        c.wf(),
    ensures
        0 <= TOKEN_WEIGHT * t.num * c.den + CHAR_WEIGHT * c.num * t.den <= 10 * t.den * c.den,
        0 < 10 * t.den * c.den,
{
    assert(0 <= 7 * t.num * c.den + 3 * c.num * t.den <= 10 * t.den * c.den && 0 < 10 * t.den
        * c.den) by (nonlinear_arith)
        requires
            0 <= t.num <= t.den,
            0 < t.den,
            0 <= c.num <= c.den,
            0 < c.den,
    ;
}

/// A weighted sum of two fractions between zero and one is a score between
/// zero and `SCALE`.
pub proof fn lemma_weighted_bounds(t: Fraction, c: Fraction)
    requires
        t.wf(),
        c.wf(),
    ensures
        0 <= weighted(t, c) <= SCALE,
{
    lemma_weighted_parts(t, c);
    let n = TOKEN_WEIGHT * t.num * c.den + CHAR_WEIGHT * c.num * t.den;
    let d = 10 * t.den * c.den;
    lemma_fixed_bounds(Fraction { num: n, den: d });
}

/// The weighted sum of one and one is `SCALE`.
pub proof fn lemma_weighted_one(t: Fraction, c: Fraction)
    requires
        t.wf(),
        c.wf(),
        t.num == t.den,
        c.num == c.den,
    ensures
        weighted(t, c) == SCALE,
{
    lemma_weighted_parts(t, c);
    let n = TOKEN_WEIGHT * t.num * c.den + CHAR_WEIGHT * c.num * t.den;
    let d = 10 * t.den * c.den;
    assert(n == d) by (nonlinear_arith)
        requires
            n == 7 * t.num * c.den + 3 * c.num * t.den,
            d == 10 * t.den * c.den,
            t.num == t.den,
            c.num == c.den,
    ;
    lemma_fixed_one(Fraction { num: n, den: d });
}

/// The weighted sum of zero and zero is zero.
pub proof fn lemma_weighted_zero(t: Fraction, c: Fraction)
    requires
        t.wf(),
        c.wf(),
        t.num == 0,
        c.num == 0,
    ensures
        weighted(t, c) == 0,
{
    lemma_weighted_parts(t, c);
    let n = TOKEN_WEIGHT * t.num * c.den + CHAR_WEIGHT * c.num * t.den;
    let d = 10 * t.den * c.den;
    assert(n == 0) by (nonlinear_arith)
        requires
            n == 7 * t.num * c.den + 3 * c.num * t.den,
            t.num == 0,
            c.num == 0,
    ;
    lemma_fixed_zero(Fraction { num: n, den: d });
}

/// A blend of fractions between zero and one is a score between zero and
/// `SCALE`.
pub proof fn lemma_blend_bounds(token: Option<Fraction>, chars: Fraction)
    requires
        chars.wf(),
        token matches Some(t) ==> t.wf(),
    ensures
        0 <= blend_of(token, chars) <= SCALE,
{
    match token {
        Some(t) => lemma_weighted_bounds(t, chars),
        None => lemma_fixed_bounds(chars),
    }
}

/// A score between zero and `SCALE` is between 0 and 100 hundredths, and the
/// two ends are kept: zero gives 0 and `SCALE` gives 100.
pub proof fn lemma_hundredths_bounds(score: int)
    requires
        0 <= score <= SCALE,
    ensures
        0 <= hundredths(score) <= 100,
        score == SCALE ==> hundredths(score) == 100,
        score == 0 ==> hundredths(score) == 0,
{
}

/// The score of a ratio.
pub fn ratio_score(r: Ratio) -> (score: u64)
    requires
        r.wf(),
    ensures
        score == fixed(r@),
        score <= SCALE,
{
    proof {
        lemma_fixed_bounds(r@);
    }
    let n: u64 = SCALE * (r.num as u64);
    n / (r.den as u64)
}

/// The blend of the two metrics as a score: seven tenths of the token
/// metric and three tenths of the character metric, or the character metric
/// alone where the token metric does not apply.
pub fn blend(token: Option<Ratio>, chars: Ratio) -> (score: u64)
    requires
        chars.wf(),
        token matches Some(t) ==> t.wf(),
    ensures
        score == blend_of(
            match token {
                Some(t) => Some(t@),
                None => None,
            },
            chars@,
        ),
        score <= SCALE,
{
    match token {
        None => ratio_score(chars),
        Some(t) => {
            let tn = t.num as u128;
            let td = t.den as u128;
            let cn = chars.num as u128;
            let cd = chars.den as u128;
            proof {
                lemma_weighted_parts(t@, chars@);
                lemma_weighted_bounds(t@, chars@);
                assert(td * cd <= 0xFFFF_FFFF * 0xFFFF_FFFF) by (nonlinear_arith)
                    requires
                        0 <= td <= 0xFFFF_FFFF,
                        0 <= cd <= 0xFFFF_FFFF,
                ;
                assert(tn * cd <= td * cd && cn * td <= cd * td && cd * td == td * cd) by (nonlinear_arith)
                    requires
                        0 <= tn <= td,
                        0 <= cn <= cd,
                ;
                assert(7 * tn * cd == 7 * (tn * cd) && 3 * cn * td == 3 * (cn * td) && 10 * td * cd
                    == 10 * (td * cd)) by (nonlinear_arith);
            }
            let token_part: u128 = 7 * (tn * cd);
            let char_part: u128 = 3 * (cn * td);
            let n: u128 = token_part + char_part;
            let d: u128 = 10 * (td * cd);
            let q: u128 = (1_000_000_000u128 * n) / d;
            q as u64
        },
    }
}

/// A score as a whole number of hundredths, from 0 to 100.
pub fn round_hundredths(score: u64) -> (h: u8)
    requires
        score <= SCALE,
    ensures
        h == hundredths(score as int),
        h <= 100,
{
    proof {
        lemma_hundredths_bounds(score as int);
    }
    let h: u64 = (score * ROUND_TO + SCALE / 2) / SCALE;
    h as u8
}

} // verus!
