use vstd::prelude::*;

verus! {

/// The number of equal steps into which a draw divides the unit interval: a
/// draw `k` with `0 <= k < DRAW_STEPS` stands for the number
/// `k / DRAW_STEPS`.
pub const DRAW_STEPS: u64 = 0x20_0000_0000_0000;

/// A probability or a fraction in the closed unit interval, held exactly as
/// `numerator / denominator`.
#[derive(Clone, Copy, Debug)]
pub struct Rate {
    pub numerator: u64,
    pub denominator: u64,
}

impl Rate {
    /// A rate is a fraction between zero and one with a positive denominator.
    pub open spec fn wf(&self) -> bool {
        0 < self.denominator && self.numerator <= self.denominator
    }

    /// The whole part of `len` times the rate, rounded towards zero.
    pub open spec fn share(&self, len: int) -> int {
        (len * self.numerator as int) / (self.denominator as int)
    }

    /// Whether the number `draw / DRAW_STEPS` is at or below the rate.
    pub open spec fn spec_admits(&self, draw: u64) -> bool {
        draw * self.denominator <= self.numerator * DRAW_STEPS
    }

    /// The rate `numerator / denominator`, or nothing where that is no
    /// fraction in the unit interval.
    pub fn new(numerator: u64, denominator: u64) -> (r: Option<Rate>)
        ensures
            r is Some <==> (0 < denominator && numerator <= denominator),
            r matches Some(rate) ==> rate.numerator == numerator && rate.denominator
                == denominator && rate.wf(),
    {
        if denominator == 0 || numerator > denominator {
            None
        } else {
            Some(Rate { numerator, denominator })
        }
    }

    /// How many of `len` items the rate keeps: `len * rate`, rounded towards
    /// zero.
    pub fn share_of(&self, len: usize) -> (n: usize)
        requires
            self.wf(),
        ensures
            n == self.share(len as int),
            n <= len,
    {
        proof {
            lemma_share_bounded(len as int, self.numerator as int, self.denominator as int);
            lemma_product_fits(len as int, self.numerator as int);
        }
        let product: u128 = (len as u128) * (self.numerator as u128);
        let n: u128 = product / (self.denominator as u128);
        n as usize
    }

    /// A rate of one admits every draw below `DRAW_STEPS`.
    pub proof fn lemma_one_admits(&self, draw: u64)
        requires
            self.numerator == self.denominator,
            draw < DRAW_STEPS,
        ensures
            self.spec_admits(draw),
    {
        let d = self.denominator as int;
        assert(draw * d <= d * DRAW_STEPS) by (nonlinear_arith)
            requires
                0 <= draw < DRAW_STEPS,
                0 <= d,
        ;
    }

    /// Decides a draw, read as the number `draw / DRAW_STEPS`: true where
    /// that number is at or below the rate.
    #[verifier::when_used_as_spec(spec_admits)]
    pub fn admits(&self, draw: u64) -> (b: bool)
        ensures
            b == self.spec_admits(draw),
    {
        proof {
            lemma_product_fits(draw as int, self.denominator as int);
            lemma_product_fits(self.numerator as int, DRAW_STEPS as int);
        }
        let drawn: u128 = (draw as u128) * (self.denominator as u128);
        let limit: u128 = (self.numerator as u128) * (DRAW_STEPS as u128);
        drawn <= limit
    }
}

/// The product of two numbers of 64 bits fits 128 bits.
pub proof fn lemma_product_fits(a: int, b: int)
    requires
        0 <= a <= u64::MAX,
        0 <= b <= u64::MAX,
    ensures
        0 <= a * b <= u128::MAX,
{
    assert(0 <= a * b <= 0xffff_ffff_ffff_ffff * 0xffff_ffff_ffff_ffff) by (nonlinear_arith)
        requires
            0 <= a <= 0xffff_ffff_ffff_ffff,
            0 <= b <= 0xffff_ffff_ffff_ffff,
    ;
}

/// A fraction of at most one keeps at most all of `len`, and never less than
/// nothing.
pub proof fn lemma_share_bounded(len: int, numerator: int, denominator: int)
    requires
        0 <= len,
        0 <= numerator <= denominator,
        0 < denominator,
    ensures
        0 <= (len * numerator) / denominator <= len,
        0 <= len * numerator,
{
    assert(0 <= len * numerator <= len * denominator) by (nonlinear_arith)
        requires
            0 <= len,
            0 <= numerator <= denominator,
    ;
    assert(0 <= (len * numerator) / denominator <= len) by (nonlinear_arith)
        requires
            0 <= len * numerator <= len * denominator,
            0 < denominator,
    ;
}

} // verus!
