//! Fractions between zero and one, as the operators' rates and ratios.

use vstd::prelude::*;

verus! {

/// A fraction `numerator / denominator`.
#[derive(Clone, Copy, Debug)]
pub struct Ratio {
    pub numerator: u64,
    pub denominator: u64,
}

impl Ratio {
    /// The fraction lies in `[0, 1]`.
    pub open spec fn valid(&self) -> bool {
        0 < self.denominator && self.numerator <= self.denominator
    }

    /// `floor(n * numerator / denominator)`.
    pub open spec fn portion(&self, n: nat) -> nat {
        (n * self.numerator as nat) / (self.denominator as nat)
    }

    /// The fraction `numerator / denominator`, if it lies in `[0, 1]`.
    pub fn new(numerator: u64, denominator: u64) -> (r: Option<Ratio>)
        ensures
            r.is_some() <==> (0 < denominator && numerator <= denominator),
            r.is_some() ==> r.unwrap().numerator == numerator && r.unwrap().denominator
                == denominator,
    {
        if denominator == 0 || numerator > denominator {
            None
        } else {
            Some(Ratio { numerator, denominator })
        }
    }

    /// Whether the fraction lies in `[0, 1]`.
    pub fn is_valid(&self) -> (b: bool)
        ensures
            b == self.valid(),
    {
        self.denominator > 0 && self.numerator <= self.denominator
    }

    /// Whether the fraction is zero.
    pub fn is_zero(&self) -> (b: bool)
        ensures
            b == (self.numerator == 0),
    {
        self.numerator == 0
    }

    /// The share of `n` that the fraction stands for, rounded down.
    pub fn portion_of(&self, n: usize) -> (k: usize)
        requires
            self.valid(),
        ensures
            k == self.portion(n as nat),
            k <= n,
    {
        proof {
            lemma_portion_bounded(*self, n as nat);
            assert((n as nat) * (self.numerator as nat) <= 0xffff_ffff_ffff_ffff
                * 0xffff_ffff_ffff_ffff) by (nonlinear_arith)
                requires
                    n <= 0xffff_ffff_ffff_ffff,
                    self.numerator <= 0xffff_ffff_ffff_ffff,
            ;
        }
        let wide: u128 = (n as u128) * (self.numerator as u128);
        let q: u128 = wide / (self.denominator as u128);
        q as usize
    }
}

/// A valid fraction of `n` is at most `n`, and it is `0` for the fraction
/// zero and `n` for the fraction one.
pub proof fn lemma_portion_bounded(r: Ratio, n: nat)
    requires
        r.valid(),
    ensures
        r.portion(n) <= n,
        r.numerator == 0 ==> r.portion(n) == 0,
        r.numerator == r.denominator ==> r.portion(n) == n,
{
    let num = r.numerator as nat;
    let den = r.denominator as nat;
    assert(n * num <= n * den) by (nonlinear_arith)
        requires
            num <= den,
    ;
    assert((n * num) / den <= n) by (nonlinear_arith)
        requires
            n * num <= n * den,
            0 < den,
    ;
    if r.numerator == 0 {
        assert(n * num == 0) by (nonlinear_arith)
            requires
                num == 0,
        ;
    }
    if r.numerator == r.denominator {
        assert((n * den) / den == n) by (nonlinear_arith)
            requires
                0 < den,
        ;
    }
}

} // verus!
