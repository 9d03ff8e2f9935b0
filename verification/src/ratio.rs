//! Exact quotients of two counters.

use vstd::prelude::*;

verus! {

/// The quotient `part / whole` of two counters, kept exact.
///
/// `whole` is positive: a share of nothing is zero out of one.
#[derive(Debug, Clone, Copy, PartialEq, Eq, Structural)]
pub struct Ratio {
    pub part: u64,
    pub whole: u64,
}

/// The share that `part` has in `whole`, which is zero if there is no whole.
pub open spec fn share(part: nat, whole: nat) -> (nat, nat) {
    if whole == 0 {
        (0, 1)
    } else {
        (part, whole)
    }
}

/// Whether a quotient is at least as large as another.
pub open spec fn at_least(value: (nat, nat), min: (nat, nat)) -> bool {
    value.0 * min.1 >= min.0 * value.1
}

impl View for Ratio {
    type V = (nat, nat);

    open spec fn view(&self) -> (nat, nat) {
        (self.part as nat, self.whole as nat)
    }
}

impl Ratio {
    /// The share that `part` has in `whole`, which is zero if there is no whole.
    pub fn of(part: u64, whole: u64) -> (r: Ratio)
        ensures
            r@ == share(part as nat, whole as nat),
    {
        if whole == 0 {
            Ratio { part: 0, whole: 1 }
        } else {
            Ratio { part, whole }
        }
    }

    /// Whether this is at least as large as `min`.
    pub fn at_least(&self, min: Ratio) -> (r: bool)
        ensures
            r == at_least(self@, min@),
    {
        proof {
            lemma_product_fits(self.part, min.whole);
            lemma_product_fits(min.part, self.whole);
        }
        self.part as u128 * min.whole as u128 >= min.part as u128 * self.whole as u128
    }
}

proof fn lemma_product_fits(a: u64, b: u64)
    ensures
        a * b <= u128::MAX,
        a as nat * b as nat == a * b,
{
    assert(a * b <= 0xffff_ffff_ffff_ffff * 0xffff_ffff_ffff_ffff) by (nonlinear_arith)
        requires
            a <= 0xffff_ffff_ffff_ffff,
            b <= 0xffff_ffff_ffff_ffff,
    ;
}

} // verus!
