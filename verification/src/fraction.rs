//! Exact dyadic rationals: the results of fixed-point decoding. A value is
//! `numerator / pow2(denom_exp)`, kept fully reduced, so that structural
//! equality coincides with equality of the rationals.

use vstd::prelude::*;
use vstd::arithmetic::power2::*;
use vstd::arithmetic::div_mod::lemma_fundamental_div_mod_converse;
use crate::bits::{uval, lemma_uval_bound, lemma_uval_high_bit, lemma_uval_injective,
    lemma_uval_parity};

verus! {

/// An exact rational with a power-of-two denominator, fully reduced:
/// the numerator magnitude is stored as bits (least significant first) with
/// no leading zero, it is odd whenever the denominator exponent is positive,
/// and zero is stored positive with exponent zero.
#[derive(Debug)]
pub struct Fraction {
    neg: bool,
    num: Vec<bool>,
    fbits: usize,
}

impl Fraction {
    /// The sign: true for a strictly negative rational.
    pub closed spec fn spec_neg(&self) -> bool {
        self.neg
    }

    /// The numerator magnitude, as bits.
    pub closed spec fn spec_num(&self) -> Seq<bool> {
        self.num@
    }

    /// The denominator is `pow2` of this exponent.
    pub closed spec fn denom_exp(&self) -> nat {
        self.fbits as nat
    }

    /// The signed numerator.
    pub open spec fn numerator(&self) -> int {
        if self.spec_neg() {
            -(uval(self.spec_num()) as int)
        } else {
            uval(self.spec_num()) as int
        }
    }

    /// Reducedness: no leading zero on the numerator, an odd numerator
    /// whenever the exponent is positive, and a canonical zero.
    pub open spec fn wf(&self) -> bool {
        &&& (self.spec_num().len() == 0 ==> !self.spec_neg() && self.denom_exp() == 0)
        &&& (self.spec_num().len() > 0 ==> self.spec_num()[self.spec_num().len() - 1])
        &&& (self.denom_exp() > 0 ==> self.spec_num().len() > 0 && self.spec_num()[0])
    }

    /// Assembles a fraction from its parts; the caller is responsible for
    /// handing in a reduced form.
    pub(crate) fn from_raw(neg: bool, num: Vec<bool>, fbits: usize) -> (r: Fraction)
        ensures
            r.spec_neg() == neg,
            r.spec_num() == num@,
            r.denom_exp() == fbits,
    {
        Fraction { neg, num, fbits }
    }
}

impl PartialEq for Fraction {
    fn eq(&self, other: &Fraction) -> (r: bool) {
        if self.neg != other.neg || self.fbits != other.fbits || self.num.len()
            != other.num.len() {
            return false;
        }
        let n: usize = self.num.len();
        let mut i: usize = 0;
        while i < n
            invariant
                i <= n,
                n == self.num@.len(),
                other.num@.len() == n,
                self.num@.take(i as int) == other.num@.take(i as int),
            decreases n - i,
        {
            if self.num[i] != other.num[i] {
                assert(self.num@[i as int] != other.num@[i as int]);
                return false;
            }
            assert(self.num@.take(i + 1) =~= other.num@.take(i + 1)) by {
                assert(self.num@.take(i + 1) =~= self.num@.take(i as int).push(
                    self.num@[i as int],
                ));
                assert(other.num@.take(i + 1) =~= other.num@.take(i as int).push(
                    other.num@[i as int],
                ));
            }
            i = i + 1;
        }
        proof {
            assert(self.num@.take(n as int) =~= self.num@);
            assert(other.num@.take(n as int) =~= other.num@);
        }
        true
    }
}

impl vstd::std_specs::cmp::PartialEqSpecImpl for Fraction {
    open spec fn obeys_eq_spec() -> bool {
        true
    }

    open spec fn eq_spec(&self, other: &Fraction) -> bool {
        self.spec_neg() == other.spec_neg() && self.spec_num() == other.spec_num()
            && self.denom_exp() == other.denom_exp()
    }
}

/// Reduced forms are canonical: two well-formed fractions denoting the same
/// rational are structurally the same.
pub proof fn lemma_fraction_canonical(a: Fraction, b: Fraction)
    requires
        a.wf(),
        b.wf(),
        a.numerator() * pow2(b.denom_exp()) == b.numerator() * pow2(a.denom_exp()),
    ensures
        a.spec_neg() == b.spec_neg(),
        a.spec_num() == b.spec_num(),
        a.denom_exp() == b.denom_exp(),
{
    let na = uval(a.spec_num());
    let nb = uval(b.spec_num());
    let fa = a.denom_exp();
    let fb = b.denom_exp();
    lemma_pow2_pos(fa);
    lemma_pow2_pos(fb);
    if na == 0 || nb == 0 {
        // one side is zero, so both are, and zero is canonical
        assert(a.numerator() * pow2(fb) == 0 <==> a.numerator() == 0) by (nonlinear_arith)
            requires
                pow2(fb) > 0,
        ;
        assert(b.numerator() * pow2(fa) == 0 <==> b.numerator() == 0) by (nonlinear_arith)
            requires
                pow2(fa) > 0,
        ;
        assert(na == 0 && nb == 0);
        assert(a.spec_num().len() == 0) by {
            if a.spec_num().len() > 0 {
                lemma_uval_high_bit(a.spec_num(), a.spec_num().len() - 1);
                lemma_pow2_pos((a.spec_num().len() - 1) as nat);
            }
        }
        assert(b.spec_num().len() == 0) by {
            if b.spec_num().len() > 0 {
                lemma_uval_high_bit(b.spec_num(), b.spec_num().len() - 1);
                lemma_pow2_pos((b.spec_num().len() - 1) as nat);
            }
        }
        assert(a.spec_num() =~= b.spec_num());
    } else {
        // nonzero: signs agree, and the exponents must match by parity
        assert(a.spec_neg() == b.spec_neg()) by (nonlinear_arith)
            requires
                a.numerator() * pow2(fb) == b.numerator() * pow2(fa),
                pow2(fa) > 0,
                pow2(fb) > 0,
                a.numerator() == if a.spec_neg() {
                    -(na as int)
                } else {
                    na as int
                },
                b.numerator() == if b.spec_neg() {
                    -(nb as int)
                } else {
                    nb as int
                },
                na > 0,
                nb > 0,
        ;
        assert(na * pow2(fb) == nb * pow2(fa)) by (nonlinear_arith)
            requires
                a.numerator() * pow2(fb) == b.numerator() * pow2(fa),
                a.spec_neg() == b.spec_neg(),
                a.numerator() == if a.spec_neg() {
                    -(na as int)
                } else {
                    na as int
                },
                b.numerator() == if b.spec_neg() {
                    -(nb as int)
                } else {
                    nb as int
                },
        ;
        if fa < fb {
            lemma_pow2_adds(fa, (fb - fa) as nat);
            assert(nb == na * pow2((fb - fa) as nat)) by (nonlinear_arith)
                requires
                    na * pow2(fb) == nb * pow2(fa),
                    pow2(fb) == pow2(fa) * pow2((fb - fa) as nat),
                    pow2(fa) > 0,
            ;
            // fb > 0, so nb is odd; but na * 2^(fb-fa) is even
            assert(b.spec_num()[0]);
            lemma_uval_parity(b.spec_num());
            assert(nb % 2 == 1);
            lemma_pow2_unfold((fb - fa) as nat);
            assert(nb as int == (na * pow2((fb - fa - 1) as nat)) * 2 + 0) by (nonlinear_arith)
                requires
                    nb == na * (2 * pow2((fb - fa - 1) as nat)),
            ;
            lemma_fundamental_div_mod_converse(
                nb as int,
                2,
                (na * pow2((fb - fa - 1) as nat)) as int,
                0,
            );
            assert(false);
        } else if fb < fa {
            lemma_pow2_adds(fb, (fa - fb) as nat);
            assert(na == nb * pow2((fa - fb) as nat)) by (nonlinear_arith)
                requires
                    na * pow2(fb) == nb * pow2(fa),
                    pow2(fa) == pow2(fb) * pow2((fa - fb) as nat),
                    pow2(fb) > 0,
            ;
            assert(a.spec_num()[0]);
            lemma_uval_parity(a.spec_num());
            assert(na % 2 == 1);
            lemma_pow2_unfold((fa - fb) as nat);
            assert(na as int == (nb * pow2((fa - fb - 1) as nat)) * 2 + 0) by (nonlinear_arith)
                requires
                    na == nb * (2 * pow2((fa - fb - 1) as nat)),
            ;
            lemma_fundamental_div_mod_converse(
                na as int,
                2,
                (nb * pow2((fa - fb - 1) as nat)) as int,
                0,
            );
            assert(false);
        }
        assert(fa == fb);
        assert(na == nb) by (nonlinear_arith)
            requires
                na * pow2(fb) == nb * pow2(fa),
                fa == fb,
                pow2(fa) > 0,
        ;
        // minimal numerators of one value have one length
        lemma_uval_bound(a.spec_num());
        lemma_uval_bound(b.spec_num());
        if a.spec_num().len() < b.spec_num().len() {
            lemma_uval_high_bit(b.spec_num(), b.spec_num().len() - 1);
            lemma_pow2_strictly_increases(a.spec_num().len(), b.spec_num().len());
            assert(pow2(a.spec_num().len()) <= pow2((b.spec_num().len() - 1) as nat)) by {
                if a.spec_num().len() < b.spec_num().len() - 1 {
                    lemma_pow2_strictly_increases(
                        a.spec_num().len(),
                        (b.spec_num().len() - 1) as nat,
                    );
                }
            }
            assert(false);
        } else if b.spec_num().len() < a.spec_num().len() {
            lemma_uval_high_bit(a.spec_num(), a.spec_num().len() - 1);
            assert(pow2(b.spec_num().len()) <= pow2((a.spec_num().len() - 1) as nat)) by {
                if b.spec_num().len() < a.spec_num().len() - 1 {
                    lemma_pow2_strictly_increases(
                        b.spec_num().len(),
                        (a.spec_num().len() - 1) as nat,
                    );
                }
            }
            assert(false);
        }
        lemma_uval_injective(a.spec_num(), b.spec_num());
    }
}

} // verus!
