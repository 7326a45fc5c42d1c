use vstd::prelude::*;
use vstd::arithmetic::power::{lemma_pow_increases, pow};
use crate::expression::fits_i32;

verus! {

/// Raising to a power.
pub trait Pow<T>: Sized {
    /// `self` to the power `exponent`, where it is defined.
    spec fn power(&self, exponent: T) -> Option<Self>;

    fn powt(&self, exponent: T) -> (r: Self)
        requires
            self.power(exponent) is Some,
        ensures
            Some(r) == self.power(exponent),
    ;
}

pub open spec fn abs(x: int) -> int {
    if x < 0 {
        -x
    } else {
        x
    }
}

proof fn lemma_abs_pow(b: int, n: nat)
    ensures
        abs(pow(b, n)) == pow(abs(b), n),
    decreases n,
{
    reveal(pow);
    if n > 0 {
        lemma_abs_pow(b, (n - 1) as nat);
        let p = pow(b, (n - 1) as nat);
        assert(abs(b * p) == abs(b) * abs(p)) by (nonlinear_arith);
    }
}

proof fn lemma_pow_at_most_one(a: int, n: nat)
    requires
        0 <= a <= 1,
    ensures
        0 <= pow(a, n) <= 1,
    decreases n,
{
    reveal(pow);
    if n > 0 {
        lemma_pow_at_most_one(a, (n - 1) as nat);
        let p = pow(a, (n - 1) as nat);
        assert(0 <= a * p <= 1) by (nonlinear_arith)
            requires
                0 <= a <= 1,
                0 <= p <= 1,
        ;
    }
}

/// Where a power fits in an `i32`, so do the lower powers of its base.
proof fn lemma_lower_power_fits(b: int, i: nat, e: nat)
    requires
        i <= e,
        fits_i32(pow(b, e)),
    ensures
        fits_i32(pow(b, i)),
{
    let a = abs(b);
    lemma_abs_pow(b, i);
    lemma_abs_pow(b, e);
    if a <= 1 {
        lemma_pow_at_most_one(a, i);
    } else if i < e {
        lemma_pow_increases(a as nat, i + 1, e);
        reveal(pow);
        let p = pow(a, i);
        assert(p >= 0) by {
            lemma_abs_pow(b, i);
        }
        assert(2 * p <= a * p) by (nonlinear_arith)
            requires
                a >= 2,
                p >= 0,
        ;
    }
}

impl Pow<i32> for i32 {
    open spec fn power(&self, exponent: i32) -> Option<i32> {
        if exponent >= 0 && fits_i32(pow(*self as int, exponent as nat)) {
            Some(pow(*self as int, exponent as nat) as i32)
        } else {
            None
        }
    }

    fn powt(&self, exponent: i32) -> (r: i32) {
        let base = *self;
        let ghost b = base as int;
        let mut acc: i32 = 1;
        let mut i: i32 = 0;
        proof {
            reveal(pow);
        }
        while i < exponent
            invariant
                0 <= i <= exponent,
                b == base,
                fits_i32(pow(b, exponent as nat)),
                acc == pow(b, i as nat),
            decreases exponent - i,
        {
            let ghost next = pow(b, (i + 1) as nat);
            proof {
                reveal(pow);
                assert(next == b * pow(b, i as nat));
                assert(acc * base == next) by (nonlinear_arith)
                    requires
                        acc == pow(b, i as nat),
                        next == b * pow(b, i as nat),
                        b == base,
                ;
                lemma_lower_power_fits(b, (i + 1) as nat, exponent as nat);
            }
            acc = acc * base;
            i += 1;
        }
        acc
    }
}

} // verus!
