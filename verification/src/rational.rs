//! Exact quotients of integers, as specifications use them to say where an
//! edge meets a scanline.

use vstd::arithmetic::div_mod::{
    lemma_fundamental_div_mod,
    lemma_fundamental_div_mod_converse,
    lemma_mod_bound,
};
use vstd::prelude::*;

verus! {

/// The quotient `num / den`, not rounded. Several pairs stand for one value.
pub struct Ratio {
    pub num: int,
    pub den: int,
}

impl Ratio {
    /// The denominator is positive.
    pub open spec fn wf(self) -> bool {
        self.den > 0
    }

    /// The whole number `n` as a quotient.
    pub open spec fn of_int(n: int) -> Ratio {
        Ratio { num: n, den: 1 }
    }

    /// Whether this value is at most `other`.
    pub open spec fn le(self, other: Ratio) -> bool {
        self.num * other.den <= other.num * self.den
    }

    /// Whether both stand for the same value.
    pub open spec fn same(self, other: Ratio) -> bool {
        self.le(other) && other.le(self)
    }

    /// The greatest whole number that is at most this value.
    pub open spec fn floor(self) -> int {
        self.num / self.den
    }

    /// The least whole number that is at least this value.
    pub open spec fn ceil(self) -> int {
        -((-self.num) / self.den)
    }

    /// Of two values, one is at most the other.
    pub proof fn lemma_le_total(self, other: Ratio)
        ensures
            self.le(other) || other.le(self),
    {
    }

    /// Every value is at most itself.
    pub proof fn lemma_le_reflexive(self)
        ensures
            self.le(self),
    {
    }

    /// `le` is transitive.
    pub proof fn lemma_le_transitive(self, middle: Ratio, other: Ratio)
        requires
            self.wf(),
            middle.wf(),
            other.wf(),
            self.le(middle),
            middle.le(other),
        ensures
            self.le(other),
    {
        let (a, b) = (self.num, self.den);
        let (c, d) = (middle.num, middle.den);
        let (e, f) = (other.num, other.den);
        assert((a * f) * d <= (e * b) * d) by (nonlinear_arith)
            requires
                a * d <= c * b,
                c * f <= e * d,
                b > 0,
                d > 0,
                f > 0,
        {
            assert((a * d) * f <= (c * b) * f);
            assert((c * f) * b <= (e * d) * b);
        }
        assert(a * f <= e * b) by (nonlinear_arith)
            requires
                (a * f) * d <= (e * b) * d,
                d > 0,
        ;
    }

    /// A whole number is at most the floor exactly when it is at most the value.
    pub proof fn lemma_floor(self, n: int)
        requires
            self.wf(),
        ensures
            n <= self.floor() <==> Ratio::of_int(n).le(self),
    {
        let q = self.num / self.den;
        let r = self.num % self.den;
        lemma_fundamental_div_mod(self.num, self.den);
        lemma_mod_bound(self.num, self.den);
        let d = self.den;
        if n <= q {
            assert(n * d <= q * d) by (nonlinear_arith)
                requires
                    n <= q,
                    d > 0,
            ;
            assert(d * q == q * d) by (nonlinear_arith);
        } else {
            assert(n * d >= (q + 1) * d) by (nonlinear_arith)
                requires
                    n >= q + 1,
                    d > 0,
            ;
            assert((q + 1) * d == d * q + d) by (nonlinear_arith);
        }
    }

    /// The ceiling is at most a whole number exactly when the value is.
    pub proof fn lemma_ceil(self, n: int)
        requires
            self.wf(),
        ensures
            self.ceil() <= n <==> self.le(Ratio::of_int(n)),
    {
        let negated = Ratio { num: -self.num, den: self.den };
        negated.lemma_floor(-n);
        assert((-n) * self.den == -(n * self.den)) by (nonlinear_arith);
    }

    /// The floor is at most the value, which is at most the ceiling.
    pub proof fn lemma_floor_le_ceil(self)
        requires
            self.wf(),
        ensures
            Ratio::of_int(self.floor()).le(self),
            self.le(Ratio::of_int(self.ceil())),
            self.floor() <= self.ceil(),
    {
        self.lemma_floor(self.floor());
        self.lemma_ceil(self.ceil());
        if self.ceil() < self.floor() {
            self.lemma_floor(self.ceil() + 1);
            Ratio::of_int(self.ceil() + 1).lemma_le_transitive(self, Ratio::of_int(self.ceil()));
        }
    }

    /// Two pairs that stand for the same value have the same floor and the
    /// same ceiling.
    pub proof fn lemma_same_rounding(self, other: Ratio)
        requires
            self.wf(),
            other.wf(),
            self.same(other),
        ensures
            self.floor() == other.floor(),
            self.ceil() == other.ceil(),
    {
        self.lemma_floor_le_ceil();
        other.lemma_floor_le_ceil();
        // each floor is at most the other value, and so at most the other floor
        Ratio::of_int(self.floor()).lemma_le_transitive(self, other);
        other.lemma_floor(self.floor());
        Ratio::of_int(other.floor()).lemma_le_transitive(other, self);
        self.lemma_floor(other.floor());
        // each value is at most the other ceiling, and so is its own ceiling
        self.lemma_le_transitive(other, Ratio::of_int(other.ceil()));
        self.lemma_ceil(other.ceil());
        other.lemma_le_transitive(self, Ratio::of_int(self.ceil()));
        other.lemma_ceil(self.ceil());
    }
}

/// Dividing a negated number rounds the other way: for `m >= 0` and `d > 0`,
/// the floor of `-m / d` is the negated ceiling of `m / d`.
pub proof fn lemma_div_negated(m: int, d: int)
    requires
        m >= 0,
        d > 0,
    ensures
        (-m) / d == -((m + d - 1) / d),
{
    let q = (m + d - 1) / d;
    let r = (m + d - 1) % d;
    lemma_fundamental_div_mod(m + d - 1, d);
    lemma_mod_bound(m + d - 1, d);
    assert((-q) * d + (d - 1 - r) == -m) by (nonlinear_arith)
        requires
            m + d - 1 == d * q + r,
    ;
    lemma_fundamental_div_mod_converse(-m, d, -q, d - 1 - r);
}

/// The product of two bounded numbers is bounded by the product of the bounds.
pub proof fn lemma_product_bound(a: int, b: int, m: int, n: int)
    by (nonlinear_arith)
    requires
        -m <= a <= m,
        -n <= b <= n,
    ensures
        -(m * n) <= a * b <= m * n,
{
}

} // verus!
