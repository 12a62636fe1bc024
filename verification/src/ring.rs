//! Commutative rings and fields given by their operations, and the ring of
//! residues modulo a number.

use vstd::prelude::*;

verus! {

/// The operations of a commutative ring on elements of type `E`.
pub trait RingCore: Sized {
    type E: Copy;

    /// The ring itself is well formed.
    spec fn wf(&self) -> bool;

    /// `a` is an element of the ring.
    spec fn valid(&self, a: Self::E) -> bool;

    spec fn add_spec(&self, a: Self::E, b: Self::E) -> Self::E;

    spec fn negate_spec(&self, a: Self::E) -> Self::E;

    spec fn zero_spec(&self) -> Self::E;

    spec fn multiply_spec(&self, a: Self::E, b: Self::E) -> Self::E;

    spec fn one_spec(&self) -> Self::E;

    fn add(&self, a: Self::E, b: Self::E) -> (r: Self::E)
        requires
            self.wf(),
            self.valid(a),
            self.valid(b),
        ensures
            r == self.add_spec(a, b),
            self.valid(r),
    ;

    fn negate(&self, a: Self::E) -> (r: Self::E)
        requires
            self.wf(),
            self.valid(a),
        ensures
            r == self.negate_spec(a),
            self.valid(r),
    ;

    fn zero(&self) -> (r: Self::E)
        requires
            self.wf(),
        ensures
            r == self.zero_spec(),
            self.valid(r),
    ;

    fn multiply(&self, a: Self::E, b: Self::E) -> (r: Self::E)
        requires
            self.wf(),
            self.valid(a),
            self.valid(b),
        ensures
            r == self.multiply_spec(a, b),
            self.valid(r),
    ;

    fn one(&self) -> (r: Self::E)
        requires
            self.wf(),
        ensures
            r == self.one_spec(),
            self.valid(r),
    ;

}

/// What binary powering makes of `result`, `a` and `n`: for each bit of `n`,
/// lowest first, `result` is multiplied by `a` if the bit is set, and `a`
/// is squared.
pub open spec fn power_run<R: RingCore>(ring: &R, result: R::E, a: R::E, n: nat) -> R::E
    decreases n,
{
    if n == 0 {
        result
    } else {
        power_run(
            ring,
            if n % 2 == 1 {
                ring.multiply_spec(result, a)
            } else {
                result
            },
            ring.multiply_spec(a, a),
            n / 2,
        )
    }
}

/// What `n` more steps make of `result` and `multiplier`: each step adds
/// one to `multiplier` and multiplies `result` by it.
pub open spec fn factorial_run<R: RingCore>(ring: &R, result: R::E, multiplier: R::E, n: nat) -> R::E
    decreases n,
{
    if n == 0 {
        result
    } else {
        let next = ring.add_spec(multiplier, ring.one_spec());
        factorial_run(ring, ring.multiply_spec(result, next), next, (n - 1) as nat)
    }
}

/// A commutative ring: its operations, and what follows from them.
pub trait CRing: RingCore {
    /// `a` minus `b`: `a` plus the negative of `b`.
    fn subtract(&self, a: Self::E, b: Self::E) -> (r: Self::E)
        requires
            self.wf(),
            self.valid(a),
            self.valid(b),
        ensures
            r == self.add_spec(a, self.negate_spec(b)),
            self.valid(r),
    {
        self.add(a, self.negate(b))
    }

    /// `a` to the power `n`, by binary powering.
    fn power(&self, a: Self::E, n: usize) -> (r: Self::E)
        requires
            self.wf(),
            self.valid(a),
        ensures
            r == power_run(self, self.one_spec(), a, n as nat),
            self.valid(r),
    {
        let mut result = self.one();
        let mut base = a;
        let mut left = n;
        while left > 0
            invariant
                self.wf(),
                self.valid(base),
                self.valid(result),
                power_run(self, result, base, left as nat) == power_run(
                    self,
                    self.one_spec(),
                    a,
                    n as nat,
                ),
            decreases left,
        {
            if left % 2 == 1 {
                result = self.multiply(result, base);
            }
            base = self.multiply(base, base);
            left /= 2;
        }
        result
    }

    /// The product of the elements `1 + 1`, `1 + 1 + 1`, and so on, `n` of them.
    fn factorial(&self, n: usize) -> (r: Self::E)
        requires
            self.wf(),
        ensures
            r == factorial_run(self, self.one_spec(), self.one_spec(), n as nat),
            self.valid(r),
    {
        let mut result = self.one();
        let mut multiplier = self.one();
        let mut i: usize = 0;
        while i < n
            invariant
                i <= n,
                self.wf(),
                self.valid(result),
                self.valid(multiplier),
                factorial_run(self, result, multiplier, (n - i) as nat) == factorial_run(
                    self,
                    self.one_spec(),
                    self.one_spec(),
                    n as nat,
                ),
            decreases n - i,
        {
            multiplier = self.add(multiplier, self.one());
            result = self.multiply(result, multiplier);
            i += 1;
        }
        result
    }
}

/// A field: a commutative ring with an inverse for multiplication.
pub trait Field: CRing {
    spec fn inverse_spec(&self, a: Self::E) -> Self::E;

    fn inverse(&self, a: Self::E) -> (r: Self::E)
        requires
            self.wf(),
            self.valid(a),
        ensures
            r == self.inverse_spec(a),
            self.valid(r),
    ;

    /// `a` divided by `b`: `a` times the inverse of `b`.
    fn divide(&self, a: Self::E, b: Self::E) -> (r: Self::E)
        requires
            self.wf(),
            self.valid(a),
            self.valid(b),
        ensures
            r == self.multiply_spec(a, self.inverse_spec(b)),
            self.valid(r),
    {
        self.multiply(a, self.inverse(b))
    }
}

/// A ring whose elements can be told apart.
pub trait DRing: CRing {
}

/// A field whose elements can be told apart.
pub trait DField: Field + DRing {
}

/// The ring of residues modulo `modulo`, a field where `modulo` is prime.
/// Its elements are the numbers up to `modulo`, where `modulo` itself
/// stands for zero as `0` does.
#[derive(Debug, Clone, Copy, PartialEq, Eq)]
pub struct PrimeResidue {
    pub modulo: u64,
}

impl PrimeResidue {
    /// The ring of residues modulo `modulo`.
    pub fn new(modulo: u64) -> (ring: Self)
        ensures
            ring.modulo == modulo,
    {
        PrimeResidue { modulo }
    }

    /// The modulus of the ring.
    pub fn modulo(&self) -> (m: u64)
        ensures
            m == self.modulo,
    {
        self.modulo
    }
}

impl CRing for PrimeResidue {
}

impl DRing for PrimeResidue {
}

impl DField for PrimeResidue {
}

impl RingCore for PrimeResidue {
    type E = u64;

    open spec fn wf(&self) -> bool {
        2 <= self.modulo <= 0xffff_ffff
    }

    open spec fn valid(&self, a: u64) -> bool {
        a <= self.modulo
    }

    open spec fn add_spec(&self, a: u64, b: u64) -> u64 {
        ((a + b) % (self.modulo as int)) as u64
    }

    open spec fn negate_spec(&self, a: u64) -> u64 {
        (self.modulo - a) as u64
    }

    open spec fn zero_spec(&self) -> u64 {
        0
    }

    open spec fn multiply_spec(&self, a: u64, b: u64) -> u64 {
        ((a * b) % (self.modulo as int)) as u64
    }

    open spec fn one_spec(&self) -> u64 {
        1
    }

    fn add(&self, a: u64, b: u64) -> (r: u64) {
        (a + b) % self.modulo
    }

    fn negate(&self, a: u64) -> (r: u64) {
        self.modulo - a
    }

    fn zero(&self) -> (r: u64) {
        0
    }

    fn multiply(&self, a: u64, b: u64) -> (r: u64) {
        assert(a * b <= 0xffff_ffff * 0xffff_ffff) by (nonlinear_arith)
            requires
                a <= 0xffff_ffff,
                b <= 0xffff_ffff,
        ;
        (a * b) % self.modulo
    }

    fn one(&self) -> (r: u64) {
        1
    }
}

impl Field for PrimeResidue {
    open spec fn inverse_spec(&self, a: u64) -> u64 {
        power_run(self, 1u64, a, (self.modulo - 2) as nat)
    }

    /// `a` to the power `modulo - 2`.
    fn inverse(&self, a: u64) -> (r: u64) {
        self.power(a, (self.modulo - 2) as usize)
    }
}

} // verus!
