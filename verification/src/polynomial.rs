//! Polynomials over a commutative ring, as lists of coefficients.

use crate::ring::CRing;
use crate::ring::RingCore;
use vstd::prelude::*;
use vstd::std_specs::cmp::PartialEqSpec;

verus! {

/// A polynomial over the ring `R`: the coefficient of `x^i` stands at place `i`.
pub struct Polynomial<R: CRing> {
    pub coefficients: Vec<R::E>,
}

/// Every entry is an element of the ring.
pub open spec fn all_valid<R: CRing>(ring: &R, s: Seq<R::E>) -> bool {
    forall|i: int| 0 <= i < s.len() ==> ring.valid(#[trigger] s[i])
}

/// The coefficient at place `i`, or zero behind the last one.
pub open spec fn coefficient<R: CRing>(ring: &R, s: Seq<R::E>, i: int) -> R::E {
    if 0 <= i < s.len() {
        s[i]
    } else {
        ring.zero_spec()
    }
}

/// The products of `x` with the first `j` entries of `b`, added one by one
/// to `acc` from place `i` on.
pub open spec fn row_run<R: CRing>(ring: &R, acc: Seq<R::E>, x: R::E, b: Seq<R::E>, i: int, j: nat) -> Seq<
    R::E,
>
    decreases j,
{
    if j == 0 {
        acc
    } else {
        let before = row_run(ring, acc, x, b, i, (j - 1) as nat);
        before.update(
            i + j - 1,
            ring.add_spec(before[i + j - 1], ring.multiply_spec(x, b[j - 1])),
        )
    }
}

/// The coefficients of the product after the first `i` coefficients of `a`
/// have been multiplied with all of `b`.
pub open spec fn rows_run<R: CRing>(ring: &R, a: Seq<R::E>, b: Seq<R::E>, i: nat) -> Seq<R::E>
    decreases i,
{
    if i == 0 {
        Seq::new((a.len() + b.len() - 1) as nat, |k: int| ring.zero_spec())
    } else {
        row_run(ring, rows_run(ring, a, b, (i - 1) as nat), a[i - 1], b, i - 1, b.len())
    }
}

/// A list of `n` zeros of the ring.
pub fn zeros<R: CRing>(ring: &R, n: usize) -> (v: Vec<R::E>)
    requires
        ring.wf(),
    ensures
        v@ == Seq::new(n as nat, |k: int| ring.zero_spec()),
        all_valid(ring, v@),
{
    let mut v: Vec<R::E> = Vec::new();
    let mut i: usize = 0;
    while i < n
        invariant
            i <= n,
            ring.wf(),
            v@ == Seq::new(i as nat, |k: int| ring.zero_spec()),
            all_valid(ring, v@),
        decreases n - i,
    {
        v.push(ring.zero());
        i += 1;
        assert(v@ =~= Seq::new(i as nat, |k: int| ring.zero_spec()));
    }
    v
}

impl<R: CRing> Polynomial<R> {
    /// The polynomial with the given coefficients, the constant one first.
    pub fn new(coefficients: Vec<R::E>) -> (p: Polynomial<R>)
        ensures
            p.coefficients == coefficients,
    {
        Polynomial { coefficients }
    }

    /// The place of the last coefficient.
    pub fn degree(&self) -> (d: usize)
        requires
            self.coefficients@.len() > 0,
        ensures
            d == self.coefficients@.len() - 1,
    {
        self.coefficients.len() - 1
    }

    /// The coefficient of `x^n`.
    pub fn at(&self, n: usize, ring: &R) -> (c: R::E)
        requires
            n < self.coefficients@.len(),
        ensures
            c == self.coefficients@[n as int],
    {
        self.coefficients[n]
    }

    /// The product: each coefficient of the one is multiplied with each of
    /// the other, and the products are added up place by place.
    pub fn multiply(self, other: Polynomial<R>, ring: &R) -> (p: Polynomial<R>)
        requires
            ring.wf(),
            self.coefficients@.len() > 0,
            other.coefficients@.len() > 0,
            self.coefficients@.len() + other.coefficients@.len() - 1 <= usize::MAX,
            all_valid(ring, self.coefficients@),
            all_valid(ring, other.coefficients@),
        ensures
            p.coefficients@ == rows_run(
                ring,
                self.coefficients@,
                other.coefficients@,
                self.coefficients@.len(),
            ),
            p.coefficients@.len() == self.coefficients@.len() + other.coefficients@.len() - 1,
            all_valid(ring, p.coefficients@),
    {
        let ghost a = self.coefficients@;
        let ghost b = other.coefficients@;
        assert(a.len() == self.coefficients.len() && b.len() == other.coefficients.len());
        let mut res = Polynomial::new(zeros(ring, self.degree() + other.degree() + 1));
        let rows: usize = self.coefficients.len();
        let cols: usize = other.coefficients.len();
        let mut i: usize = 0;
        while i < rows
            invariant
                i <= rows,
                ring.wf(),
                rows == a.len(),
                cols == b.len(),
                rows + cols - 1 <= usize::MAX,
                a == self.coefficients@,
                b == other.coefficients@,
                all_valid(ring, a),
                all_valid(ring, b),
                res.coefficients@.len() == rows + cols - 1,
                res.coefficients@ == rows_run(ring, a, b, i as nat),
                all_valid(ring, res.coefficients@),
            decreases rows - i,
        {
            let ghost start = res.coefficients@;
            let mut j: usize = 0;
            while j < cols
                invariant
                    i < rows,
                    j <= cols,
                    rows + cols - 1 <= usize::MAX,
                    ring.wf(),
                    rows == a.len(),
                    cols == b.len(),
                    a == self.coefficients@,
                    b == other.coefficients@,
                    all_valid(ring, a),
                    all_valid(ring, b),
                    start.len() == rows + cols - 1,
                    res.coefficients@.len() == rows + cols - 1,
                    res.coefficients@ == row_run(ring, start, a[i as int], b, i as int, j as nat),
                    all_valid(ring, res.coefficients@),
                decreases cols - j,
            {
                let product = ring.multiply(self.coefficients[i], other.coefficients[j]);
                let sum = ring.add(res.coefficients[i + j], product);
                res.coefficients[i + j] = sum;
                j += 1;
            }
            i += 1;
        }
        res
    }

    /// The polynomial with every coefficient negated.
    pub fn negate(self, ring: &R) -> (p: Polynomial<R>)
        requires
            ring.wf(),
            self.coefficients@.len() > 0,
            all_valid(ring, self.coefficients@),
        ensures
            p.coefficients@.len() == self.coefficients@.len(),
            forall|i: int|
                0 <= i < self.coefficients@.len() ==> #[trigger] p.coefficients@[i] == ring.negate_spec(
                    self.coefficients@[i],
                ),
            all_valid(ring, p.coefficients@),
    {
        assert(self.coefficients@.len() == self.coefficients.len());
        let mut res = Polynomial::new(zeros(ring, self.degree() + 1));
        let size: usize = self.coefficients.len();
        let mut i: usize = 0;
        while i < size
            invariant
                i <= size,
                ring.wf(),
                size == self.coefficients@.len(),
                all_valid(ring, self.coefficients@),
                res.coefficients@.len() == size,
                forall|k: int|
                    0 <= k < i ==> #[trigger] res.coefficients@[k] == ring.negate_spec(self.coefficients@[k]),
                all_valid(ring, res.coefficients@),
            decreases size - i,
        {
            let value = ring.negate(self.coefficients[i]);
            res.coefficients[i] = value;
            i += 1;
        }
        res
    }
}

/// The place of the last entry that differs from `zero`, if there is one.
pub open spec fn last_nonzero<E: PartialEq>(s: Seq<E>, zero: E) -> Option<int>
    decreases s.len(),
{
    if s.len() == 0 {
        None
    } else if !s.last().eq_spec(&zero) {
        Some(s.len() - 1)
    } else {
        last_nonzero(s.drop_last(), zero)
    }
}

impl<R: CRing> Polynomial<R> where R::E: PartialEq {
    /// Cuts off the zeros behind the last coefficient that is not zero; a
    /// polynomial whose coefficients are all zero stays as it is.
    pub fn truncate(&mut self, ring: &R)
        requires
            ring.wf(),
        ensures
            R::E::obeys_eq_spec() ==> final(self).coefficients@ == (match last_nonzero(
                old(self).coefficients@,
                ring.zero_spec(),
            ) {
                Some(i) => old(self).coefficients@.take(i + 1),
                None => old(self).coefficients@,
            }),
            final(self).coefficients@.len() <= old(self).coefficients@.len(),
            forall|i: int|
                0 <= i < final(self).coefficients@.len() ==> final(self).coefficients@[i] == old(
                    self,
                ).coefficients@[i],
    {
        let ghost full = self.coefficients@;
        let zero = ring.zero();
        let mut i: usize = self.coefficients.len();
        proof {
            assert(full.take(full.len() as int) =~= full);
        }
        while i > 0
            invariant
                i <= full.len(),
                full == self.coefficients@,
                full == old(self).coefficients@,
                zero == ring.zero_spec(),
                R::E::obeys_eq_spec() ==> last_nonzero(full, zero) == last_nonzero(full.take(i as int), zero),
            decreases i,
        {
            let value = self.coefficients[i - 1];
            if value != zero {
                proof {
                    assert(full.take(i as int).last() == value);
                    assert(self.coefficients.len() == full.len());
                }
                self.coefficients.truncate(i);
                proof {
                    assert(self.coefficients@ =~= full.take(i as int));
                    assert(R::E::obeys_eq_spec() ==> last_nonzero(full.take(i as int), zero) == Some(i - 1));
                }
                return ;
            }
            proof {
                assert(full.take(i as int).last() == value);
                assert(full.take(i as int).drop_last() =~= full.take(i - 1));
            }
            i -= 1;
        }
        proof {
            assert(full.take(full.len() as int) =~= full);
        }
    }

    /// The polynomial of the coefficients up to the last one that is not zero.
    pub fn new_truncated(coefficients: Vec<R::E>, ring: &R) -> (p: Polynomial<R>)
        requires
            ring.wf(),
        ensures
            R::E::obeys_eq_spec() ==> p.coefficients@ == (match last_nonzero(
                coefficients@,
                ring.zero_spec(),
            ) {
                Some(i) => coefficients@.take(i + 1),
                None => coefficients@,
            }),
            p.coefficients@.len() <= coefficients@.len(),
            forall|i: int| 0 <= i < p.coefficients@.len() ==> p.coefficients@[i] == coefficients@[i],
    {
        let mut res = Polynomial { coefficients };
        res.truncate(ring);
        res
    }

    /// The sum: the coefficients are added place by place, the shorter
    /// polynomial being filled up with zeros.
    pub fn add(self, other: Polynomial<R>, ring: &R) -> (p: Polynomial<R>)
        requires
            ring.wf(),
            self.coefficients@.len() > 0,
            other.coefficients@.len() > 0,
            all_valid(ring, self.coefficients@),
            all_valid(ring, other.coefficients@),
        ensures
            p.coefficients@.len() <= self.coefficients@.len() || p.coefficients@.len()
                <= other.coefficients@.len(),
            forall|i: int|
                0 <= i < p.coefficients@.len() ==> #[trigger] p.coefficients@[i] == ring.add_spec(
                    coefficient(ring, self.coefficients@, i),
                    coefficient(ring, other.coefficients@, i),
                ),
            R::E::obeys_eq_spec() && ring.zero_spec().eq_spec(&ring.zero_spec()) ==> p.coefficients@.len()
                == if self.coefficients@.len() >= other.coefficients@.len() {
                self.coefficients@.len()
            } else {
                other.coefficients@.len()
            },
            all_valid(ring, p.coefficients@),
    {
        let longer: usize = if self.degree() >= other.degree() {
            self.degree()
        } else {
            other.degree()
        };
        assert(self.coefficients@.len() == self.coefficients.len());
        assert(other.coefficients@.len() == other.coefficients.len());
        let blank = zeros(ring, longer + 1);
        proof {
            if R::E::obeys_eq_spec() && ring.zero_spec().eq_spec(&ring.zero_spec()) {
                lemma_zeros_keep(blank@, ring.zero_spec());
            }
        }
        let mut res = Polynomial::new_truncated(blank, ring);
        let size: usize = res.coefficients.len();
        proof {
            assert forall|k: int| 0 <= k < size implies ring.valid(#[trigger] res.coefficients@[k]) by {
                assert(res.coefficients@[k] == blank@[k]);
            }
        }
        let mut i: usize = 0;
        while i < size
            invariant
                i <= size,
                ring.wf(),
                size == res.coefficients@.len(),
                all_valid(ring, self.coefficients@),
                all_valid(ring, other.coefficients@),
                forall|k: int|
                    0 <= k < i ==> #[trigger] res.coefficients@[k] == ring.add_spec(
                        coefficient(ring, self.coefficients@, k),
                        coefficient(ring, other.coefficients@, k),
                    ),
                forall|k: int| 0 <= k < size ==> ring.valid(#[trigger] res.coefficients@[k]),
            decreases size - i,
        {
            let left = if i < self.coefficients.len() {
                self.coefficients[i]
            } else {
                ring.zero()
            };
            let right = if i < other.coefficients.len() {
                other.coefficients[i]
            } else {
                ring.zero()
            };
            let sum = ring.add(left, right);
            res.coefficients[i] = sum;
            i += 1;
        }
        res
    }
}

/// A list of zeros has no entry that differs from zero.
pub proof fn lemma_zeros_keep<E: PartialEq>(s: Seq<E>, zero: E)
    requires
        zero.eq_spec(&zero),
        forall|i: int| 0 <= i < s.len() ==> s[i] == zero,
    ensures
        last_nonzero(s, zero) == None::<int>,
    decreases s.len(),
{
    if s.len() > 0 {
        lemma_zeros_keep(s.drop_last(), zero);
    }
}

} // verus!
