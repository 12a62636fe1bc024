//! Formal power series over a commutative ring, computed coefficient by
//! coefficient and kept once computed.

use crate::polynomial::all_valid;
use crate::polynomial::coefficient;
use crate::polynomial::Polynomial;
use crate::ring::CRing;
use crate::ring::Field;
use crate::ring::RingCore;
use vstd::prelude::*;

verus! {

/// A formal power series: its coefficients can be asked for one by one.
pub trait FormalSeries<R: CRing>: Sized {
    /// The coefficients of the series.
    spec fn series(&self, ring: &R) -> spec_fn(nat) -> R::E;

    /// The series is in order.
    spec fn wf(&self, ring: &R) -> bool;

    /// The coefficient of `x^n`. What is computed on the way is kept; the
    /// series stays the same.
    fn at(&mut self, n: usize, ring: &R) -> (value: R::E)
        requires
            ring.wf(),
            old(self).wf(ring),
            n < usize::MAX,
        ensures
            final(self).wf(ring),
            final(self).series(ring) == old(self).series(ring),
            value == old(self).series(ring)(n as nat),
            ring.valid(value),
    ;
}

/// A series that keeps the coefficients that it has computed, and computes
/// the next one from those and from its parts.
pub trait FormalSeriesForCaching<R: CRing>: Sized {
    /// The coefficients that the series is to have.
    spec fn plan(&self, ring: &R) -> spec_fn(nat) -> R::E;

    /// The parts of the series are in order.
    spec fn parts_ok(&self, ring: &R) -> bool;

    /// The coefficients computed so far.
    spec fn prefix(&self) -> Seq<R::E>;

    /// The number of coefficients computed so far.
    fn computed_len(&self) -> (len: usize)
        ensures
            len == self.prefix().len(),
    ;

    /// A coefficient computed before.
    fn computed_at(&self, n: usize) -> (value: R::E)
        requires
            n < self.prefix().len(),
        ensures
            value == self.prefix()[n as int],
    ;

    /// Computes the first coefficient that is not computed yet.
    fn compute_next_at(&mut self, n: usize, ring: &R) -> (value: R::E)
        requires
            ring.wf(),
            old(self).parts_ok(ring),
            n == old(self).prefix().len(),
            n < usize::MAX,
            forall|i: int|
                0 <= i < old(self).prefix().len() ==> #[trigger] old(self).prefix()[i] == old(self).plan(ring)(
                    i as nat,
                ) && ring.valid(old(self).prefix()[i]),
        ensures
            final(self).parts_ok(ring),
            final(self).plan(ring) == old(self).plan(ring),
            final(self).prefix() == old(self).prefix(),
            value == old(self).plan(ring)(n as nat),
            ring.valid(value),
    ;

    /// Keeps the coefficient just computed.
    fn computed(&mut self, n: usize, value: R::E, ring: &R)
        requires
            n == old(self).prefix().len(),
        ensures
            final(self).prefix() == old(self).prefix().push(value),
            final(self).parts_ok(ring) == old(self).parts_ok(ring),
            final(self).plan(ring) == old(self).plan(ring),
    ;
}

/// The parts are in order, and the coefficients computed so far are those
/// that the series is to have.
pub open spec fn cache_ok<R: CRing, C: FormalSeriesForCaching<R>>(c: &C, ring: &R) -> bool {
    &&& c.parts_ok(ring)
    &&& forall|i: int|
        0 <= i < c.prefix().len() ==> #[trigger] c.prefix()[i] == c.plan(ring)(i as nat) && ring.valid(c.prefix()[i])
}

/// Computes and keeps the coefficients up to that of `x^n`.
pub fn compute_up_to<R: CRing, C: FormalSeriesForCaching<R>>(c: &mut C, n: usize, ring: &R)
    requires
        ring.wf(),
        cache_ok(old(c), ring),
        n < usize::MAX,
    ensures
        cache_ok(final(c), ring),
        final(c).plan(ring) == old(c).plan(ring),
        final(c).prefix().len() > n,
        final(c).prefix().len() >= old(c).prefix().len(),
{
    let mut i: usize = c.computed_len();
    while i <= n
        invariant
            ring.wf(),
            cache_ok(c, ring),
            c.plan(ring) == old(c).plan(ring),
            i == c.prefix().len(),
            c.prefix().len() >= old(c).prefix().len(),
            n < usize::MAX,
        decreases n + 1 - i,
    {
        let next = c.compute_next_at(i, ring);
        let ghost before = c.prefix();
        c.computed(i, next, ring);
        proof {
            assert forall|j: int| 0 <= j < c.prefix().len() implies #[trigger] c.prefix()[j] == c.plan(ring)(
                j as nat,
            ) && ring.valid(c.prefix()[j]) by {
                if j < before.len() {
                    assert(c.prefix()[j] == before[j]);
                }
            }
        }
        i += 1;
    }
}

/// The coefficient of `x^n`, computed where it was not computed before.
pub fn cached_at<R: CRing, C: FormalSeriesForCaching<R>>(c: &mut C, n: usize, ring: &R) -> (value: R::E)
    requires
        ring.wf(),
        cache_ok(old(c), ring),
        n < usize::MAX,
    ensures
        cache_ok(final(c), ring),
        final(c).plan(ring) == old(c).plan(ring),
        value == old(c).plan(ring)(n as nat),
        ring.valid(value),
{
    if c.computed_len() <= n {
        compute_up_to(c, n, ring);
    }
    let value = c.computed_at(n);
    assert(c.prefix()[n as int] == c.plan(ring)(n as nat));
    value
}

/// The series whose coefficients are all `value`.
pub struct FormalSeriesAlways<R: CRing> {
    pub value: R::E,
    pub computed_prefix: Polynomial<R>,
}

impl<R: CRing> FormalSeriesAlways<R> {
    /// The series whose coefficients are all `value`.
    pub fn new(value: R::E) -> (series: Self)
        ensures
            series.value == value,
            series.computed_prefix.coefficients@.len() == 0,
    {
        Self { value, computed_prefix: Polynomial::new(Vec::new()) }
    }
}

impl<R: CRing> FormalSeriesForCaching<R> for FormalSeriesAlways<R> {
    open spec fn plan(&self, ring: &R) -> spec_fn(nat) -> R::E {
        |n: nat| self.value
    }

    open spec fn parts_ok(&self, ring: &R) -> bool {
        ring.valid(self.value)
    }

    open spec fn prefix(&self) -> Seq<R::E> {
        self.computed_prefix.coefficients@
    }

    fn computed_len(&self) -> (len: usize) {
        self.computed_prefix.coefficients.len()
    }

    fn computed_at(&self, n: usize) -> (value: R::E) {
        self.computed_prefix.coefficients[n]
    }

    fn compute_next_at(&mut self, n: usize, ring: &R) -> (value: R::E) {
        self.value
    }

    fn computed(&mut self, n: usize, value: R::E, ring: &R) {
        self.computed_prefix.coefficients.push(value);
    }
}

impl<R: CRing> FormalSeries<R> for FormalSeriesAlways<R> {
    open spec fn series(&self, ring: &R) -> spec_fn(nat) -> R::E {
        self.plan(ring)
    }

    open spec fn wf(&self, ring: &R) -> bool {
        cache_ok(self, ring)
    }

    fn at(&mut self, n: usize, ring: &R) -> (value: R::E) {
        cached_at(self, n, ring)
    }
}

/// The series of a polynomial: its coefficients, and zeros after them.
pub struct FormalSeriesPolynomial<R: CRing> {
    pub poly: Polynomial<R>,
    pub computed_prefix: Polynomial<R>,
}

impl<R: CRing> FormalSeriesPolynomial<R> {
    /// The series of the polynomial `poly`.
    pub fn new(poly: Polynomial<R>) -> (series: Self)
        ensures
            series.poly == poly,
            series.computed_prefix.coefficients@.len() == 0,
    {
        Self { poly, computed_prefix: Polynomial::new(Vec::new()) }
    }
}

impl<R: CRing> FormalSeriesForCaching<R> for FormalSeriesPolynomial<R> {
    open spec fn plan(&self, ring: &R) -> spec_fn(nat) -> R::E {
        |n: nat| coefficient(ring, self.poly.coefficients@, n as int)
    }

    open spec fn parts_ok(&self, ring: &R) -> bool {
        self.poly.coefficients@.len() > 0 && all_valid(ring, self.poly.coefficients@)
    }

    open spec fn prefix(&self) -> Seq<R::E> {
        self.computed_prefix.coefficients@
    }

    fn computed_len(&self) -> (len: usize) {
        self.computed_prefix.coefficients.len()
    }

    fn computed_at(&self, n: usize) -> (value: R::E) {
        self.computed_prefix.coefficients[n]
    }

    fn compute_next_at(&mut self, n: usize, ring: &R) -> (value: R::E) {
        if n > self.poly.degree() {
            ring.zero()
        } else {
            self.poly.at(n, ring)
        }
    }

    fn computed(&mut self, n: usize, value: R::E, ring: &R) {
        self.computed_prefix.coefficients.push(value);
    }
}

impl<R: CRing> FormalSeries<R> for FormalSeriesPolynomial<R> {
    open spec fn series(&self, ring: &R) -> spec_fn(nat) -> R::E {
        self.plan(ring)
    }

    open spec fn wf(&self, ring: &R) -> bool {
        cache_ok(self, ring)
    }

    fn at(&mut self, n: usize, ring: &R) -> (value: R::E) {
        cached_at(self, n, ring)
    }
}

/// The negative of a series.
pub struct FormalSeriesNegation<R: CRing, A: FormalSeries<R>> {
    pub a: A,
    pub computed_prefix: Polynomial<R>,
}

impl<R: CRing, A: FormalSeries<R>> FormalSeriesNegation<R, A> {
    /// The negative of the series `a`.
    pub fn new(a: A, ring: &R) -> (series: Self)
        ensures
            series.a == a,
            series.computed_prefix.coefficients@.len() == 0,
    {
        FormalSeriesNegation { a, computed_prefix: Polynomial::new(Vec::new()) }
    }
}

impl<R: CRing, A: FormalSeries<R>> FormalSeriesForCaching<R> for FormalSeriesNegation<R, A> {
    open spec fn plan(&self, ring: &R) -> spec_fn(nat) -> R::E {
        |n: nat| ring.negate_spec(self.a.series(ring)(n))
    }

    open spec fn parts_ok(&self, ring: &R) -> bool {
        self.a.wf(ring)
    }

    open spec fn prefix(&self) -> Seq<R::E> {
        self.computed_prefix.coefficients@
    }

    fn computed_len(&self) -> (len: usize) {
        self.computed_prefix.coefficients.len()
    }

    fn computed_at(&self, n: usize) -> (value: R::E) {
        self.computed_prefix.coefficients[n]
    }

    fn compute_next_at(&mut self, n: usize, ring: &R) -> (value: R::E) {
        let inner = self.a.at(n, ring);
        ring.negate(inner)
    }

    fn computed(&mut self, n: usize, value: R::E, ring: &R) {
        self.computed_prefix.coefficients.push(value);
    }
}

impl<R: CRing, A: FormalSeries<R>> FormalSeries<R> for FormalSeriesNegation<R, A> {
    open spec fn series(&self, ring: &R) -> spec_fn(nat) -> R::E {
        self.plan(ring)
    }

    open spec fn wf(&self, ring: &R) -> bool {
        cache_ok(self, ring)
    }

    fn at(&mut self, n: usize, ring: &R) -> (value: R::E) {
        cached_at(self, n, ring)
    }
}

/// The sum of two series.
pub struct FormalSeriesAdd<R: CRing, A: FormalSeries<R>, B: FormalSeries<R>> {
    pub a: A,
    pub b: B,
    pub computed_prefix: Polynomial<R>,
}

impl<R: CRing, A: FormalSeries<R>, B: FormalSeries<R>> FormalSeriesAdd<R, A, B> {
    /// The sum of the series `a` and `b`.
    pub fn new(a: A, b: B, ring: &R) -> (series: Self)
        ensures
            series.a == a,
            series.b == b,
            series.computed_prefix.coefficients@.len() == 0,
    {
        FormalSeriesAdd { a, b, computed_prefix: Polynomial::new(Vec::new()) }
    }
}

impl<R: CRing, A: FormalSeries<R>, B: FormalSeries<R>> FormalSeriesForCaching<R> for FormalSeriesAdd<R, A, B> {
    open spec fn plan(&self, ring: &R) -> spec_fn(nat) -> R::E {
        |n: nat| ring.add_spec(self.a.series(ring)(n), self.b.series(ring)(n))
    }

    open spec fn parts_ok(&self, ring: &R) -> bool {
        self.a.wf(ring) && self.b.wf(ring)
    }

    open spec fn prefix(&self) -> Seq<R::E> {
        self.computed_prefix.coefficients@
    }

    fn computed_len(&self) -> (len: usize) {
        self.computed_prefix.coefficients.len()
    }

    fn computed_at(&self, n: usize) -> (value: R::E) {
        self.computed_prefix.coefficients[n]
    }

    fn compute_next_at(&mut self, n: usize, ring: &R) -> (value: R::E) {
        let left = self.a.at(n, ring);
        let right = self.b.at(n, ring);
        ring.add(left, right)
    }

    fn computed(&mut self, n: usize, value: R::E, ring: &R) {
        self.computed_prefix.coefficients.push(value);
    }
}

impl<R: CRing, A: FormalSeries<R>, B: FormalSeries<R>> FormalSeries<R> for FormalSeriesAdd<R, A, B> {
    open spec fn series(&self, ring: &R) -> spec_fn(nat) -> R::E {
        self.plan(ring)
    }

    open spec fn wf(&self, ring: &R) -> bool {
        cache_ok(self, ring)
    }

    fn at(&mut self, n: usize, ring: &R) -> (value: R::E) {
        cached_at(self, n, ring)
    }
}

/// The sum of the products of the coefficients `fa(i)` and `fb(n - i)` for
/// the first `k` places `i`, added up one by one from zero.
pub open spec fn conv<R: CRing>(ring: &R, fa: spec_fn(nat) -> R::E, fb: spec_fn(nat) -> R::E, n: nat, k: nat) -> R::E
    decreases k,
{
    if k == 0 {
        ring.zero_spec()
    } else {
        ring.add_spec(
            conv(ring, fa, fb, n, (k - 1) as nat),
            ring.multiply_spec(fa((k - 1) as nat), fb((n - (k - 1)) as nat)),
        )
    }
}

/// The product of two series.
pub struct FormalSeriesMul<R: CRing, A: FormalSeries<R>, B: FormalSeries<R>> {
    pub a: A,
    pub b: B,
    pub computed_prefix: Polynomial<R>,
}

impl<R: CRing, A: FormalSeries<R>, B: FormalSeries<R>> FormalSeriesMul<R, A, B> {
    /// The product of the series `a` and `b`.
    pub fn new(a: A, b: B, ring: &R) -> (series: Self)
        ensures
            series.a == a,
            series.b == b,
            series.computed_prefix.coefficients@.len() == 0,
    {
        FormalSeriesMul { a, b, computed_prefix: Polynomial::new(Vec::new()) }
    }
}

impl<R: CRing, A: FormalSeries<R>, B: FormalSeries<R>> FormalSeriesForCaching<R> for FormalSeriesMul<R, A, B> {
    open spec fn plan(&self, ring: &R) -> spec_fn(nat) -> R::E {
        |n: nat| conv(ring, self.a.series(ring), self.b.series(ring), n, n + 1)
    }

    open spec fn parts_ok(&self, ring: &R) -> bool {
        self.a.wf(ring) && self.b.wf(ring)
    }

    open spec fn prefix(&self) -> Seq<R::E> {
        self.computed_prefix.coefficients@
    }

    fn computed_len(&self) -> (len: usize) {
        self.computed_prefix.coefficients.len()
    }

    fn computed_at(&self, n: usize) -> (value: R::E) {
        self.computed_prefix.coefficients[n]
    }

    fn compute_next_at(&mut self, n: usize, ring: &R) -> (value: R::E) {
        let ghost fa = self.a.series(ring);
        let ghost fb = self.b.series(ring);
        let mut sum = ring.zero();
        let mut i: usize = 0;
        while i <= n
            invariant
                i <= n + 1,
                n < usize::MAX,
                ring.wf(),
                self.a.wf(ring),
                self.b.wf(ring),
                self.a.series(ring) == fa,
                self.b.series(ring) == fb,
                self.computed_prefix == old(self).computed_prefix,
                ring.valid(sum),
                sum == conv(ring, fa, fb, n as nat, i as nat),
            decreases n + 1 - i,
        {
            let left = self.a.at(i, ring);
            let right = self.b.at(n - i, ring);
            sum = ring.add(sum, ring.multiply(left, right));
            i += 1;
        }
        sum
    }

    fn computed(&mut self, n: usize, value: R::E, ring: &R) {
        self.computed_prefix.coefficients.push(value);
    }
}

impl<R: CRing, A: FormalSeries<R>, B: FormalSeries<R>> FormalSeries<R> for FormalSeriesMul<R, A, B> {
    open spec fn series(&self, ring: &R) -> spec_fn(nat) -> R::E {
        self.plan(ring)
    }

    open spec fn wf(&self, ring: &R) -> bool {
        cache_ok(self, ring)
    }

    fn at(&mut self, n: usize, ring: &R) -> (value: R::E) {
        cached_at(self, n, ring)
    }
}

/// Coefficient `n` of the quotient of the series `fa` by the series `fb`:
/// what is left of `fa(n)` after the products of the earlier coefficients
/// of the quotient with those of `fb` are taken away, divided by `fb(0)`.
pub open spec fn quot<F: Field>(field: &F, fa: spec_fn(nat) -> F::E, fb: spec_fn(nat) -> F::E, n: nat) -> F::E
    decreases n, n + 1,
{
    field.multiply_spec(
        field.add_spec(fa(n), field.negate_spec(quot_sum(field, fa, fb, n, n))),
        field.inverse_spec(fb(0)),
    )
}

/// The sum of the products of the coefficients `i` of the quotient and
/// `fb(n - i)` for the first `k` places `i`.
pub open spec fn quot_sum<F: Field>(
    field: &F,
    fa: spec_fn(nat) -> F::E,
    fb: spec_fn(nat) -> F::E,
    n: nat,
    k: nat,
) -> F::E
    decreases n, k,
{
    if k == 0 || k > n {
        field.zero_spec()
    } else {
        field.add_spec(
            quot_sum(field, fa, fb, n, (k - 1) as nat),
            field.multiply_spec(quot(field, fa, fb, (k - 1) as nat), fb((n - (k - 1)) as nat)),
        )
    }
}

/// The quotient of two series.
pub struct FormalSeriesDiv<F: Field, A: FormalSeries<F>, B: FormalSeries<F>> {
    pub a: A,
    pub b: B,
    pub computed_prefix: Polynomial<F>,
}

impl<F: Field, A: FormalSeries<F>, B: FormalSeries<F>> FormalSeriesDiv<F, A, B> {
    /// The quotient of the series `a` by the series `b`.
    pub fn new(a: A, b: B, field: &F) -> (series: Self)
        ensures
            series.a == a,
            series.b == b,
            series.computed_prefix.coefficients@.len() == 0,
    {
        FormalSeriesDiv { a, b, computed_prefix: Polynomial::new(Vec::new()) }
    }
}

impl<F: Field, A: FormalSeries<F>, B: FormalSeries<F>> FormalSeriesForCaching<F> for FormalSeriesDiv<F, A, B> {
    open spec fn plan(&self, field: &F) -> spec_fn(nat) -> F::E {
        |n: nat| quot(field, self.a.series(field), self.b.series(field), n)
    }

    open spec fn parts_ok(&self, field: &F) -> bool {
        self.a.wf(field) && self.b.wf(field)
    }

    open spec fn prefix(&self) -> Seq<F::E> {
        self.computed_prefix.coefficients@
    }

    fn computed_len(&self) -> (len: usize) {
        self.computed_prefix.coefficients.len()
    }

    fn computed_at(&self, n: usize) -> (value: F::E) {
        self.computed_prefix.coefficients[n]
    }

    fn compute_next_at(&mut self, n: usize, field: &F) -> (value: F::E) {
        let ghost fa = self.a.series(field);
        let ghost fb = self.b.series(field);
        let mut sum = field.zero();
        let mut i: usize = 0;
        while i < n
            invariant
                i <= n,
                n < usize::MAX,
                field.wf(),
                self.a.wf(field),
                self.b.wf(field),
                self.a.series(field) == fa,
                self.b.series(field) == fb,
                self.computed_prefix == old(self).computed_prefix,
                n == self.computed_prefix.coefficients@.len(),
                forall|j: int|
                    0 <= j < n ==> #[trigger] self.computed_prefix.coefficients@[j] == quot(field, fa, fb, j as nat)
                        && field.valid(self.computed_prefix.coefficients@[j]),
                field.valid(sum),
                sum == quot_sum(field, fa, fb, n as nat, i as nat),
            decreases n - i,
        {
            let own = self.computed_prefix.coefficients[i];
            let right = self.b.at(n - i, field);
            sum = field.add(sum, field.multiply(own, right));
            i += 1;
        }
        let top = self.a.at(n, field);
        let first = self.b.at(0, field);
        field.divide(field.subtract(top, sum), first)
    }

    fn computed(&mut self, n: usize, value: F::E, field: &F) {
        self.computed_prefix.coefficients.push(value);
    }
}

impl<F: Field, A: FormalSeries<F>, B: FormalSeries<F>> FormalSeries<F> for FormalSeriesDiv<F, A, B> {
    open spec fn series(&self, field: &F) -> spec_fn(nat) -> F::E {
        self.plan(field)
    }

    open spec fn wf(&self, field: &F) -> bool {
        cache_ok(self, field)
    }

    fn at(&mut self, n: usize, field: &F) -> (value: F::E) {
        cached_at(self, n, field)
    }
}

/// The ring of the formal power series over a ring: its operations build
/// the series that computes the result.
pub struct FormalSeriesRing<R: CRing> {
    pub ring: R,
}

impl<R: CRing> FormalSeriesRing<R> {
    /// The ring of the series over `ring`.
    pub fn new(ring: R) -> (series_ring: Self)
        ensures
            series_ring.ring == ring,
    {
        FormalSeriesRing { ring }
    }

    /// The series whose coefficients are all zero.
    pub fn zero(&self) -> (series: FormalSeriesAlways<R>)
        requires
            self.ring.wf(),
        ensures
            series.wf(&self.ring),
            series.series(&self.ring) == (|n: nat| self.ring.zero_spec()),
    {
        let series = FormalSeriesAlways::new(self.ring.zero());
        proof {
            assert(series.series(&self.ring) =~= (|n: nat| self.ring.zero_spec()));
        }
        series
    }

    /// The series whose coefficients are all one.
    pub fn one(&self) -> (series: FormalSeriesAlways<R>)
        requires
            self.ring.wf(),
        ensures
            series.wf(&self.ring),
            series.series(&self.ring) == (|n: nat| self.ring.one_spec()),
    {
        let series = FormalSeriesAlways::new(self.ring.one());
        proof {
            assert(series.series(&self.ring) =~= (|n: nat| self.ring.one_spec()));
        }
        series
    }

    /// The sum of two series.
    pub fn add<A: FormalSeries<R>, B: FormalSeries<R>>(&self, a: A, b: B) -> (series: FormalSeriesAdd<R, A, B>)
        requires
            a.wf(&self.ring),
            b.wf(&self.ring),
        ensures
            series.wf(&self.ring),
            series.series(&self.ring) == (|n: nat|
                self.ring.add_spec(a.series(&self.ring)(n), b.series(&self.ring)(n))),
    {
        let series = FormalSeriesAdd::new(a, b, &self.ring);
        proof {
            assert(series.series(&self.ring) =~= (|n: nat|
                self.ring.add_spec(a.series(&self.ring)(n), b.series(&self.ring)(n))));
        }
        series
    }

    /// The product of two series.
    pub fn multiply<A: FormalSeries<R>, B: FormalSeries<R>>(&self, a: A, b: B) -> (series: FormalSeriesMul<R, A, B>)
        requires
            a.wf(&self.ring),
            b.wf(&self.ring),
        ensures
            series.wf(&self.ring),
            series.series(&self.ring) == (|n: nat|
                conv(&self.ring, a.series(&self.ring), b.series(&self.ring), n, n + 1)),
    {
        let series = FormalSeriesMul::new(a, b, &self.ring);
        proof {
            assert(series.series(&self.ring) =~= (|n: nat|
                conv(&self.ring, a.series(&self.ring), b.series(&self.ring), n, n + 1)));
        }
        series
    }

    /// The negative of a series.
    pub fn negate<A: FormalSeries<R>>(&self, a: A) -> (series: FormalSeriesNegation<R, A>)
        requires
            a.wf(&self.ring),
        ensures
            series.wf(&self.ring),
            series.series(&self.ring) == (|n: nat| self.ring.negate_spec(a.series(&self.ring)(n))),
    {
        let series = FormalSeriesNegation::new(a, &self.ring);
        proof {
            assert(series.series(&self.ring) =~= (|n: nat| self.ring.negate_spec(a.series(&self.ring)(n))));
        }
        series
    }
}

impl<F: Field> FormalSeriesRing<F> {
    /// The inverse of a series: the series of ones divided by it.
    pub fn inverse<A: FormalSeries<F>>(&self, a: A) -> (series: FormalSeriesDiv<F, FormalSeriesAlways<F>, A>)
        requires
            self.ring.wf(),
            a.wf(&self.ring),
        ensures
            series.wf(&self.ring),
            series.series(&self.ring) == (|n: nat|
                quot(&self.ring, |m: nat| self.ring.one_spec(), a.series(&self.ring), n)),
    {
        let ones = self.one();
        let series = FormalSeriesDiv::new(ones, a, &self.ring);
        proof {
            assert(series.series(&self.ring) =~= (|n: nat|
                quot(&self.ring, |m: nat| self.ring.one_spec(), a.series(&self.ring), n)));
        }
        series
    }
}

} // verus!
