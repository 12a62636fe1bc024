//! Sets of small numbers as bit masks, and truth tables of boolean functions.

use std::collections::HashSet;
use vstd::prelude::*;

verus! {

/// Bit `i` of `mask` is set.
pub open spec fn bit(mask: usize, i: usize) -> bool {
    mask & (1usize << i) != 0
}

/// Setting, clearing or writing one bit changes that bit and no other.
pub proof fn lemma_one_bit(mask: usize, p: usize, i: usize)
    requires
        p < usize::BITS,
        i < usize::BITS,
    ensures
        bit(mask | (1usize << p), i) == (i == p || bit(mask, i)),
        bit(mask & !(1usize << p), i) == (i != p && bit(mask, i)),
{
    assert(((mask | (1usize << p)) & (1usize << i) != 0) == (i == p || (mask & (1usize << i) != 0)))
        by (bit_vector)
        requires
            p < usize::BITS,
            i < usize::BITS,
    ;
    assert(((mask & !(1usize << p)) & (1usize << i) != 0) == (i != p && (mask & (1usize << i) != 0)))
        by (bit_vector)
        requires
            p < usize::BITS,
            i < usize::BITS,
    ;
}

/// A set of numbers below the width of a machine word, as a bit mask.
pub struct BitSet {
    pub mask: usize,
}

impl BitSet {
    /// The set whose members are the bits set in `msk`.
    pub fn from(msk: usize) -> (set: BitSet)
        ensures
            set.mask == msk,
    {
        BitSet { mask: msk }
    }

    /// Tells whether `index` is in the set.
    pub fn get(&self, index: usize) -> (b: bool)
        requires
            index < usize::BITS,
        ensures
            b == bit(self.mask, index),
    {
        (self.mask & (1usize << index)) != 0
    }

    /// Puts `position` into the set.
    pub fn set_true(&mut self, position: usize)
        requires
            position < usize::BITS,
        ensures
            final(self).mask == old(self).mask | (1usize << position),
            forall|i: usize|
                i < usize::BITS ==> #[trigger] bit(final(self).mask, i) == (i == position || bit(
                    old(self).mask,
                    i,
                )),
    {
        self.mask = self.mask | (1usize << position);
        proof {
            assert forall|i: usize| i < usize::BITS implies #[trigger] bit(self.mask, i) == (i == position
                || bit(old(self).mask, i)) by {
                lemma_one_bit(old(self).mask, position, i);
            }
        }
    }

    /// Takes `position` out of the set.
    pub fn set_false(&mut self, position: usize)
        requires
            position < usize::BITS,
        ensures
            final(self).mask == old(self).mask & !(1usize << position),
            forall|i: usize|
                i < usize::BITS ==> #[trigger] bit(final(self).mask, i) == (i != position && bit(
                    old(self).mask,
                    i,
                )),
    {
        self.mask = self.mask & !(1usize << position);
        proof {
            assert forall|i: usize| i < usize::BITS implies #[trigger] bit(self.mask, i) == (i != position
                && bit(old(self).mask, i)) by {
                lemma_one_bit(old(self).mask, position, i);
            }
        }
    }

    /// Puts `position` into the set or takes it out, as `value` says.
    pub fn set_to(&mut self, position: usize, value: bool)
        requires
            position < usize::BITS,
        ensures
            forall|i: usize|
                i < usize::BITS ==> #[trigger] bit(final(self).mask, i) == (if i == position {
                    value
                } else {
                    bit(old(self).mask, i)
                }),
    {
        if value {
            self.set_true(position);
        } else {
            self.set_false(position);
        }
    }
}

/// The lowest `dims` bits of `bitmask`, lowest first.
pub fn to_bin_vec(bitmask: usize, dims: usize) -> (res: Vec<bool>)
    requires
        dims <= usize::BITS,
    ensures
        res@.len() == dims,
        forall|i: int| 0 <= i < dims ==> res@[i] == bit(bitmask, i as usize),
{
    let mut res: Vec<bool> = Vec::new();
    let mut i: usize = 0;
    while i < dims
        invariant
            i <= dims <= usize::BITS,
            res@.len() == i,
            forall|j: int| 0 <= j < i ==> res@[j] == bit(bitmask, j as usize),
        decreases dims - i,
    {
        res.push(bitmask & (1usize << i) != 0);
        i += 1;
    }
    res
}

/// The mask whose lowest `dims` bits are those of `bitmask` in the opposite
/// order, and whose other bits are clear.
pub fn reverse_bitmask(bitmask: usize, dims: usize) -> (res: usize)
    requires
        dims <= usize::BITS,
    ensures
        forall|i: usize| i < dims ==> #[trigger] bit(res, (dims - 1 - i) as usize) == bit(bitmask, i),
        forall|i: usize| dims <= i < usize::BITS ==> !#[trigger] bit(res, i),
{
    let mut res = BitSet::from(0);
    let mut i: usize = 0;
    proof {
        assert forall|j: usize| j < usize::BITS implies !#[trigger] bit(0usize, j) by {
            assert(0usize & (1usize << j) == 0) by (bit_vector);
        }
    }
    while i < dims
        invariant
            i <= dims <= usize::BITS,
            forall|j: usize| j < i ==> #[trigger] bit(res.mask, (dims - 1 - j) as usize) == bit(bitmask, j),
            forall|j: usize|
                j < usize::BITS && !(dims - i <= j < dims) ==> !#[trigger] bit(res.mask, j),
        decreases dims - i,
    {
        let value = bitmask & (1usize << i) != 0;
        res.set_to(dims - i - 1, value);
        i += 1;
    }
    res.mask
}

/// The number whose binary digits, lowest first, are the entries of `v`.
pub open spec fn packed(v: Seq<bool>) -> usize
    decreases v.len(),
{
    if v.len() == 0 {
        0
    } else if v.last() {
        packed(v.drop_last()) | (1usize << ((v.len() - 1) as usize))
    } else {
        packed(v.drop_last())
    }
}

/// Shifting one to the left by `i` places gives two to the power `i`.
pub proof fn lemma_shift_is_power(i: usize)
    requires
        i < usize::BITS,
    ensures
        (1usize << i) == pow2(i as nat),
    decreases i,
{
    if i == 0 {
        assert((1usize << 0usize) == 1) by (bit_vector);
    } else {
        let h = (i - 1) as usize;
        lemma_shift_is_power(h);
        assert((1usize << i) == 2 * (1usize << h)) by (bit_vector)
            requires
                i < usize::BITS,
                h == i - 1,
        ;
    }
}

/// The number with `n` binary digits is below two to the power `n`.
pub proof fn lemma_packed_bound(v: Seq<bool>)
    requires
        v.len() <= usize::BITS,
    ensures
        packed(v) < pow2(v.len()),
    decreases v.len(),
{
    if v.len() > 0 {
        let front = v.drop_last();
        let i = (v.len() - 1) as usize;
        lemma_packed_bound(front);
        lemma_shift_is_power(i);
        let low = packed(front);
        let top = 1usize << i;
        assert((low | top) <= low + top) by (bit_vector);
    }
}

/// The mask whose bit `i` is entry `i` of `v`.
pub fn to_bitmask(v: &Vec<bool>) -> (res: usize)
    requires
        v@.len() <= usize::BITS,
    ensures
        res == packed(v@),
        res < pow2(v@.len()),
        forall|i: usize| i < v@.len() ==> #[trigger] bit(res, i) == v@[i as int],
        forall|i: usize| v@.len() <= i < usize::BITS ==> !#[trigger] bit(res, i),
{
    let mut res = BitSet::from(0);
    let size: usize = v.len();
    let mut i: usize = 0;
    proof {
        assert forall|j: usize| j < usize::BITS implies !#[trigger] bit(0usize, j) by {
            assert(0usize & (1usize << j) == 0) by (bit_vector);
        }
    }
    while i < size
        invariant
            i <= size <= usize::BITS,
            size == v@.len(),
            res.mask == packed(v@.take(i as int)),
            forall|j: usize| j < i ==> #[trigger] bit(res.mask, j) == v@[j as int],
            forall|j: usize| i <= j < usize::BITS ==> !#[trigger] bit(res.mask, j),
        decreases size - i,
    {
        proof {
            assert(v@.take(i + 1).drop_last() =~= v@.take(i as int));
        }
        if v[i] {
            res.set_true(i);
        }
        i += 1;
    }
    proof {
        assert(v@.take(size as int) =~= v@);
        lemma_packed_bound(v@);
    }
    res.mask
}

/// Two to the power `n`.
pub open spec fn pow2(n: nat) -> nat
    decreases n,
{
    if n == 0 {
        1
    } else {
        2 * pow2((n - 1) as nat)
    }
}

/// The number of times `n` can be halved before it is below two; zero for
/// zero.
pub fn floor_log2(n: usize) -> (d: usize)
    ensures
        n == 0 ==> d == 0,
        n > 0 ==> pow2(d as nat) <= n < pow2((d + 1) as nat),
{
    let mut d: usize = 0;
    let mut rest: usize = n;
    let ghost mut scale: nat = 1;
    while rest > 1
        invariant
            scale == pow2(d as nat),
            n > 0 ==> rest >= 1,
            n == 0 ==> rest == 0 && d == 0,
            rest * scale <= n < (rest + 1) * scale,
            d < n || n == 0,
        decreases rest,
    {
        proof {
            let half = (rest / 2) as int;
            assert(half * (2 * scale) <= rest * scale && (rest + 1) * scale <= (half + 1) * (2 * scale))
                by (nonlinear_arith)
                requires
                    half == rest / 2,
                    rest >= 0,
                    scale >= 0,
            ;
            assert(rest * scale >= 2 * scale) by (nonlinear_arith)
                requires
                    rest >= 2,
                    scale >= 0,
            ;
            assert(scale >= d + 1) by {
                lemma_pow2_grows(d as nat);
            }
            scale = 2 * scale;
        }
        rest = rest / 2;
        d += 1;
    }
    proof {
        if n > 0 {
            assert(rest == 1);
            assert(1 * scale == scale && 2 * scale == pow2((d + 1) as nat)) by (nonlinear_arith)
                requires
                    pow2((d + 1) as nat) == 2 * pow2(d as nat),
                    scale == pow2(d as nat),
            ;
        }
    }
    d
}

/// A power of two exceeds its exponent.
pub proof fn lemma_pow2_grows(n: nat)
    ensures
        pow2(n) >= n + 1,
    decreases n,
{
    if n > 0 {
        lemma_pow2_grows((n - 1) as nat);
    }
}

/// A boolean function of `dims` variables, given by its truth table: the
/// value for an assignment stands at the place whose bits are the
/// assignment.
pub struct BoolFunction {
    pub data: Vec<bool>,
    pub dims: usize,
}

impl BoolFunction {
    /// The function with the given truth table; the number of variables is
    /// the binary logarithm of the size of the table, rounded down.
    pub fn new(truth_table: Vec<bool>) -> (f: BoolFunction)
        ensures
            f.data == truth_table,
            truth_table@.len() == 0 ==> f.dims == 0,
            truth_table@.len() > 0 ==> pow2(f.dims as nat) <= truth_table@.len() < pow2((f.dims + 1) as nat),
    {
        let sz = truth_table.len();
        BoolFunction { data: truth_table, dims: floor_log2(sz) }
    }

    /// The value of the function for the assignment `index`.
    pub fn at(&self, index: usize) -> (value: bool)
        requires
            index < self.data@.len(),
        ensures
            value == self.data@[index as int],
    {
        self.data[index]
    }
}

/// A Zhegalkin polynomial of `dims` variables: the coefficient of the
/// product of a set of variables stands at the place whose bits are the set.
pub struct ZhegalkinPolynomial {
    pub data: Vec<bool>,
    pub dims: usize,
}

impl ZhegalkinPolynomial {
    /// The polynomial with the coefficients `coeffs`, one for each set of
    /// variables; the number of variables is the whole part of the binary
    /// logarithm of their number.
    pub fn new(coeffs: Vec<bool>) -> (p: ZhegalkinPolynomial)
        ensures
            p.data == coeffs,
            coeffs@.len() == 0 ==> p.dims == 0,
            coeffs@.len() > 0 ==> pow2(p.dims as nat) <= coeffs@.len() < pow2((p.dims + 1) as nat),
    {
        let sz = coeffs.len();
        ZhegalkinPolynomial { data: coeffs, dims: floor_log2(sz) }
    }
}

/// The set `sub` lies within the set `mask`.
pub open spec fn within(sub: usize, mask: usize) -> bool {
    sub & mask == sub
}

/// The sum modulo two of the values of `table` at the sets below `upto`
/// that lie within `mask`.
pub open spec fn xor_within(table: Seq<bool>, mask: usize, upto: nat) -> bool
    decreases upto,
{
    if upto == 0 {
        false
    } else {
        let before = xor_within(table, mask, (upto - 1) as nat);
        if within((upto - 1) as usize, mask) {
            before ^ table[upto - 1]
        } else {
            before
        }
    }
}

/// The Zhegalkin polynomial of a boolean function: the coefficient of a set
/// of variables is the sum modulo two of the values of the function at the
/// assignments that lie within the set.
pub fn mobius_transform(bf: &BoolFunction) -> (p: ZhegalkinPolynomial)
    ensures
        p.data@.len() == bf.data@.len(),
        forall|mask: int|
            0 <= mask < bf.data@.len() ==> #[trigger] p.data@[mask] == xor_within(
                bf.data@,
                mask as usize,
                (mask + 1) as nat,
            ),
{
    let size: usize = bf.data.len();
    let mut coeffs: Vec<bool> = Vec::new();
    let mut mask: usize = 0;
    while mask < size
        invariant
            mask <= size,
            size == bf.data@.len(),
            coeffs@.len() == mask,
            forall|m: int|
                0 <= m < mask ==> #[trigger] coeffs@[m] == xor_within(bf.data@, m as usize, (m + 1) as nat),
        decreases size - mask,
    {
        let mut sum = false;
        let mut sub: usize = 0;
        while sub <= mask
            invariant
                mask < size,
                sub <= mask + 1,
                size == bf.data@.len(),
                sum == xor_within(bf.data@, mask, sub as nat),
            decreases mask + 1 - sub,
        {
            if sub & mask == sub {
                sum = sum ^ bf.at(sub);
            }
            sub += 1;
        }
        coeffs.push(sum);
        mask += 1;
    }
    ZhegalkinPolynomial::new(coeffs)
}

/// `sub` is `mask` without one of its bits.
pub open spec fn one_less(sub: usize, mask: usize) -> bool {
    exists|s: usize| s < usize::BITS && #[trigger] bit(mask, s) && sub == mask & !(1usize << s)
}

/// The sets that arise from `bitmask` by taking one member out.
pub fn get_slight_dominated(bitmask: usize) -> (res: HashSet<usize>)
    requires
        !bit(bitmask, (usize::BITS - 1) as usize),
    ensures
        forall|x: usize| #[trigger] res@.contains(x) <==> one_less(x, bitmask),
{
    broadcast use vstd::std_specs::hash::group_hash_axioms;

    let mut res: HashSet<usize> = HashSet::new();
    let mut shift: usize = 0;
    let top: usize = (usize::BITS - 1) as usize;
    while shift < top && (1usize << shift) <= bitmask
        invariant
            shift <= top,
            top == usize::BITS - 1,
            !bit(bitmask, top),
            forall|x: usize|
                res@.contains(x) <==> exists|s: usize| s < shift && #[trigger] bit(bitmask, s) && x == bitmask & !(1usize
                    << s),
        decreases top - shift,
    {
        let ghost before = res@;
        if (1usize << shift) & bitmask != 0 {
            let sub = !(1usize << shift) & bitmask;
            res.insert(sub);
            proof {
                assert(sub == bitmask & !(1usize << shift)) by (bit_vector)
                    requires
                        sub == !(1usize << shift) & bitmask,
                ;
                assert(bit(bitmask, shift)) by (bit_vector)
                    requires
                        (1usize << shift) & bitmask != 0,
                ;
            }
        } else {
            proof {
                assert(!bit(bitmask, shift)) by (bit_vector)
                    requires
                        (1usize << shift) & bitmask == 0,
                ;
            }
        }
        proof {
            assert forall|x: usize|
                res@.contains(x) <==> exists|s: usize| s < shift + 1 && #[trigger] bit(bitmask, s) && x == bitmask & !(
                1usize << s) by {
                if res@.contains(x) {
                    if before.contains(x) {
                        let s = choose|s: usize| s < shift && #[trigger] bit(bitmask, s) && x == bitmask & !(1usize << s);
                        assert(s < shift + 1);
                    } else {
                        assert(bit(bitmask, shift));
                    }
                }
                if exists|s: usize| s < shift + 1 && #[trigger] bit(bitmask, s) && x == bitmask & !(1usize << s) {
                    let s = choose|s: usize| s < shift + 1 && #[trigger] bit(bitmask, s) && x == bitmask & !(1usize << s);
                    if s < shift {
                        assert(before.contains(x));
                    }
                }
            }
        }
        shift += 1;
    }
    proof {
        assert forall|x: usize| res@.contains(x) <==> one_less(x, bitmask) by {
            if one_less(x, bitmask) {
                let s = choose|s: usize| s < usize::BITS && #[trigger] bit(bitmask, s) && x == bitmask & !(1usize << s);
                if s >= shift {
                    if shift < top {
                        assert(!(bitmask & (1usize << s) != 0)) by (bit_vector)
                            requires
                                (1usize << shift) > bitmask,
                                shift <= s,
                                s < usize::BITS,
                        ;
                    }
                    assert(false);
                }
            }
            if res@.contains(x) {
                let s = choose|s: usize| s < shift && #[trigger] bit(bitmask, s) && x == bitmask & !(1usize << s);
                assert(s < usize::BITS);
            }
        }
    }
    res
}

/// The sets that lie within `bitmask`, and `bitmask` itself.
pub fn get_dominated_or_eq(bitmask: usize) -> (res: HashSet<usize>)
    ensures
        forall|x: usize| #[trigger] res@.contains(x) <==> within(x, bitmask),
{
    broadcast use vstd::std_specs::hash::group_hash_axioms;

    let mut res: HashSet<usize> = HashSet::new();
    let mut sub: usize = 0;
    while sub < bitmask
        invariant
            sub <= bitmask,
            forall|x: usize| #[trigger] res@.contains(x) <==> x < sub && within(x, bitmask),
        decreases bitmask - sub,
    {
        let ghost before = res@;
        let ghost was = sub;
        if sub & bitmask == sub {
            res.insert(sub);
        }
        proof {
            assert forall|x: usize| #[trigger] res@.contains(x) <==> x < was + 1 && within(x, bitmask) by {
                assert(before.contains(x) <==> x < was && within(x, bitmask));
                if x != was {
                    assert(res@.contains(x) == before.contains(x));
                }
            }
        }
        sub += 1;
    }
    res.insert(bitmask);
    proof {
        assert(bitmask & bitmask == bitmask) by (bit_vector);
        assert forall|x: usize| res@.contains(x) <==> within(x, bitmask) by {
            if within(x, bitmask) {
                assert(x <= bitmask) by (bit_vector)
                    requires
                        x & bitmask == x,
                ;
            }
        }
    }
    res
}

} // verus!
